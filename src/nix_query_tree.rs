//! The entries of a `nix-store --query --tree` listing and the tree they form.

pub mod exec_nix_store;
pub mod parsing;
pub mod rendering;

use crate::text::{chars_of, literal_at, occurs_at, string_of};
use crate::tree::{
    has_key, index_all, keyed, paths_of, projected, Path, PathKey, Tree, TreeModel, TreePathMap,
};
use std::cmp::Ordering;
use vstd::prelude::*;

verus! {

/// The directory that every store path starts with.
pub open spec fn store_prefix() -> Seq<char> {
    seq!['/', 'n', 'i', 'x', '/', 's', 't', 'o', 'r', 'e', '/']
}

/// `s` without the store directory in front, taken off as many times as it occurs there.
pub open spec fn strip_store(s: Seq<char>) -> Seq<char>
    decreases s.len(),
{
    if occurs_at(s, 0, store_prefix()) {
        strip_store(s.skip(11))
    } else {
        s
    }
}

pub open spec fn is_first_dash(s: Seq<char>, i: int) -> bool {
    0 <= i < s.len() && s[i] == '-' && forall|j: int| 0 <= j < i ==> s[j] != '-'
}

pub open spec fn has_dash(s: Seq<char>) -> bool {
    exists|i: int| 0 <= i < s.len() && s[i] == '-'
}

/// The position of the first `-` in `s`.
pub open spec fn first_dash(s: Seq<char>) -> int {
    choose|i: int| is_first_dash(s, i)
}

/// A store path is well formed when a `-` follows its hash.
pub open spec fn is_well_formed(path: Seq<char>) -> bool {
    has_dash(strip_store(path))
}

/// The hash and name of a store path: what follows the store directory.
pub open spec fn hash_and_name_of(path: Seq<char>) -> Seq<char> {
    strip_store(path)
}

/// The name of a store path: what follows the first `-` after the hash.
pub open spec fn name_of(path: Seq<char>) -> Seq<char> {
    let h = strip_store(path);
    h.skip(first_dash(h) + 1)
}

/// The first seven characters after the store directory (the start of the hash), two dots,
/// then the name.
pub open spec fn short_name_of(path: Seq<char>) -> Seq<char> {
    strip_store(path).take(7) + seq!['.', '.'] + name_of(path)
}

/// The lexicographic order of two character sequences, by code point.
pub open spec fn lex_order(a: Seq<char>, b: Seq<char>) -> Ordering
    decreases a.len(),
{
    if a.len() == 0 && b.len() == 0 {
        Ordering::Equal
    } else if a.len() == 0 {
        Ordering::Less
    } else if b.len() == 0 {
        Ordering::Greater
    } else if (a[0] as u32) < (b[0] as u32) {
        Ordering::Less
    } else if (a[0] as u32) > (b[0] as u32) {
        Ordering::Greater
    } else {
        lex_order(a.drop_first(), b.drop_first())
    }
}

fn store_literal() -> (r: Vec<char>)
    ensures
        r@ == store_prefix(),
{
    let r = vec!['/', 'n', 'i', 'x', '/', 's', 't', 'o', 'r', 'e', '/'];
    assert(r@ =~= store_prefix());
    r
}

/// Where the hash starts in `cs`, once the store directory is passed over.
fn hash_start(cs: &Vec<char>) -> (i: usize)
    ensures
        i <= cs@.len(),
        cs@.skip(i as int) == strip_store(cs@),
{
    let lit = store_literal();
    let mut i: usize = 0;
    assert(cs@.skip(0) =~= cs@);
    while literal_at(cs, i, &lit)
        invariant
            i <= cs@.len(),
            lit@ == store_prefix(),
            lit@.len() == 11,
            strip_store(cs@.skip(i as int)) == strip_store(cs@),
        decreases cs@.len() - i,
    {
        assert(occurs_at(cs@, i as int, lit@));
        assert(i + 11 <= cs.len());
        assert(cs@.skip(i as int).subrange(0, 11) =~= cs@.subrange(i as int, i + 11));
        assert(cs@.skip(i as int).skip(11) =~= cs@.skip(i + 11));
        i = i + 11;
    }
    proof {
        if i + 11 <= cs@.len() {
            assert(cs@.skip(i as int).subrange(0, 11) =~= cs@.subrange(i as int, i + 11));
        }
    }
    i
}

/// The position of the first `-` in `cs` at or after `from`.
fn dash_from(cs: &Vec<char>, from: usize) -> (r: Option<usize>)
    requires
        from <= cs@.len(),
    ensures
        r is None ==> !has_dash(cs@.skip(from as int)),
        r is Some ==> from <= r->Some_0 < cs@.len() && r->Some_0 - from == first_dash(
            cs@.skip(from as int),
        ) && cs@[r->Some_0 as int] == '-',
{
    let ghost s = cs@.skip(from as int);
    let mut i = from;
    while i < cs.len()
        invariant
            from <= i <= cs@.len(),
            s == cs@.skip(from as int),
            forall|j: int| 0 <= j < i - from ==> s[j] != '-',
        decreases cs.len() - i,
    {
        if cs[i] == '-' {
            assert(is_first_dash(s, i - from));
            assert(is_first_dash(s, first_dash(s)));
            assert(first_dash(s) == i - from) by {
                let d = first_dash(s);
                if d < i - from {
                    assert(s[d] != '-');
                } else if d > i - from {
                    assert(s[i - from] != '-');
                }
            }
            return Some(i);
        }
        i = i + 1;
    }
    None
}

/// One path in the Nix store, such as
/// `/nix/store/qy93dp4a3rqyn2mz63fbxjg228hffwyw-hello-2.10`.
#[derive(Clone, Debug, PartialEq, Eq, Hash)]
pub struct NixQueryDrv(String);

impl View for NixQueryDrv {
    type V = Seq<char>;

    closed spec fn view(&self) -> Seq<char> {
        self.0@
    }
}

impl From<&str> for NixQueryDrv {
    fn from(s: &str) -> (r: NixQueryDrv)
        ensures
            r@ == s@,
    {
        NixQueryDrv(s.to_owned())
    }
}

impl vstd::std_specs::convert::FromSpecImpl<&str> for NixQueryDrv {
    // Two strings with the same characters need not be the same value, so `from` is
    // specified through its own `ensures` over the view.
    open spec fn obeys_from_spec() -> bool {
        false
    }

    open spec fn from_spec(s: &str) -> NixQueryDrv {
        choose|d: NixQueryDrv| d@ == s@
    }
}

impl PathKey for NixQueryDrv {
    fn same_key(&self, other: &Self) -> (r: bool) {
        self.0 == other.0
    }

    fn copy_key(&self) -> (r: Self) {
        NixQueryDrv(self.0.clone())
    }
}

impl NixQueryDrv {
    pub(crate) fn from_string(s: String) -> (r: NixQueryDrv)
        ensures
            r@ == s@,
    {
        NixQueryDrv(s)
    }

    /// The full path.
    pub fn as_str(&self) -> (r: &str)
        ensures
            r@ == self@,
    {
        self.0.as_str()
    }

    /// Whether a `-` follows the hash, so that the path has a name.
    pub fn has_drv_name(&self) -> (r: bool)
        ensures
            r == is_well_formed(self@),
    {
        let cs = chars_of(self.0.as_str());
        let start = hash_start(&cs);
        match dash_from(&cs, start) {
            Some(d) => {
                assert(cs@.skip(start as int)[d - start] == '-');
                true
            },
            None => false,
        }
    }

    /// Orders two store paths by their full text.
    pub fn cmp_hash(&self, other: &Self) -> (r: Ordering)
        ensures
            r == lex_order(self@, other@),
    {
        let a = chars_of(self.0.as_str());
        let b = chars_of(other.0.as_str());
        compare_chars(&a, &b)
    }

    /// Orders two store paths by their names, hash left out.
    pub fn cmp_drv_name(&self, other: &Self) -> (r: Ordering)
        requires
            is_well_formed(self@),
            is_well_formed(other@),
        ensures
            r == lex_order(name_of(self@), name_of(other@)),
    {
        let a = self.drv_name();
        let b = other.drv_name();
        let ca = chars_of(a.as_str());
        let cb = chars_of(b.as_str());
        compare_chars(&ca, &cb)
    }

    /// The path without the store directory: the hash, a `-`, then the name.
    pub fn hash_and_drv_name(&self) -> (r: String)
        requires
            is_well_formed(self@),
        ensures
            r@ == hash_and_name_of(self@),
    {
        let cs = chars_of(self.0.as_str());
        let start = hash_start(&cs);
        assert(cs@.subrange(start as int, cs@.len() as int) =~= cs@.skip(start as int));
        string_of(&cs, start, cs.len())
    }

    /// The first seven characters of the hash, `..`, then the name.
    pub fn short_hash_and_drv_name(&self) -> (r: String)
        requires
            is_well_formed(self@),
            strip_store(self@).len() >= 7,
        ensures
            r@ == short_name_of(self@),
    {
        let mut r = self.hash_and_drv_name();
        let cs = chars_of(r.as_str());
        let short = string_of(&cs, 0, 7);
        let name = self.drv_name();
        let dots = String::from_str("..");
        proof {
            reveal_strlit("..");
        }
        let r = short.concat(dots.as_str()).concat(name.as_str());
        assert(cs@.subrange(0, 7) =~= strip_store(self@).take(7));
        assert(r@ =~= short_name_of(self@));
        r
    }

    /// The name of the store path: what follows the first `-` after the hash.
    pub fn drv_name(&self) -> (r: String)
        requires
            is_well_formed(self@),
        ensures
            r@ == name_of(self@),
    {
        let cs = chars_of(self.0.as_str());
        let start = name_start(&cs);
        string_of(&cs, start, cs.len())
    }
}

/// Where the name starts in the characters `cs` of a well-formed store path.
fn name_start(cs: &Vec<char>) -> (i: usize)
    requires
        is_well_formed(cs@),
    ensures
        i <= cs@.len(),
        cs@.skip(i as int) == name_of(cs@),
{
    let start = hash_start(cs);
    let ghost h = cs@.skip(start as int);
    match dash_from(cs, start) {
        Some(d) => {
            assert(d < cs.len());
            assert(cs@.skip(d + 1) =~= h.skip(d - start + 1));
            d + 1
        },
        None => {
            // a well-formed path has a `-` after its hash
            cs.len()
        },
    }
}

/// The lexicographic order of `a` and `b`.
fn compare_chars(a: &Vec<char>, b: &Vec<char>) -> (r: Ordering)
    ensures
        r == lex_order(a@, b@),
{
    let mut i: usize = 0;
    assert(a@.skip(0) =~= a@);
    assert(b@.skip(0) =~= b@);
    while i < a.len() && i < b.len()
        invariant
            i <= a@.len(),
            i <= b@.len(),
            lex_order(a@, b@) == lex_order(a@.skip(i as int), b@.skip(i as int)),
        decreases a.len() - i,
    {
        let x = a[i] as u32;
        let y = b[i] as u32;
        assert(a@.skip(i as int)[0] == a@[i as int]);
        assert(b@.skip(i as int)[0] == b@[i as int]);
        if x < y {
            return Ordering::Less;
        }
        if x > y {
            return Ordering::Greater;
        }
        assert(a@.skip(i as int).drop_first() =~= a@.skip(i + 1));
        assert(b@.skip(i as int).drop_first() =~= b@.skip(i + 1));
        i = i + 1;
    }
    if i < a.len() {
        Ordering::Greater
    } else if i < b.len() {
        Ordering::Less
    } else {
        Ordering::Equal
    }
}

impl std::str::FromStr for NixQueryDrv {
    type Err = ();

    fn from_str(s: &str) -> Result<NixQueryDrv, ()> {
        Ok(NixQueryDrv::from(s))
    }
}

/// Whether an entry's dependencies are printed in full elsewhere in the listing (`Yes`, the
/// line ends in `[...]`), or under this entry (`No`).
#[derive(Clone, Copy, Debug, PartialEq, Eq, Hash, Structural)]
pub enum Recurse {
    Yes,
    No,
}

/// One line of the listing: a store path and whether its dependencies were left out here.
#[derive(Clone, Debug, PartialEq, Eq, Hash)]
pub struct NixQueryEntry(pub NixQueryDrv, pub Recurse);

impl View for NixQueryEntry {
    type V = (Seq<char>, Recurse);

    open spec fn view(&self) -> (Seq<char>, Recurse) {
        (self.0@, self.1)
    }
}

impl NixQueryEntry {
    pub fn new(nix_query_drv: &str, recurse: Recurse) -> (r: NixQueryEntry)
        ensures
            r@ == (nix_query_drv@, recurse),
    {
        NixQueryEntry(NixQueryDrv::from(nix_query_drv), recurse)
    }

    pub fn cmp_hash(&self, other: &Self) -> (r: Ordering)
        ensures
            r == lex_order(self.0@, other.0@),
    {
        self.0.cmp_hash(&other.0)
    }

    pub fn cmp_drv_name(&self, other: &Self) -> (r: Ordering)
        requires
            is_well_formed(self.0@),
            is_well_formed(other.0@),
        ensures
            r == lex_order(name_of(self.0@), name_of(other.0@)),
    {
        self.0.cmp_drv_name(&other.0)
    }

    pub fn hash_and_drv_name(&self) -> (r: String)
        requires
            is_well_formed(self.0@),
        ensures
            r@ == hash_and_name_of(self.0@),
    {
        self.0.hash_and_drv_name()
    }

    pub fn short_hash_and_drv_name(&self) -> (r: String)
        requires
            is_well_formed(self.0@),
            strip_store(self.0@).len() >= 7,
        ensures
            r@ == short_name_of(self.0@),
    {
        self.0.short_hash_and_drv_name()
    }

    pub fn drv_name(&self) -> (r: String)
        requires
            is_well_formed(self.0@),
        ensures
            r@ == name_of(self.0@),
    {
        self.0.drv_name()
    }
}


/// The `(key, path)` pairs of the nodes `ns`, keyed by the store path of their entries.
pub open spec fn drv_keys(ns: Seq<(Seq<usize>, NixQueryEntry)>) -> Seq<(Seq<char>, Seq<usize>)> {
    projected(|e: NixQueryEntry| e.0@, ns)
}

impl std::str::FromStr for NixQueryEntry {
    type Err = parsing::ParseError;

    fn from_str(s: &str) -> Result<NixQueryEntry, parsing::ParseError> {
        parsing::nix_query_entry_parser(s)
    }
}

/// The tree of entries that `nix-store --query --tree` prints.
#[derive(Debug, PartialEq, Eq)]
pub struct NixQueryTree(pub Tree<NixQueryEntry>);

impl View for NixQueryTree {
    type V = TreeModel<(Seq<char>, Recurse)>;

    open spec fn view(&self) -> TreeModel<(Seq<char>, Recurse)> {
        self.0@
    }
}

impl NixQueryTree {
    /// For each store path, the paths of the nodes where it occurs, in pre-order; an
    /// entry's marker plays no part.
    pub fn path_map(&self) -> (r: NixQueryPathMap)
        ensures
            r.0.wf(),
            r.0@ == index_all(Seq::empty(), drv_keys(self.0.nodes())),
    {
        let key = |e: &NixQueryEntry| -> (d: NixQueryDrv)
            ensures
                d@ == e.0@,
            { e.0.copy_key() };
        let map = self.0.path_map_map(&key);
        proof {
            let ns = self.0.nodes();
            assert forall|x: int| 0 <= x < ns.len() implies #[trigger] keyed(key, ns)[x] == drv_keys(
                ns,
            )[x] by {
                assert(crate::tree::returns_for::<NixQueryEntry, NixQueryDrv, _>(key, ns[x].1));
            }
            assert(keyed(key, ns) =~= drv_keys(ns));
        }
        NixQueryPathMap(map)
    }

    /// The entry at the end of `path`, or `None` if there is no such node.
    pub fn lookup(&self, path: Path) -> (r: Option<&NixQueryEntry>)
        ensures
            r is Some <==> self.0.item_at(path@) is Some,
            r is Some ==> *r->Some_0 == self.0.item_at(path@)->Some_0,
    {
        self.0.lookup(path)
    }
}

impl std::str::FromStr for NixQueryTree {
    type Err = parsing::ParseError;

    fn from_str(s: &str) -> Result<NixQueryTree, parsing::ParseError> {
        parsing::nix_query_tree_parser(s)
    }
}

/// For each store path of a `NixQueryTree`, the paths of the nodes where it occurs.
#[derive(Clone, Debug, PartialEq, Eq)]
pub struct NixQueryPathMap(pub TreePathMap<NixQueryDrv>);

impl NixQueryPathMap {
    /// The path of the first node, in pre-order, that holds store path `k`.
    pub fn lookup_first(&self, k: &NixQueryDrv) -> (r: Option<&Path>)
        requires
            self.0.wf(),
        ensures
            r is Some <==> has_key(self.0@, k@),
            r is Some ==> r->Some_0@ == paths_of(self.0@, k@)[0],
    {
        self.0.lookup_first(k)
    }
}

} // verus!
