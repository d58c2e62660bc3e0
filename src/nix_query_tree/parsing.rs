//! The grammar of the listing that `nix-store --query --tree` prints:
//!
//! ```text
//! tree     := drv NEWLINE branch(0)*
//! branch(L):= UNIT{L} "+---" entry NEWLINE branch(L+1)*
//! entry    := drv (BLANK+ "[...]")?
//! drv      := one or more characters that are not white space
//! UNIT     := "|   " | "    "
//! ```
//!
//! Only the number of indentation units in front of a branch counts, not which of the two
//! spellings each one has.

use super::{NixQueryDrv, NixQueryEntry, NixQueryTree, Recurse};
use crate::text::{chars_of, is_space, is_space_char, literal_at, occurs_at, string_of};
use crate::tree::{forest_model, model_of, Tree, TreeModel};
use vstd::prelude::*;

verus! {

/// What went wrong in a listing that does not follow the grammar.
#[derive(Clone, Copy, Debug, PartialEq, Eq, Structural)]
pub enum ErrorKind {
    /// A line is not a store path, optionally followed by `[...]`, then a newline.
    MalformedEntryLine,
    /// The indentation in front of a branch is not a whole number of units, or not the
    /// number that the branch's place asks for.
    MalformedIndent,
    /// A whole tree was read, but input is left after it.
    TrailingInput,
}

/// A failure to parse, with the input from the start of the offending line on.
#[derive(Clone, Debug, PartialEq, Eq)]
pub struct ParseError {
    pub kind: ErrorKind,
    pub rest: String,
}

/// The model of a parsed entry: the store path's characters and its marker.
pub type EntryModel = (Seq<char>, Recurse);

pub open spec fn is_blank(c: char) -> bool {
    c == ' ' || c == '\t'
}

pub open spec fn marker() -> Seq<char> {
    seq!['[', '.', '.', '.', ']']
}

pub open spec fn branch_mark() -> Seq<char> {
    seq!['+', '-', '-', '-']
}

pub open spec fn bar_unit() -> Seq<char> {
    seq!['|', ' ', ' ', ' ']
}

pub open spec fn space_unit() -> Seq<char> {
    seq![' ', ' ', ' ', ' ']
}

/// The end of the run of characters that are not white space starting at `i`.
pub open spec fn id_end(s: Seq<char>, i: int) -> int
    decreases s.len() - i,
{
    if 0 <= i < s.len() && !is_space(s[i]) {
        id_end(s, i + 1)
    } else {
        i
    }
}

/// The end of the run of blanks starting at `i`.
pub open spec fn blank_end(s: Seq<char>, i: int) -> int
    decreases s.len() - i,
{
    if 0 <= i < s.len() && is_blank(s[i]) {
        blank_end(s, i + 1)
    } else {
        i
    }
}

/// The end of the run of `' '` and `'|'` starting at `i`.
pub open spec fn indent_end(s: Seq<char>, i: int) -> int
    decreases s.len() - i,
{
    if 0 <= i < s.len() && (s[i] == ' ' || s[i] == '|') {
        indent_end(s, i + 1)
    } else {
        i
    }
}

pub open spec fn unit_at(s: Seq<char>, i: int) -> bool {
    occurs_at(s, i, bar_unit()) || occurs_at(s, i, space_unit())
}

/// The number of indentation units that follow one another from `i`.
pub open spec fn units_at(s: Seq<char>, i: int) -> nat
    decreases s.len() - i,
{
    if 0 <= i < s.len() && unit_at(s, i) {
        1 + units_at(s, i + 4)
    } else {
        0
    }
}

/// The entry that starts at `i`, with the position right after it: the store path, then
/// the marker if blanks and `[...]` follow it.
pub open spec fn entry_at(s: Seq<char>, i: int) -> Option<(EntryModel, int)> {
    let e = id_end(s, i);
    if e == i {
        None
    } else {
        let b = blank_end(s, e);
        if b > e && occurs_at(s, b, marker()) {
            Some(((s.subrange(i, e), Recurse::Yes), b + 5))
        } else {
            Some(((s.subrange(i, e), Recurse::No), e))
        }
    }
}

/// Whether the line at `pos` is a branch: indentation characters, then `+---`.
pub open spec fn is_branch_line(s: Seq<char>, pos: int) -> bool {
    occurs_at(s, indent_end(s, pos), branch_mark())
}

/// Whether the indentation of the line at `pos` is made of whole units.
pub open spec fn indent_ok(s: Seq<char>, pos: int) -> bool {
    indent_end(s, pos) == pos + 4 * units_at(s, pos)
}

/// The entry of the branch line at `pos`, which must end the line, and the start of the
/// next line.
pub open spec fn header_at(s: Seq<char>, pos: int) -> Option<(EntryModel, int)> {
    match entry_at(s, indent_end(s, pos) + 4) {
        Some((e, q)) => if q < s.len() && s[q] == '\n' {
            Some((e, q + 1))
        } else {
            None
        },
        None => None,
    }
}

pub type ForestResult = Result<(Seq<TreeModel<EntryModel>>, int), (ErrorKind, int)>;

/// The branches at nesting level `level` that follow one another from `pos`, with the
/// position where they end, or the error and the start of the line where it was found.
/// Reading stops, with no error, at the end of the input, at a line that is not a branch, or
/// at a branch that is not at `level`.
pub open spec fn forest_at(s: Seq<char>, pos: int, level: nat) -> ForestResult
    decreases s.len() - pos,
{
    if pos < 0 || pos >= s.len() || !is_branch_line(s, pos) {
        Ok((Seq::empty(), pos))
    } else if !indent_ok(s, pos) {
        Err((ErrorKind::MalformedIndent, pos))
    } else if units_at(s, pos) != level {
        Ok((Seq::empty(), pos))
    } else {
        match header_at(s, pos) {
            None => Err((ErrorKind::MalformedEntryLine, pos)),
            Some((e, next_line)) => {
                proof {
                    lemma_header_moves(s, pos);
                }
                match forest_at(s, next_line, level + 1) {
                    Err(x) => Err(x),
                    Ok((kids, kids_end)) => {
                        let node = TreeModel { item: e, children: kids };
                        if kids_end >= s.len() {
                            Ok((seq![node], kids_end))
                        } else if kids_end < next_line {
                            // never taken: reading branches does not go back
                            Err((ErrorKind::TrailingInput, kids_end))
                        } else {
                            prepend(seq![node], forest_at(s, kids_end, level))
                        }
                    },
                }
            },
        }
    }
}

/// `r` with `xs` put in front of the branches it holds.
pub open spec fn prepend(xs: Seq<TreeModel<EntryModel>>, r: ForestResult) -> ForestResult {
    match r {
        Ok((ys, p)) => Ok((xs + ys, p)),
        Err(x) => Err(x),
    }
}

/// The tree that the whole of `s` describes, or the error and the start of the line where it
/// was found. The root line is a store path alone; its marker is always `No`.
pub open spec fn tree_parse(s: Seq<char>) -> Result<TreeModel<EntryModel>, (ErrorKind, int)> {
    match root_parse(s) {
        Err(x) => Err(x),
        Ok((t, p)) => if p < s.len() {
            Err((ErrorKind::TrailingInput, p))
        } else {
            Ok(t)
        },
    }
}

/// The root line and the branches under it, with the position where they end.
pub open spec fn root_parse(s: Seq<char>) -> Result<(TreeModel<EntryModel>, int), (ErrorKind, int)> {
    let e = id_end(s, 0);
    if e == 0 || e >= s.len() || s[e] != '\n' {
        Err((ErrorKind::MalformedEntryLine, 0))
    } else {
        match forest_at(s, e + 1, 0) {
            Err(x) => Err(x),
            Ok((kids, p)) => Ok((TreeModel { item: (s.take(e), Recurse::No), children: kids }, p)),
        }
    }
}

pub proof fn lemma_id_end(s: Seq<char>, i: int)
    requires
        0 <= i <= s.len(),
    ensures
        i <= id_end(s, i) <= s.len(),
        forall|j: int| i <= j < id_end(s, i) ==> !is_space(#[trigger] s[j]),
        id_end(s, i) < s.len() ==> is_space(s[id_end(s, i)]),
    decreases s.len() - i,
{
    if i < s.len() && !is_space(s[i]) {
        lemma_id_end(s, i + 1);
    }
}

pub proof fn lemma_blank_end(s: Seq<char>, i: int)
    requires
        0 <= i <= s.len(),
    ensures
        i <= blank_end(s, i) <= s.len(),
    decreases s.len() - i,
{
    if i < s.len() && is_blank(s[i]) {
        lemma_blank_end(s, i + 1);
    }
}

pub proof fn lemma_indent_end(s: Seq<char>, i: int)
    requires
        0 <= i <= s.len(),
    ensures
        i <= indent_end(s, i) <= s.len(),
    decreases s.len() - i,
{
    if i < s.len() && (s[i] == ' ' || s[i] == '|') {
        lemma_indent_end(s, i + 1);
    }
}

/// A branch line is read to its end, so the next line starts further on.
pub proof fn lemma_header_moves(s: Seq<char>, pos: int)
    requires
        0 <= pos < s.len(),
        header_at(s, pos) is Some,
    ensures
        pos < header_at(s, pos)->Some_0.1 <= s.len(),
{
    lemma_indent_end(s, pos);
    let p = indent_end(s, pos) + 4;
    if p <= s.len() {
        lemma_id_end(s, p);
        let e = id_end(s, p);
        lemma_blank_end(s, e);
    }
}


proof fn lemma_prepend_twice(a: Seq<TreeModel<EntryModel>>, b: Seq<TreeModel<EntryModel>>, r: ForestResult)
    ensures
        prepend(a, prepend(b, r)) == prepend(a + b, r),
{
    if let Ok((ys, p)) = r {
        assert(a + (b + ys) =~= (a + b) + ys);
    }
}

fn id_end_exec(cs: &Vec<char>, i: usize) -> (r: usize)
    requires
        i <= cs@.len(),
    ensures
        r == id_end(cs@, i as int),
        i <= r <= cs@.len(),
{
    let mut j = i;
    while j < cs.len() && !is_space_char(cs[j])
        invariant
            i <= j <= cs@.len(),
            id_end(cs@, i as int) == id_end(cs@, j as int),
        decreases cs.len() - j,
    {
        j = j + 1;
    }
    j
}

fn blank_end_exec(cs: &Vec<char>, i: usize) -> (r: usize)
    requires
        i <= cs@.len(),
    ensures
        r == blank_end(cs@, i as int),
        i <= r <= cs@.len(),
{
    let mut j = i;
    while j < cs.len() && (cs[j] == ' ' || cs[j] == '\t')
        invariant
            i <= j <= cs@.len(),
            blank_end(cs@, i as int) == blank_end(cs@, j as int),
        decreases cs.len() - j,
    {
        j = j + 1;
    }
    j
}

fn indent_end_exec(cs: &Vec<char>, i: usize) -> (r: usize)
    requires
        i <= cs@.len(),
    ensures
        r == indent_end(cs@, i as int),
        i <= r <= cs@.len(),
{
    let mut j = i;
    while j < cs.len() && (cs[j] == ' ' || cs[j] == '|')
        invariant
            i <= j <= cs@.len(),
            indent_end(cs@, i as int) == indent_end(cs@, j as int),
        decreases cs.len() - j,
    {
        j = j + 1;
    }
    j
}

fn units_exec(cs: &Vec<char>, pos: usize) -> (r: usize)
    requires
        pos <= cs@.len(),
    ensures
        r == units_at(cs@, pos as int),
        pos + 4 * r <= cs@.len(),
{
    let bar = vec!['|', ' ', ' ', ' '];
    let space = vec![' ', ' ', ' ', ' '];
    assert(bar@ =~= bar_unit());
    assert(space@ =~= space_unit());
    let mut i = pos;
    let mut n: usize = 0;
    while i < cs.len() && (literal_at(cs, i, &bar) || literal_at(cs, i, &space))
        invariant
            pos <= i <= cs@.len(),
            i == pos + 4 * n,
            units_at(cs@, pos as int) == n + units_at(cs@, i as int),
            bar@ == bar_unit(),
            space@ == space_unit(),
        decreases cs.len() - i,
    {
        i = i + 4;
        n = n + 1;
    }
    n
}

fn is_branch_line_exec(cs: &Vec<char>, pos: usize) -> (r: bool)
    requires
        pos <= cs@.len(),
    ensures
        r == is_branch_line(cs@, pos as int),
{
    let mark = vec!['+', '-', '-', '-'];
    assert(mark@ =~= branch_mark());
    let e = indent_end_exec(cs, pos);
    literal_at(cs, e, &mark)
}

fn entry_exec(cs: &Vec<char>, i: usize) -> (r: Option<(NixQueryEntry, usize)>)
    requires
        i <= cs@.len(),
    ensures
        entry_at(cs@, i as int) is None ==> r is None,
        entry_at(cs@, i as int) matches Some((m, q)) ==> (r matches Some((x, p)) && x@ == m && p
            == q),
{
    let e = id_end_exec(cs, i);
    if e == i {
        return None;
    }
    proof {
        lemma_id_end(cs@, i as int);
    }
    let b = blank_end_exec(cs, e);
    let id = string_of(cs, i, e);
    let drv = NixQueryDrv::from_string(id);
    let mark = vec!['[', '.', '.', '.', ']'];
    assert(mark@ =~= marker());
    if b > e && literal_at(cs, b, &mark) {
        assert(b + 5 <= cs.len());
        Some((NixQueryEntry(drv, Recurse::Yes), b + 5))
    } else {
        Some((NixQueryEntry(drv, Recurse::No), e))
    }
}

fn header_exec(cs: &Vec<char>, pos: usize) -> (r: Option<(NixQueryEntry, usize)>)
    requires
        pos <= cs@.len(),
        is_branch_line(cs@, pos as int),
    ensures
        header_at(cs@, pos as int) is None ==> r is None,
        header_at(cs@, pos as int) matches Some((m, q)) ==> (r matches Some((x, p)) && x@ == m
            && p == q),
{
    let ie = indent_end_exec(cs, pos);
    assert(branch_mark().len() == 4);
    assert(ie + 4 <= cs.len());
    let p = ie + 4;
    match entry_exec(cs, p) {
        None => None,
        Some((entry, q)) => {
            if q < cs.len() && cs[q] == '\n' {
                Some((entry, q + 1))
            } else {
                None
            }
        },
    }
}

/// The branches at nesting level `level` that follow one another from `pos`.
fn forest_exec(cs: &Vec<char>, pos: usize, level: usize) -> (r: Result<
    (Vec<Tree<NixQueryEntry>>, usize),
    (ErrorKind, usize),
>)
    requires
        pos <= cs@.len(),
    ensures
        forest_at(cs@, pos as int, level as nat) matches Ok((ts, p)) ==> (r matches Ok((v, q))
            && forest_model(v@) == ts && q == p && pos <= q <= cs@.len()),
        forest_at(cs@, pos as int, level as nat) matches Err((k, p)) ==> (r matches Err((k2, q))
            && k2 == k && q == p && q <= cs@.len()),
    decreases cs@.len() - pos,
{
    let ghost s = cs@;
    let mut v: Vec<Tree<NixQueryEntry>> = Vec::new();
    let mut p = pos;
    assert(forest_model(v@) =~= Seq::<TreeModel<EntryModel>>::empty());
    assert(prepend(Seq::empty(), forest_at(s, p as int, level as nat)) == forest_at(s, p as int, level as nat)) by {
        if let Ok((ys, q)) = forest_at(s, p as int, level as nat) {
            assert(Seq::<TreeModel<EntryModel>>::empty() + ys =~= ys);
        }
    }
    loop
        invariant
            s == cs@,
            pos <= p <= cs@.len(),
            forest_at(s, pos as int, level as nat) == prepend(forest_model(v@), forest_at(s, p as int, level as nat)),
        decreases cs@.len() - p,
    {
        if p >= cs.len() || !is_branch_line_exec(cs, p) {
            assert(forest_model(v@) + Seq::<TreeModel<EntryModel>>::empty() =~= forest_model(v@));
            return Ok((v, p));
        }
        let u = units_exec(cs, p);
        let ie = indent_end_exec(cs, p);
        if ie != p + 4 * u {
            return Err((ErrorKind::MalformedIndent, p));
        }
        if u != level {
            assert(forest_model(v@) + Seq::<TreeModel<EntryModel>>::empty() =~= forest_model(v@));
            return Ok((v, p));
        }
        match header_exec(cs, p) {
            None => {
                return Err((ErrorKind::MalformedEntryLine, p));
            },
            Some((entry, next_line)) => {
                proof {
                    lemma_header_moves(s, p as int);
                }
                match forest_exec(cs, next_line, level + 1) {
                    Err(x) => {
                        return Err(x);
                    },
                    Ok((kids, kids_end)) => {
                        let node = Tree::new(entry, kids);
                        proof {
                            let m = model_of(node);
                            lemma_prepend_twice(forest_model(v@), seq![m], forest_at(s, kids_end as int, level as nat));
                            assert(forest_model(v@.push(node)) == forest_model(v@).push(m)) by {
                                assert(v@.push(node).drop_last() =~= v@);
                            }
                            assert(forest_model(v@) + seq![m] =~= forest_model(v@).push(m));
                            if kids_end >= cs.len() {
                                assert(seq![m] + Seq::<TreeModel<EntryModel>>::empty() =~= seq![m]);
                            }
                        }
                        v.push(node);
                        p = kids_end;
                    },
                }
            },
        }
    }
}


fn error_at(cs: &Vec<char>, kind: ErrorKind, at: usize) -> (r: ParseError)
    requires
        at <= cs@.len(),
    ensures
        r.kind == kind,
        r.rest@ == cs@.skip(at as int),
{
    let rest = string_of(cs, at, cs.len());
    assert(cs@.subrange(at as int, cs@.len() as int) =~= cs@.skip(at as int));
    ParseError { kind, rest }
}

fn rest_from(cs: &Vec<char>, at: usize) -> (r: String)
    requires
        at <= cs@.len(),
    ensures
        r@ == cs@.skip(at as int),
{
    assert(cs@.subrange(at as int, cs@.len() as int) =~= cs@.skip(at as int));
    string_of(cs, at, cs.len())
}

/// Whether `r` is the outcome that `expected` describes for the input `s`: on success the
/// rest of the input after the parsed part and a value whose view is the expected one; on
/// failure the kind of error and the input from the offending line on.
pub open spec fn outcome_matches<V, X: View<V = V>>(
    s: Seq<char>,
    r: Result<(String, X), ParseError>,
    expected: Result<(V, int), (ErrorKind, int)>,
) -> bool {
    match expected {
        Ok((v, p)) => r matches Ok((rest, x)) && rest@ == s.skip(p) && x@ == v,
        Err((k, p)) => r matches Err(e) && e.kind == k && e.rest@ == s.skip(p),
    }
}

/// The store path at the start of `s`, up to the first white space.
pub open spec fn drv_parse(s: Seq<char>) -> Result<(Seq<char>, int), (ErrorKind, int)> {
    let e = id_end(s, 0);
    if e == 0 {
        Err((ErrorKind::MalformedEntryLine, 0))
    } else {
        Ok((s.take(e), e))
    }
}

/// Reads the store path at the start of `input`; returns the rest of the input with it.
pub fn parse_nix_query_drv(input: &str) -> (r: Result<(String, NixQueryDrv), ParseError>)
    ensures
        outcome_matches(input@, r, drv_parse(input@)),
{
    let cs = chars_of(input);
    let e = id_end_exec(&cs, 0);
    if e == 0 {
        return Err(error_at(&cs, ErrorKind::MalformedEntryLine, 0));
    }
    let drv = NixQueryDrv::from_string(string_of(&cs, 0, e));
    assert(cs@.subrange(0, e as int) =~= cs@.take(e as int));
    Ok((rest_from(&cs, e), drv))
}

/// The entry at the start of `s`.
pub open spec fn entry_parse(s: Seq<char>) -> Result<(EntryModel, int), (ErrorKind, int)> {
    match entry_at(s, 0) {
        Some((m, q)) => Ok((m, q)),
        None => Err((ErrorKind::MalformedEntryLine, 0)),
    }
}

/// Reads the entry at the start of `input`: a store path, then `[...]` after blanks if the
/// path's dependencies are printed elsewhere. Returns the rest of the input with it.
pub fn parse_nix_query_entry(input: &str) -> (r: Result<(String, NixQueryEntry), ParseError>)
    ensures
        outcome_matches(input@, r, entry_parse(input@)),
{
    let cs = chars_of(input);
    match entry_exec(&cs, 0) {
        None => Err(error_at(&cs, ErrorKind::MalformedEntryLine, 0)),
        Some((entry, q)) => {
            proof {
                lemma_id_end(cs@, 0);
                lemma_blank_end(cs@, id_end(cs@, 0));
            }
            Ok((rest_from(&cs, q), entry))
        },
    }
}

/// The entry at the start of `input`; what follows it is not looked at.
pub fn nix_query_entry_parser(input: &str) -> (r: Result<NixQueryEntry, ParseError>)
    ensures
        entry_parse(input@) matches Ok((m, _)) ==> (r matches Ok(e) && e@ == m),
        entry_parse(input@) is Err ==> (r matches Err(e) && e.kind == ErrorKind::MalformedEntryLine
            && e.rest@ == input@),
{
    match parse_nix_query_entry(input) {
        Ok((_, entry)) => Ok(entry),
        Err(e) => {
            assert(input@.skip(0) =~= input@);
            Err(e)
        },
    }
}

/// The branch mark `+---` at the start of `input`, with the rest of the input.
pub fn parse_branch_start(input: &str) -> (r: Result<(String, String), ParseError>)
    ensures
        occurs_at(input@, 0, branch_mark()) ==> (r matches Ok((rest, mark)) && rest@ == input@.skip(
            4,
        ) && mark@ == branch_mark()),
        !occurs_at(input@, 0, branch_mark()) ==> (r matches Err(e) && e.kind
            == ErrorKind::MalformedEntryLine && e.rest@ == input@),
{
    let cs = chars_of(input);
    let mark = vec!['+', '-', '-', '-'];
    assert(mark@ =~= branch_mark());
    if literal_at(&cs, 0, &mark) {
        let m = string_of(&mark, 0, 4);
        assert(mark@.subrange(0, 4) =~= mark@);
        Ok((rest_from(&cs, 4), m))
    } else {
        assert(cs@.skip(0) =~= cs@);
        Err(error_at(&cs, ErrorKind::MalformedEntryLine, 0))
    }
}

/// What is wrong, if anything, with the first line of `s` as a branch at level `level`.
pub open spec fn branch_line_error(s: Seq<char>, level: nat) -> Option<ErrorKind> {
    if !is_branch_line(s, 0) {
        Some(ErrorKind::MalformedEntryLine)
    } else if !indent_ok(s, 0) || units_at(s, 0) != level {
        Some(ErrorKind::MalformedIndent)
    } else {
        None
    }
}

fn branch_line_error_exec(cs: &Vec<char>, level: usize) -> (r: Option<ErrorKind>)
    ensures
        r == branch_line_error(cs@, level as nat),
{
    if !is_branch_line_exec(cs, 0) {
        return Some(ErrorKind::MalformedEntryLine);
    }
    let u = units_exec(cs, 0);
    let ie = indent_end_exec(cs, 0);
    assert(4 * u <= cs.len());
    if ie != 4 * u || u != level {
        Some(ErrorKind::MalformedIndent)
    } else {
        None
    }
}

/// The branch line at level `level` at the start of `s`: its entry and where the next line
/// starts.
pub open spec fn single_branch_parse(s: Seq<char>, level: nat) -> Result<
    (EntryModel, int),
    (ErrorKind, int),
> {
    match branch_line_error(s, level) {
        Some(k) => Err((k, 0)),
        None => match header_at(s, 0) {
            Some((m, q)) => Ok((m, q)),
            None => Err((ErrorKind::MalformedEntryLine, 0)),
        },
    }
}

/// Reads one branch line at nesting level `level`: `level` indentation units, `+---`, an
/// entry and a newline. Returns the rest of the input with the entry.
pub fn parse_single_branch(level: u32, input: &str) -> (r: Result<(String, NixQueryEntry), ParseError>)
    ensures
        outcome_matches(input@, r, single_branch_parse(input@, level as nat)),
{
    let cs = chars_of(input);
    if let Some(k) = branch_line_error_exec(&cs, level as usize) {
        return Err(error_at(&cs, k, 0));
    }
    match header_exec(&cs, 0) {
        None => Err(error_at(&cs, ErrorKind::MalformedEntryLine, 0)),
        Some((entry, q)) => {
            proof {
                lemma_header_moves(cs@, 0);
            }
            Ok((rest_from(&cs, q), entry))
        },
    }
}

/// The branch at level `level` at the start of `s` with the branches under it, and where
/// they end.
pub open spec fn branch_parse(s: Seq<char>, level: nat) -> Result<
    (TreeModel<EntryModel>, int),
    (ErrorKind, int),
> {
    match single_branch_parse(s, level) {
        Err(x) => Err(x),
        Ok((m, q)) => match forest_at(s, q, level + 1) {
            Err(x) => Err(x),
            Ok((kids, p)) => Ok((TreeModel { item: m, children: kids }, p)),
        },
    }
}

/// Reads one branch at nesting level `level` and all the branches nested under it.
pub fn parse_branch_with_children(level: u32, input: &str) -> (r: Result<
    (String, Tree<NixQueryEntry>),
    ParseError,
>)
    ensures
        outcome_matches(input@, r, branch_parse(input@, level as nat)),
{
    let cs = chars_of(input);
    if let Some(k) = branch_line_error_exec(&cs, level as usize) {
        return Err(error_at(&cs, k, 0));
    }
    match header_exec(&cs, 0) {
        None => Err(error_at(&cs, ErrorKind::MalformedEntryLine, 0)),
        Some((entry, q)) => {
            proof {
                lemma_header_moves(cs@, 0);
            }
            match forest_exec(&cs, q, level as usize + 1) {
                Err((k, p)) => Err(error_at(&cs, k, p)),
                Ok((kids, p)) => Ok((rest_from(&cs, p), Tree::new(entry, kids))),
            }
        },
    }
}

/// Reads the branches at nesting level `level` that follow one another from the start of
/// `input`, each with the branches nested under it. Stops at the end of the input, at a line
/// that is not a branch, or at a branch at another level.
pub fn parse_branches(level: u32, input: &str) -> (r: Result<
    (String, Vec<Tree<NixQueryEntry>>),
    ParseError,
>)
    ensures
        forest_at(input@, 0, level as nat) matches Ok((ts, p)) ==> (r matches Ok((rest, v))
            && rest@ == input@.skip(p) && forest_model(v@) == ts),
        forest_at(input@, 0, level as nat) matches Err((k, p)) ==> (r matches Err(e) && e.kind == k
            && e.rest@ == input@.skip(p)),
{
    let cs = chars_of(input);
    match forest_exec(&cs, 0, level as usize) {
        Err((k, p)) => Err(error_at(&cs, k, p)),
        Ok((v, p)) => Ok((rest_from(&cs, p), v)),
    }
}

fn root_exec(cs: &Vec<char>) -> (r: Result<(NixQueryTree, usize), (ErrorKind, usize)>)
    ensures
        root_parse(cs@) matches Ok((t, p)) ==> (r matches Ok((x, q)) && x@ == t && q == p && q
            <= cs@.len()),
        root_parse(cs@) matches Err((k, p)) ==> (r matches Err((k2, q)) && k2 == k && q == p && q
            <= cs@.len()),
{
    let e = id_end_exec(cs, 0);
    proof {
        lemma_id_end(cs@, 0);
    }
    if e == 0 || e >= cs.len() || cs[e] != '\n' {
        return Err((ErrorKind::MalformedEntryLine, 0));
    }
    let drv = NixQueryDrv::from_string(string_of(cs, 0, e));
    assert(cs@.subrange(0, e as int) =~= cs@.take(e as int));
    match forest_exec(cs, e + 1, 0) {
        Err(x) => Err(x),
        Ok((kids, p)) => Ok((NixQueryTree(Tree::new(NixQueryEntry(drv, Recurse::No), kids)), p)),
    }
}

/// Reads the root line and the branches under it; returns the rest of the input with the
/// tree.
pub fn parse_nix_query_tree(input: &str) -> (r: Result<(String, NixQueryTree), ParseError>)
    ensures
        outcome_matches(input@, r, root_parse(input@)),
{
    let cs = chars_of(input);
    match root_exec(&cs) {
        Err((k, p)) => Err(error_at(&cs, k, p)),
        Ok((t, p)) => Ok((rest_from(&cs, p), t)),
    }
}

/// Parses the whole of `input` as one tree. Succeeds exactly when the listing follows the
/// grammar and nothing is left after the tree.
pub fn nix_query_tree_parser(input: &str) -> (r: Result<NixQueryTree, ParseError>)
    ensures
        tree_parse(input@) matches Ok(t) ==> (r matches Ok(x) && x@ == t),
        tree_parse(input@) matches Err((k, p)) ==> (r matches Err(e) && e.kind == k && e.rest@
            == input@.skip(p)),
{
    let cs = chars_of(input);
    match root_exec(&cs) {
        Err((k, p)) => Err(error_at(&cs, k, p)),
        Ok((t, p)) => {
            if p < cs.len() {
                Err(error_at(&cs, ErrorKind::TrailingInput, p))
            } else {
                Ok(t)
            }
        },
    }
}

} // verus!
