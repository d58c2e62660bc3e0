//! A generic ordered tree, paths into it, and an index from items to the paths where they occur.

use std::collections::VecDeque;
use vstd::prelude::*;

verus! {

/// A node holding one item and an ordered list of child trees.
#[derive(Debug, PartialEq, Eq)]
pub struct Tree<T> {
    pub item: T,
    pub children: Vec<Tree<T>>,
}

/// The route from the root of a `Tree` to one of its nodes: the index of the child taken at
/// each level, read from the root down. The empty path is the root itself.
#[derive(Debug, Default, PartialEq, Eq)]
pub struct Path(pub VecDeque<usize>);

impl Clone for Path {
    fn clone(&self) -> (r: Path)
        ensures
            r@ == self@,
    {
        let q = self.0.clone();
        assert(q@ =~= self.0@);
        Path(q)
    }
}

impl View for Path {
    type V = Seq<usize>;

    open spec fn view(&self) -> Seq<usize> {
        self.0@
    }
}

impl Path {
    /// The empty path, which names the root.
    pub fn new() -> (r: Path)
        ensures
            r@ == Seq::<usize>::empty(),
    {
        Path(VecDeque::new())
    }

    /// The first index of the path and the rest of it, or `None` for the empty path.
    pub fn split_front(self) -> (r: Option<(usize, Path)>)
        ensures
            self@.len() == 0 ==> r is None,
            self@.len() > 0 ==> (r matches Some((i, rest)) && i == self@[0] && rest@ == self@.drop_first()),
    {
        let mut q = self.0;
        match q.pop_front() {
            None => None,
            Some(i) => Some((i, Path(q))),
        }
    }

    /// A new path that goes one level further down, to child `value`.
    pub fn push_back(&self, value: usize) -> (r: Path)
        ensures
            r@ == self@.push(value),
    {
        let mut new_path = self.clone();
        new_path.0.push_back(value);
        new_path
    }
}

impl From<Vec<usize>> for Path {
    fn from(v: Vec<usize>) -> (r: Path)
        ensures
            r@ == v@,
    {
        let mut q: VecDeque<usize> = VecDeque::new();
        let mut i: usize = 0;
        while i < v.len()
            invariant
                i <= v.len(),
                q@ == v@.take(i as int),
            decreases v.len() - i,
        {
            q.push_back(v[i]);
            i = i + 1;
            assert(q@ =~= v@.take(i as int));
        }
        assert(v@.take(v.len() as int) =~= v@);
        Path(q)
    }
}

impl vstd::std_specs::convert::FromSpecImpl<Vec<usize>> for Path {
    // Two paths with the same indices need not be the same value, so `from` is specified
    // through its own `ensures` over the view.
    open spec fn obeys_from_spec() -> bool {
        false
    }

    open spec fn from_spec(v: Vec<usize>) -> Path {
        choose|p: Path| p@ == v@
    }
}

/// The abstract value of a tree: the view of its item and of its children, in order.
pub struct TreeModel<V> {
    pub item: V,
    pub children: Seq<TreeModel<V>>,
}

pub open spec fn model_of<T: View>(t: Tree<T>) -> TreeModel<T::V>
    decreases t,
{
    TreeModel { item: t.item@, children: forest_model(t.children@) }
}

pub open spec fn forest_model<T: View>(ts: Seq<Tree<T>>) -> Seq<TreeModel<T::V>>
    decreases ts,
{
    if ts.len() == 0 {
        Seq::empty()
    } else {
        forest_model(ts.drop_last()).push(model_of(ts.last()))
    }
}

impl<T: View> View for Tree<T> {
    type V = TreeModel<T::V>;

    open spec fn view(&self) -> TreeModel<T::V> {
        model_of(*self)
    }
}

impl<T> Tree<T> {
    /// The item at the end of `path`, or `None` where some index of the path names no child.
    pub open spec fn item_at(self, path: Seq<usize>) -> Option<T>
        decreases path.len(),
    {
        if path.len() == 0 {
            Some(self.item)
        } else if path[0] < self.children@.len() {
            self.children@[path[0] as int].item_at(path.drop_first())
        } else {
            None
        }
    }

    /// A node with the given item and children.
    pub fn new(item: T, children: Vec<Tree<T>>) -> (r: Tree<T>)
        ensures
            r.item == item,
            r.children == children,
    {
        Tree { item, children }
    }

    /// A node with no children.
    pub fn singleton(item: T) -> (r: Tree<T>)
        ensures
            r.item == item,
            r.children@.len() == 0,
    {
        Tree::new(item, Vec::new())
    }

    /// The item of the node that `path` leads to, or `None` if there is no such node.
    pub fn lookup(&self, path: Path) -> (r: Option<&T>)
        ensures
            r is Some <==> self.item_at(path@) is Some,
            r is Some ==> *r->Some_0 == self.item_at(path@)->Some_0,
        decreases path@.len(),
    {
        match path.split_front() {
            None => Some(&self.item),
            Some((index, child_path)) => {
                if index < self.children.len() {
                    self.children[index].lookup(child_path)
                } else {
                    None
                }
            },
        }
    }
}


/// Values that can key a `TreePathMap`. Two keys are the same key when their views are equal.
pub trait PathKey: View + Sized {
    /// Whether `self` and `other` are the same key.
    fn same_key(&self, other: &Self) -> (r: bool)
        ensures
            r == (self@ == other@),
    ;

    /// A copy of the key.
    fn copy_key(&self) -> (r: Self)
        ensures
            r@ == self@,
    ;
}

impl PathKey for String {
    fn same_key(&self, other: &Self) -> (r: bool) {
        *self == *other
    }

    fn copy_key(&self) -> (r: Self) {
        self.clone()
    }
}

/// The abstract content of a path index: each key, in the order in which it was first
/// inserted, with the paths inserted under it, oldest first.
pub open spec fn index_wf<K>(m: Seq<(K, Seq<Seq<usize>>)>) -> bool {
    &&& forall|i: int, j: int| 0 <= i < m.len() && 0 <= j < m.len() && m[i].0 == m[j].0 ==> i == j
    &&& forall|i: int| 0 <= i < m.len() ==> m[i].1.len() > 0
}

pub open spec fn has_key<K>(m: Seq<(K, Seq<Seq<usize>>)>, k: K) -> bool {
    exists|j: int| 0 <= j < m.len() && m[j].0 == k
}

/// The position of key `k` in the index.
pub open spec fn key_slot<K>(m: Seq<(K, Seq<Seq<usize>>)>, k: K) -> int {
    choose|j: int| 0 <= j < m.len() && m[j].0 == k
}

/// The paths recorded under `k`, oldest first; empty where `k` has none.
pub open spec fn paths_of<K>(m: Seq<(K, Seq<Seq<usize>>)>, k: K) -> Seq<Seq<usize>> {
    if has_key(m, k) {
        m[key_slot(m, k)].1
    } else {
        Seq::empty()
    }
}

/// The index after recording path `p` under key `k`: appended to the key's paths if the key
/// is present, else as a new key with that one path.
pub open spec fn index_insert<K>(m: Seq<(K, Seq<Seq<usize>>)>, k: K, p: Seq<usize>) -> Seq<
    (K, Seq<Seq<usize>>),
> {
    if has_key(m, k) {
        let j = key_slot(m, k);
        m.update(j, (k, m[j].1.push(p)))
    } else {
        m.push((k, seq![p]))
    }
}

/// The index after recording each `(key, path)` pair of `es`, in order, into `m`.
pub open spec fn index_all<K>(m: Seq<(K, Seq<Seq<usize>>)>, es: Seq<(K, Seq<usize>)>) -> Seq<
    (K, Seq<Seq<usize>>),
>
    decreases es.len(),
{
    if es.len() == 0 {
        m
    } else {
        let e = es.last();
        index_insert(index_all(m, es.drop_last()), e.0, e.1)
    }
}

proof fn lemma_index_all_append<K>(
    m: Seq<(K, Seq<Seq<usize>>)>,
    a: Seq<(K, Seq<usize>)>,
    b: Seq<(K, Seq<usize>)>,
)
    ensures
        index_all(m, a + b) == index_all(index_all(m, a), b),
    decreases b.len(),
{
    if b.len() == 0 {
        assert(a + b =~= a);
    } else {
        lemma_index_all_append(m, a, b.drop_last());
        assert((a + b).drop_last() =~= a + b.drop_last());
    }
}

proof fn lemma_under_under<T>(p: Seq<usize>, q: Seq<usize>, ns: Seq<(Seq<usize>, T)>)
    ensures
        under(p, under(q, ns)) == under(p + q, ns),
{
    assert forall|x: int| 0 <= x < ns.len() implies #[trigger] under(p, under(q, ns))[x] == under(
        p + q,
        ns,
    )[x] by {
        assert(p + (q + ns[x].0) =~= (p + q) + ns[x].0);
    }
    assert(under(p, under(q, ns)) =~= under(p + q, ns));
}

proof fn lemma_under_concat<T>(p: Seq<usize>, a: Seq<(Seq<usize>, T)>, b: Seq<(Seq<usize>, T)>)
    ensures
        under(p, a + b) == under(p, a) + under(p, b),
{
    assert(under(p, a + b) =~= under(p, a) + under(p, b));
}

proof fn lemma_keyed_concat<T, U: View, F: Fn(&T) -> U>(
    f: F,
    a: Seq<(Seq<usize>, T)>,
    b: Seq<(Seq<usize>, T)>,
)
    ensures
        keyed(f, a + b) == keyed(f, a) + keyed(f, b),
{
    assert(keyed(f, a + b) =~= keyed(f, a) + keyed(f, b));
}

impl<T> Tree<T> {
    /// Every node of the tree in pre-order, each as its path from the root and its item.
    pub open spec fn nodes(self) -> Seq<(Seq<usize>, T)>
        decreases self,
    {
        seq![(Seq::<usize>::empty(), self.item)] + forest_nodes(self.children@)
    }
}

/// The nodes of a list of sibling trees in pre-order, with paths that start at the index of
/// the sibling they belong to.
pub open spec fn forest_nodes<T>(ts: Seq<Tree<T>>) -> Seq<(Seq<usize>, T)>
    decreases ts,
{
    if ts.len() == 0 {
        Seq::empty()
    } else {
        let i = (ts.len() - 1) as usize;
        forest_nodes(ts.drop_last()) + under(seq![i], ts.last().nodes())
    }
}

/// The nodes `ns`, with `prefix` put in front of each path.
pub open spec fn under<T>(prefix: Seq<usize>, ns: Seq<(Seq<usize>, T)>) -> Seq<(Seq<usize>, T)> {
    ns.map_values(|n: (Seq<usize>, T)| (prefix + n.0, n.1))
}

/// The view of the key that `f` gives for `t`.
pub open spec fn key_of<T, U: View, F: Fn(&T) -> U>(f: F, t: T) -> U::V {
    (choose|u: U| call_ensures(f, (&t,), u))@
}

/// The `(key, path)` pairs of the nodes `ns`, keyed by `proj` of their items.
pub open spec fn projected<T, K>(proj: spec_fn(T) -> K, ns: Seq<(Seq<usize>, T)>) -> Seq<
    (K, Seq<usize>),
> {
    ns.map_values(|n: (Seq<usize>, T)| (proj(n.1), n.0))
}

/// The `(key, path)` pairs of the nodes `ns`, keyed by the view of their items.
pub open spec fn item_keys<T: View>(ns: Seq<(Seq<usize>, T)>) -> Seq<(T::V, Seq<usize>)> {
    projected(|t: T| t@, ns)
}

/// Whether `f` has returned a value for the item of each of the nodes `ns`.
pub open spec fn called_on_all<T, U, F: Fn(&T) -> U>(f: F, ns: Seq<(Seq<usize>, T)>) -> bool {
    forall|x: int| 0 <= x < ns.len() ==> returns_for::<T, U, F>(f, #[trigger] ns[x].1)
}

/// Whether `f` has some result for `t`.
pub open spec fn returns_for<T, U, F: Fn(&T) -> U>(f: F, t: T) -> bool {
    exists|u: U| call_ensures(f, (&t,), u)
}

/// The `(key, path)` pairs of the nodes `ns`, keyed by `f`.
pub open spec fn keyed<T, U: View, F: Fn(&T) -> U>(f: F, ns: Seq<(Seq<usize>, T)>) -> Seq<
    (U::V, Seq<usize>),
> {
    projected(|t: T| key_of::<T, U, F>(f, t), ns)
}


/// For each item of a tree, the paths of the nodes where it occurs, in pre-order.
#[derive(Clone, Debug, PartialEq, Eq)]
pub struct TreePathMap<U> {
    entries: Vec<(U, Vec<Path>)>,
}

impl<U: View> View for TreePathMap<U> {
    type V = Seq<(U::V, Seq<Seq<usize>>)>;

    closed spec fn view(&self) -> Self::V {
        self.entries@.map_values(|e: (U, Vec<Path>)| (e.0@, e.1@.map_values(|p: Path| p@)))
    }
}

impl<U: PathKey> TreePathMap<U> {
    pub open spec fn wf(&self) -> bool {
        index_wf(self@)
    }

    /// An index with no keys.
    pub fn new() -> (r: TreePathMap<U>)
        ensures
            r.wf(),
            r@ == Seq::<(U::V, Seq<Seq<usize>>)>::empty(),
    {
        let r = TreePathMap { entries: Vec::new() };
        assert(r@ =~= Seq::<(U::V, Seq<Seq<usize>>)>::empty());
        r
    }

    /// Records `path` under `k`, after the paths already recorded under it.
    pub fn insert(&mut self, k: U, path: &Path)
        requires
            old(self).wf(),
        ensures
            final(self).wf(),
            final(self)@ == index_insert(old(self)@, k@, path@),
    {
        let ghost m = self@;
        let mut j: usize = 0;
        while j < self.entries.len()
            invariant
                j <= self.entries.len(),
                self@ == m,
                m == old(self)@,
                index_wf(m),
                forall|x: int| 0 <= x < j ==> m[x].0 != k@,
            decreases self.entries.len() - j,
        {
            assert(m[j as int].0 == self.entries@[j as int].0@);
            if self.entries[j].0.same_key(&k) {
                assert(m[j as int].0 == k@);
                assert(has_key(m, k@));
                assert(key_slot(m, k@) == j as int);
                let ghost old_entries = self.entries@;
                let p = path.clone();
                self.entries[j].1.push(p);
                proof {
                    let n = index_insert(m, k@, path@);
                    assert(self.entries@[j as int].1@ == old_entries[j as int].1@.push(p));
                    assert forall|x: int| 0 <= x < self@.len() implies self@[x] == n[x] by {
                        if x == j {
                            assert(self.entries@[x].1@.map_values(|p: Path| p@) =~= m[x].1.push(
                                path@,
                            ));
                        }
                    }
                    assert(self@ =~= n);
                }
                return;
            }
            j = j + 1;
        }
        assert(!has_key(m, k@));
        let p = path.clone();
        let mut bucket: Vec<Path> = Vec::new();
        bucket.push(p);
        proof {
            assert(bucket@.map_values(|p: Path| p@) =~= seq![path@]);
        }
        self.entries.push((k, bucket));
        assert(self@ =~= index_insert(m, k@, path@));
    }

    /// The first path recorded under `k`, or `None` if `k` has none.
    pub fn lookup_first(&self, k: &U) -> (r: Option<&Path>)
        requires
            self.wf(),
        ensures
            r is Some <==> has_key(self@, k@),
            r is Some ==> r->Some_0@ == paths_of(self@, k@)[0],
    {
        match self.lookup_all(k) {
            None => None,
            Some(paths) => Some(&paths[0]),
        }
    }

    /// All the paths recorded under `k`, oldest first, or `None` if `k` has none.
    pub fn lookup_all(&self, k: &U) -> (r: Option<&Vec<Path>>)
        requires
            self.wf(),
        ensures
            r is Some <==> has_key(self@, k@),
            r is Some ==> r->Some_0@.len() > 0 && r->Some_0@.map_values(|p: Path| p@)
                == paths_of(self@, k@),
    {
        let mut j: usize = 0;
        while j < self.entries.len()
            invariant
                j <= self.entries.len(),
                self.wf(),
                forall|x: int| 0 <= x < j ==> self@[x].0 != k@,
            decreases self.entries.len() - j,
        {
            assert(self@[j as int].0 == self.entries@[j as int].0@);
            if self.entries[j].0.same_key(k) {
                assert(self@[j as int].0 == k@);
                assert(has_key(self@, k@));
                assert(key_slot(self@, k@) == j as int);
                return Some(&self.entries[j].1);
            }
            j = j + 1;
        }
        None
    }

    /// The number of distinct keys.
    pub fn len(&self) -> (r: usize)
        ensures
            r == self@.len(),
    {
        self.entries.len()
    }

    /// Records every node of `children` under its key by `f`; the path of a node is `path`
    /// followed by its path within `children`.
    fn insert_children_map<T, F: Fn(&T) -> U>(
        &mut self,
        children: &Vec<Tree<T>>,
        path: &Path,
        f: &F,
    )
        requires
            old(self).wf(),
            forall|t: &T| f.requires((t,)),
            forall|t: &T, a: U, b: U| f.ensures((t,), a) && f.ensures((t,), b) ==> a@ == b@,
        ensures
            final(self).wf(),
            final(self)@ == index_all(old(self)@, keyed(*f, under(path@, forest_nodes(children@)))),
            called_on_all(*f, forest_nodes(children@)),
        decreases children@,
    {
        let ghost m0 = self@;
        let mut i: usize = 0;
        while i < children.len()
            invariant
                i <= children.len(),
                self.wf(),
                forall|t: &T| f.requires((t,)),
                forall|t: &T, a: U, b: U| f.ensures((t,), a) && f.ensures((t,), b) ==> a@ == b@,
                self@ == index_all(m0, keyed(*f, under(path@, forest_nodes(children@.take(i as int))))),
                called_on_all(*f, forest_nodes(children@.take(i as int))),
            decreases children.len() - i,
        {
            let child = &children[i];
            let child_path = path.push_back(i);
            let k = f(&child.item);
            let ghost before = self@;
            self.insert(k, &child_path);
            let ghost inserted = self@;
            assert(decreases_to!(children@ => child.children@)) by {
                assert(decreases_to!(children@ => children@[i as int]));
            }
            self.insert_children_map(&child.children, &child_path, f);
            proof {
                let kf = keyed(*f, under(path@, forest_nodes(children@.take(i as int))));
                let sub = forest_nodes(child.children@);
                let kc = keyed(*f, under(child_path@, sub));
                let e = (key_of::<T, U, F>(*f, child.item), child_path@);
                assert(key_of::<T, U, F>(*f, child.item) == k@);
                assert(children@.take(i + 1).drop_last() =~= children@.take(i as int));
                let head = seq![(Seq::<usize>::empty(), child.item)];
                lemma_under_under(path@, seq![i], child.nodes());
                assert(path@ + seq![i] =~= child_path@);
                lemma_under_concat(child_path@, head, sub);
                assert(under(child_path@, head) =~= seq![(child_path@, child.item)]);
                lemma_under_concat(path@, forest_nodes(children@.take(i as int)), under(seq![i], child.nodes()));
                lemma_keyed_concat(*f, under(path@, forest_nodes(children@.take(i as int))), under(child_path@, child.nodes()));
                lemma_keyed_concat(*f, seq![(child_path@, child.item)], under(child_path@, sub));
                assert(keyed(*f, seq![(child_path@, child.item)]) =~= seq![e]);
                assert(keyed(*f, under(path@, forest_nodes(children@.take(i + 1)))) =~= kf + (seq![e]
                    + kc));
                lemma_index_all_append(m0, kf, seq![e] + kc);
                lemma_index_all_append(before, seq![e], kc);
                assert(seq![e].drop_last() =~= Seq::<(U::V, Seq<usize>)>::empty());
                assert(index_all(before, seq![e].drop_last()) == before);
                assert(index_all(before, seq![e]) == inserted);
                let prev = forest_nodes(children@.take(i as int));
                let cur = forest_nodes(children@.take(i + 1));
                assert(cur =~= prev + under(seq![i], head + sub));
                assert forall|x: int| 0 <= x < cur.len() implies returns_for::<T, U, F>(*f, #[trigger] cur[x].1) by {
                    if x < prev.len() {
                        assert(cur[x] == prev[x]);
                    } else if x == prev.len() {
                        assert(cur[x].1 == child.item);
                        assert(call_ensures(*f, (&child.item,), k));
                    } else {
                        assert(cur[x].1 == sub[x - prev.len() - 1].1);
                    }
                }
                assert(called_on_all(*f, cur));
            }
            i = i + 1;
        }
        assert(children@.take(children.len() as int) =~= children@);
    }
}

impl<T> Tree<T> {
    /// The index of the tree's nodes by the key that `f` gives for each item: under each key,
    /// the paths of the nodes with that key, in pre-order.
    pub fn path_map_map<U: PathKey, F: Fn(&T) -> U>(&self, f: &F) -> (r: TreePathMap<U>)
        requires
            forall|t: &T| f.requires((t,)),
            forall|t: &T, a: U, b: U| f.ensures((t,), a) && f.ensures((t,), b) ==> a@ == b@,
        ensures
            r.wf(),
            r@ == index_all(Seq::empty(), keyed(*f, self.nodes())),
            called_on_all(*f, self.nodes()),
    {
        let mut map = TreePathMap::new();
        let root_path = Path::new();
        let k = f(&self.item);
        map.insert(k, &root_path);
        let ghost inserted = map@;
        map.insert_children_map(&self.children, &root_path, f);
        proof {
            let e = (key_of::<T, U, F>(*f, self.item), Seq::<usize>::empty());
            let sub = forest_nodes(self.children@);
            assert(under(Seq::<usize>::empty(), sub) =~= sub);
            assert(self.nodes() == seq![(Seq::<usize>::empty(), self.item)] + sub);
            lemma_keyed_concat(*f, seq![(Seq::<usize>::empty(), self.item)], sub);
            assert(keyed(*f, seq![(Seq::<usize>::empty(), self.item)]) =~= seq![e]);
            lemma_index_all_append(Seq::empty(), seq![e], keyed(*f, sub));
            assert(seq![e].drop_last() =~= Seq::<(U::V, Seq<usize>)>::empty());
            assert(index_all(Seq::empty(), seq![e].drop_last()) == Seq::<(U::V, Seq<Seq<usize>>)>::empty());
            assert(index_all(Seq::empty(), seq![e]) == inserted);
            let all = self.nodes();
            assert forall|x: int| 0 <= x < all.len() implies returns_for::<T, U, F>(*f, #[trigger] all[x].1) by {
                if x == 0 {
                    assert(all[x].1 == self.item);
                    assert(call_ensures(*f, (&self.item,), k));
                } else {
                    assert(all[x].1 == sub[x - 1].1);
                }
            }
            assert(called_on_all(*f, all));
        }
        map
    }
}

impl<T: PathKey> Tree<T> {
    /// The index of the tree's nodes by their items: under each item, the paths of the nodes
    /// that hold it, in pre-order.
    pub fn path_map(&self) -> (r: TreePathMap<T>)
        ensures
            r.wf(),
            r@ == index_all(Seq::empty(), item_keys(self.nodes())),
    {
        let key = |t: &T| -> (c: T)
            ensures
                c@ == t@,
            { t.copy_key() };
        let r = self.path_map_map(&key);
        proof {
            let ns = self.nodes();
            assert forall|x: int| 0 <= x < ns.len() implies #[trigger] keyed(key, ns)[x] == item_keys(
                ns,
            )[x] by {
                assert(returns_for::<T, T, _>(key, ns[x].1));
            }
            assert(keyed(key, ns) =~= item_keys(ns));
        }
        r
    }
}


/// The number of paths that the index holds, over all its keys.
pub open spec fn total_paths<K>(m: Seq<(K, Seq<Seq<usize>>)>) -> nat
    decreases m.len(),
{
    if m.len() == 0 {
        0
    } else {
        total_paths(m.drop_last()) + m.last().1.len()
    }
}

/// The paths of the pairs of `es` whose key is `k`, in the order of `es`.
pub open spec fn paths_with_key<K>(es: Seq<(K, Seq<usize>)>, k: K) -> Seq<Seq<usize>>
    decreases es.len(),
{
    if es.len() == 0 {
        Seq::empty()
    } else {
        let rest = paths_with_key(es.drop_last(), k);
        if es.last().0 == k {
            rest.push(es.last().1)
        } else {
            rest
        }
    }
}

proof fn lemma_total_update<K>(m: Seq<(K, Seq<Seq<usize>>)>, j: int, x: (K, Seq<Seq<usize>>))
    requires
        0 <= j < m.len(),
    ensures
        total_paths(m.update(j, x)) == total_paths(m) - m[j].1.len() + x.1.len(),
    decreases m.len(),
{
    if j == m.len() - 1 {
        assert(m.update(j, x).drop_last() =~= m.drop_last());
    } else {
        lemma_total_update(m.drop_last(), j, x);
        assert(m.update(j, x).drop_last() =~= m.drop_last().update(j, x));
    }
}

proof fn lemma_index_insert<K>(m: Seq<(K, Seq<Seq<usize>>)>, k: K, p: Seq<usize>)
    requires
        index_wf(m),
    ensures
        index_wf(index_insert(m, k, p)),
        total_paths(index_insert(m, k, p)) == total_paths(m) + 1,
        forall|k2: K|
            #[trigger] paths_of(index_insert(m, k, p), k2) == if k2 == k {
                paths_of(m, k).push(p)
            } else {
                paths_of(m, k2)
            },
{
    let n = index_insert(m, k, p);
    if has_key(m, k) {
        let j = key_slot(m, k);
        lemma_total_update(m, j, (k, m[j].1.push(p)));
        assert forall|k2: K| #[trigger] paths_of(n, k2) == if k2 == k {
            paths_of(m, k).push(p)
        } else {
            paths_of(m, k2)
        } by {
            if has_key(m, k2) {
                let j2 = key_slot(m, k2);
                assert(n[j2].0 == k2);
                assert(has_key(n, k2));
            } else {
                if has_key(n, k2) {
                    let j2 = key_slot(n, k2);
                    assert(m[j2].0 == k2);
                }
            }
        }
    } else {
        assert(n.drop_last() =~= m);
        assert forall|k2: K| #[trigger] paths_of(n, k2) == if k2 == k {
            paths_of(m, k).push(p)
        } else {
            paths_of(m, k2)
        } by {
            if k2 == k {
                assert(n[m.len() as int].0 == k);
                assert(has_key(n, k));
            } else if has_key(m, k2) {
                let j2 = key_slot(m, k2);
                assert(n[j2].0 == k2);
                assert(has_key(n, k2));
            } else {
                if has_key(n, k2) {
                    let j2 = key_slot(n, k2);
                    assert(j2 < m.len());
                    assert(m[j2].0 == k2);
                }
            }
        }
    }
}

proof fn lemma_index_all<K>(es: Seq<(K, Seq<usize>)>)
    ensures
        index_wf(index_all(Seq::empty(), es)),
        total_paths(index_all(Seq::empty(), es)) == es.len(),
        forall|k: K| #[trigger] paths_of(index_all(Seq::empty(), es), k) == paths_with_key(es, k),
    decreases es.len(),
{
    if es.len() > 0 {
        lemma_index_all(es.drop_last());
        let m = index_all(Seq::empty(), es.drop_last());
        lemma_index_insert(m, es.last().0, es.last().1);
        assert forall|k: K| #[trigger] paths_of(index_all(Seq::empty(), es), k) == paths_with_key(
            es,
            k,
        ) by {
            assert(paths_of(m, k) == paths_with_key(es.drop_last(), k));
        }
    } else {
        assert forall|k: K| #[trigger] paths_of(index_all(Seq::empty(), es), k) == paths_with_key(
            es,
            k,
        ) by {
            assert(!has_key(Seq::<(K, Seq<Seq<usize>>)>::empty(), k));
        }
    }
}

proof fn lemma_paths_with_key_from<K>(es: Seq<(K, Seq<usize>)>, k: K, j: int)
    requires
        0 <= j < paths_with_key(es, k).len(),
    ensures
        exists|i: int| 0 <= i < es.len() && #[trigger] es[i] == (k, paths_with_key(es, k)[j]),
    decreases es.len(),
{
    let rest = paths_with_key(es.drop_last(), k);
    if j < rest.len() {
        lemma_paths_with_key_from(es.drop_last(), k, j);
        let i = choose|i: int| 0 <= i < es.drop_last().len() && #[trigger] es.drop_last()[i] == (
            k,
            rest[j],
        );
        assert(es[i] == es.drop_last()[i]);
    } else {
        assert(es[es.len() - 1] == (k, paths_with_key(es, k)[j]));
    }
}

proof fn lemma_nodes_resolve<T>(t: Tree<T>)
    ensures
        forall|i: int|
            0 <= i < t.nodes().len() ==> t.item_at(#[trigger] t.nodes()[i].0) == Some(
                t.nodes()[i].1,
            ),
    decreases t, 1nat, 0int,
{
    lemma_forest_resolve(t, t.children@.len() as int);
    assert(t.children@.take(t.children@.len() as int) =~= t.children@);
    let f = forest_nodes(t.children@);
    assert forall|i: int| 0 <= i < t.nodes().len() implies t.item_at(#[trigger] t.nodes()[i].0)
        == Some(t.nodes()[i].1) by {
        if i > 0 {
            assert(t.nodes()[i] == f[i - 1]);
        }
    }
}

proof fn lemma_forest_resolve<T>(t: Tree<T>, n: int)
    requires
        0 <= n <= t.children@.len(),
    ensures
        forall|i: int|
            0 <= i < forest_nodes(t.children@.take(n)).len() ==> t.item_at(
                #[trigger] forest_nodes(t.children@.take(n))[i].0,
            ) == Some(forest_nodes(t.children@.take(n))[i].1),
    decreases t, 0nat, n,
{
    if n > 0 {
        let ts = t.children@.take(n);
        let c = t.children@[n - 1];
        assert(ts.drop_last() =~= t.children@.take(n - 1));
        assert(ts.last() == c);
        assert(decreases_to!(t => c)) by {
            assert(decreases_to!(t.children => t.children@));
        }
        lemma_forest_resolve(t, n - 1);
        lemma_nodes_resolve(c);
        let prev = forest_nodes(t.children@.take(n - 1));
        let fs = forest_nodes(ts);
        let cn = c.nodes();
        assert(fs == prev + under(seq![(n - 1) as usize], cn));
        assert forall|i: int| 0 <= i < fs.len() implies t.item_at(#[trigger] fs[i].0) == Some(
            fs[i].1,
        ) by {
            if i >= prev.len() {
                let q = cn[i - prev.len()];
                assert(fs[i] == (seq![(n - 1) as usize] + q.0, q.1));
                let path = seq![(n - 1) as usize] + q.0;
                assert(path.drop_first() =~= q.0);
                assert(path[0] == (n - 1) as usize);
                assert(c.item_at(q.0) == Some(q.1));
                assert(path.len() > 0);
                assert(n <= t.children.len());
                assert(path[0] as int == n - 1);
                assert(t.item_at(path) == t.children@[path[0] as int].item_at(path.drop_first()));
            } else {
                assert(fs[i] == prev[i]);
            }
        }
    }
}

/// Indexing the nodes of a tree by a projection of their items records each node exactly
/// once: the index holds as many paths, over all its keys, as the tree has nodes, and each
/// path recorded under a key leads to a node whose item projects to that key.
pub proof fn path_index_covers_each_node<T, K>(t: Tree<T>, proj: spec_fn(T) -> K)
    ensures
        total_paths(index_all(Seq::empty(), projected(proj, t.nodes()))) == t.nodes().len(),
        forall|k: K, j: int|
            0 <= j < paths_of(index_all(Seq::empty(), projected(proj, t.nodes())), k).len() ==> {
                let p = #[trigger] paths_of(index_all(Seq::empty(), projected(proj, t.nodes())), k)[j];
                t.item_at(p) is Some && proj(t.item_at(p)->Some_0) == k
            },
{
    let es = projected(proj, t.nodes());
    lemma_index_all(es);
    lemma_nodes_resolve(t);
    assert forall|k: K, j: int|
        0 <= j < paths_of(index_all(Seq::empty(), es), k).len() implies {
            let p = #[trigger] paths_of(index_all(Seq::empty(), es), k)[j];
            t.item_at(p) is Some && proj(t.item_at(p)->Some_0) == k
        } by {
        lemma_paths_with_key_from(es, k, j);
        let i = choose|i: int| 0 <= i < es.len() && #[trigger] es[i] == (k, paths_with_key(es, k)[j]);
        assert(t.item_at(t.nodes()[i].0) == Some(t.nodes()[i].1));
    }
}

/// Under each key, the index lists the paths of the nodes whose items project to that key in
/// pre-order, which is the order of the lines of the printed tree.
pub proof fn path_index_keeps_preorder<T, K>(t: Tree<T>, proj: spec_fn(T) -> K, k: K)
    ensures
        paths_of(index_all(Seq::empty(), projected(proj, t.nodes())), k) == paths_with_key(
            projected(proj, t.nodes()),
            k,
        ),
{
    lemma_index_all(projected(proj, t.nodes()));
}

} // verus!
