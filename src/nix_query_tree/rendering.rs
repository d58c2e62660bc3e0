//! How a tree of entries is printed in the listing's format, and the law that the parser reads
//! such a printout back as the tree it came from.

use super::parsing::{
    bar_unit, blank_end, branch_mark, entry_at, forest_at, header_at, id_end, indent_end,
    indent_ok, is_blank, is_branch_line, marker, root_parse, space_unit, tree_parse, unit_at,
    units_at, EntryModel, ErrorKind, ForestResult,
};
use super::Recurse;
use crate::text::is_space;
use crate::tree::TreeModel;
use vstd::prelude::*;

verus! {

/// The text of an entry: the store path, then ` [...]` if its dependencies are elided.
pub open spec fn entry_text(e: EntryModel) -> Seq<char> {
    if e.1 == Recurse::Yes {
        e.0 + seq![' '] + marker()
    } else {
        e.0
    }
}

/// The unit that continues the indentation under a branch: a bar while siblings follow it,
/// blanks after the last one.
pub open spec fn continuation(last: bool) -> Seq<char> {
    if last {
        space_unit()
    } else {
        bar_unit()
    }
}

/// The lines of the sibling branches `ts`, each indented by `indent`.
pub open spec fn render_forest(ts: Seq<TreeModel<EntryModel>>, indent: Seq<char>) -> Seq<char>
    decreases ts,
{
    if ts.len() == 0 {
        Seq::empty()
    } else {
        render_branch(ts[0], indent, ts.len() == 1) + render_forest(ts.drop_first(), indent)
    }
}

/// The line of branch `t` and the lines of the branches under it.
pub open spec fn render_branch(t: TreeModel<EntryModel>, indent: Seq<char>, last: bool) -> Seq<
    char,
>
    decreases t,
{
    branch_line(indent, t.item) + render_forest(t.children, indent + continuation(last))
}

pub open spec fn branch_line(indent: Seq<char>, e: EntryModel) -> Seq<char> {
    indent + branch_mark() + entry_text(e) + seq!['\n']
}

/// The listing of a tree: the root's store path on the first line, then its branches.
pub open spec fn render(t: TreeModel<EntryModel>) -> Seq<char> {
    t.item.0 + seq!['\n'] + render_forest(t.children, Seq::empty())
}

/// A store path as the listing can show it: not empty, and without white space.
pub open spec fn valid_id(id: Seq<char>) -> bool {
    id.len() > 0 && forall|i: int| 0 <= i < id.len() ==> !is_space(#[trigger] id[i])
}

pub open spec fn forest_valid(ts: Seq<TreeModel<EntryModel>>) -> bool
    decreases ts,
{
    ts.len() == 0 || (tree_valid(ts[0]) && forest_valid(ts.drop_first()))
}

/// Every store path in the tree can be shown in the listing.
pub open spec fn tree_valid(t: TreeModel<EntryModel>) -> bool
    decreases t,
{
    valid_id(t.item.0) && forest_valid(t.children)
}

/// `ind` is `level` indentation units.
pub open spec fn is_indent(ind: Seq<char>, level: nat) -> bool
    decreases level,
{
    if level == 0 {
        ind.len() == 0
    } else {
        ind.len() >= 4 && (ind.take(4) == bar_unit() || ind.take(4) == space_unit()) && is_indent(
            ind.skip(4),
            (level - 1) as nat,
        )
    }
}

/// Whether reading branches at level `level` stops at `q`: at the end of the input, or at a
/// well-indented branch line of a shallower level.
pub open spec fn stops_at(s: Seq<char>, q: int, level: nat) -> bool {
    q >= s.len() || (is_branch_line(s, q) && indent_ok(s, q) && units_at(s, q) < level)
}

proof fn lemma_indent_len(ind: Seq<char>, level: nat)
    requires
        is_indent(ind, level),
    ensures
        ind.len() == 4 * level,
        forall|j: int| 0 <= j < ind.len() ==> #[trigger] ind[j] == ' ' || ind[j] == '|',
    decreases level,
{
    if level > 0 {
        lemma_indent_len(ind.skip(4), (level - 1) as nat);
        assert forall|j: int| 0 <= j < ind.len() implies #[trigger] ind[j] == ' ' || ind[j] == '|' by {
            if j < 4 {
                assert(ind[j] == ind.take(4)[j]);
            } else {
                assert(ind[j] == ind.skip(4)[j - 4]);
            }
        }
    }
}

proof fn lemma_indent_push(ind: Seq<char>, level: nat, last: bool)
    requires
        is_indent(ind, level),
    ensures
        is_indent(ind + continuation(last), level + 1),
    decreases level,
{
    let u = continuation(last);
    assert(u.len() == 4);
    if level == 0 {
        assert(ind.len() == 0);
        assert(ind + u =~= u);
        assert(u.take(4) =~= u);
        assert(u.skip(4) =~= Seq::<char>::empty());
        assert((ind + u).take(4) == bar_unit() || (ind + u).take(4) == space_unit());
        assert(is_indent((ind + u).skip(4), 0));
    } else {
        lemma_indent_push(ind.skip(4), (level - 1) as nat, last);
        assert((ind + u).take(4) =~= ind.take(4));
        assert((ind + u).skip(4) =~= ind.skip(4) + u);
        assert(is_indent(ind.skip(4) + u, level));
        assert((ind + u).len() >= 4);
        assert((ind + u).take(4) == bar_unit() || (ind + u).take(4) == space_unit());
        assert(is_indent((ind + u).skip(4), ((level + 1) - 1) as nat));
    }
}

proof fn lemma_indent_end_run(s: Seq<char>, p: int, k: int)
    requires
        0 <= p,
        0 <= k,
        p + k < s.len(),
        forall|j: int| p <= j < p + k ==> #[trigger] s[j] == ' ' || s[j] == '|',
        s[p + k] != ' ' && s[p + k] != '|',
    ensures
        indent_end(s, p) == p + k,
    decreases k,
{
    if k > 0 {
        lemma_indent_end_run(s, p + 1, k - 1);
    }
}

proof fn lemma_units_run(s: Seq<char>, p: int, ind: Seq<char>, level: nat)
    requires
        is_indent(ind, level),
        0 <= p,
        p + ind.len() < s.len(),
        s.subrange(p, p + ind.len()) == ind,
        s[p + ind.len()] == '+',
    ensures
        units_at(s, p) == level,
    decreases level,
{
    lemma_indent_len(ind, level);
    if level == 0 {
        if p + 4 <= s.len() {
            assert(s.subrange(p, p + 4)[0] == s[p]);
            assert(bar_unit()[0] == '|');
            assert(space_unit()[0] == ' ');
        }
        assert(!unit_at(s, p));
    } else {
        assert(s.subrange(p, p + 4) =~= ind.take(4));
        assert(unit_at(s, p));
        assert(s.subrange(p + 4, p + ind.len()) =~= ind.skip(4));
        lemma_units_run(s, p + 4, ind.skip(4), (level - 1) as nat);
    }
}

proof fn lemma_id_run(s: Seq<char>, p: int, k: int)
    requires
        0 <= p,
        0 <= k,
        p + k < s.len(),
        forall|j: int| p <= j < p + k ==> !is_space(#[trigger] s[j]),
        is_space(s[p + k]),
    ensures
        id_end(s, p) == p + k,
    decreases k,
{
    if k > 0 {
        lemma_id_run(s, p + 1, k - 1);
    }
}

/// The line of a branch at `level` is read as that branch's entry.
proof fn lemma_branch_line(s: Seq<char>, p: int, ind: Seq<char>, level: nat, e: EntryModel)
    requires
        is_indent(ind, level),
        valid_id(e.0),
        0 <= p,
        p + branch_line(ind, e).len() <= s.len(),
        s.subrange(p, p + branch_line(ind, e).len()) == branch_line(ind, e),
    ensures
        is_branch_line(s, p),
        indent_ok(s, p),
        units_at(s, p) == level,
        header_at(s, p) == Some((e, p + branch_line(ind, e).len())),
{
    let x = branch_line(ind, e);
    let n = ind.len() as int;
    let t = entry_text(e);
    lemma_indent_len(ind, level);
    assert forall|j: int| 0 <= j < x.len() implies #[trigger] s[p + j] == x[j] by {
        assert(s.subrange(p, p + x.len())[j] == s[p + j]);
    }
    assert forall|j: int| p <= j < p + n implies #[trigger] s[j] == ' ' || s[j] == '|' by {
        assert(s[p + (j - p)] == x[j - p]);
        assert(x[j - p] == ind[j - p]);
    }
    assert(s[p + n] == x[n]);
    assert(x[n] == '+');
    lemma_indent_end_run(s, p, n);
    assert(s.subrange(p, p + n) =~= ind) by {
        assert forall|j: int| 0 <= j < n implies s.subrange(p, p + n)[j] == ind[j] by {
            assert(s[p + j] == x[j]);
        }
    }
    lemma_units_run(s, p, ind, level);
    assert(s.subrange(p + n, p + n + 4) =~= branch_mark()) by {
        assert forall|j: int| 0 <= j < 4 implies s.subrange(p + n, p + n + 4)[j] == branch_mark()[j] by {
            assert(s[p + (n + j)] == x[n + j]);
        }
    }
    let a = p + n + 4;
    let k = e.0.len() as int;
    assert forall|j: int| a <= j < a + k implies !is_space(#[trigger] s[j]) by {
        assert(s[p + (j - p)] == x[j - p]);
        assert(x[j - p] == e.0[j - a]);
    }
    assert(s[p + (n + 4 + k)] == x[n + 4 + k]);
    if e.1 == Recurse::Yes {
        assert(x[n + 4 + k] == ' ');
        lemma_id_run(s, a, k);
        assert(s[p + (n + 5 + k)] == x[n + 5 + k]);
        assert(x[n + 5 + k] == '[');
        assert(blank_end(s, a + k + 1) == a + k + 1);
        assert(blank_end(s, a + k) == a + k + 1);
        assert(s.subrange(a + k + 1, a + k + 6) =~= marker()) by {
            assert forall|j: int| 0 <= j < 5 implies s.subrange(a + k + 1, a + k + 6)[j] == marker()[j] by {
                assert(s[p + (n + 5 + k + j)] == x[n + 5 + k + j]);
            }
        }
        assert(s.subrange(a, a + k) =~= e.0) by {
            assert forall|j: int| 0 <= j < k implies s.subrange(a, a + k)[j] == e.0[j] by {
                assert(s[p + (n + 4 + j)] == x[n + 4 + j]);
            }
        }
        assert(entry_at(s, a) == Some((e, a + k + 6)));
        assert(s[p + (n + 10 + k)] == x[n + 10 + k]);
    } else {
        assert(x[n + 4 + k] == '\n');
        lemma_id_run(s, a, k);
        assert(!is_blank(s[a + k]));
        assert(blank_end(s, a + k) == a + k);
        assert(s.subrange(a, a + k) =~= e.0) by {
            assert forall|j: int| 0 <= j < k implies s.subrange(a, a + k)[j] == e.0[j] by {
                assert(s[p + (n + 4 + j)] == x[n + 4 + j]);
            }
        }
        assert(entry_at(s, a) == Some((e, a + k)));
    }
}


proof fn lemma_split(s: Seq<char>, p: int, a: Seq<char>, b: Seq<char>)
    requires
        0 <= p,
        p + a.len() + b.len() <= s.len(),
        s.subrange(p, p + (a + b).len()) == a + b,
    ensures
        s.subrange(p, p + a.len()) == a,
        s.subrange(p + a.len(), p + a.len() + b.len()) == b,
{
    assert forall|j: int| 0 <= j < a.len() implies s.subrange(p, p + a.len())[j] == a[j] by {
        assert(s.subrange(p, p + (a + b).len())[j] == (a + b)[j]);
    }
    assert forall|j: int| 0 <= j < b.len() implies s.subrange(p + a.len(), p + a.len() + b.len())[j]
        == b[j] by {
        assert(s.subrange(p, p + (a + b).len())[a.len() + j] == (a + b)[a.len() + j]);
        assert(s.subrange(p, p + (a + b).len())[a.len() + j] == s[p + a.len() + j]);
        assert(s.subrange(p + a.len(), p + a.len() + b.len())[j] == s[p + a.len() + j]);
    }
    assert(s.subrange(p, p + a.len()) =~= a);
    assert(s.subrange(p + a.len(), p + a.len() + b.len()) =~= b);
}

proof fn lemma_forest_nonempty(ts: Seq<TreeModel<EntryModel>>, ind: Seq<char>)
    ensures
        ts.len() > 0 ==> render_forest(ts, ind).len() >= branch_line(ind, ts[0].item).len(),
        ts.len() > 0 ==> render_forest(ts, ind).len() > 0,
{
    if ts.len() > 0 {
        let t = ts[0];
        let last = ts.len() == 1;
        assert(render_forest(ts, ind) == render_branch(t, ind, last) + render_forest(
            ts.drop_first(),
            ind,
        ));
        assert(render_branch(t, ind, last) == branch_line(ind, t.item) + render_forest(
            t.children,
            ind + continuation(last),
        ));
        assert(branch_mark().len() == 4);
    }
}

/// Branches printed at `level` under indentation `ind` are read back as those branches, up to
/// the end of their lines, when what follows them ends that level.
proof fn lemma_forest_reads(
    s: Seq<char>,
    p: int,
    ts: Seq<TreeModel<EntryModel>>,
    ind: Seq<char>,
    level: nat,
)
    requires
        is_indent(ind, level),
        forest_valid(ts),
        0 <= p,
        p + render_forest(ts, ind).len() <= s.len(),
        s.subrange(p, p + render_forest(ts, ind).len()) == render_forest(ts, ind),
        stops_at(s, p + render_forest(ts, ind).len(), level),
    ensures
        forest_at(s, p, level) == ForestResult::Ok((ts, p + render_forest(ts, ind).len())),
    decreases ts,
{
    let r = render_forest(ts, ind);
    if ts.len() == 0 {
        assert(ts =~= Seq::<TreeModel<EntryModel>>::empty());
    } else {
        let t = ts[0];
        let last = ts.len() == 1;
        let tail = ts.drop_first();
        let rest = render_forest(tail, ind);
        let line = branch_line(ind, t.item);
        let ind2 = ind + continuation(last);
        let kids = render_forest(t.children, ind2);
        assert(render_branch(t, ind, last) == line + kids);
        assert(r == render_branch(t, ind, last) + rest);
        lemma_split(s, p, line + kids, rest);
        lemma_split(s, p, line, kids);
        assert(tree_valid(t));
        lemma_branch_line(s, p, ind, level, t.item);
        lemma_indent_push(ind, level, last);
        let next_line = p + line.len();
        let branch_end = next_line + kids.len();
        if tail.len() > 0 {
            let u = tail[0];
            assert(forest_valid(tail));
            assert(tree_valid(u));
            lemma_forest_nonempty(tail, ind);
            let line2 = branch_line(ind, u.item);
            let x = render_forest(u.children, ind + continuation(tail.len() == 1));
            let y = render_forest(tail.drop_first(), ind);
            assert(render_branch(u, ind, tail.len() == 1) == line2 + x);
            assert(rest == render_branch(u, ind, tail.len() == 1) + y);
            assert(rest =~= line2 + (x + y));
            lemma_split(s, branch_end, line2, x + y);
            lemma_branch_line(s, branch_end, ind, level, u.item);
        }
        assert(stops_at(s, branch_end, level + 1));
        assert(decreases_to!(ts => t.children)) by {
            assert(decreases_to!(ts => ts[0]));
            assert(decreases_to!(ts[0] => ts[0].children));
        }
        lemma_forest_reads(s, next_line, t.children, ind2, level + 1);
        let node = TreeModel { item: t.item, children: t.children };
        assert(node == t);
        if branch_end >= s.len() {
            assert(tail.len() == 0);
            assert(ts =~= seq![t]);
        } else {
            assert(decreases_to!(ts => tail));
            lemma_forest_reads(s, branch_end, tail, ind, level);
            assert(seq![t] + tail =~= ts);
        }
    }
}

/// The parser reads the printout of a tree back as that tree, so that printing what it read
/// gives the same text, line for line. This holds of every tree whose store paths the
/// listing can show and whose root carries no marker, as the root line never does.
pub proof fn parse_reads_back_rendering(t: TreeModel<EntryModel>)
    requires
        tree_valid(t),
        t.item.1 == Recurse::No,
    ensures
        tree_parse(render(t)) == Result::<TreeModel<EntryModel>, (ErrorKind, int)>::Ok(t),
        render(tree_parse(render(t))->Ok_0) == render(t),
{
    let s = render(t);
    let id = t.item.0;
    let n = id.len() as int;
    let kids = render_forest(t.children, Seq::empty());
    assert(s == id + seq!['\n'] + kids);
    assert forall|j: int| 0 <= j < n implies !is_space(#[trigger] s[j]) by {
        assert(s[j] == id[j]);
    }
    assert(s[n] == '\n');
    lemma_id_run(s, 0, n);
    assert(s.subrange(n + 1, s.len() as int) =~= kids);
    assert(is_indent(Seq::<char>::empty(), 0));
    lemma_forest_reads(s, n + 1, t.children, Seq::empty(), 0);
    assert(s.take(n) =~= id);
    assert(root_parse(s) == Result::<(TreeModel<EntryModel>, int), (ErrorKind, int)>::Ok((t, s.len() as int)));
}

} // verus!
