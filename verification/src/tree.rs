//! Trees of the arena read as values, and the facts that let new trees be
//! built node by node without disturbing one another.

use vstd::prelude::*;

use crate::xml::{AttrView, KindView, NodeView, XNameView};

verus! {

/// A tree of nodes, as values.
pub enum TreeView {
    Document { kids: Seq<TreeView> },
    Element { name: XNameView, attrs: Seq<AttrView>, kids: Seq<TreeView> },
    Text { value: Seq<char> },
}

/// Node `n` of `d` is the tree `t`, with `n` and all its descendants among
/// the nodes `lo..hi`.
pub open spec fn tree_in(d: Seq<NodeView>, n: int, t: TreeView, lo: int, hi: int) -> bool
    decreases t,
{
    &&& lo <= n < hi
    &&& n < d.len()
    &&& match t {
        TreeView::Document { kids } => {
            &&& d[n].kind == KindView::Document
            &&& forest_in(d, d[n].children, kids, lo, hi)
        },
        TreeView::Element { name, attrs, kids } => {
            &&& d[n].kind == (KindView::Element { name, attrs })
            &&& forest_in(d, d[n].children, kids, lo, hi)
        },
        TreeView::Text { value } => {
            &&& d[n].kind == (KindView::Text { value })
            &&& d[n].children.len() == 0
        },
    }
}

/// The nodes `cs` of `d` are, in order, the trees `ts`, all among `lo..hi`.
pub open spec fn forest_in(d: Seq<NodeView>, cs: Seq<usize>, ts: Seq<TreeView>, lo: int, hi: int) -> bool
    decreases ts,
{
    &&& cs.len() == ts.len()
    &&& ts.len() > 0 ==> {
        &&& forest_in(
            d,
            cs.subrange(0, cs.len() - 1),
            ts.subrange(0, ts.len() - 1),
            lo,
            hi,
        )
        &&& tree_in(d, cs[cs.len() - 1] as int, ts[ts.len() - 1], lo, hi)
    }
}

/// The nodes `lo..hi` list as children only nodes among themselves, each of
/// which names the node listing it as its parent.
pub open spec fn fresh_ok(d: Seq<NodeView>, lo: int, hi: int) -> bool {
    &&& 0 <= lo <= hi <= d.len()
    &&& forall|x: int, j: int|
        lo <= x < hi && 0 <= j < d[x].children.len() ==> {
            let c = #[trigger] d[x].children[j] as int;
            &&& lo <= c < hi
            &&& d[c].parent == Some(x as usize)
        }
}

/// `d2` has the kinds and child lists of `d1` at the nodes `lo..hi`.
pub open spec fn same_shape(d1: Seq<NodeView>, d2: Seq<NodeView>, lo: int, hi: int) -> bool {
    &&& hi <= d1.len()
    &&& hi <= d2.len()
    &&& forall|k: int|
        lo <= k < hi ==> #[trigger] d2[k].kind == d1[k].kind && d2[k].children == d1[k].children
}

/// `ts` without its last tree, and `cs` without its last node: the facts
/// that `forest_in` unfolds to.
pub proof fn lemma_forest_last(d: Seq<NodeView>, cs: Seq<usize>, ts: Seq<TreeView>, lo: int, hi: int)
    requires
        forest_in(d, cs, ts, lo, hi),
        ts.len() > 0,
    ensures
        forest_in(d, cs.drop_last(), ts.drop_last(), lo, hi),
        tree_in(d, cs.last() as int, ts.last(), lo, hi),
{
    assert(cs.drop_last() =~= cs.subrange(0, cs.len() - 1));
    assert(ts.drop_last() =~= ts.subrange(0, ts.len() - 1));
}

/// Appending a tree to a forest.
pub proof fn lemma_forest_push(
    d: Seq<NodeView>,
    cs: Seq<usize>,
    ts: Seq<TreeView>,
    c: usize,
    t: TreeView,
    lo: int,
    hi: int,
)
    requires
        forest_in(d, cs, ts, lo, hi),
        tree_in(d, c as int, t, lo, hi),
    ensures
        forest_in(d, cs.push(c), ts.push(t), lo, hi),
{
    assert(cs.push(c).subrange(0, cs.len() as int) =~= cs);
    assert(ts.push(t).subrange(0, ts.len() as int) =~= ts);
}

/// Every tree of a forest, by position.
pub proof fn lemma_forest_index(d: Seq<NodeView>, cs: Seq<usize>, ts: Seq<TreeView>, lo: int, hi: int)
    requires
        forest_in(d, cs, ts, lo, hi),
    ensures
        cs.len() == ts.len(),
        forall|j: int| 0 <= j < ts.len() ==> tree_in(d, #[trigger] cs[j] as int, ts[j], lo, hi),
    decreases ts.len(),
{
    if ts.len() > 0 {
        lemma_forest_last(d, cs, ts, lo, hi);
        lemma_forest_index(d, cs.drop_last(), ts.drop_last(), lo, hi);
        assert forall|j: int| 0 <= j < ts.len() implies tree_in(d, #[trigger] cs[j] as int, ts[j], lo, hi) by {
            if j < ts.len() - 1 {
                assert(cs.drop_last()[j] == cs[j]);
                assert(ts.drop_last()[j] == ts[j]);
            }
        }
    }
}

/// A forest whose trees each stand, by position.
pub proof fn lemma_forest_from_index(d: Seq<NodeView>, cs: Seq<usize>, ts: Seq<TreeView>, lo: int, hi: int)
    requires
        cs.len() == ts.len(),
        forall|j: int| 0 <= j < ts.len() ==> tree_in(d, #[trigger] cs[j] as int, ts[j], lo, hi),
    ensures
        forest_in(d, cs, ts, lo, hi),
    decreases ts.len(),
{
    if ts.len() > 0 {
        assert forall|j: int| 0 <= j < ts.drop_last().len() implies tree_in(
            d,
            #[trigger] cs.drop_last()[j] as int,
            ts.drop_last()[j],
            lo,
            hi,
        ) by {
            assert(cs.drop_last()[j] == cs[j]);
        }
        lemma_forest_from_index(d, cs.drop_last(), ts.drop_last(), lo, hi);
        assert(cs.drop_last() =~= cs.subrange(0, cs.len() - 1));
        assert(ts.drop_last() =~= ts.subrange(0, ts.len() - 1));
        assert(tree_in(d, cs[cs.len() - 1] as int, ts[ts.len() - 1], lo, hi));
    }
}

/// A tree stands in any wider range.
pub proof fn lemma_tree_widen(d: Seq<NodeView>, n: int, t: TreeView, lo: int, hi: int, lo2: int, hi2: int)
    requires
        tree_in(d, n, t, lo, hi),
        lo2 <= lo,
        hi <= hi2,
    ensures
        tree_in(d, n, t, lo2, hi2),
    decreases t,
{
    match t {
        TreeView::Document { kids } => lemma_forest_widen(d, d[n].children, kids, lo, hi, lo2, hi2),
        TreeView::Element { kids, .. } => lemma_forest_widen(d, d[n].children, kids, lo, hi, lo2, hi2),
        TreeView::Text { .. } => {},
    }
}

/// A forest stands in any wider range.
pub proof fn lemma_forest_widen(
    d: Seq<NodeView>,
    cs: Seq<usize>,
    ts: Seq<TreeView>,
    lo: int,
    hi: int,
    lo2: int,
    hi2: int,
)
    requires
        forest_in(d, cs, ts, lo, hi),
        lo2 <= lo,
        hi <= hi2,
    ensures
        forest_in(d, cs, ts, lo2, hi2),
    decreases ts,
{
    if ts.len() > 0 {
        lemma_forest_widen(d, cs.subrange(0, cs.len() - 1), ts.subrange(0, ts.len() - 1), lo, hi, lo2, hi2);
        lemma_tree_widen(d, cs[cs.len() - 1] as int, ts[ts.len() - 1], lo, hi, lo2, hi2);
    }
}

/// A tree stands in any arena with the same kinds and child lists over its
/// range.
pub proof fn lemma_tree_same_shape(d1: Seq<NodeView>, d2: Seq<NodeView>, n: int, t: TreeView, lo: int, hi: int)
    requires
        tree_in(d1, n, t, lo, hi),
        same_shape(d1, d2, lo, hi),
    ensures
        tree_in(d2, n, t, lo, hi),
    decreases t,
{
    assert(d2[n].kind == d1[n].kind && d2[n].children == d1[n].children);
    match t {
        TreeView::Document { kids } => lemma_forest_same_shape(d1, d2, d1[n].children, kids, lo, hi),
        TreeView::Element { kids, .. } => lemma_forest_same_shape(d1, d2, d1[n].children, kids, lo, hi),
        TreeView::Text { .. } => {},
    }
}

/// A forest stands in any arena with the same kinds and child lists over its
/// range.
pub proof fn lemma_forest_same_shape(
    d1: Seq<NodeView>,
    d2: Seq<NodeView>,
    cs: Seq<usize>,
    ts: Seq<TreeView>,
    lo: int,
    hi: int,
)
    requires
        forest_in(d1, cs, ts, lo, hi),
        same_shape(d1, d2, lo, hi),
    ensures
        forest_in(d2, cs, ts, lo, hi),
    decreases ts,
{
    if ts.len() > 0 {
        lemma_forest_same_shape(d1, d2, cs.subrange(0, cs.len() - 1), ts.subrange(0, ts.len() - 1), lo, hi);
        lemma_tree_same_shape(d1, d2, cs[cs.len() - 1] as int, ts[ts.len() - 1], lo, hi);
    }
}

/// A tree stands when only node `c`, which is neither its root nor listed
/// as a child by any node of the range, changed.
pub proof fn lemma_tree_avoids(d1: Seq<NodeView>, d2: Seq<NodeView>, n: int, t: TreeView, lo: int, hi: int, c: int)
    requires
        tree_in(d1, n, t, lo, hi),
        hi <= d2.len(),
        n != c,
        forall|k: int| lo <= k < hi && k != c ==> #[trigger] d2[k].kind == d1[k].kind && d2[k].children == d1[k].children,
        forall|x: int, j: int| lo <= x < hi && 0 <= j < d1[x].children.len() ==> #[trigger] d1[x].children[j] != c,
    ensures
        tree_in(d2, n, t, lo, hi),
    decreases t,
{
    assert(d2[n].kind == d1[n].kind && d2[n].children == d1[n].children);
    match t {
        TreeView::Document { kids } => {
            assert forall|j: int| 0 <= j < d1[n].children.len() implies #[trigger] d1[n].children[j] != c by {}
            lemma_forest_avoids(d1, d2, d1[n].children, kids, lo, hi, c);
        },
        TreeView::Element { kids, .. } => {
            assert forall|j: int| 0 <= j < d1[n].children.len() implies #[trigger] d1[n].children[j] != c by {}
            lemma_forest_avoids(d1, d2, d1[n].children, kids, lo, hi, c);
        },
        TreeView::Text { .. } => {},
    }
}

/// A forest stands when only node `c`, which is none of its roots and is
/// listed as a child by no node of the range, changed.
pub proof fn lemma_forest_avoids(
    d1: Seq<NodeView>,
    d2: Seq<NodeView>,
    cs: Seq<usize>,
    ts: Seq<TreeView>,
    lo: int,
    hi: int,
    c: int,
)
    requires
        forest_in(d1, cs, ts, lo, hi),
        hi <= d2.len(),
        forall|j: int| 0 <= j < cs.len() ==> #[trigger] cs[j] != c,
        forall|k: int| lo <= k < hi && k != c ==> #[trigger] d2[k].kind == d1[k].kind && d2[k].children == d1[k].children,
        forall|x: int, j: int| lo <= x < hi && 0 <= j < d1[x].children.len() ==> #[trigger] d1[x].children[j] != c,
    ensures
        forest_in(d2, cs, ts, lo, hi),
    decreases ts,
{
    if ts.len() > 0 {
        let cs0 = cs.subrange(0, cs.len() - 1);
        assert forall|j: int| 0 <= j < cs0.len() implies #[trigger] cs0[j] != c by {
            assert(cs0[j] == cs[j]);
        }
        lemma_forest_avoids(d1, d2, cs0, ts.subrange(0, ts.len() - 1), lo, hi, c);
        assert(cs[cs.len() - 1] != c);
        lemma_tree_avoids(d1, d2, cs[cs.len() - 1] as int, ts[ts.len() - 1], lo, hi, c);
    }
}


/// `d2` extends `d1`: the nodes of `d1` are unchanged and new ones follow.
pub open spec fn extends(d1: Seq<NodeView>, d2: Seq<NodeView>) -> bool {
    &&& d1.len() <= d2.len()
    &&& forall|k: int| 0 <= k < d1.len() ==> #[trigger] d2[k] == d1[k]
}

/// The nodes `out` are distinct nodes among `lo..hi` without a parent.
pub open spec fn loose_roots(d: Seq<NodeView>, out: Seq<usize>, lo: int, hi: int) -> bool {
    &&& forall|j: int|
        0 <= j < out.len() ==> lo <= #[trigger] out[j] < hi && d[out[j] as int].parent is None
    &&& forall|i: int, j: int| 0 <= i < j < out.len() ==> #[trigger] out[i] != #[trigger] out[j]
}

/// From `d1` to `d2`, new nodes were added, and among them the parentless
/// nodes `out` are the trees `ts`.
pub open spec fn built(d1: Seq<NodeView>, d2: Seq<NodeView>, out: Seq<usize>, ts: Seq<TreeView>) -> bool {
    &&& extends(d1, d2)
    &&& fresh_ok(d2, d1.len() as int, d2.len() as int)
    &&& loose_roots(d2, out, d1.len() as int, d2.len() as int)
    &&& forest_in(d2, out, ts, d1.len() as int, d2.len() as int)
}

/// Two forests side by side.
pub proof fn lemma_forest_concat(
    d: Seq<NodeView>,
    cs1: Seq<usize>,
    ts1: Seq<TreeView>,
    cs2: Seq<usize>,
    ts2: Seq<TreeView>,
    lo: int,
    hi: int,
)
    requires
        forest_in(d, cs1, ts1, lo, hi),
        forest_in(d, cs2, ts2, lo, hi),
    ensures
        forest_in(d, cs1 + cs2, ts1 + ts2, lo, hi),
{
    lemma_forest_index(d, cs1, ts1, lo, hi);
    lemma_forest_index(d, cs2, ts2, lo, hi);
    assert forall|j: int| 0 <= j < (ts1 + ts2).len() implies tree_in(
        d,
        #[trigger] (cs1 + cs2)[j] as int,
        (ts1 + ts2)[j],
        lo,
        hi,
    ) by {
        if j < ts1.len() {
            assert((cs1 + cs2)[j] == cs1[j]);
        } else {
            assert((cs1 + cs2)[j] == cs2[j - ts1.len()]);
        }
    }
    lemma_forest_from_index(d, cs1 + cs2, ts1 + ts2, lo, hi);
}

/// A forest stands in an arena that extends it.
pub proof fn lemma_forest_extends(
    d1: Seq<NodeView>,
    d2: Seq<NodeView>,
    cs: Seq<usize>,
    ts: Seq<TreeView>,
    lo: int,
    hi: int,
)
    requires
        forest_in(d1, cs, ts, lo, hi),
        extends(d1, d2),
        0 <= lo,
        hi <= d1.len(),
    ensures
        forest_in(d2, cs, ts, lo, hi),
{
    assert forall|k: int| lo <= k < hi implies #[trigger] d2[k].kind == d1[k].kind && d2[k].children
        == d1[k].children by {
        assert(d2[k] == d1[k]);
    }
    lemma_forest_same_shape(d1, d2, cs, ts, lo, hi);
}

/// Fresh ranges side by side make one fresh range.
pub proof fn lemma_fresh_join(d1: Seq<NodeView>, d2: Seq<NodeView>, a: int, b: int, c: int)
    requires
        fresh_ok(d1, a, b),
        b == d1.len(),
        extends(d1, d2),
        fresh_ok(d2, b, c),
    ensures
        fresh_ok(d2, a, c),
{
    assert forall|x: int, j: int| a <= x < c && 0 <= j < d2[x].children.len() implies {
        let ch = #[trigger] d2[x].children[j] as int;
        &&& a <= ch < c
        &&& d2[ch].parent == Some(x as usize)
    } by {
        if x < b {
            assert(d2[x] == d1[x]);
            let ch = d1[x].children[j] as int;
            assert(d2[ch] == d1[ch]);
        }
    }
}

/// What a caller holds after adding the pieces `out` built from `d1` to
/// `d2` after its own pieces `acc`, all built since its arena had `lo`
/// nodes.
pub proof fn lemma_accumulate(
    d0: Seq<NodeView>,
    d1: Seq<NodeView>,
    d2: Seq<NodeView>,
    acc: Seq<usize>,
    acc_ts: Seq<TreeView>,
    out: Seq<usize>,
    ts: Seq<TreeView>,
)
    requires
        extends(d0, d1),
        fresh_ok(d1, d0.len() as int, d1.len() as int),
        loose_roots(d1, acc, d0.len() as int, d1.len() as int),
        forest_in(d1, acc, acc_ts, d0.len() as int, d1.len() as int),
        built(d1, d2, out, ts),
    ensures
        extends(d0, d2),
        fresh_ok(d2, d0.len() as int, d2.len() as int),
        loose_roots(d2, acc + out, d0.len() as int, d2.len() as int),
        forest_in(d2, acc + out, acc_ts + ts, d0.len() as int, d2.len() as int),
{
    let lo = d0.len() as int;
    assert forall|k: int| 0 <= k < d0.len() implies #[trigger] d2[k] == d0[k] by {
        assert(d2[k] == d1[k]);
    }
    lemma_fresh_join(d1, d2, lo, d1.len() as int, d2.len() as int);
    lemma_forest_extends(d1, d2, acc, acc_ts, lo, d1.len() as int);
    lemma_forest_widen(d2, acc, acc_ts, lo, d1.len() as int, lo, d2.len() as int);
    lemma_forest_widen(d2, out, ts, d1.len() as int, d2.len() as int, lo, d2.len() as int);
    lemma_forest_concat(d2, acc, acc_ts, out, ts, lo, d2.len() as int);
    let all = acc + out;
    assert forall|j: int| 0 <= j < all.len() implies lo <= #[trigger] all[j] < d2.len() && d2[all[j] as int].parent is None by {
        if j < acc.len() {
            assert(all[j] == acc[j]);
            assert(d2[acc[j] as int] == d1[acc[j] as int]);
        } else {
            assert(all[j] == out[j - acc.len()]);
        }
    }
    assert forall|i: int, j: int| 0 <= i < j < all.len() implies #[trigger] all[i] != #[trigger] all[j] by {
        if j < acc.len() {
            assert(all[i] == acc[i] && all[j] == acc[j]);
        } else if i >= acc.len() {
            assert(all[i] == out[i - acc.len()] && all[j] == out[j - acc.len()]);
        } else {
            assert(all[i] == acc[i] && all[j] == out[j - acc.len()]);
        }
    }
}


/// A new node without parent or children keeps a fresh range fresh, and the
/// parentless trees in it as they were.
pub proof fn lemma_push_keeps(
    d: Seq<NodeView>,
    v: NodeView,
    lo: int,
    kids: Seq<usize>,
    kts: Seq<TreeView>,
)
    requires
        0 <= lo <= d.len(),
        fresh_ok(d, lo, d.len() as int),
        v.children.len() == 0,
        loose_roots(d, kids, lo, d.len() as int),
        forest_in(d, kids, kts, lo, d.len() as int),
    ensures
        extends(d, d.push(v)),
        fresh_ok(d.push(v), lo, d.len() as int + 1),
        loose_roots(d.push(v), kids, lo, d.len() as int + 1),
        forest_in(d.push(v), kids, kts, lo, d.len() as int + 1),
        forall|j: int| 0 <= j < kids.len() ==> #[trigger] kids[j] != d.len(),
{
    let d2 = d.push(v);
    assert forall|k: int| 0 <= k < d.len() implies #[trigger] d2[k] == d[k] by {}
    assert forall|x: int, j: int| lo <= x < d.len() as int + 1 && 0 <= j < d2[x].children.len() implies {
        let c = #[trigger] d2[x].children[j] as int;
        &&& lo <= c < d.len() as int + 1
        &&& d2[c].parent == Some(x as usize)
    } by {
        let c = d[x].children[j] as int;
        assert(d2[c] == d[c]);
    }
    lemma_forest_extends(d, d2, kids, kts, lo, d.len() as int);
    lemma_forest_widen(d2, kids, kts, lo, d.len() as int, lo, d.len() as int + 1);
    assert forall|j: int| 0 <= j < kids.len() implies lo <= #[trigger] kids[j] < d.len() as int + 1 && d2[kids[j] as int].parent is None by {
        assert(d2[kids[j] as int] == d[kids[j] as int]);
    }
}


/// Extending is transitive.
pub proof fn lemma_extends_trans(d1: Seq<NodeView>, d2: Seq<NodeView>, d3: Seq<NodeView>)
    requires
        extends(d1, d2),
        extends(d2, d3),
    ensures
        extends(d1, d3),
{
    assert forall|k: int| 0 <= k < d1.len() implies #[trigger] d3[k] == d1[k] by {
        assert(d3[k] == d2[k]);
    }
}

/// Nothing built.
pub proof fn lemma_built_nothing(d: Seq<NodeView>)
    ensures
        built(d, d, seq![], seq![]),
{
}

/// One new node without parent or children is built as the tree `t`.
pub proof fn lemma_built_leaf(d: Seq<NodeView>, v: NodeView, t: TreeView, r: usize)
    requires
        r == d.len(),
        v.children.len() == 0,
        v.parent is None,
        tree_in(d.push(v), d.len() as int, t, d.len() as int, d.len() as int + 1),
    ensures
        built(d, d.push(v), seq![r], seq![t]),
{
    let d2 = d.push(v);
    assert forall|k: int| 0 <= k < d.len() implies #[trigger] d2[k] == d[k] by {}
    assert(seq![r].subrange(0, 0) =~= Seq::<usize>::empty());
    assert(seq![t].subrange(0, 0) =~= Seq::<TreeView>::empty());
    assert(extends(d, d2));
    assert(fresh_ok(d2, d.len() as int, d2.len() as int));
    assert(loose_roots(d2, seq![r], d.len() as int, d2.len() as int));
    lemma_forest_push(d2, seq![], seq![], r, t, d.len() as int, d2.len() as int);
    assert(seq![].push(r) =~= seq![r]);
    assert(seq![].push(t) =~= seq![t]);
}

/// The parentless trees `a + b`, and then one more new parentless node `r`
/// put between them.
pub proof fn lemma_loose_insert(d1: Seq<NodeView>, d2: Seq<NodeView>, a: Seq<usize>, b: Seq<usize>, r: usize, lo: int)
    requires
        loose_roots(d1, a + b, lo, d1.len() as int),
        0 <= lo <= d1.len(),
        extends(d1, d2),
        d1.len() <= r < d2.len(),
        d2[r as int].parent is None,
    ensures
        loose_roots(d2, a.push(r) + b, lo, d2.len() as int),
{
    let s1 = a + b;
    let s2 = a.push(r) + b;
    assert forall|j: int| 0 <= j < s2.len() implies lo <= #[trigger] s2[j] < d2.len() && d2[s2[j] as int].parent is None by {
        if j < a.len() {
            assert(s2[j] == s1[j]);
            assert(d2[s1[j] as int] == d1[s1[j] as int]);
        } else if j > a.len() {
            assert(s2[j] == s1[j - 1]);
            assert(d2[s1[j - 1] as int] == d1[s1[j - 1] as int]);
        } else {
            assert(s2[j] == r);
            assert(lo <= d1.len());
        }
    }
    assert forall|i: int, j: int| 0 <= i < j < s2.len() implies #[trigger] s2[i] != #[trigger] s2[j] by {
        let fi = if i < a.len() { i } else if i > a.len() { i - 1 } else { -1 };
        let fj = if j < a.len() { j } else if j > a.len() { j - 1 } else { -1 };
        if fi >= 0 {
            assert(s2[i] == s1[fi]);
            assert(s1[fi] < d1.len());
        }
        if fj >= 0 {
            assert(s2[j] == s1[fj]);
            assert(s1[fj] < d1.len());
        }
        if fi >= 0 && fj >= 0 {
            assert(fi < fj);
        }
    }
}


/// A tree stands in an arena that extends it.
pub proof fn lemma_tree_extends(d1: Seq<NodeView>, d2: Seq<NodeView>, n: int, t: TreeView, lo: int, hi: int)
    requires
        tree_in(d1, n, t, lo, hi),
        extends(d1, d2),
        0 <= lo,
        hi <= d1.len(),
    ensures
        tree_in(d2, n, t, lo, hi),
        tree_in(d2, n, t, lo, d2.len() as int),
{
    assert forall|k: int| lo <= k < hi implies #[trigger] d2[k].kind == d1[k].kind && d2[k].children
        == d1[k].children by {
        assert(d2[k] == d1[k]);
    }
    lemma_tree_same_shape(d1, d2, n, t, lo, hi);
    lemma_tree_widen(d2, n, t, lo, hi, lo, d2.len() as int);
}

/// A fresh range stays fresh when what is built after it is fresh too.
pub proof fn lemma_fresh_join_built(d1: Seq<NodeView>, d2: Seq<NodeView>, lo: int)
    requires
        0 <= lo <= d1.len(),
        fresh_ok(d1, lo, d1.len() as int),
        extends(d1, d2),
        fresh_ok(d2, d1.len() as int, d2.len() as int),
    ensures
        fresh_ok(d2, lo, d2.len() as int),
{
    lemma_fresh_join(d1, d2, lo, d1.len() as int, d2.len() as int);
}

/// Leaving the parentless root `x` out of a list of parentless roots.
pub proof fn lemma_loose_drop(d: Seq<NodeView>, a: Seq<usize>, x: usize, b: Seq<usize>, lo: int)
    requires
        loose_roots(d, a + (seq![x] + b), lo, d.len() as int),
    ensures
        loose_roots(d, a + b, lo, d.len() as int),
{
    let s1 = a + (seq![x] + b);
    let s2 = a + b;
    assert forall|j: int| 0 <= j < s2.len() implies lo <= #[trigger] s2[j] < d.len() && d[s2[j] as int].parent is None by {
        if j < a.len() {
            assert(s2[j] == s1[j]);
        } else {
            assert(s2[j] == s1[j + 1]);
        }
    }
    assert forall|i: int, j: int| 0 <= i < j < s2.len() implies #[trigger] s2[i] != #[trigger] s2[j] by {
        let fi = if i < a.len() { i } else { i + 1 };
        let fj = if j < a.len() { j } else { j + 1 };
        assert(s2[i] == s1[fi]);
        assert(s2[j] == s1[fj]);
    }
}

} // verus!
