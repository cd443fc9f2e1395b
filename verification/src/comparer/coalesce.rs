//! Reassembling the marked-up tree from correlated atoms: atoms that share
//! an ancestor identity at a nesting level are gathered under one rebuilt
//! element, level by level, and each leaf is labelled with its status.

use vstd::prelude::*;

use super::atoms::ComparisonUnitAtom;
use super::block_clone::copy_subtree;
use super::produce::{delete_text_in_opaque, is_txbx_from_level, renamed, rename_one, status_str, xml_space_attr, RevIdSource};
use super::CorrelationStatus;
use crate::namespaces::{pt_uri, M, PT, W};
use crate::text::{str_eq, u64_to_decimal};
use crate::tree::{extends, fresh_ok, loose_roots};
use crate::xml::{
    AttrView, has_name, attached, descendants_of, detached, ids, name_of, select_below, with_attr, Dom, KindView, NodeId,
    NodeView, XName, XNameView,
};

verus! {

// ── growing an arena ────────────────────────────────────────────────────────

/// From `d0` to `d`, nodes were only added; the new nodes list as children
/// only new nodes that name them as parent, and `out` are distinct new
/// nodes without a parent.
pub open spec fn grown(d0: Seq<NodeView>, d: Seq<NodeView>, out: Seq<usize>) -> bool {
    &&& extends(d0, d)
    &&& fresh_ok(d, d0.len() as int, d.len() as int)
    &&& loose_roots(d, out, d0.len() as int, d.len() as int)
}

/// `d2` differs from `d` at most in the kind of node `n`.
pub open spec fn kind_only(d: Seq<NodeView>, d2: Seq<NodeView>, n: int) -> bool {
    &&& d2.len() == d.len()
    &&& forall|k: int| 0 <= k < d.len() && k != n ==> #[trigger] d2[k] == d[k]
    &&& 0 <= n < d.len() ==> d2[n].parent == d[n].parent && d2[n].children == d[n].children
}

proof fn lemma_kind_only_trans(d1: Seq<NodeView>, d2: Seq<NodeView>, d3: Seq<NodeView>, n: int)
    requires
        kind_only(d1, d2, n),
        kind_only(d2, d3, n),
    ensures
        kind_only(d1, d3, n),
{
    assert forall|k: int| 0 <= k < d1.len() && k != n implies #[trigger] d3[k] == d1[k] by {
        assert(d3[k] == d2[k]);
    }
}

proof fn lemma_with_attr_kind_only(d: Seq<NodeView>, n: int, name: XNameView, v: Option<Seq<char>>)
    ensures
        kind_only(d, with_attr(d, n, name, v), n),
{
}

proof fn lemma_rename_kind_only(d: Seq<NodeView>, n: int, nm: XNameView)
    ensures
        kind_only(d, rename_one(d, n, nm), n),
{
}

/// Changing the kind of a new node keeps the growth.
proof fn lemma_grown_kind(d0: Seq<NodeView>, d: Seq<NodeView>, d2: Seq<NodeView>, out: Seq<usize>, n: int)
    requires
        grown(d0, d, out),
        kind_only(d, d2, n),
        d0.len() <= n,
    ensures
        grown(d0, d2, out),
{
    assert forall|k: int| 0 <= k < d0.len() implies #[trigger] d2[k] == d0[k] by {
        assert(d2[k] == d[k]);
    }
    assert forall|x: int, j: int| d0.len() <= x < d2.len() && 0 <= j < d2[x].children.len() implies {
        let c = #[trigger] d2[x].children[j] as int;
        &&& d0.len() <= c < d2.len()
        &&& d2[c].parent == Some(x as usize)
    } by {
        assert(d2[x].children == d[x].children);
        let c = d[x].children[j] as int;
        assert(d2[c].parent == d[c].parent);
    }
    assert forall|j: int| 0 <= j < out.len() implies d0.len() <= #[trigger] out[j] < d2.len()
        && d2[out[j] as int].parent is None by {
        assert(d2[out[j] as int].parent == d[out[j] as int].parent);
    }
}

/// A new node without parent or children, listed or not.
proof fn lemma_grown_push(d0: Seq<NodeView>, d: Seq<NodeView>, out: Seq<usize>, v: NodeView, r: usize)
    requires
        grown(d0, d, out),
        r == d.len(),
        v.parent is None,
        v.children.len() == 0,
    ensures
        grown(d0, d.push(v), out),
        grown(d0, d.push(v), out.push(r)),
{
    let d2 = d.push(v);
    assert forall|k: int| 0 <= k < d0.len() implies #[trigger] d2[k] == d0[k] by {
        assert(d2[k] == d[k]);
    }
    assert forall|x: int, j: int| d0.len() <= x < d2.len() && 0 <= j < d2[x].children.len() implies {
        let c = #[trigger] d2[x].children[j] as int;
        &&& d0.len() <= c < d2.len()
        &&& d2[c].parent == Some(x as usize)
    } by {
        assert(x < d.len());
        assert(d2[x] == d[x]);
        let c = d[x].children[j] as int;
        assert(d2[c] == d[c]);
    }
    assert forall|j: int| 0 <= j < out.len() implies d0.len() <= #[trigger] out[j] < d2.len()
        && d2[out[j] as int].parent is None by {
        assert(d2[out[j] as int] == d[out[j] as int]);
    }
    let o2 = out.push(r);
    assert forall|j: int| 0 <= j < o2.len() implies d0.len() <= #[trigger] o2[j] < d2.len()
        && d2[o2[j] as int].parent is None by {
        if j < out.len() {
            assert(o2[j] == out[j]);
            assert(d2[out[j] as int] == d[out[j] as int]);
        }
    }
    assert forall|i: int, j: int| 0 <= i < j < o2.len() implies #[trigger] o2[i] != #[trigger] o2[j] by {
        if j < out.len() {
            assert(o2[i] == out[i] && o2[j] == out[j]);
        } else {
            assert(o2[i] == out[i]);
        }
    }
}

/// A new text node below a new node.
proof fn lemma_grown_text(d0: Seq<NodeView>, d: Seq<NodeView>, out: Seq<usize>, pu: usize, t: Seq<char>, r: usize)
    requires
        grown(d0, d, out),
        d0.len() <= pu < d.len(),
        r == d.len(),
    ensures
        grown(
            d0,
            d.update(pu as int, NodeView { children: d[pu as int].children.push(r), ..d[pu as int] }).push(
                NodeView { kind: KindView::Text { value: t }, parent: Some(pu), children: seq![] },
            ),
            out,
        ),
{
    let p = pu as int;
    let d1 = d.update(p, NodeView { children: d[p].children.push(r), ..d[p] });
    let d2 = d1.push(
        NodeView { kind: KindView::Text { value: t }, parent: Some(pu), children: seq![] },
    );
    assert forall|k: int| 0 <= k < d0.len() implies #[trigger] d2[k] == d0[k] by {
        assert(d2[k] == d[k]);
    }
    assert forall|x: int, j: int| d0.len() <= x < d2.len() && 0 <= j < d2[x].children.len() implies {
        let c = #[trigger] d2[x].children[j] as int;
        &&& d0.len() <= c < d2.len()
        &&& d2[c].parent == Some(x as usize)
    } by {
        assert(x < d.len());
        if x == p {
            if j < d[p].children.len() {
                let c = d[p].children[j] as int;
                assert(d2[x].children[j] == c);
                assert(c != d.len());
                assert(d2[c].parent == d[c].parent);
            } else {
                assert(d2[x].children[j] == r);
                assert(d2[r as int].parent == Some(pu));
            }
        } else {
            assert(d2[x] == d[x]);
            let c = d[x].children[j] as int;
            assert(c < d.len());
            if c == p {
                assert(d2[c].parent == d[c].parent);
            } else {
                assert(d2[c] == d[c]);
            }
        }
    }
    assert forall|j: int| 0 <= j < out.len() implies d0.len() <= #[trigger] out[j] < d2.len()
        && d2[out[j] as int].parent is None by {
        assert(d2[out[j] as int].parent == d[out[j] as int].parent);
    }
}

/// Two growths in a row.
proof fn lemma_grown_join(d0: Seq<NodeView>, d1: Seq<NodeView>, d2: Seq<NodeView>, a: Seq<usize>, b: Seq<usize>)
    requires
        grown(d0, d1, a),
        grown(d1, d2, b),
    ensures
        grown(d0, d2, a + b),
{
    assert forall|k: int| 0 <= k < d0.len() implies #[trigger] d2[k] == d0[k] by {
        assert(d2[k] == d1[k]);
    }
    crate::tree::lemma_fresh_join(d1, d2, d0.len() as int, d1.len() as int, d2.len() as int);
    let ab = a + b;
    assert forall|j: int| 0 <= j < ab.len() implies d0.len() <= #[trigger] ab[j] < d2.len()
        && d2[ab[j] as int].parent is None by {
        if j < a.len() {
            assert(ab[j] == a[j]);
            assert(d2[a[j] as int] == d1[a[j] as int]);
        } else {
            assert(ab[j] == b[j - a.len()]);
        }
    }
    assert forall|i: int, j: int| 0 <= i < j < ab.len() implies #[trigger] ab[i] != #[trigger] ab[j] by {
        if j < a.len() {
            assert(ab[i] == a[i] && ab[j] == a[j]);
        } else if i < a.len() {
            assert(ab[i] == a[i] && ab[j] == b[j - a.len()]);
        } else {
            assert(ab[i] == b[i - a.len()] && ab[j] == b[j - a.len()]);
        }
    }
}

/// Making the listed parentless node `c` the last child of the new node `p`
/// (listed before it) unlists it.
proof fn lemma_grown_add(d0: Seq<NodeView>, d: Seq<NodeView>, a: Seq<usize>, c: usize, b: Seq<usize>, p: usize)
    requires
        grown(d0, d, a + seq![c] + b),
        (a + b).contains(p),
    ensures
        grown(
            d0,
            attached(detached(d, c as int), p as int, detached(d, c as int)[p as int].children.len() as int, c as int),
            a + b,
        ),
        detached(d, c as int) == d,
{
    let l = a + seq![c] + b;
    let ip = choose|i: int| 0 <= i < (a + b).len() && (a + b)[i] == p;
    let ip2 = if ip < a.len() { ip } else { ip + 1 };
    assert(l[ip2] == p);
    assert(l[a.len() as int] == c);
    assert(p != c);
    assert(d[c as int].parent is None);
    let d2 = attached(d, p as int, d[p as int].children.len() as int, c as int);
    assert(d[p as int].children.insert(d[p as int].children.len() as int, c) =~= d[p as int].children.push(c));
    assert forall|k: int| 0 <= k < d0.len() implies #[trigger] d2[k] == d0[k] by {
        assert(k != p && k != c);
    }
    assert forall|x: int, j: int| d0.len() <= x < d2.len() && 0 <= j < d2[x].children.len() implies {
        let ch = #[trigger] d2[x].children[j] as int;
        &&& d0.len() <= ch < d2.len()
        &&& d2[ch].parent == Some(x as usize)
    } by {
        if x == p {
            if j < d[p as int].children.len() {
                let ch = d[p as int].children[j] as int;
                assert(d2[x].children[j] == ch);
                assert(d[ch].parent == Some(p));
                assert(ch != c);
            }
        } else {
            assert(d2[x].children == d[x].children);
            let ch = d[x].children[j] as int;
            assert(d[ch].parent == Some(x as usize));
            assert(ch != c);
        }
    }
    let ab = a + b;
    assert forall|j: int| 0 <= j < ab.len() implies d0.len() <= #[trigger] ab[j] < d2.len()
        && d2[ab[j] as int].parent is None by {
        if j < a.len() {
            assert(ab[j] == l[j]);
            assert(j != a.len());
            assert(l[j] != c);
        } else {
            assert(ab[j] == l[j + 1]);
            assert(l[j + 1] != c);
        }
    }
    assert forall|i: int, j: int| 0 <= i < j < ab.len() implies #[trigger] ab[i] != #[trigger] ab[j] by {
        let i2 = if i < a.len() { i } else { i + 1 };
        let j2 = if j < a.len() { j } else { j + 1 };
        assert(ab[i] == l[i2] && ab[j] == l[j2]);
    }
}

/// The descendants of a new node are new.
proof fn lemma_select_fresh(d: Seq<NodeView>, cs: Seq<usize>, fuel: nat, f: Option<XNameView>, lo: int)
    requires
        fresh_ok(d, lo, d.len() as int),
        forall|j: int| 0 <= j < cs.len() ==> lo <= #[trigger] cs[j] < d.len(),
    ensures
        forall|j: int|
            0 <= j < select_below(d, cs, fuel, f).len() ==> lo <= #[trigger] select_below(d, cs, fuel, f)[j]
                < d.len(),
    decreases fuel, cs.len(),
{
    if cs.len() > 0 {
        let c = cs.last();
        assert forall|j: int| 0 <= j < cs.drop_last().len() implies lo <= #[trigger] cs.drop_last()[j] < d.len() by {
            assert(cs.drop_last()[j] == cs[j]);
        }
        lemma_select_fresh(d, cs.drop_last(), fuel, f, lo);
        let a = select_below(d, cs.drop_last(), fuel, f);
        let b: Seq<usize> = if crate::xml::selects(d, c as int, f) { seq![c] } else { seq![] };
        let e: Seq<usize> = if fuel == 0 || c >= d.len() {
            seq![]
        } else {
            select_below(d, d[c as int].children, (fuel - 1) as nat, f)
        };
        if fuel > 0 {
            assert forall|j: int| 0 <= j < d[c as int].children.len() implies lo <= #[trigger] d[c as int].children[j] < d.len() by {}
            lemma_select_fresh(d, d[c as int].children, (fuel - 1) as nat, f, lo);
        }
        assert(select_below(d, cs, fuel, f) == a + b + e);
        assert forall|j: int| 0 <= j < (a + b + e).len() implies lo <= #[trigger] (a + b + e)[j] < d.len() by {
            if j < a.len() {
                assert((a + b + e)[j] == a[j]);
            } else if j < a.len() + b.len() {
                assert((a + b + e)[j] == c);
            } else {
                assert((a + b + e)[j] == e[j - a.len() - b.len()]);
            }
        }
    }
}

/// Renaming new nodes keeps the growth.
proof fn lemma_grown_renamed(d0: Seq<NodeView>, d: Seq<NodeView>, out: Seq<usize>, ns: Seq<usize>, nm: XNameView)
    requires
        grown(d0, d, out),
        forall|j: int| 0 <= j < ns.len() ==> d0.len() <= #[trigger] ns[j] < d.len(),
    ensures
        grown(d0, renamed(d, ns, nm), out),
        renamed(d, ns, nm).len() == d.len(),
    decreases ns.len(),
{
    if ns.len() > 0 {
        assert forall|j: int| 0 <= j < ns.drop_last().len() implies d0.len() <= #[trigger] ns.drop_last()[j] < d.len() by {
            assert(ns.drop_last()[j] == ns[j]);
        }
        lemma_grown_renamed(d0, d, out, ns.drop_last(), nm);
        let r1 = renamed(d, ns.drop_last(), nm);
        lemma_rename_kind_only(r1, ns.last() as int, nm);
        lemma_grown_kind(d0, r1, rename_one(r1, ns.last() as int, nm), out, ns.last() as int);
    }
}

// ── what stays put ──────────────────────────────────────────────────────────

/// From `d1` to `d2` the arena did not shrink, and the nodes below `lo`
/// kept their kinds and child lists.
pub open spec fn kept(d1: Seq<NodeView>, d2: Seq<NodeView>, lo: int) -> bool {
    &&& d1.len() <= d2.len()
    &&& 0 <= lo <= d1.len()
    &&& forall|k: int| 0 <= k < lo ==> #[trigger] d2[k].kind == d1[k].kind && d2[k].children == d1[k].children
}

proof fn lemma_kept_trans(d1: Seq<NodeView>, d2: Seq<NodeView>, d3: Seq<NodeView>, lo: int)
    requires
        kept(d1, d2, lo),
        kept(d2, d3, lo),
    ensures
        kept(d1, d3, lo),
{
    assert forall|k: int| 0 <= k < lo implies #[trigger] d3[k].kind == d1[k].kind && d3[k].children == d1[k].children by {
        assert(d3[k].kind == d2[k].kind);
    }
}

proof fn lemma_kept_extends(d1: Seq<NodeView>, d2: Seq<NodeView>, lo: int)
    requires
        extends(d1, d2),
        0 <= lo <= d1.len(),
    ensures
        kept(d1, d2, lo),
{
    assert forall|k: int| 0 <= k < lo implies #[trigger] d2[k].kind == d1[k].kind && d2[k].children == d1[k].children by {
        assert(d2[k] == d1[k]);
    }
}

proof fn lemma_kept_kind(d: Seq<NodeView>, d2: Seq<NodeView>, n: int, lo: int)
    requires
        kind_only(d, d2, n),
        0 <= lo <= n,
        lo <= d.len(),
    ensures
        kept(d, d2, lo),
{
    assert forall|k: int| 0 <= k < lo implies #[trigger] d2[k].kind == d[k].kind && d2[k].children == d[k].children by {
        assert(d2[k] == d[k]);
    }
}

proof fn lemma_kept_add(d: Seq<NodeView>, p: int, c: int, lo: int)
    requires
        0 <= c < d.len(),
        0 <= lo <= p < d.len(),
        d[c].parent is None,
    ensures
        kept(d, attached(detached(d, c), p, detached(d, c)[p].children.len() as int, c), lo),
{
    let d2 = attached(detached(d, c), p, detached(d, c)[p].children.len() as int, c);
    assert(detached(d, c) == d);
    assert forall|k: int| 0 <= k < lo implies #[trigger] d2[k].kind == d[k].kind && d2[k].children == d[k].children by {
        assert(k != p);
    }
}

proof fn lemma_kept_text(d: Seq<NodeView>, pu: usize, r: usize, t: Seq<char>, lo: int)
    requires
        0 <= lo <= pu < d.len(),
        r == d.len(),
    ensures
        kept(
            d,
            d.update(pu as int, NodeView { children: d[pu as int].children.push(r), ..d[pu as int] }).push(
                NodeView { kind: KindView::Text { value: t }, parent: Some(pu), children: seq![] },
            ),
            lo,
        ),
{
    let d2 = d.update(pu as int, NodeView { children: d[pu as int].children.push(r), ..d[pu as int] }).push(
        NodeView { kind: KindView::Text { value: t }, parent: Some(pu), children: seq![] },
    );
    assert forall|k: int| 0 <= k < lo implies #[trigger] d2[k].kind == d[k].kind && d2[k].children == d[k].children by {
        assert(k != pu);
    }
}

proof fn lemma_kept_renamed(d: Seq<NodeView>, ns: Seq<usize>, nm: XNameView, lo: int)
    requires
        0 <= lo <= d.len(),
        forall|j: int| 0 <= j < ns.len() ==> lo <= #[trigger] ns[j] < d.len(),
    ensures
        kept(d, renamed(d, ns, nm), lo),
    decreases ns.len(),
{
    if ns.len() == 0 {
        assert(kept(d, d, lo));
    } else {
        assert forall|j: int| 0 <= j < ns.drop_last().len() implies lo <= #[trigger] ns.drop_last()[j] < d.len() by {
            assert(ns.drop_last()[j] == ns[j]);
        }
        lemma_kept_renamed(d, ns.drop_last(), nm, lo);
        let r1 = renamed(d, ns.drop_last(), nm);
        lemma_rename_kind_only(r1, ns.last() as int, nm);
        lemma_kept_kind(r1, rename_one(r1, ns.last() as int, nm), ns.last() as int, lo);
        lemma_kept_trans(d, r1, rename_one(r1, ns.last() as int, nm), lo);
    }
}

proof fn lemma_kept_mono(d1: Seq<NodeView>, d2: Seq<NodeView>, lo: int, hi: int)
    requires
        kept(d1, d2, hi),
        0 <= lo <= hi,
    ensures
        kept(d1, d2, lo),
{
}

proof fn lemma_kept_refl(d: Seq<NodeView>, lo: int)
    requires
        0 <= lo <= d.len(),
    ensures
        kept(d, d, lo),
{
}

proof fn lemma_kept_step_kind(de: Seq<NodeView>, d1: Seq<NodeView>, d2: Seq<NodeView>, n: int, lo: int)
    requires
        kept(de, d1, lo),
        kind_only(d1, d2, n),
        0 <= lo <= n,
    ensures
        kept(de, d2, lo),
{
    lemma_kept_kind(d1, d2, n, lo);
    lemma_kept_trans(de, d1, d2, lo);
}

proof fn lemma_kept_step_ext(de: Seq<NodeView>, d1: Seq<NodeView>, d2: Seq<NodeView>, lo: int)
    requires
        kept(de, d1, lo),
        extends(d1, d2),
    ensures
        kept(de, d2, lo),
{
    lemma_kept_extends(d1, d2, lo);
    lemma_kept_trans(de, d1, d2, lo);
}

proof fn lemma_kept_step_add(de: Seq<NodeView>, d1: Seq<NodeView>, p: int, c: int, lo: int)
    requires
        kept(de, d1, lo),
        0 <= c < d1.len(),
        0 <= lo <= p < d1.len(),
        d1[c].parent is None,
    ensures
        kept(de, attached(detached(d1, c), p, detached(d1, c)[p].children.len() as int, c), lo),
{
    lemma_kept_add(d1, p, c, lo);
    lemma_kept_trans(de, d1, attached(detached(d1, c), p, detached(d1, c)[p].children.len() as int, c), lo);
}

// ── the atoms being gathered ────────────────────────────────────────────────

/// Every atom's ancestors are elements of `d`, and its content element a
/// node of `d`.
pub open spec fn atoms_in(d: Seq<NodeView>, atoms: Seq<ComparisonUnitAtom>) -> bool {
    forall|i: int|
        0 <= i < atoms.len() ==> {
            &&& (#[trigger] atoms[i]).content_element.0 < d.len()
            &&& forall|k: int|
                0 <= k < atoms[i].ancestor_elements@.len() ==> {
                    &&& (#[trigger] atoms[i].ancestor_elements@[k]).0 < d.len()
                    &&& name_of(d, atoms[i].ancestor_elements@[k].0 as int) is Some
                }
        }
}

proof fn lemma_atoms_in_extends(d1: Seq<NodeView>, d2: Seq<NodeView>, atoms: Seq<ComparisonUnitAtom>)
    requires
        atoms_in(d1, atoms),
        extends(d1, d2),
    ensures
        atoms_in(d2, atoms),
{
    assert forall|i: int, k: int|
        0 <= i < atoms.len() && 0 <= k < atoms[i].ancestor_elements@.len() implies name_of(
        d2,
        (#[trigger] atoms[i].ancestor_elements@[k]).0 as int,
    ) is Some by {
        let n = atoms[i].ancestor_elements@[k].0 as int;
        assert(d2[n] == d1[n]);
    }
}

/// The atom has an ancestor identity at `level`.
pub open spec fn keyed(a: ComparisonUnitAtom, level: int) -> bool {
    &&& level < a.ancestor_elements@.len()
    &&& a.ancestor_unids matches Some(u) && level < u@.len() && u@[level]@.len() > 0
}

/// The atoms at positions `idx`, each of at most `depth` ancestors.
pub open spec fn idx_ok(atoms: Seq<ComparisonUnitAtom>, idx: Seq<usize>, depth: int) -> bool {
    forall|j: int|
        0 <= j < idx.len() ==> #[trigger] idx[j] < atoms.len() && atoms[idx[j] as int].ancestor_elements@.len()
            <= depth
}

/// The most ancestors any atom has.
pub open spec fn max_depth(atoms: Seq<ComparisonUnitAtom>) -> nat
    decreases atoms.len(),
{
    if atoms.len() == 0 {
        0
    } else {
        let m = max_depth(atoms.drop_last());
        let l = atoms.last().ancestor_elements@.len();
        if m < l {
            l
        } else {
            m
        }
    }
}

proof fn lemma_max_depth(atoms: Seq<ComparisonUnitAtom>)
    ensures
        forall|i: int| 0 <= i < atoms.len() ==> (#[trigger] atoms[i]).ancestor_elements@.len() <= max_depth(atoms),
    decreases atoms.len(),
{
    if atoms.len() > 0 {
        lemma_max_depth(atoms.drop_last());
        assert forall|i: int| 0 <= i < atoms.len() implies (#[trigger] atoms[i]).ancestor_elements@.len() <= max_depth(atoms) by {
            if i < atoms.len() - 1 {
                assert(atoms[i] == atoms.drop_last()[i]);
            }
        }
    }
}

/// The number of members of all groups.
pub open spec fn total(gs: Seq<Seq<usize>>) -> nat
    decreases gs.len(),
{
    if gs.len() == 0 {
        0
    } else {
        total(gs.drop_last()) + gs.last().len()
    }
}

proof fn lemma_total_update(gs: Seq<Seq<usize>>, k: int, x: usize)
    requires
        0 <= k < gs.len(),
    ensures
        total(gs.update(k, gs[k].push(x))) == total(gs) + 1,
    decreases gs.len(),
{
    let g2 = gs.update(k, gs[k].push(x));
    if k == gs.len() - 1 {
        assert(g2.drop_last() =~= gs.drop_last());
    } else {
        lemma_total_update(gs.drop_last(), k, x);
        assert(g2.drop_last() =~= gs.drop_last().update(k, gs[k].push(x)));
    }
}

proof fn lemma_total_take(gs: Seq<Seq<usize>>, k: int)
    requires
        0 <= k < gs.len(),
    ensures
        total(gs.take(k + 1)) == total(gs.take(k)) + gs[k].len(),
        total(gs.take(k)) + gs[k].len() <= total(gs),
    decreases gs.len(),
{
    assert(gs.take(k + 1).drop_last() =~= gs.take(k));
    if k < gs.len() - 1 {
        lemma_total_take(gs.drop_last(), k);
        assert(gs.drop_last().take(k) =~= gs.take(k));
        assert(gs.drop_last().take(k + 1) =~= gs.take(k + 1));
    } else {
        assert(gs.take(k + 1) =~= gs);
    }
}

// ── small steps on new nodes ───────────────────────────────────────────────

/// Sets attribute `name` of node `n` to `value`.
fn set_on(dom: &mut Dom, n: NodeId, name: &XName, value: &str)
    requires
        old(dom).wf(),
    ensures
        final(dom).wf(),
        kind_only(old(dom)@, final(dom)@, n.0 as int),
        final(dom)@ == with_attr(old(dom)@, n.0 as int, name@, Some(value@)),
{
    dom.set_attribute_value(n, name, Some(value));
    proof {
        lemma_with_attr_kind_only(old(dom)@, n.0 as int, name@, Some(value@));
    }
}

/// `d` with the attributes `sets` set in order on node `n`.
pub open spec fn with_attrs(d: Seq<NodeView>, n: int, sets: Seq<AttrView>) -> Seq<NodeView>
    decreases sets.len(),
{
    if sets.len() == 0 {
        d
    } else {
        let a = sets.last();
        with_attr(with_attrs(d, n, sets.drop_last()), n, a.name, Some(a.value))
    }
}

/// Setting attributes on an element changes only its attribute list, as
/// setting them one by one on the list.
proof fn lemma_with_attrs_element(d: Seq<NodeView>, n: int, sets: Seq<AttrView>)
    requires
        name_of(d, n) is Some,
    ensures
        with_attrs(d, n, sets) == d.update(
            n,
            NodeView {
                kind: KindView::Element {
                    name: d[n].kind->Element_name,
                    attrs: super::block_clone::set_all(d[n].kind->Element_attrs, sets),
                },
                ..d[n]
            },
        ),
    decreases sets.len(),
{
    if sets.len() == 0 {
        assert(d.update(n, NodeView {
            kind: KindView::Element { name: d[n].kind->Element_name, attrs: d[n].kind->Element_attrs },
            ..d[n]
        }) =~= d);
    } else {
        lemma_with_attrs_element(d, n, sets.drop_last());
        let d1 = with_attrs(d, n, sets.drop_last());
        assert(name_of(d1, n) is Some);
        assert(with_attrs(d, n, sets) =~= d.update(
            n,
            NodeView {
                kind: KindView::Element {
                    name: d[n].kind->Element_name,
                    attrs: super::block_clone::set_all(d[n].kind->Element_attrs, sets),
                },
                ..d[n]
            },
        ));
    }
}

/// The attributes a status label sets, in order: `pt:Status` for a
/// deletion, insertion, move or format change, and for a move with a group
/// its group id and name.
pub open spec fn tag_list(status: CorrelationStatus, a: ComparisonUnitAtom) -> Seq<AttrView> {
    let st = AttrView { name: crate::namespaces::pt_name("Status"@), value: crate::comparer::produce::status_label(status) };
    match status {
        CorrelationStatus::Deleted | CorrelationStatus::Inserted | CorrelationStatus::FormatChanged => seq![st],
        CorrelationStatus::MovedSource | CorrelationStatus::MovedDestination => match a.move_group_id {
            Some(id) => seq![
                st,
                AttrView { name: crate::namespaces::pt_name("MoveGroupId"@), value: crate::text::decimal(id as nat) },
                AttrView {
                    name: crate::namespaces::pt_name("MoveName"@),
                    value: match a.move_name {
                        Some(m) => m@,
                        None => ""@,
                    },
                },
            ],
            None => seq![st],
        },
        _ => seq![],
    }
}

/// Labels node `node` with the status of the atom: `pt:Status`, and for a
/// move the move group and name.
fn tag_status(dom: &mut Dom, node: NodeId, status: CorrelationStatus, atom: &ComparisonUnitAtom)
    requires
        old(dom).wf(),
    ensures
        final(dom).wf(),
        kind_only(old(dom)@, final(dom)@, node.0 as int),
        final(dom)@ == with_attrs(old(dom)@, node.0 as int, tag_list(status, *atom)),
{
    let st = PT::name("Status");
    let ghost n = node.0 as int;
    let ghost tl = tag_list(status, *atom);
    proof {
        reveal_with_fuel(with_attrs, 4);
    }
    match status {
        CorrelationStatus::Deleted | CorrelationStatus::Inserted | CorrelationStatus::FormatChanged => {
            set_on(dom, node, &st, status_str(status));
            proof {
                reveal_with_fuel(with_attrs, 4);
                assert(tl.drop_last() =~= Seq::<AttrView>::empty());
            }
        },
        CorrelationStatus::MovedSource | CorrelationStatus::MovedDestination => {
            set_on(dom, node, &st, status_str(status));
            let ghost d1 = dom@;
            if let Some(id) = atom.move_group_id {
                let idt = u64_to_decimal(id as u64);
                set_on(dom, node, &PT::name("MoveGroupId"), idt.as_str());
                let ghost d2 = dom@;
                match &atom.move_name {
                    Some(mn) => set_on(dom, node, &PT::name("MoveName"), mn.as_str()),
                    None => {
                        proof {
                            reveal_strlit("");
                        }
                        set_on(dom, node, &PT::name("MoveName"), "")
                    },
                }
                proof {
                    reveal_with_fuel(with_attrs, 4);
                    lemma_kind_only_trans(d1, d2, dom@, node.0 as int);
                    assert(tl.drop_last().drop_last().drop_last() =~= Seq::<AttrView>::empty());
                    assert(d1 == with_attrs(old(dom)@, n, tl.drop_last().drop_last()));
                    assert(d2 == with_attrs(old(dom)@, n, tl.drop_last()));
                }
            } else {
                proof {
                    reveal_with_fuel(with_attrs, 4);
                    assert(tl.drop_last() =~= Seq::<AttrView>::empty());
                }
            }
            proof {
                lemma_kind_only_trans(old(dom)@, d1, dom@, node.0 as int);
            }
        },
        _ => {},
    }
}

/// Which attributes of the source element a rebuilt element takes.
#[derive(Clone, Copy, PartialEq, Eq, Debug, Structural)]
pub enum AttrCopy {
    /// All of them.
    All,
    /// Those outside the comparison's own namespace.
    Plain,
    /// Those outside the comparison's own namespace, and its pending
    /// deletion and insertion stamps.
    Run,
}

/// A stamp of a pending deletion or insertion that a rebuilt run keeps.
pub open spec fn stamp_local(l: Seq<char>) -> bool {
    ||| l == "PreDelete"@
    ||| l == "PreDelAuthor"@
    ||| l == "PreDelDate"@
    ||| l == "PreIns"@
    ||| l == "PreInsAuthor"@
    ||| l == "PreInsDate"@
}

fn keeps_attr(mode: AttrCopy, name: &XName) -> (r: bool)
    ensures
        r == match mode {
            AttrCopy::All => true,
            AttrCopy::Plain => name@.namespace != pt_uri(),
            AttrCopy::Run => name@.namespace != pt_uri() || stamp_local(name@.local),
        },
{
    match mode {
        AttrCopy::All => true,
        AttrCopy::Plain => !str_eq(name.namespace_name(), PT::uri()),
        AttrCopy::Run => {
            let l = name.local_name();
            !str_eq(name.namespace_name(), PT::uri()) || str_eq(l, "PreDelete") || str_eq(l, "PreDelAuthor")
                || str_eq(l, "PreDelDate") || str_eq(l, "PreIns") || str_eq(l, "PreInsAuthor") || str_eq(
                l,
                "PreInsDate",
            )
        },
    }
}

/// Sets on `to` the attributes of `from` that `mode` keeps, in order.
fn copy_attrs(dom: &mut Dom, from: NodeId, to: NodeId, mode: AttrCopy)
    requires
        old(dom).wf(),
        from.0 != to.0,
    ensures
        final(dom).wf(),
        kind_only(old(dom)@, final(dom)@, to.0 as int),
        name_of(final(dom)@, to.0 as int) == name_of(old(dom)@, to.0 as int),
{
    let n = dom.attr_count(from);
    let mut i: usize = 0;
    while i < n
        invariant
            dom.wf(),
            kind_only(old(dom)@, dom@, to.0 as int),
            name_of(dom@, to.0 as int) == name_of(old(dom)@, to.0 as int),
            from.0 != to.0,
            n == crate::xml::attrs_of(dom@, from.0 as int).len(),
        decreases n - i,
    {
        let ghost d1 = dom@;
        match dom.attr_at(from, i) {
            Some(a) => {
                let name = a.name.clone();
                let value = a.value.clone();
                if keeps_attr(mode, &name) {
                    set_on(dom, to, &name, value.as_str());
                    proof {
                        lemma_kind_only_trans(old(dom)@, d1, dom@, to.0 as int);
                        if from.0 < dom@.len() {
                            assert(dom@[from.0 as int] == d1[from.0 as int]);
                        }
                        assert(crate::xml::attrs_of(dom@, from.0 as int) == crate::xml::attrs_of(d1, from.0 as int));
                    }
                }
            },
            None => {},
        }
        i = i + 1;
    }
}

/// A new element named `name` without attributes, listed after `out`.
fn fresh_element(dom: &mut Dom, name: XName, Ghost(d0): Ghost<Seq<NodeView>>, Ghost(out): Ghost<Seq<usize>>) -> (r: NodeId)
    requires
        old(dom).wf(),
        grown(d0, old(dom)@, out),
    ensures
        final(dom).wf(),
        grown(d0, final(dom)@, out.push(r.0)),
        grown(old(dom)@, final(dom)@, seq![r.0]),
        r.0 == old(dom)@.len(),
        extends(old(dom)@, final(dom)@),
        final(dom)@ == old(dom)@.push(
            NodeView { kind: KindView::Element { name: name@, attrs: seq![] }, parent: None, children: seq![] },
        ),
{
    let r = dom.new_element(name);
    proof {
        lemma_grown_push(d0, old(dom)@, out, dom@.last(), r.0);
        assert(dom@ =~= old(dom)@.push(dom@.last()));
        assert(grown(old(dom)@, old(dom)@, seq![])) by {
            assert(extends(old(dom)@, old(dom)@));
        }
        lemma_grown_push(old(dom)@, old(dom)@, seq![], dom@.last(), r.0);
        assert(seq![].push(r.0) =~= seq![r.0]);
    }
    r
}

/// A verbatim copy of node `n`, listed after `out`.
fn copy_of(dom: &mut Dom, n: NodeId, Ghost(d0): Ghost<Seq<NodeView>>, Ghost(out): Ghost<Seq<usize>>) -> (r: NodeId)
    requires
        old(dom).wf(),
        grown(d0, old(dom)@, out),
        n.0 < old(dom)@.len(),
    ensures
        final(dom).wf(),
        grown(d0, final(dom)@, out.push(r.0)),
        final(dom)@.len() >= old(dom)@.len(),
        grown(old(dom)@, final(dom)@, seq![r.0]),
{
    let fuel = dom.len();
    let ghost d1 = dom@;
    let r = copy_subtree(dom, n, fuel, Ghost(d1));
    proof {
        assert(extends(d1, d1));
        lemma_grown_join(d0, d1, dom@, out, seq![r.0]);
        assert(out + seq![r.0] =~= out.push(r.0));
    }
    r
}

/// Makes the listed parentless nodes `kids` the last children of the new
/// node `p`, in order, unlisting them.
fn add_all(dom: &mut Dom, p: NodeId, kids: &Vec<NodeId>, Ghost(d0): Ghost<Seq<NodeView>>, Ghost(a): Ghost<Seq<usize>>, Ghost(b): Ghost<Seq<usize>>)
    requires
        old(dom).wf(),
        grown(d0, old(dom)@, a + ids(kids@) + b),
        (a + b).contains(p.0),
    ensures
        final(dom).wf(),
        grown(d0, final(dom)@, a + b),
        kept(old(dom)@, final(dom)@, p.0 as int),
        name_of(final(dom)@, p.0 as int) == name_of(old(dom)@, p.0 as int),
{
    let ghost ks = ids(kids@);
    let mut j: usize = 0;
    assert(ks.skip(0) =~= ks);
    proof {
        let ip = choose|i: int| 0 <= i < (a + b).len() && (a + b)[i] == p.0;
        let l = a + ks + b;
        if ip < a.len() {
            assert(l[ip] == p.0);
        } else {
            assert(l[ip + ks.len()] == p.0);
        }
        lemma_kept_refl(dom@, p.0 as int);
    }
    while j < kids.len()
        invariant
            dom.wf(),
            ks == ids(kids@),
            j <= kids@.len(),
            (a + b).contains(p.0),
            grown(d0, dom@, a + ks.skip(j as int) + b),
            p.0 < dom@.len(),
            kept(old(dom)@, dom@, p.0 as int),
            name_of(dom@, p.0 as int) == name_of(old(dom)@, p.0 as int),
        decreases kids@.len() - j,
    {
        let c = kids[j];
        let ghost l = a + ks.skip(j as int) + b;
        assert(l[a.len() as int] == c.0);
        proof {
            assert(a + ks.skip(j as int) + b =~= a + seq![c.0] + (ks.skip(j + 1) + b));
            let ip = choose|i: int| 0 <= i < (a + b).len() && (a + b)[i] == p.0;
            if ip < a.len() {
                assert((a + b)[ip] == a[ip]);
                assert(l[ip] == p.0);
            } else {
                assert((a + b)[ip] == b[ip - a.len()]);
                assert(l[ip + ks.skip(j as int).len()] == p.0);
            }
            assert(p.0 < dom@.len());
            assert((a + (ks.skip(j + 1) + b)).contains(p.0)) by {
                if ip < a.len() {
                    assert((a + (ks.skip(j + 1) + b))[ip] == p.0);
                } else {
                    assert((a + (ks.skip(j + 1) + b))[ip + ks.skip(j + 1).len()] == p.0);
                }
            }
            lemma_grown_add(d0, dom@, a, c.0, ks.skip(j + 1) + b, p.0);
            assert(a + (ks.skip(j + 1) + b) =~= a + ks.skip(j + 1) + b);
            lemma_kept_add(dom@, p.0 as int, c.0 as int, p.0 as int);
        }
        let ghost dd = dom@;
        dom.add(p, c);
        proof {
            lemma_kept_trans(old(dom)@, dd, dom@, p.0 as int);
        }
        j = j + 1;
    }
    assert(a + ks.skip(kids@.len() as int) + b =~= a + b);
}

// ── grouping ────────────────────────────────────────────────────────────────

/// The groups as sequences.
pub open spec fn gview(v: Seq<Vec<usize>>) -> Seq<Seq<usize>> {
    v.map_values(|g: Vec<usize>| g@)
}

fn copy_positions(v: &Vec<usize>) -> (r: Vec<usize>)
    ensures
        r@ == v@,
{
    let mut r: Vec<usize> = Vec::new();
    let mut i: usize = 0;
    while i < v.len()
        invariant
            i <= v@.len(),
            r@ == v@.take(i as int),
        decreases v@.len() - i,
    {
        assert(v@.take(i + 1) =~= v@.take(i as int).push(v@[i as int]));
        r.push(v[i]);
        i = i + 1;
    }
    assert(v@.take(v@.len() as int) =~= v@);
    r
}

/// The key that gathers an atom at `level`: its identity there, a bar and
/// the ancestor's local name; empty when it has no identity there.
pub open spec fn key_of(d: Seq<NodeView>, a: ComparisonUnitAtom, level: int) -> Seq<char> {
    if keyed(a, level) {
        a.ancestor_unids->Some_0@[level]@ + "|"@ + match name_of(d, a.ancestor_elements@[level].0 as int) {
            Some(n) => n.local,
            None => seq![],
        }
    } else {
        seq![]
    }
}

/// The first position of `k` among `keys`.
pub open spec fn first_key(keys: Seq<Seq<char>>, k: Seq<char>) -> Option<int>
    decreases keys.len(),
{
    if keys.len() == 0 {
        None
    } else {
        match first_key(keys.drop_last(), k) {
            Some(q) => Some(q),
            None => if keys.last() == k {
                Some(keys.len() - 1)
            } else {
                None
            },
        }
    }
}

proof fn lemma_first_key(keys: Seq<Seq<char>>, k: Seq<char>, q: int)
    requires
        0 <= q <= keys.len(),
        forall|j: int| 0 <= j < q ==> keys[j] != k,
    ensures
        q == keys.len() ==> first_key(keys, k) is None,
        q < keys.len() && keys[q] == k ==> first_key(keys, k) == Some(q),
    decreases keys.len(),
{
    if keys.len() > 0 {
        if q == keys.len() {
            lemma_first_key(keys.drop_last(), k, q - 1);
        } else if q < keys.len() - 1 {
            lemma_first_key(keys.drop_last(), k, q);
        } else {
            lemma_first_key(keys.drop_last(), k, q);
        }
    }
}

/// The atoms at positions `idx` that have an identity at `level`, gathered
/// by key in order of first appearance: the keys and the groups.
pub open spec fn key_groups(d: Seq<NodeView>, atoms: Seq<ComparisonUnitAtom>, idx: Seq<usize>, level: int) -> (
    Seq<Seq<char>>,
    Seq<Seq<usize>>,
)
    decreases idx.len(),
{
    if idx.len() == 0 {
        (seq![], seq![])
    } else {
        let (ks, gs) = key_groups(d, atoms, idx.drop_last(), level);
        let x = idx.last();
        let k = key_of(d, atoms[x as int], level);
        if k.len() == 0 {
            (ks, gs)
        } else {
            match first_key(ks, k) {
                Some(q) => (ks, gs.update(q, gs[q].push(x))),
                None => (ks.push(k), gs.push(seq![x])),
            }
        }
    }
}

/// The keys as sequences.
pub open spec fn kview(v: Seq<String>) -> Seq<Seq<char>> {
    v.map_values(|s: String| s@)
}

/// The key that gathers atoms at `level`: the ancestor identity there and
/// the ancestor's local name; empty when the atom has no identity there.
fn group_key(dom: &Dom, a: &ComparisonUnitAtom, level: usize) -> (r: String)
    ensures
        (r@.len() > 0) == keyed(*a, level as int),
        r@ == key_of(dom@, *a, level as int),
{
    if level >= a.ancestor_elements.len() {
        return String::new();
    }
    match &a.ancestor_unids {
        Some(u) => {
            if level >= u.len() {
                return String::new();
            }
            let s = u[level].as_str();
            if s.unicode_len() == 0 {
                return String::new();
            }
            let mut k = String::from_str(s);
            k.append("|");
            match dom.name(a.ancestor_elements[level]) {
                Some(nm) => k.append(nm.local_name()),
                None => {},
            }
            k
        },
        None => String::new(),
    }
}

/// The atoms at positions `idx` that have an identity at `level`, gathered
/// by identity and ancestor name in order of first appearance.
fn group_by_key(dom: &Dom, atoms: &[ComparisonUnitAtom], idx: &Vec<usize>, level: usize) -> (gs: Vec<Vec<usize>>)
    requires
        forall|j: int| 0 <= j < idx@.len() ==> #[trigger] idx@[j] < atoms@.len(),
    ensures
        total(gview(gs@)) <= idx@.len(),
        forall|q: int| 0 <= q < gs@.len() ==> (#[trigger] gs@[q])@.len() > 0,
        forall|q: int, k: int|
            0 <= q < gs@.len() && 0 <= k < gs@[q]@.len() ==> idx@.contains(#[trigger] gs@[q]@[k]) && keyed(
                atoms@[gs@[q]@[k] as int],
                level as int,
            ),
        (gs@.len() == 0) == (forall|j: int| 0 <= j < idx@.len() ==> !keyed(#[trigger] atoms@[idx@[j] as int], level as int)),
        gview(gs@) == key_groups(dom@, atoms@, idx@, level as int).1,
{
    let mut keys: Vec<String> = Vec::new();
    let mut gs: Vec<Vec<usize>> = Vec::new();
    let mut j: usize = 0;
    while j < idx.len()
        invariant
            forall|j2: int| 0 <= j2 < idx@.len() ==> #[trigger] idx@[j2] < atoms@.len(),
            j <= idx@.len(),
            keys@.len() == gs@.len(),
            total(gview(gs@)) <= j,
            forall|q: int| 0 <= q < gs@.len() ==> (#[trigger] gs@[q])@.len() > 0,
            forall|q: int, k: int|
                0 <= q < gs@.len() && 0 <= k < gs@[q]@.len() ==> idx@.contains(#[trigger] gs@[q]@[k]) && keyed(
                    atoms@[gs@[q]@[k] as int],
                    level as int,
                ),
            (gs@.len() == 0) == (forall|j2: int| 0 <= j2 < j ==> !keyed(#[trigger] atoms@[idx@[j2] as int], level as int)),
            (kview(keys@), gview(gs@)) == key_groups(dom@, atoms@, idx@.take(j as int), level as int),
        decreases idx@.len() - j,
    {
        let x = idx[j];
        assert(idx@.take(j + 1).drop_last() =~= idx@.take(j as int));
        assert(idx@.take(j + 1).last() == x);
        let k = group_key(dom, &atoms[x], level);
        assert(idx@.contains(x)) by {
            assert(idx@[j as int] == x);
        }
        if k.unicode_len() > 0 {
            let mut q: usize = 0;
            let mut found = false;
            while q < keys.len()
                invariant_except_break
                    !found,
                invariant
                    q <= keys@.len(),
                    forall|q2: int| 0 <= q2 < q ==> kview(keys@)[q2] != k@,
                ensures
                    found ==> q < keys@.len() && kview(keys@)[q as int] == k@,
                    !found ==> q == keys@.len(),
                decreases keys@.len() - q,
            {
                if str_eq(keys[q].as_str(), k.as_str()) {
                    found = true;
                    break;
                }
                q = q + 1;
            }
            let ghost gv0 = gview(gs@);
            let ghost gs0 = gs@;
            let ghost kv0 = kview(keys@);
            proof {
                if found {
                    lemma_first_key(kv0, k@, q as int);
                } else {
                    lemma_first_key(kv0, k@, kv0.len() as int);
                }
            }
            if found && q < gs.len() {
                let mut g2 = copy_positions(&gs[q]);
                g2.push(x);
                gs.set(q, g2);
                proof {
                    assert(gview(gs@) =~= gv0.update(q as int, gv0[q as int].push(x)));
                    lemma_total_update(gv0, q as int, x);
                    assert forall|q2: int, k2: int|
                        0 <= q2 < gs@.len() && 0 <= k2 < gs@[q2]@.len() implies idx@.contains(#[trigger] gs@[q2]@[k2])
                            && keyed(atoms@[gs@[q2]@[k2] as int], level as int) by {
                        if q2 == q as int && k2 == gv0[q as int].len() {
                            assert(gs@[q2]@[k2] == x);
                        } else if q2 == q as int {
                            assert(gs@[q2]@[k2] == gv0[q2][k2]);
                        }
                    }
                }
            } else {
                let mut g2: Vec<usize> = Vec::new();
                g2.push(x);
                gs.push(g2);
                keys.push(k);
                proof {
                    assert(gview(gs@) =~= gv0.push(seq![x]));
                    assert(kview(keys@) =~= kv0.push(k@));
                    assert(gv0.push(seq![x]).drop_last() =~= gv0);
                    assert forall|q2: int, k2: int|
                        0 <= q2 < gs@.len() && 0 <= k2 < gs@[q2]@.len() implies idx@.contains(#[trigger] gs@[q2]@[k2])
                            && keyed(atoms@[gs@[q2]@[k2] as int], level as int) by {
                        if q2 == gv0.len() {
                            assert(gs@[q2]@[k2] == x);
                        } else {
                            assert(gs@[q2] == gs0[q2]);
                        }
                    }
                }
            }
        }
        j = j + 1;
    }
    assert(idx@.take(idx@.len() as int) =~= idx@);
    gs
}

/// The identity of the atom at `level + 1`, empty when it has none there.
pub open spec fn next_unid_of(a: ComparisonUnitAtom, level: int) -> Seq<char> {
    if level + 1 < a.ancestor_elements@.len() && a.ancestor_unids is Some && level + 1
        < a.ancestor_unids->Some_0@.len() {
        a.ancestor_unids->Some_0@[level + 1]@
    } else {
        seq![]
    }
}

/// The key that keeps adjacent atoms of a group together.
pub open spec fn child_key_of(d: Seq<NodeView>, a: ComparisonUnitAtom, level: int) -> Seq<char> {
    next_unid_of(a, level) + "|"@ + if crate::comparer::produce::txbx_from(d, a.ancestor_elements@, level) {
        "Equal"@
    } else {
        crate::comparer::produce::status_label(a.correlation_status)
    }
}

/// The positions `g`, in order, cut into maximal runs of equal child key.
pub open spec fn adj_groups(d: Seq<NodeView>, atoms: Seq<ComparisonUnitAtom>, g: Seq<usize>, level: int) -> Seq<
    Seq<usize>,
>
    decreases g.len(),
{
    if g.len() == 0 {
        seq![]
    } else {
        let gs = adj_groups(d, atoms, g.drop_last(), level);
        let x = g.last();
        if g.len() > 1 && child_key_of(d, atoms[g[g.len() - 2] as int], level) == child_key_of(
            d,
            atoms[x as int],
            level,
        ) {
            gs.update(gs.len() - 1, gs.last().push(x))
        } else {
            gs.push(seq![x])
        }
    }
}

fn next_unid(a: &ComparisonUnitAtom, level: usize) -> (r: &str)
    ensures
        r@ == next_unid_of(*a, level as int),
{
    if level < a.ancestor_elements.len() && a.ancestor_elements.len() - level > 1 {
        match &a.ancestor_unids {
            Some(u) => {
                if level < u.len() && u.len() - level > 1 {
                    u[level + 1].as_str()
                } else {
                    proof {
                        reveal_strlit("");
                    }
                    ""
                }
            },
            None => {
                proof {
                    reveal_strlit("");
                }
                ""
            },
        }
    } else {
        proof {
            reveal_strlit("");
        }
        ""
    }
}

/// The key that keeps adjacent atoms of a group together: their identity
/// one level down and their status, text-box content counting as equal.
fn child_key(dom: &Dom, a: &ComparisonUnitAtom, level: usize) -> (r: String)
    ensures
        r@ == child_key_of(dom@, *a, level as int),
{
    proof {
        reveal_strlit("|");
        reveal_strlit("Equal");
    }
    let mut k = String::from_str(next_unid(a, level));
    k.append("|");
    if is_txbx_from_level(dom, a, level) {
        k.append("Equal");
    } else {
        k.append(status_str(a.correlation_status));
    }
    k
}

/// The positions `g`, in order, cut into runs of equal child key.
fn group_children(dom: &Dom, atoms: &[ComparisonUnitAtom], g: &Vec<usize>, level: usize) -> (cgs: Vec<Vec<usize>>)
    requires
        forall|j: int| 0 <= j < g@.len() ==> #[trigger] g@[j] < atoms@.len(),
    ensures
        total(gview(cgs@)) == g@.len(),
        forall|q: int| 0 <= q < cgs@.len() ==> (#[trigger] cgs@[q])@.len() > 0,
        forall|q: int, k: int| 0 <= q < cgs@.len() && 0 <= k < cgs@[q]@.len() ==> g@.contains(#[trigger] cgs@[q]@[k]),
        gview(cgs@) == adj_groups(dom@, atoms@, g@, level as int),
{
    let mut cgs: Vec<Vec<usize>> = Vec::new();
    let mut last = String::new();
    let mut j: usize = 0;
    while j < g.len()
        invariant
            forall|j2: int| 0 <= j2 < g@.len() ==> #[trigger] g@[j2] < atoms@.len(),
            j <= g@.len(),
            total(gview(cgs@)) == j,
            forall|q: int| 0 <= q < cgs@.len() ==> (#[trigger] cgs@[q])@.len() > 0,
            forall|q: int, k: int| 0 <= q < cgs@.len() && 0 <= k < cgs@[q]@.len() ==> g@.contains(#[trigger] cgs@[q]@[k]),
            gview(cgs@) == adj_groups(dom@, atoms@, g@.take(j as int), level as int),
            (cgs@.len() > 0) == (j > 0),
            j > 0 ==> last@ == child_key_of(dom@, atoms@[g@[j - 1] as int], level as int),
        decreases g@.len() - j,
    {
        let x = g[j];
        assert(g@.take(j + 1).drop_last() =~= g@.take(j as int));
        assert(g@.take(j + 1).last() == x);
        assert(j > 0 ==> g@.take(j + 1)[j - 1] == g@[j - 1]);
        assert(g@.contains(x)) by {
            assert(g@[j as int] == x);
        }
        let k = child_key(dom, &atoms[x], level);
        let ghost gv0 = gview(cgs@);
        let ghost cs0 = cgs@;
        let n = cgs.len();
        if n > 0 && str_eq(last.as_str(), k.as_str()) {
            let mut g2 = copy_positions(&cgs[n - 1]);
            g2.push(x);
            cgs.set(n - 1, g2);
            proof {
                assert(gview(cgs@) =~= gv0.update(n - 1, gv0[n - 1].push(x)));
                lemma_total_update(gv0, n - 1, x);
                assert forall|q: int, k2: int| 0 <= q < cgs@.len() && 0 <= k2 < cgs@[q]@.len() implies g@.contains(#[trigger] cgs@[q]@[k2]) by {
                    if q == n - 1 && k2 == gv0[q].len() {
                        assert(cgs@[q]@[k2] == x);
                    } else if q == n - 1 {
                        assert(cgs@[q]@[k2] == gv0[q][k2]);
                    } else {
                        assert(cgs@[q] == cs0[q]);
                    }
                }
            }
        } else {
            let mut g2: Vec<usize> = Vec::new();
            g2.push(x);
            cgs.push(g2);
            proof {
                assert(gview(cgs@) =~= gv0.push(seq![x]));
                assert(gv0.push(seq![x]).drop_last() =~= gv0);
                assert forall|q: int, k2: int| 0 <= q < cgs@.len() && 0 <= k2 < cgs@[q]@.len() implies g@.contains(#[trigger] cgs@[q]@[k2]) by {
                    if q == gv0.len() {
                        assert(cgs@[q]@[k2] == x);
                    } else {
                        assert(cgs@[q] == cs0[q]);
                    }
                }
            }
        }
        last = k;
        j = j + 1;
    }
    assert(g@.take(g@.len() as int) =~= g@);
    cgs
}

/// The positions of a sub-group lie among those of the group.
proof fn lemma_sub_idx(atoms: Seq<ComparisonUnitAtom>, g: Seq<usize>, cg: Seq<usize>, depth: int)
    requires
        idx_ok(atoms, g, depth),
        forall|k: int| 0 <= k < cg.len() ==> g.contains(#[trigger] cg[k]),
    ensures
        idx_ok(atoms, cg, depth),
{
    assert forall|j: int| 0 <= j < cg.len() implies #[trigger] cg[j] < atoms.len()
        && atoms[cg[j] as int].ancestor_elements@.len() <= depth by {
        assert(g.contains(cg[j]));
        let k = choose|k: int| 0 <= k < g.len() && g[k] == cg[j];
        assert(g[k] < atoms.len());
    }
}

// ── the leaves of a group ──────────────────────────────────────────────────

/// The positions `g` name atoms.
pub open spec fn in_range(atoms: Seq<ComparisonUnitAtom>, g: Seq<usize>) -> bool {
    forall|j: int| 0 <= j < g.len() ==> #[trigger] g[j] < atoms.len()
}

proof fn lemma_ids_push(s: Seq<NodeId>, x: NodeId)
    ensures
        ids(s.push(x)) == ids(s).push(x.0),
{
    assert(ids(s.push(x)) =~= ids(s).push(x.0));
}

/// After a status label, a deleted copy of opaque content has its text
/// elements renamed to deleted text; the copy stays a new tree.
proof fn lemma_grown_opaque(d0: Seq<NodeView>, d2: Seq<NodeView>, l: Seq<usize>, c: usize, status: CorrelationStatus)
    requires
        grown(d0, d2, l),
        d0.len() <= c < d2.len(),
    ensures
        grown(
            d0,
            if status == CorrelationStatus::Deleted {
                renamed(d2, descendants_of(d2, c as int, Some(crate::namespaces::w_name("t"@))), crate::namespaces::w_name("delText"@))
            } else {
                d2
            },
            l,
        ),
{
    if status == CorrelationStatus::Deleted {
        let f = Some(crate::namespaces::w_name("t"@));
        assert forall|j: int| 0 <= j < d2[c as int].children.len() implies d0.len() <= #[trigger] d2[c as int].children[j] < d2.len() by {}
        lemma_select_fresh(d2, d2[c as int].children, d2.len() as nat, f, d0.len() as int);
        lemma_grown_renamed(d0, d2, l, descendants_of(d2, c as int, f), crate::namespaces::w_name("delText"@));
    }
}

/// A status-labelled copy of the atom's content element, listed after
/// `out`; for opaque content a deletion's text becomes deleted text.
fn copy_tagged(dom: &mut Dom, a: &ComparisonUnitAtom, opaque: bool, out: &mut Vec<NodeId>, Ghost(d0): Ghost<Seq<NodeView>>)
    requires
        old(dom).wf(),
        grown(d0, old(dom)@, ids(old(out)@)),
        a.content_element.0 < old(dom)@.len(),
    ensures
        final(dom).wf(),
        grown(d0, final(dom)@, ids(final(out)@)),
        final(out)@.len() == old(out)@.len() + 1,
        final(out)@.subrange(0, old(out)@.len() as int) == old(out)@,
        kept(old(dom)@, final(dom)@, old(dom)@.len() as int),
{
    let ghost o = ids(out@);
    let ghost lo = dom@.len() as int;
    let c = copy_of(dom, a.content_element, Ghost(d0), Ghost(o));
    let ghost d1 = dom@;
    proof {
        assert(o.push(c.0)[o.len() as int] == c.0);
        assert(seq![c.0][0] == c.0);
        lemma_kept_extends(old(dom)@, d1, lo);
    }
    tag_status(dom, c, a.correlation_status, a);
    proof {
        lemma_grown_kind(d0, d1, dom@, o.push(c.0), c.0 as int);
        lemma_grown_kind(old(dom)@, d1, dom@, seq![c.0], c.0 as int);
        lemma_kept_kind(d1, dom@, c.0 as int, lo);
        lemma_kept_trans(old(dom)@, d1, dom@, lo);
    }
    if opaque {
        let ghost d2 = dom@;
        delete_text_in_opaque(dom, c, a.correlation_status);
        proof {
            lemma_grown_opaque(d0, d2, o.push(c.0), c.0, a.correlation_status);
            if a.correlation_status == CorrelationStatus::Deleted {
                let f = Some(crate::namespaces::w_name("t"@));
                assert forall|j: int| 0 <= j < d2[c.0 as int].children.len() implies lo <= #[trigger] d2[c.0 as int].children[j] < d2.len() by {}
                lemma_select_fresh(d2, d2[c.0 as int].children, d2.len() as nat, f, lo);
                lemma_kept_renamed(d2, descendants_of(d2, c.0 as int, f), crate::namespaces::w_name("delText"@), lo);
                lemma_kept_trans(old(dom)@, d2, dom@, lo);
            }
        }
    }
    out.push(c);
    proof {
        lemma_ids_push(old(out)@, c);
        assert(out@.subrange(0, old(out)@.len() as int) =~= old(out)@);
    }
}

/// A status-labelled copy of the atom's content element, made the last
/// child of the new node `p`.
fn copy_tagged_into(dom: &mut Dom, a: &ComparisonUnitAtom, p: NodeId, Ghost(d0): Ghost<Seq<NodeView>>, Ghost(l): Ghost<Seq<usize>>)
    requires
        old(dom).wf(),
        grown(d0, old(dom)@, l),
        l.contains(p.0),
        a.content_element.0 < old(dom)@.len(),
    ensures
        final(dom).wf(),
        grown(d0, final(dom)@, l),
        p.0 < old(dom)@.len() ==> kept(old(dom)@, final(dom)@, p.0 as int),
        name_of(final(dom)@, p.0 as int) == name_of(old(dom)@, p.0 as int),
{
    let ghost lo = p.0 as int;
    let c = copy_of(dom, a.content_element, Ghost(d0), Ghost(l));
    let ghost d1 = dom@;
    proof {
        assert(l.push(c.0)[l.len() as int] == c.0);
    }
    tag_status(dom, c, a.correlation_status, a);
    proof {
        lemma_grown_kind(d0, d1, dom@, l.push(c.0), c.0 as int);
        assert(l.push(c.0) =~= l + seq![c.0] + seq![]);
        assert(l + seq![] =~= l);
        assert((l + seq![]).contains(p.0));
        lemma_grown_add(d0, dom@, l, c.0, seq![], p.0);
        let ip = choose|i: int| 0 <= i < l.len() && l[i] == p.0;
        assert(l.push(c.0)[ip] == l[ip]);
        assert(l[ip] < dom@.len());
        assert(seq![c.0][0] == c.0);
        lemma_grown_kind(old(dom)@, d1, dom@, seq![c.0], c.0 as int);
        assert(p.0 < old(dom)@.len());
        assert(d1[p.0 as int] == old(dom)@[p.0 as int]);
        assert(c.0 != p.0);
        if lo < old(dom)@.len() {
            lemma_kept_extends(old(dom)@, d1, lo);
            lemma_kept_kind(d1, dom@, c.0 as int, lo);
            lemma_kept_trans(old(dom)@, d1, dom@, lo);
            lemma_kept_add(dom@, lo, c.0 as int, lo);
        }
    }
    let ghost d2 = dom@;
    dom.add(p, c);
    proof {
        if lo < old(dom)@.len() {
            lemma_kept_trans(old(dom)@, d2, dom@, lo);
        }
    }
}

/// What a returned node is known to be: anything, or a text element of the
/// given kind whose one child is a text node holding `text`.
pub enum RootShape {
    Any,
    Named { name: XNameView },
    Text { kind: KindView, text: Seq<char> },
}

/// Node `r` of `d` has shape `s`.
pub open spec fn shape_holds(d: Seq<NodeView>, r: int, s: RootShape) -> bool {
    &&& 0 <= r < d.len()
    &&& match s {
        RootShape::Any => true,
        RootShape::Named { name } => name_of(d, r) == Some(name),
        RootShape::Text { kind, text } => {
            &&& d[r].kind == kind
            &&& d[r].children.len() == 1
            &&& d[r].children[0] < d.len()
            &&& d[d[r].children[0] as int].kind == (KindView::Text { value: text })
        },
    }
}

/// The nodes `rs` of `d` have the shapes `ss`, in order.
pub open spec fn shapes_hold(d: Seq<NodeView>, rs: Seq<usize>, ss: Seq<RootShape>) -> bool {
    &&& rs.len() == ss.len()
    &&& forall|j: int| 0 <= j < rs.len() ==> shape_holds(d, #[trigger] rs[j] as int, ss[j])
}

proof fn lemma_shapes_kept(d1: Seq<NodeView>, d2: Seq<NodeView>, rs: Seq<usize>, ss: Seq<RootShape>)
    requires
        shapes_hold(d1, rs, ss),
        kept(d1, d2, d1.len() as int),
    ensures
        shapes_hold(d2, rs, ss),
{
    assert forall|j: int| 0 <= j < rs.len() implies shape_holds(d2, #[trigger] rs[j] as int, ss[j]) by {
        assert(shape_holds(d1, rs[j] as int, ss[j]));
        let r = rs[j] as int;
        assert(d2[r].kind == d1[r].kind && d2[r].children == d1[r].children);
        match ss[j] {
            RootShape::Any => {},
            RootShape::Named { name } => {},
            RootShape::Text { kind, text } => {
                let c = d1[r].children[0] as int;
                assert(d2[c].kind == d1[c].kind);
            },
        }
    }
}

proof fn lemma_shapes_push(d: Seq<NodeView>, rs: Seq<usize>, ss: Seq<RootShape>, r: usize, s: RootShape)
    requires
        shapes_hold(d, rs, ss),
        shape_holds(d, r as int, s),
    ensures
        shapes_hold(d, rs.push(r), ss.push(s)),
{
    assert forall|j: int| 0 <= j < rs.push(r).len() implies shape_holds(d, #[trigger] rs.push(r)[j] as int, ss.push(s)[j]) by {
        if j < rs.len() {
            assert(rs.push(r)[j] == rs[j]);
            assert(ss.push(s)[j] == ss[j]);
        }
    }
}

/// The text of the atoms at positions `cg`: their content elements' values
/// in `dt`, in order.
pub open spec fn concat_texts(dt: Seq<NodeView>, atoms: Seq<ComparisonUnitAtom>, cg: Seq<usize>) -> Seq<char>
    decreases cg.len(),
{
    if cg.len() == 0 {
        seq![]
    } else {
        concat_texts(dt, atoms, cg.drop_last()) + crate::xml::value_of(
            dt,
            atoms[cg.last() as int].content_element.0 as int,
        )
    }
}

/// The `xml:space` attribute a text element with `text` takes, if any.
pub open spec fn space_list(text: Seq<char>) -> Seq<AttrView> {
    match crate::comparer::produce::xml_space(text) {
        Some(v) => seq![AttrView { name: crate::comparer::produce::xml_space_name(), value: v }],
        None => seq![],
    }
}

/// The text element of a run of atoms: `w:delText` when the first atom is
/// deleted, else `w:t`, labelled with the first atom's status, with
/// `xml:space` when the text needs it, holding the atoms' text.
pub open spec fn text_shape(dt: Seq<NodeView>, atoms: Seq<ComparisonUnitAtom>, cg: Seq<usize>) -> RootShape {
    let first = atoms[cg[0] as int];
    let text = concat_texts(dt, atoms, cg);
    RootShape::Text {
        kind: KindView::Element {
            name: if first.correlation_status == CorrelationStatus::Deleted {
                crate::namespaces::w_name("delText"@)
            } else {
                crate::namespaces::w_name("t"@)
            },
            attrs: super::block_clone::set_all(seq![], tag_list(first.correlation_status, first) + space_list(text)),
        },
        text,
    }
}

/// The text elements of the runs `cgs`.
pub open spec fn text_shapes(dt: Seq<NodeView>, atoms: Seq<ComparisonUnitAtom>, cgs: Seq<Seq<usize>>) -> Seq<RootShape> {
    cgs.map_values(|cg: Seq<usize>| text_shape(dt, atoms, cg))
}

/// The texts of the atoms, read in `dt`.
pub open spec fn texts_of(dt: Seq<NodeView>, atoms: Seq<ComparisonUnitAtom>, texts: Seq<String>) -> bool {
    &&& texts.len() == atoms.len()
    &&& forall|i: int| 0 <= i < atoms.len() ==> (#[trigger] texts[i])@ == crate::xml::value_of(dt, atoms[i].content_element.0 as int)
}

proof fn lemma_txbx_stable(d0: Seq<NodeView>, d: Seq<NodeView>, anc: Seq<NodeId>, level: int)
    requires
        0 <= level,
        extends(d0, d),
        forall|k: int| 0 <= k < anc.len() ==> (#[trigger] anc[k]).0 < d0.len(),
    ensures
        crate::comparer::produce::txbx_from(d, anc, level) == crate::comparer::produce::txbx_from(d0, anc, level),
{
    let nm = crate::namespaces::w_name("txbxContent"@);
    assert forall|k: int| 0 <= k < anc.len() implies has_name(d, #[trigger] anc[k].0 as int, nm) == has_name(d0, anc[k].0 as int, nm) by {
        assert(d[anc[k].0 as int] == d0[anc[k].0 as int]);
    }
    if crate::comparer::produce::txbx_from(d, anc, level) {
        let k = choose|k: int| level <= k < anc.len() && has_name(d, anc[k].0 as int, nm);
        assert(has_name(d0, anc[k].0 as int, nm));
    }
    if crate::comparer::produce::txbx_from(d0, anc, level) {
        let k = choose|k: int| level <= k < anc.len() && has_name(d0, anc[k].0 as int, nm);
        assert(has_name(d, anc[k].0 as int, nm));
    }
}

/// Child keys read in an arena that keeps the atoms' ancestors.
proof fn lemma_adj_groups_stable(d0: Seq<NodeView>, d: Seq<NodeView>, atoms: Seq<ComparisonUnitAtom>, g: Seq<usize>, level: int)
    requires
        0 <= level,
        extends(d0, d),
        atoms_in(d0, atoms),
        in_range(atoms, g),
    ensures
        adj_groups(d, atoms, g, level) == adj_groups(d0, atoms, g, level),
    decreases g.len(),
{
    assert forall|j: int| 0 <= j < g.len() implies child_key_of(d, atoms[#[trigger] g[j] as int], level) == child_key_of(
        d0,
        atoms[g[j] as int],
        level,
    ) by {
        let a = atoms[g[j] as int];
        assert forall|k: int| 0 <= k < a.ancestor_elements@.len() implies (#[trigger] a.ancestor_elements@[k]).0 < d0.len() by {
            assert(atoms[g[j] as int].ancestor_elements@[k].0 < d0.len());
        }
        lemma_txbx_stable(d0, d, a.ancestor_elements@, level);
    }
    if g.len() > 0 {
        assert forall|j: int| 0 <= j < g.drop_last().len() implies #[trigger] g.drop_last()[j] < atoms.len() by {
            assert(g.drop_last()[j] == g[j]);
        }
        lemma_adj_groups_stable(d0, d, atoms, g.drop_last(), level);
        if g.len() > 1 {
            assert(g[g.len() - 2] == g[g.len() - 2]);
        }
    }
}

/// The text elements of a `w:t` group: per run of equal child key, one
/// `w:t` (or `w:delText` for a deletion) holding the run's text, labelled
/// with the first atom's status.
fn text_elements(
    dom: &mut Dom,
    atoms: &[ComparisonUnitAtom],
    texts: &Vec<String>,
    g: &Vec<usize>,
    level: usize,
    out: &mut Vec<NodeId>,
    Ghost(d0): Ghost<Seq<NodeView>>,
    Ghost(dt): Ghost<Seq<NodeView>>,
)
    requires
        old(dom).wf(),
        atoms_in(d0, atoms@),
        texts_of(dt, atoms@, texts@),
        in_range(atoms@, g@),
        g@.len() > 0,
        grown(d0, old(dom)@, ids(old(out)@)),
    ensures
        final(dom).wf(),
        grown(d0, final(dom)@, ids(final(out)@)),
        final(out)@.len() > old(out)@.len(),
        kept(old(dom)@, final(dom)@, old(dom)@.len() as int),
        final(out)@.subrange(0, old(out)@.len() as int) == old(out)@,
        shapes_hold(
            final(dom)@,
            ids(final(out)@).skip(old(out)@.len() as int),
            text_shapes(dt, atoms@, adj_groups(d0, atoms@, g@, level as int)),
        ),
{
    let cgs = group_children(dom, atoms, g, level);
    proof {
        lemma_adj_groups_stable(d0, dom@, atoms@, g@, level as int);
        lemma_kept_refl(dom@, dom@.len() as int);
        assert(ids(out@).skip(old(out)@.len() as int) =~= Seq::<usize>::empty());
        assert(text_shapes(dt, atoms@, gview(cgs@).take(0)) =~= Seq::<RootShape>::empty());
    }
    let ghost n_old = old(out)@.len() as int;
    let ghost gsv = gview(cgs@);
    let mut ci: usize = 0;
    while ci < cgs.len()
        invariant
            dom.wf(),
            atoms_in(d0, atoms@),
            texts_of(dt, atoms@, texts@),
            in_range(atoms@, g@),
            g@.len() > 0,
            gsv == gview(cgs@),
            total(gview(cgs@)) == g@.len(),
            forall|q: int| 0 <= q < cgs@.len() ==> (#[trigger] cgs@[q])@.len() > 0,
            forall|q: int, k: int| 0 <= q < cgs@.len() && 0 <= k < cgs@[q]@.len() ==> g@.contains(#[trigger] cgs@[q]@[k]),
            grown(d0, dom@, ids(out@)),
            ci <= cgs@.len(),
            n_old == old(out)@.len(),
            out@.len() == n_old + ci,
            out@.subrange(0, n_old) == old(out)@,
            kept(old(dom)@, dom@, old(dom)@.len() as int),
            shapes_hold(dom@, ids(out@).skip(n_old), text_shapes(dt, atoms@, gsv.take(ci as int))),
        decreases cgs@.len() - ci,
    {
        let cg = &cgs[ci];
        proof {
            lemma_atoms_in_extends(d0, dom@, atoms@);
        }
        assert(cgs@[ci as int]@ == cg@);
        assert(gsv[ci as int] == cg@);
        assert forall|k: int| 0 <= k < cg@.len() implies #[trigger] cg@[k] < atoms@.len() by {
            assert(g@.contains(cgs@[ci as int]@[k]));
            let m = choose|m: int| 0 <= m < g@.len() && g@[m] == cg@[k];
            assert(g@[m] < atoms@.len());
        }
        let mut text = String::new();
        let mut k: usize = 0;
        assert(cg@.take(0) =~= Seq::<usize>::empty());
        while k < cg.len()
            invariant
                texts_of(dt, atoms@, texts@),
                forall|k2: int| 0 <= k2 < cg@.len() ==> #[trigger] cg@[k2] < atoms@.len(),
                k <= cg@.len(),
                text@ == concat_texts(dt, atoms@, cg@.take(k as int)),
            decreases cg@.len() - k,
        {
            assert(cg@.take(k + 1).drop_last() =~= cg@.take(k as int));
            assert(cg@.take(k + 1).last() == cg@[k as int]);
            text.append(texts[cg[k]].as_str());
            k = k + 1;
        }
        assert(cg@.take(cg@.len() as int) =~= cg@);
        let first = &atoms[cg[0]];
        let name = if first.correlation_status == CorrelationStatus::Deleted {
            W::name("delText")
        } else {
            W::t()
        };
        let ghost o = ids(out@);
        let ghost db = dom@;
        let te = fresh_element(dom, name, Ghost(d0), Ghost(o));
        let ghost d1 = dom@;
        proof {
            assert(o.push(te.0)[o.len() as int] == te.0);
            lemma_kept_extends(db, d1, db.len() as int);
        }
        tag_status(dom, te, first.correlation_status, first);
        proof {
            lemma_grown_kind(d0, d1, dom@, o.push(te.0), te.0 as int);
            lemma_kept_kind(d1, dom@, te.0 as int, db.len() as int);
            lemma_kept_trans(db, d1, dom@, db.len() as int);
            lemma_with_attrs_element(d1, te.0 as int, tag_list(first.correlation_status, *first));
            assert(d1[te.0 as int].kind->Element_attrs =~= Seq::<AttrView>::empty());
        }
        let ghost tl = tag_list(first.correlation_status, *first);
        let ghost sl = space_list(text@);
        match xml_space_attr(text.as_str()) {
            Some(sp) => {
                let ghost d2 = dom@;
                set_on(dom, te, &XName::get("space", "http://www.w3.org/XML/1998/namespace"), sp);
                proof {
                    lemma_grown_kind(d0, d2, dom@, o.push(te.0), te.0 as int);
                    lemma_kept_kind(d2, dom@, te.0 as int, db.len() as int);
                    lemma_kept_trans(db, d2, dom@, db.len() as int);
                    assert((tl + sl).drop_last() =~= tl);
                    assert((tl + sl).last() == AttrView { name: crate::comparer::produce::xml_space_name(), value: sp@ });
                }
            },
            None => {
                proof {
                    assert(tl + sl =~= tl);
                }
            },
        }
        let ghost d3 = dom@;
        assert(d3[te.0 as int].kind == (KindView::Element {
            name: name@,
            attrs: super::block_clone::set_all(seq![], tl + sl),
        }));
        let nlen = dom.len();
        dom.add_text(te, text.as_str());
        proof {
            lemma_grown_text(d0, d3, o.push(te.0), te.0, text@, nlen);
            assert(nlen == d3.len());
            lemma_kept_text(d3, te.0, nlen, text@, db.len() as int);
            lemma_kept_trans(db, d3, dom@, db.len() as int);
            lemma_kept_trans(old(dom)@, db, dom@, old(dom)@.len() as int);
            assert(d3[te.0 as int].children.len() == 0);
            assert(dom@[te.0 as int].children =~= seq![nlen]);
            assert(shape_holds(dom@, te.0 as int, text_shape(dt, atoms@, cg@)));
            lemma_shapes_kept(db, dom@, ids(out@).skip(n_old), text_shapes(dt, atoms@, gsv.take(ci as int)));
        }
        let ghost ob = out@;
        out.push(te);
        proof {
            lemma_ids_push(ob, te);
            assert(ids(out@).skip(n_old) =~= ids(ob).skip(n_old).push(te.0));
            assert(text_shapes(dt, atoms@, gsv.take(ci + 1)) =~= text_shapes(dt, atoms@, gsv.take(ci as int)).push(
                text_shape(dt, atoms@, cg@),
            ));
            lemma_shapes_push(dom@, ids(ob).skip(n_old), text_shapes(dt, atoms@, gsv.take(ci as int)), te.0, text_shape(dt, atoms@, cg@));
            assert(out@.subrange(0, n_old) =~= ob.subrange(0, n_old));
        }
        ci = ci + 1;
    }
    proof {
        if cgs@.len() == 0 {
            assert(gview(cgs@).len() == 0);
        }
        assert(gsv.take(cgs@.len() as int) =~= gsv);
    }
}

/// For each atom of a math group, a copy of its content, wrapped for a
/// deletion, insertion or move in the matching revision element with
/// author, a fresh revision id and date.
fn math_elements(
    dom: &mut Dom,
    atoms: &[ComparisonUnitAtom],
    g: &Vec<usize>,
    author: &str,
    date: &str,
    rev_ids: &mut RevIdSource,
    out: &mut Vec<NodeId>,
    Ghost(d0): Ghost<Seq<NodeView>>,
)
    requires
        old(dom).wf(),
        atoms_in(d0, atoms@),
        in_range(atoms@, g@),
        g@.len() > 0,
        grown(d0, old(dom)@, ids(old(out)@)),
        old(rev_ids).next_id() + g@.len() <= u64::MAX,
    ensures
        final(dom).wf(),
        grown(d0, final(dom)@, ids(final(out)@)),
        final(out)@.len() == old(out)@.len() + g@.len(),
        final(out)@.subrange(0, old(out)@.len() as int) == old(out)@,
        kept(old(dom)@, final(dom)@, old(dom)@.len() as int),
        old(rev_ids).next_id() <= final(rev_ids).next_id() <= old(rev_ids).next_id() + g@.len(),
{
    let ghost start = rev_ids.next_id();
    let ghost lo = old(dom)@.len() as int;
    let ghost n_old = old(out)@.len() as int;
    proof {
        lemma_kept_refl(old(dom)@, lo);
    }
    let mut k: usize = 0;
    while k < g.len()
        invariant
            dom.wf(),
            atoms_in(d0, atoms@),
            in_range(atoms@, g@),
            grown(d0, dom@, ids(out@)),
            k <= g@.len(),
            lo == old(dom)@.len(),
            n_old == old(out)@.len(),
            out@.len() == n_old + k,
            out@.subrange(0, n_old) == old(out)@,
            kept(old(dom)@, dom@, lo),
            start == old(rev_ids).next_id(),
            start + g@.len() <= u64::MAX,
            start <= rev_ids.next_id() <= start + k,
        decreases g@.len() - k,
    {
        proof {
            lemma_atoms_in_extends(d0, dom@, atoms@);
        }
        let a = &atoms[g[k]];
        let rname = match a.correlation_status {
            CorrelationStatus::Deleted => Some(W::name("del")),
            CorrelationStatus::MovedSource => Some(W::name("moveFrom")),
            CorrelationStatus::Inserted => Some(W::name("ins")),
            CorrelationStatus::MovedDestination => Some(W::name("moveTo")),
            _ => None,
        };
        let ghost o = ids(out@);
        let ghost ob = out@;
        match rname {
            Some(rn) => {
                let ghost d00 = dom@;
                let w = fresh_element(dom, rn, Ghost(d0), Ghost(o));
                let ghost l = o.push(w.0);
                proof {
                    assert(l[o.len() as int] == w.0);
                    lemma_kept_step_ext(old(dom)@, d00, dom@, lo);
                }
                let ghost d1 = dom@;
                set_on(dom, w, &W::name("author"), author);
                let id = rev_ids.next_rev_id();
                let ghost d2 = dom@;
                set_on(dom, w, &W::name("id"), id.as_str());
                let ghost d3 = dom@;
                set_on(dom, w, &W::name("date"), date);
                proof {
                    lemma_grown_kind(d0, d1, d2, l, w.0 as int);
                    lemma_grown_kind(d0, d2, d3, l, w.0 as int);
                    lemma_grown_kind(d0, d3, dom@, l, w.0 as int);
                    lemma_kept_step_kind(old(dom)@, d1, d2, w.0 as int, lo);
                    lemma_kept_step_kind(old(dom)@, d2, d3, w.0 as int, lo);
                    lemma_kept_step_kind(old(dom)@, d3, dom@, w.0 as int, lo);
                }
                let ghost d4 = dom@;
                let c = copy_of(dom, a.content_element, Ghost(d0), Ghost(l));
                proof {
                    assert(l.push(c.0) =~= l + seq![c.0] + seq![]);
                    assert(l + seq![] =~= l);
                    assert((l + seq![]).contains(w.0));
                    lemma_grown_add(d0, dom@, l, c.0, seq![], w.0);
                    assert(l.push(c.0)[o.len() as int] == w.0);
                    assert(l.push(c.0)[l.len() as int] == c.0);
                    lemma_kept_step_ext(old(dom)@, d4, dom@, lo);
                    lemma_kept_step_add(old(dom)@, dom@, w.0 as int, c.0 as int, lo);
                }
                dom.add(w, c);
                out.push(w);
                proof {
                    lemma_ids_push(ob, w);
                    assert(out@.subrange(0, n_old) =~= ob.subrange(0, n_old));
                }
            },
            None => {
                let ghost d00 = dom@;
                let c = copy_of(dom, a.content_element, Ghost(d0), Ghost(o));
                proof {
                    lemma_kept_step_ext(old(dom)@, d00, dom@, lo);
                }
                out.push(c);
                proof {
                    lemma_ids_push(ob, c);
                    assert(out@.subrange(0, n_old) =~= ob.subrange(0, n_old));
                }
            },
        }
        k = k + 1;
    }
}

/// A run child that a comparison atom stands for whole.
pub open spec fn allowable_run_child(n: XNameView) -> bool {
    ||| n.namespace == crate::namespaces::w_uri() && {
        ||| n.local == "br"@
        ||| n.local == "drawing"@
        ||| n.local == "cr"@
        ||| n.local == "dayLong"@
        ||| n.local == "dayShort"@
        ||| n.local == "footnoteReference"@
        ||| n.local == "endnoteReference"@
        ||| n.local == "monthLong"@
        ||| n.local == "monthShort"@
        ||| n.local == "noBreakHyphen"@
        ||| n.local == "pgNum"@
        ||| n.local == "ptab"@
        ||| n.local == "softHyphen"@
        ||| n.local == "sym"@
        ||| n.local == "tab"@
        ||| n.local == "yearLong"@
        ||| n.local == "yearShort"@
        ||| n.local == "fldChar"@
        ||| n.local == "instrText"@
    }
    ||| n.namespace == crate::namespaces::m_uri() && (n.local == "oMathPara"@ || n.local == "oMath"@)
}

/// Whether `n` is a run child that a comparison atom stands for whole.
pub fn is_allowable_run_child(n: &XName) -> (r: bool)
    ensures
        r == allowable_run_child(n@),
{
    let l = n.local_name();
    let ns = n.namespace_name();
    (str_eq(ns, W::uri()) && (str_eq(l, "br") || str_eq(l, "drawing") || str_eq(l, "cr") || str_eq(l, "dayLong")
        || str_eq(l, "dayShort") || str_eq(l, "footnoteReference") || str_eq(l, "endnoteReference") || str_eq(
        l,
        "monthLong",
    ) || str_eq(l, "monthShort") || str_eq(l, "noBreakHyphen") || str_eq(l, "pgNum") || str_eq(l, "ptab")
        || str_eq(l, "softHyphen") || str_eq(l, "sym") || str_eq(l, "tab") || str_eq(l, "yearLong") || str_eq(
        l,
        "yearShort",
    ) || str_eq(l, "fldChar") || str_eq(l, "instrText"))) || (str_eq(ns, M::uri()) && (str_eq(l, "oMathPara")
        || str_eq(l, "oMath")))
}

/// The leaves of a group of run children: per run of equal child key, a
/// deletion, insertion or move gives each atom a fresh element named like
/// the ancestor, with its attributes outside the comparison's namespace and
/// the atom's status; other runs give each atom a copy of its content.
fn run_child_elements(
    dom: &mut Dom,
    atoms: &[ComparisonUnitAtom],
    g: &Vec<usize>,
    level: usize,
    ancestor: NodeId,
    aname: &XName,
    out: &mut Vec<NodeId>,
    Ghost(d0): Ghost<Seq<NodeView>>,
)
    requires
        old(dom).wf(),
        atoms_in(d0, atoms@),
        in_range(atoms@, g@),
        g@.len() > 0,
        ancestor.0 < d0.len(),
        grown(d0, old(dom)@, ids(old(out)@)),
    ensures
        final(dom).wf(),
        grown(d0, final(dom)@, ids(final(out)@)),
        final(out)@.len() == old(out)@.len() + g@.len(),
        final(out)@.subrange(0, old(out)@.len() as int) == old(out)@,
        kept(old(dom)@, final(dom)@, old(dom)@.len() as int),
{
    let cgs = group_children(dom, atoms, g, level);
    let ghost lo = old(dom)@.len() as int;
    let ghost n_old = old(out)@.len() as int;
    proof {
        lemma_kept_refl(old(dom)@, lo);
    }
    let mut ci: usize = 0;
    while ci < cgs.len()
        invariant
            dom.wf(),
            atoms_in(d0, atoms@),
            in_range(atoms@, g@),
            g@.len() > 0,
            ancestor.0 < d0.len(),
            total(gview(cgs@)) == g@.len(),
            forall|q: int| 0 <= q < cgs@.len() ==> (#[trigger] cgs@[q])@.len() > 0,
            forall|q: int, k: int| 0 <= q < cgs@.len() && 0 <= k < cgs@[q]@.len() ==> g@.contains(#[trigger] cgs@[q]@[k]),
            grown(d0, dom@, ids(out@)),
            ci <= cgs@.len(),
            lo == old(dom)@.len(),
            n_old == old(out)@.len(),
            out@.len() == n_old + total(gview(cgs@).take(ci as int)),
            out@.subrange(0, n_old) == old(out)@,
            kept(old(dom)@, dom@, lo),
        decreases cgs@.len() - ci,
    {
        let cg = &cgs[ci];
        assert(cgs@[ci as int]@ == cg@);
        proof {
            assert(gview(cgs@)[ci as int] == cg@);
            lemma_total_take(gview(cgs@), ci as int);
        }
        assert forall|k: int| 0 <= k < cg@.len() implies #[trigger] cg@[k] < atoms@.len() by {
            assert(g@.contains(cgs@[ci as int]@[k]));
            let m = choose|m: int| 0 <= m < g@.len() && g@[m] == cg@[k];
            assert(g@[m] < atoms@.len());
        }
        let st = atoms[cg[0]].correlation_status;
        let fresh = st == CorrelationStatus::Deleted || st == CorrelationStatus::Inserted || st
            == CorrelationStatus::MovedSource || st == CorrelationStatus::MovedDestination;
        let ghost n0 = out@.len();
        let mut k: usize = 0;
        while k < cg.len()
            invariant
                dom.wf(),
                atoms_in(d0, atoms@),
                forall|k2: int| 0 <= k2 < cg@.len() ==> #[trigger] cg@[k2] < atoms@.len(),
                ancestor.0 < d0.len(),
                grown(d0, dom@, ids(out@)),
                k <= cg@.len(),
                out@.len() == n0 + k,
                n_old == old(out)@.len(),
                n0 >= n_old,
                out@.subrange(0, n_old) == old(out)@,
                kept(old(dom)@, dom@, lo),
            decreases cg@.len() - k,
        {
            proof {
                lemma_atoms_in_extends(d0, dom@, atoms@);
            }
            let a = &atoms[cg[k]];
            let ghost o = ids(out@);
            let ghost ob = out@;
            let ghost d00 = dom@;
            if fresh {
                let dup = fresh_element(dom, aname.clone(), Ghost(d0), Ghost(o));
                let ghost l = o.push(dup.0);
                proof {
                    assert(dup.0 == d00.len());
                    assert(l[o.len() as int] == dup.0);
                    lemma_kept_step_ext(old(dom)@, d00, dom@, lo);
                }
                let ghost d1 = dom@;
                copy_attrs(dom, ancestor, dup, AttrCopy::Plain);
                let ghost d2 = dom@;
                tag_status(dom, dup, a.correlation_status, a);
                proof {
                    lemma_grown_kind(d0, d1, d2, l, dup.0 as int);
                    lemma_grown_kind(d0, d2, dom@, l, dup.0 as int);
                    lemma_kept_step_kind(old(dom)@, d1, d2, dup.0 as int, lo);
                    lemma_kept_step_kind(old(dom)@, d2, dom@, dup.0 as int, lo);
                }
                out.push(dup);
                proof {
                    lemma_ids_push(ob, dup);
                    assert(out@.subrange(0, n_old) =~= ob.subrange(0, n_old));
                }
            } else {
                let c = copy_of(dom, a.content_element, Ghost(d0), Ghost(o));
                proof {
                    lemma_kept_step_ext(old(dom)@, d00, dom@, lo);
                }
                out.push(c);
                proof {
                    lemma_ids_push(ob, c);
                    assert(out@.subrange(0, n_old) =~= ob.subrange(0, n_old));
                }
            }
            k = k + 1;
        }
        ci = ci + 1;
    }
    proof {
        assert(gview(cgs@).take(cgs@.len() as int) =~= gview(cgs@));
    }
}

/// The markup-compatibility `AlternateContent` name.
pub open spec fn alternate_content_name() -> XNameView {
    XNameView { namespace: "http://schemas.openxmlformats.org/markup-compatibility/2006"@, local: "AlternateContent"@ }
}

/// A group whose ancestor is named `an` gives one node per atom.
pub open spec fn per_atom_name(an: XNameView) -> bool {
    ||| an == crate::namespaces::w_name("drawing"@)
    ||| an == crate::namespaces::w_name("pict"@)
    ||| an == alternate_content_name()
    ||| an == (XNameView { namespace: crate::namespaces::m_uri(), local: "oMath"@ })
    ||| an == (XNameView { namespace: crate::namespaces::m_uri(), local: "oMathPara"@ })
    ||| allowable_run_child(an)
}

/// What the nodes built for the group `g` at `level` are: one node named
/// like the ancestor for a paragraph, run or container; for a text group, its text elements; one
/// node per atom for drawings, pictures, alternate content, math and run
/// children.
pub open spec fn group_shapes(
    d0: Seq<NodeView>,
    dt: Seq<NodeView>,
    atoms: Seq<ComparisonUnitAtom>,
    g: Seq<usize>,
    level: int,
) -> Seq<RootShape> {
    let anc = atoms[g[0] as int].ancestor_elements@[level];
    match name_of(d0, anc.0 as int) {
        Some(an) => if an == crate::namespaces::w_name("p"@) || an == crate::namespaces::w_name("r"@) {
            seq![RootShape::Named { name: an }]
        } else if an == crate::namespaces::w_name("t"@) {
            text_shapes(dt, atoms, adj_groups(d0, atoms, g, level))
        } else if per_atom_name(an) {
            Seq::new(g.len(), |i: int| RootShape::Any)
        } else {
            seq![RootShape::Named { name: an }]
        },
        None => seq![RootShape::Any],
    }
}

/// The nodes built for the groups `gs`, in order.
pub open spec fn groups_shapes(
    d0: Seq<NodeView>,
    dt: Seq<NodeView>,
    atoms: Seq<ComparisonUnitAtom>,
    gs: Seq<Seq<usize>>,
    level: int,
) -> Seq<RootShape>
    decreases gs.len(),
{
    if gs.len() == 0 {
        seq![]
    } else {
        groups_shapes(d0, dt, atoms, gs.drop_last(), level) + group_shapes(d0, dt, atoms, gs.last(), level)
    }
}

proof fn lemma_shapes_concat(d: Seq<NodeView>, a: Seq<usize>, sa: Seq<RootShape>, b: Seq<usize>, sb: Seq<RootShape>)
    requires
        shapes_hold(d, a, sa),
        shapes_hold(d, b, sb),
    ensures
        shapes_hold(d, a + b, sa + sb),
{
    assert forall|j: int| 0 <= j < (a + b).len() implies shape_holds(d, #[trigger] (a + b)[j] as int, (sa + sb)[j]) by {
        if j < a.len() {
            assert((a + b)[j] == a[j]);
            assert((sa + sb)[j] == sa[j]);
        } else {
            assert((a + b)[j] == b[j - a.len()]);
            assert((sa + sb)[j] == sb[j - a.len()]);
        }
    }
}

proof fn lemma_shapes_any(d: Seq<NodeView>, rs: Seq<usize>, ss: Seq<RootShape>)
    requires
        rs.len() == ss.len(),
        forall|j: int| 0 <= j < rs.len() ==> #[trigger] rs[j] < d.len(),
        forall|j: int| 0 <= j < ss.len() ==> #[trigger] ss[j] == RootShape::Any,
    ensures
        shapes_hold(d, rs, ss),
{
    assert forall|j: int| 0 <= j < rs.len() implies shape_holds(d, #[trigger] rs[j] as int, ss[j]) by {
        assert(ss[j] == RootShape::Any);
    }
}

// ── rebuilding, level by level ──────────────────────────────────────────────

/// The property children a rebuilt container takes first, by its name.
fn props_of(aname: &XName) -> Vec<XName> {
    let mut v: Vec<XName> = Vec::new();
    if aname.same(&W::name("tbl")) {
        v.push(W::name("tblPr"));
        v.push(W::name("tblGrid"));
    } else if aname.same(&W::name("tr")) {
        v.push(W::name("trPr"));
    } else if aname.same(&W::name("tc")) {
        v.push(W::name("tcPr"));
    } else if aname.same(&W::name("sdt")) {
        v.push(W::name("sdtPr"));
        v.push(W::name("sdtEndPr"));
    } else if aname.same(&W::name("ruby")) {
        v.push(W::name("rubyPr"));
    }
    v
}

/// A new `w:p` (or, with `run`, `w:r`) for a group: the ancestor's
/// attributes (outside the comparison's namespace, but for a run its
/// pending deletion and insertion stamps), for a paragraph its identity,
/// for a run a copy of its properties, and then, per run of equal child
/// key, either the rebuilt next level or status-labelled copies of the
/// atoms' content.
fn wrap_group(
    dom: &mut Dom,
    atoms: &[ComparisonUnitAtom],
    g: &Vec<usize>,
    texts: &Vec<String>,
    level: usize,
    ancestor: NodeId,
    run: bool,
    author: &str,
    date: &str,
    rev_ids: &mut RevIdSource,
    out: &mut Vec<NodeId>,
    Ghost(d0): Ghost<Seq<NodeView>>,
    Ghost(dt): Ghost<Seq<NodeView>>,
    Ghost(depth): Ghost<int>,
)
    requires
        old(dom).wf(),
        atoms_in(d0, atoms@),
        texts_of(dt, atoms@, texts@),
        idx_ok(atoms@, g@, depth),
        g@.len() > 0,
        forall|k: int| 0 <= k < g@.len() ==> keyed(atoms@[#[trigger] g@[k] as int], level as int),
        level < depth,
        ancestor.0 < d0.len(),
        grown(d0, old(dom)@, ids(old(out)@)),
        old(rev_ids).next_id() + g@.len() <= u64::MAX,
    ensures
        final(dom).wf(),
        grown(d0, final(dom)@, ids(final(out)@)),
        final(out)@.len() == old(out)@.len() + 1,
        final(out)@.subrange(0, old(out)@.len() as int) == old(out)@,
        kept(old(dom)@, final(dom)@, old(dom)@.len() as int),
        old(rev_ids).next_id() <= final(rev_ids).next_id() <= old(rev_ids).next_id() + g@.len(),
        name_of(final(dom)@, final(out)@.last().0 as int) == Some(
            if run { crate::namespaces::w_name("r"@) } else { crate::namespaces::w_name("p"@) },
        ),
    decreases depth - level, 0int,
{
    let ghost lo = old(dom)@.len() as int;
    let ghost pname = if run { crate::namespaces::w_name("r"@) } else { crate::namespaces::w_name("p"@) };
    proof {
        lemma_kept_refl(old(dom)@, lo);
    }
    let ghost o = ids(out@);
    let ghost ob = out@;
    let p = fresh_element(dom, if run { W::r() } else { W::p() }, Ghost(d0), Ghost(o));
    let ghost l = o.push(p.0);
    proof {
        assert(l[o.len() as int] == p.0);
        lemma_kept_step_ext(old(dom)@, old(dom)@, dom@, lo);
    }
    let ghost d1 = dom@;
    assert(name_of(d1, p.0 as int) == Some(pname));
    copy_attrs(dom, ancestor, p, if run { AttrCopy::Run } else { AttrCopy::Plain });
    proof {
        lemma_grown_kind(d0, d1, dom@, l, p.0 as int);
        lemma_kept_step_kind(old(dom)@, d1, dom@, p.0 as int, lo);
    }
    let x0 = g[0];
    let alen = atoms[x0].ancestor_elements.len();
    assert(level < alen);
    if !run {
        match &atoms[x0].ancestor_unids {
            Some(u) => {
                if level < u.len() {
                    let ghost d2 = dom@;
                    set_on(dom, p, &PT::unid(), u[level].as_str());
                    proof {
                        assert(name_of(dom@, p.0 as int) == name_of(d2, p.0 as int));
                        lemma_grown_kind(d0, d2, dom@, l, p.0 as int);
                        lemma_kept_step_kind(old(dom)@, d2, dom@, p.0 as int, lo);
                    }
                }
            },
            None => {},
        }
    } else {
        match dom.element(ancestor, &W::name("rPr")) {
            Some(rpr) => {
                proof {
                    crate::xml::lemma_select_below_selects(
                        dom@,
                        dom@[ancestor.0 as int].children,
                        0,
                        Some(crate::namespaces::w_name("rPr"@)),
                    );
                }
                let ghost d5 = dom@;
                let c = copy_of(dom, rpr, Ghost(d0), Ghost(l));
                proof {
                    assert(l.push(c.0) =~= l + seq![c.0] + seq![]);
                    assert(l + seq![] =~= l);
                    assert((l + seq![]).contains(p.0));
                    lemma_grown_add(d0, dom@, l, c.0, seq![], p.0);
                    assert(l.push(c.0)[l.len() as int] == c.0);
                    assert(l.push(c.0)[o.len() as int] == p.0);
                    lemma_kept_step_ext(old(dom)@, d5, dom@, lo);
                    lemma_kept_step_add(old(dom)@, dom@, p.0 as int, c.0 as int, lo);
                    assert(dom@[p.0 as int] == d5[p.0 as int]);
                }
                dom.add(p, c);
            },
            None => {},
        }
    }
    let cgs = group_children(dom, atoms, g, level);
    let ghost start = rev_ids.next_id();
    let mut ci: usize = 0;
    while ci < cgs.len()
        invariant
            dom.wf(),
            atoms_in(d0, atoms@),
            idx_ok(atoms@, g@, depth),
            level < depth,
            level < alen,
            level < usize::MAX,
            grown(d0, dom@, l),
            l.contains(p.0),
            total(gview(cgs@)) == g@.len(),
            forall|q: int| 0 <= q < cgs@.len() ==> (#[trigger] cgs@[q])@.len() > 0,
            forall|q: int, k: int| 0 <= q < cgs@.len() && 0 <= k < cgs@[q]@.len() ==> g@.contains(#[trigger] cgs@[q]@[k]),
            ci <= cgs@.len(),
            start == old(rev_ids).next_id(),
            start + g@.len() <= u64::MAX,
            start <= rev_ids.next_id() <= start + total(gview(cgs@).take(ci as int)),
            texts_of(dt, atoms@, texts@),
            lo == old(dom)@.len(),
            lo <= p.0 < dom@.len(),
            kept(old(dom)@, dom@, lo),
            name_of(dom@, p.0 as int) == Some(pname),
        decreases cgs@.len() - ci,
    {
        let cg = &cgs[ci];
        proof {
            assert(gview(cgs@)[ci as int] == cg@);
            assert(cgs@[ci as int]@ == cg@);
            lemma_sub_idx(atoms@, g@, cg@, depth);
            lemma_total_take(gview(cgs@), ci as int);
            lemma_atoms_in_extends(d0, dom@, atoms@);
        }
        if next_unid(&atoms[cg[0]], level).unicode_len() == 0 {
            let mut k: usize = 0;
            while k < cg.len()
                invariant
                    dom.wf(),
                    atoms_in(d0, atoms@),
                    idx_ok(atoms@, cg@, depth),
                    grown(d0, dom@, l),
                    l.contains(p.0),
                    k <= cg@.len(),
                    lo <= p.0 < dom@.len(),
                    kept(old(dom)@, dom@, lo),
                    name_of(dom@, p.0 as int) == Some(pname),
                decreases cg@.len() - k,
            {
                proof {
                    lemma_atoms_in_extends(d0, dom@, atoms@);
                }
                let ghost d6 = dom@;
                copy_tagged_into(dom, &atoms[cg[k]], p, Ghost(d0), Ghost(l));
                proof {
                    lemma_kept_mono(d6, dom@, lo, p.0 as int);
                    lemma_kept_trans(old(dom)@, d6, dom@, lo);
                    let ip = choose|i: int| 0 <= i < l.len() && l[i] == p.0;
                    assert(l[ip] < dom@.len());
                }
                k = k + 1;
            }
        } else {
            let ghost dm = dom@;
            let kids = coalesce_group(dom, atoms, texts, cg, level + 1, author, date, rev_ids, Ghost(dt), Ghost(depth));
            proof {
                lemma_grown_join(d0, dm, dom@, l, ids(kids@));
                assert(l + ids(kids@) + seq![] =~= l + ids(kids@));
                assert(l + seq![] =~= l);
                lemma_kept_step_ext(old(dom)@, dm, dom@, lo);
                assert(dom@[p.0 as int] == dm[p.0 as int]);
            }
            let ghost none: Seq<usize> = seq![];
            let ghost d7 = dom@;
            add_all(dom, p, &kids, Ghost(d0), Ghost(l), Ghost(none));
            proof {
                lemma_kept_mono(d7, dom@, lo, p.0 as int);
                lemma_kept_trans(old(dom)@, d7, dom@, lo);
            }
        }
        ci = ci + 1;
    }
    proof {
        assert(gview(cgs@).take(cgs@.len() as int) =~= gview(cgs@));
    }
    out.push(p);
    proof {
        lemma_ids_push(ob, p);
        assert(out@.subrange(0, ob.len() as int) =~= ob);
    }
}

/// A rebuilt container element: the ancestor's name and attributes, copies
/// of its property children first (for a table its properties and grid,
/// for a row, cell, content control or ruby theirs), then the rebuilt next
/// level.
fn reconstruct_element(
    dom: &mut Dom,
    atoms: &[ComparisonUnitAtom],
    g: &Vec<usize>,
    texts: &Vec<String>,
    level: usize,
    ancestor: NodeId,
    aname: &XName,
    author: &str,
    date: &str,
    rev_ids: &mut RevIdSource,
    out: &mut Vec<NodeId>,
    Ghost(d0): Ghost<Seq<NodeView>>,
    Ghost(dt): Ghost<Seq<NodeView>>,
    Ghost(depth): Ghost<int>,
)
    requires
        old(dom).wf(),
        atoms_in(d0, atoms@),
        texts_of(dt, atoms@, texts@),
        idx_ok(atoms@, g@, depth),
        g@.len() > 0,
        forall|k: int| 0 <= k < g@.len() ==> keyed(atoms@[#[trigger] g@[k] as int], level as int),
        level < depth,
        ancestor.0 < d0.len(),
        grown(d0, old(dom)@, ids(old(out)@)),
        old(rev_ids).next_id() + g@.len() <= u64::MAX,
    ensures
        final(dom).wf(),
        grown(d0, final(dom)@, ids(final(out)@)),
        final(out)@.len() == old(out)@.len() + 1,
        final(out)@.subrange(0, old(out)@.len() as int) == old(out)@,
        kept(old(dom)@, final(dom)@, old(dom)@.len() as int),
        old(rev_ids).next_id() <= final(rev_ids).next_id() <= old(rev_ids).next_id() + g@.len(),
        name_of(final(dom)@, final(out)@.last().0 as int) == Some(aname@),
    decreases depth - level, 0int,
{
    let ghost lo = old(dom)@.len() as int;
    proof {
        lemma_kept_refl(old(dom)@, lo);
    }
    let ghost o = ids(out@);
    let ghost ob = out@;
    let x0 = g[0];
    let alen = atoms[x0].ancestor_elements.len();
    assert(level < alen);
    let ghost dm = dom@;
    proof {
        lemma_atoms_in_extends(d0, dom@, atoms@);
    }
    let kids = coalesce_group(dom, atoms, texts, g, level + 1, author, date, rev_ids, Ghost(dt), Ghost(depth));
    proof {
        lemma_grown_join(d0, dm, dom@, o, ids(kids@));
        lemma_kept_step_ext(old(dom)@, dm, dom@, lo);
    }
    let ghost ok = o + ids(kids@);
    let ghost d8 = dom@;
    let ne = fresh_element(dom, aname.clone(), Ghost(d0), Ghost(ok));
    let ghost l = ok.push(ne.0);
    proof {
        assert(l[ok.len() as int] == ne.0);
        lemma_kept_step_ext(old(dom)@, d8, dom@, lo);
    }
    let ghost d1 = dom@;
    assert(name_of(d1, ne.0 as int) == Some(aname@));
    copy_attrs(dom, ancestor, ne, AttrCopy::All);
    proof {
        lemma_grown_kind(d0, d1, dom@, l, ne.0 as int);
        lemma_kept_step_kind(old(dom)@, d1, dom@, ne.0 as int, lo);
    }
    let props = props_of(aname);
    let mut pi: usize = 0;
    while pi < props.len()
        invariant
            dom.wf(),
            ancestor.0 < d0.len(),
            extends(d0, dom@),
            grown(d0, dom@, l),
            l.contains(ne.0),
            pi <= props@.len(),
            lo == old(dom)@.len(),
            lo <= ne.0 < dom@.len(),
            kept(old(dom)@, dom@, lo),
            name_of(dom@, ne.0 as int) == Some(aname@),
        decreases props@.len() - pi,
    {
        let es = dom.elements(ancestor, Some(&props[pi]));
        let ghost base = dom@.len();
        proof {
            crate::xml::lemma_select_below_selects(
                dom@,
                dom@[ancestor.0 as int].children,
                0,
                Some(props@[pi as int]@),
            );
            assert forall|j: int| 0 <= j < es@.len() implies (#[trigger] es@[j]).0 < base by {
                assert(ids(es@)[j] == es@[j].0);
            }
        }
        let mut ei: usize = 0;
        while ei < es.len()
            invariant
                dom.wf(),
                grown(d0, dom@, l),
                l.contains(ne.0),
                ei <= es@.len(),
                base <= dom@.len(),
                forall|j: int| 0 <= j < es@.len() ==> (#[trigger] es@[j]).0 < base,
                lo == old(dom)@.len(),
                lo <= ne.0 < dom@.len(),
                kept(old(dom)@, dom@, lo),
                name_of(dom@, ne.0 as int) == Some(aname@),
            decreases es@.len() - ei,
        {
            let ghost d9 = dom@;
            let c = copy_of(dom, es[ei], Ghost(d0), Ghost(l));
            proof {
                assert(l.push(c.0) =~= l + seq![c.0] + seq![]);
                assert(l + seq![] =~= l);
                assert((l + seq![]).contains(ne.0));
                lemma_grown_add(d0, dom@, l, c.0, seq![], ne.0);
                assert(l.push(c.0)[l.len() as int] == c.0);
                let ip = choose|i: int| 0 <= i < l.len() && l[i] == ne.0;
                assert(l.push(c.0)[ip] == l[ip]);
                lemma_kept_step_ext(old(dom)@, d9, dom@, lo);
                lemma_kept_step_add(old(dom)@, dom@, ne.0 as int, c.0 as int, lo);
                assert(dom@[ne.0 as int] == d9[ne.0 as int]);
            }
            dom.add(ne, c);
            ei = ei + 1;
        }
        pi = pi + 1;
    }
    proof {
        assert(l =~= o + ids(kids@) + seq![ne.0]);
        assert((o + seq![ne.0])[o.len() as int] == ne.0);
    }
    let ghost tail: Seq<usize> = seq![ne.0];
    let ghost d10 = dom@;
    add_all(dom, ne, &kids, Ghost(d0), Ghost(o), Ghost(tail));
    proof {
        lemma_kept_mono(d10, dom@, lo, ne.0 as int);
        lemma_kept_trans(old(dom)@, d10, dom@, lo);
    }
    out.push(ne);
    proof {
        lemma_ids_push(ob, ne);
        assert(o + seq![ne.0] =~= o.push(ne.0));
        assert(out@.subrange(0, ob.len() as int) =~= ob);
    }
}

/// Rebuilds the atoms at positions `idx` from nesting level `level` down.
fn coalesce_group(
    dom: &mut Dom,
    atoms: &[ComparisonUnitAtom],
    texts: &Vec<String>,
    idx: &Vec<usize>,
    level: usize,
    author: &str,
    date: &str,
    rev_ids: &mut RevIdSource,
    Ghost(dt): Ghost<Seq<NodeView>>,
    Ghost(depth): Ghost<int>,
) -> (r: Vec<NodeId>)
    requires
        old(dom).wf(),
        atoms_in(old(dom)@, atoms@),
        texts_of(dt, atoms@, texts@),
        idx_ok(atoms@, idx@, depth),
        old(rev_ids).next_id() + idx@.len() <= u64::MAX,
    ensures
        final(dom).wf(),
        grown(old(dom)@, final(dom)@, ids(r@)),
        old(rev_ids).next_id() <= final(rev_ids).next_id() <= old(rev_ids).next_id() + idx@.len(),
        (r@.len() == 0) == (forall|j: int| 0 <= j < idx@.len() ==> !keyed(#[trigger] atoms@[idx@[j] as int], level as int)),
        shapes_hold(
            final(dom)@,
            ids(r@),
            groups_shapes(old(dom)@, dt, atoms@, key_groups(old(dom)@, atoms@, idx@, level as int).1, level as int),
        ),
    decreases depth - level, 1int,
{
    let ghost d0 = dom@;
    let ghost start = rev_ids.next_id();
    assert forall|j: int| 0 <= j < idx@.len() implies #[trigger] idx@[j] < atoms@.len() by {}
    let gs = group_by_key(dom, atoms, idx, level);
    let ghost gsv = gview(gs@);
    let mut out: Vec<NodeId> = Vec::new();
    proof {
        assert(ids(out@) =~= Seq::<usize>::empty());
        assert(extends(d0, d0));
        assert(gsv.take(0) =~= Seq::<Seq<usize>>::empty());
    }
    let mut gi: usize = 0;
    while gi < gs.len()
        invariant
            dom.wf(),
            atoms_in(d0, atoms@),
            texts_of(dt, atoms@, texts@),
            idx_ok(atoms@, idx@, depth),
            gsv == gview(gs@),
            gsv == key_groups(d0, atoms@, idx@, level as int).1,
            total(gview(gs@)) <= idx@.len(),
            forall|q: int| 0 <= q < gs@.len() ==> (#[trigger] gs@[q])@.len() > 0,
            forall|q: int, k: int|
                0 <= q < gs@.len() && 0 <= k < gs@[q]@.len() ==> idx@.contains(#[trigger] gs@[q]@[k]) && keyed(
                    atoms@[gs@[q]@[k] as int],
                    level as int,
                ),
            grown(d0, dom@, ids(out@)),
            gi <= gs@.len(),
            gi > 0 ==> out@.len() > 0,
            gi == 0 ==> out@.len() == 0,
            start + idx@.len() <= u64::MAX,
            start <= rev_ids.next_id() <= start + total(gview(gs@).take(gi as int)),
            shapes_hold(dom@, ids(out@), groups_shapes(d0, dt, atoms@, gsv.take(gi as int), level as int)),
        decreases gs@.len() - gi,
    {
        let g = &gs[gi];
        proof {
            assert(gview(gs@)[gi as int] == g@);
            assert(gs@[gi as int]@ == g@);
            assert forall|k: int| 0 <= k < g@.len() implies idx@.contains(#[trigger] g@[k]) by {
                assert(g@[k] == gs@[gi as int]@[k]);
            }
            lemma_sub_idx(atoms@, idx@, g@, depth);
            assert forall|k: int| 0 <= k < g@.len() implies keyed(atoms@[#[trigger] g@[k] as int], level as int) by {
                assert(g@[k] == gs@[gi as int]@[k]);
            }
            lemma_total_take(gview(gs@), gi as int);
            lemma_atoms_in_extends(d0, dom@, atoms@);
        }
        let x0 = g[0];
        assert(keyed(atoms@[g@[0] as int], level as int));
        let ancestor = atoms[x0].ancestor_elements[level];
        assert(name_of(dom@, ancestor.0 as int) is Some);
        assert(dom@[ancestor.0 as int] == d0[ancestor.0 as int]);
        let aname = dom.name(ancestor).unwrap();
        assert(name_of(d0, ancestor.0 as int) == Some(aname@));
        let ghost n0 = out@.len();
        let ghost ob = out@;
        let ghost db = dom@;
        let ghost gsh = group_shapes(d0, dt, atoms@, g@, level as int);
        proof {
            lemma_shapes_kept(db, db, ids(ob), groups_shapes(d0, dt, atoms@, gsv.take(gi as int), level as int));
        }
        if aname.same(&W::p()) {
            wrap_group(dom, atoms, g, texts, level, ancestor, false, author, date, rev_ids, &mut out, Ghost(d0), Ghost(dt), Ghost(depth));
        } else if aname.same(&W::r()) {
            wrap_group(dom, atoms, g, texts, level, ancestor, true, author, date, rev_ids, &mut out, Ghost(d0), Ghost(dt), Ghost(depth));
        } else if aname.same(&W::t()) {
            text_elements(dom, atoms, texts, g, level, &mut out, Ghost(d0), Ghost(dt));
        } else if aname.same(&W::name("drawing")) || aname.same(&W::name("pict")) || aname.same(
            &XName::get("AlternateContent", "http://schemas.openxmlformats.org/markup-compatibility/2006"),
        ) {
            let mut k: usize = 0;
            proof {
                lemma_kept_refl(db, db.len() as int);
            }
            while k < g.len()
                invariant
                    dom.wf(),
                    atoms_in(d0, atoms@),
                    idx_ok(atoms@, g@, depth),
                    grown(d0, dom@, ids(out@)),
                    k <= g@.len(),
                    out@.len() == n0 + k,
                    n0 == ob.len(),
                    out@.subrange(0, n0 as int) == ob,
                    kept(db, dom@, db.len() as int),
                decreases g@.len() - k,
            {
                proof {
                    lemma_atoms_in_extends(d0, dom@, atoms@);
                }
                let ghost dk = dom@;
                let ghost obk = out@;
                copy_tagged(dom, &atoms[g[k]], true, &mut out, Ghost(d0));
                proof {
                    lemma_kept_mono(dk, dom@, db.len() as int, dk.len() as int);
                    lemma_kept_trans(db, dk, dom@, db.len() as int);
                    assert(out@.subrange(0, n0 as int) =~= out@.subrange(0, obk.len() as int).subrange(0, n0 as int));
                }
                k = k + 1;
            }
        } else if aname.same(&M::name("oMath")) || aname.same(&M::name("oMathPara")) {
            math_elements(dom, atoms, g, author, date, rev_ids, &mut out, Ghost(d0));
        } else if is_allowable_run_child(&aname) {
            run_child_elements(dom, atoms, g, level, ancestor, &aname, &mut out, Ghost(d0));
        } else {
            reconstruct_element(dom, atoms, g, texts, level, ancestor, &aname, author, date, rev_ids, &mut out, Ghost(d0), Ghost(dt), Ghost(depth));
        }
        proof {
            // the new nodes have the group's shapes, and the earlier ones keep theirs
            let newr = ids(out@).skip(n0 as int);
            assert(ids(out@) =~= ids(ob) + newr) by {
                assert(out@.subrange(0, n0 as int) == ob);
                assert forall|j: int| 0 <= j < n0 implies ids(out@)[j] == ids(ob)[j] by {
                    assert(out@[j] == out@.subrange(0, n0 as int)[j]);
                }
            }
            assert forall|j: int| 0 <= j < newr.len() implies #[trigger] newr[j] < dom@.len() by {
                assert(newr[j] == ids(out@)[n0 + j]);
            }
            if aname@ == crate::namespaces::w_name("t"@) {
            } else if aname@ == crate::namespaces::w_name("p"@) || aname@ == crate::namespaces::w_name("r"@) || !per_atom_name(aname@) {
                assert(newr.len() == 1);
                assert(newr[0] == out@.last().0);
                assert(gsh == seq![RootShape::Named { name: aname@ }]);
                assert(shape_holds(dom@, newr[0] as int, gsh[0]));
            } else {
                assert forall|j: int| 0 <= j < gsh.len() implies #[trigger] gsh[j] == RootShape::Any by {}
                lemma_shapes_any(dom@, newr, gsh);
            }
            lemma_shapes_kept(db, dom@, ids(ob), groups_shapes(d0, dt, atoms@, gsv.take(gi as int), level as int));
            lemma_shapes_concat(dom@, ids(ob), groups_shapes(d0, dt, atoms@, gsv.take(gi as int), level as int), newr, gsh);
            assert(gsv.take(gi + 1).drop_last() =~= gsv.take(gi as int));
            assert(gsv.take(gi + 1).last() == g@);
        }
        gi = gi + 1;
    }
    proof {
        assert(gsv.take(gs@.len() as int) =~= gsv);
    }
    out
}

/// The positions `0..n`.
pub open spec fn all_positions(n: nat) -> Seq<usize> {
    Seq::new(n, |i: int| i as usize)
}

/// Rebuilds the marked-up tree from the atoms, level `level` down: the
/// atoms that share an ancestor identity and ancestor name at that level
/// are gathered, in order of first appearance, under one new element (a
/// paragraph, run, table or other container, named like the ancestor) or
/// become the labelled text, drawings, math and run children they stand
/// for. A text group gives, per run of adjacent atoms with the same next
/// identity and status, one `w:t` (`w:delText` when the run's first atom is
/// deleted) labelled with that atom's status, with `xml:space` when its
/// text needs it, holding the run's text. Returns the new parentless
/// nodes; an atom without an identity at `level` contributes nothing, and
/// none is returned only when no atom has one. Math that was deleted,
/// inserted or moved is wrapped in a revision element that takes the next
/// revision ids of `rev_ids`, at most one per atom.
pub fn coalesce_recurse(
    dom: &mut Dom,
    atoms: &[ComparisonUnitAtom],
    level: usize,
    author: &str,
    date: &str,
    rev_ids: &mut RevIdSource,
) -> (r: Vec<NodeId>)
    requires
        old(dom).wf(),
        atoms_in(old(dom)@, atoms@),
        old(rev_ids).next_id() + atoms@.len() <= u64::MAX,
    ensures
        final(dom).wf(),
        grown(old(dom)@, final(dom)@, ids(r@)),
        old(rev_ids).next_id() <= final(rev_ids).next_id() <= old(rev_ids).next_id() + atoms@.len(),
        (r@.len() == 0) == (forall|i: int| 0 <= i < atoms@.len() ==> !keyed(#[trigger] atoms@[i], level as int)),
        shapes_hold(
            final(dom)@,
            ids(r@),
            groups_shapes(
                old(dom)@,
                old(dom)@,
                atoms@,
                key_groups(old(dom)@, atoms@, all_positions(atoms@.len()), level as int).1,
                level as int,
            ),
        ),
{
    let mut texts: Vec<String> = Vec::new();
    let mut t: usize = 0;
    while t < atoms.len()
        invariant
            dom.wf(),
            atoms_in(dom@, atoms@),
            t <= atoms@.len(),
            texts@.len() == t,
            forall|j: int| 0 <= j < t ==> (#[trigger] texts@[j])@ == crate::xml::value_of(dom@, atoms@[j].content_element.0 as int),
        decreases atoms@.len() - t,
    {
        let v = dom.value_str(atoms[t].content_element);
        texts.push(v);
        t = t + 1;
    }
    let mut idx: Vec<usize> = Vec::new();
    let mut i: usize = 0;
    while i < atoms.len()
        invariant
            i <= atoms@.len(),
            idx@.len() == i,
            forall|j: int| 0 <= j < i ==> #[trigger] idx@[j] == j,
        decreases atoms@.len() - i,
    {
        idx.push(i);
        i = i + 1;
    }
    proof {
        lemma_max_depth(atoms@);
        assert forall|j: int| 0 <= j < idx@.len() implies #[trigger] idx@[j] < atoms@.len()
            && atoms@[idx@[j] as int].ancestor_elements@.len() <= max_depth(atoms@) by {}
    }
    assert(idx@ =~= all_positions(atoms@.len()));
    let ghost dt = dom@;
    let r = coalesce_group(dom, atoms, &texts, &idx, level, author, date, rev_ids, Ghost(dt), Ghost(max_depth(atoms@) as int));
    proof {
        if r@.len() == 0 {
            assert forall|i: int| 0 <= i < atoms@.len() implies !keyed(#[trigger] atoms@[i], level as int) by {
                assert(idx@[i] == i);
            }
        } else {
            assert(!(forall|j: int| 0 <= j < idx@.len() ==> !keyed(#[trigger] atoms@[idx@[j] as int], level as int)));
            let j = choose|j: int| 0 <= j < idx@.len() && keyed(#[trigger] atoms@[idx@[j] as int], level as int);
            assert(idx@[j] == j);
        }
    }
    r
}

} // verus!
