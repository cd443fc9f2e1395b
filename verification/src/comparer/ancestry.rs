//! The `pt:Unid`s of each atom's ancestors, assembled so that the produced
//! tree can be rebuilt with matched paragraphs sharing one identity.
//!
//! Three passes over the flat atom list: paragraph marks matched equal (or in
//! a text box) take over the identities of the matched original ancestors;
//! then, walking backwards, every atom is given the identities of its
//! ancestors, minting those that are missing and borrowing the following
//! paragraph's where the ancestor chains agree by name; last, again
//! backwards, the atoms of text boxes are given the identities of their own
//! paragraph.

use vstd::prelude::*;

use super::atoms::{atoms_model, copy_node_ids, copy_strings, opt_str_view, AtomModel, ComparisonUnitAtom};
use super::lcs::is_ppr;
use super::moves::strings_view;
use super::produce::{atom_in_textbox, is_ppr_atom, txbx_from};
use super::CorrelationStatus;
use crate::namespaces::{pt_name, w_name, PT, W};
use crate::unid::{unid_text, UnidSource};
use crate::xml::{attribute_of, name_of, with_attr, Dom, NodeId, NodeView, XNameView};

verus! {

/// `pt:Unid`.
pub open spec fn unid_name() -> XNameView {
    pt_name("Unid"@)
}

/// The `pt:Unid` of node `n`.
pub open spec fn unid_at(d: Seq<NodeView>, n: NodeId) -> Option<Seq<char>> {
    attribute_of(d, n.0 as int, unid_name())
}

// ── the first pass: identities taken from matched paragraphs ───────────────

/// The views of a list of (element, identity) pairs.
pub open spec fn pairs_view(v: Seq<(NodeId, String)>) -> Seq<(NodeId, Seq<char>)> {
    v.map_values(|p: (NodeId, String)| (p.0, p.1@))
}

/// Among the first `k` positions, the ancestors of `aft` that carry a
/// `pt:Unid` in `d` while their counterpart in `bef` carries one too, each
/// with the counterpart's.
pub open spec fn unid_pairs(d: Seq<NodeView>, aft: Seq<NodeId>, bef: Seq<NodeId>, k: int) -> Seq<
    (NodeId, Seq<char>),
>
    decreases k,
{
    if k <= 0 {
        seq![]
    } else {
        let prev = unid_pairs(d, aft, bef, k - 1);
        match (unid_at(d, aft[k - 1]), unid_at(d, bef[k - 1])) {
            (Some(_), Some(bv)) => prev.push((aft[k - 1], bv)),
            _ => prev,
        }
    }
}

/// `d` with each pair's element given the pair's identity, in order.
pub open spec fn apply_unids(d: Seq<NodeView>, ps: Seq<(NodeId, Seq<char>)>) -> Seq<NodeView>
    decreases ps.len(),
{
    if ps.len() == 0 {
        d
    } else {
        with_attr(apply_unids(d, ps.drop_last()), ps.last().0.0 as int, unid_name(), Some(ps.last().1))
    }
}

/// The ancestors of the atom's matched original atom, when it has one with as
/// many ancestors as the atom itself.
pub open spec fn matched_ancestors(a: AtomModel) -> Option<Seq<NodeId>> {
    match a.before_ancestors {
        Some(b) => if b.len() == a.ancestor_elements.len() {
            Some(b)
        } else {
            None
        },
        None => None,
    }
}

/// The atom is a paragraph mark, in a text box or matched equal.
pub open spec fn takes_matched_unids(d: Seq<NodeView>, a: AtomModel) -> bool {
    is_ppr(d, a) && (txbx_from(d, a.ancestor_elements, 0) || a.correlation_status
        == CorrelationStatus::Equal)
}

/// The first pass on one atom.
pub open spec fn pass_a_atom(d: Seq<NodeView>, a: AtomModel) -> Seq<NodeView> {
    match matched_ancestors(a) {
        Some(b) => if takes_matched_unids(d, a) {
            apply_unids(d, unid_pairs(d, a.ancestor_elements, b, a.ancestor_elements.len() as int))
        } else {
            d
        },
        None => d,
    }
}

/// The first pass on `atoms`, in order.
pub open spec fn pass_a(d: Seq<NodeView>, atoms: Seq<AtomModel>) -> Seq<NodeView>
    decreases atoms.len(),
{
    if atoms.len() == 0 {
        d
    } else {
        pass_a_atom(pass_a(d, atoms.drop_last()), atoms.last())
    }
}

/// The identity of the outermost ancestor of the last atom, when that
/// ancestor is a `w:footnote` or `w:endnote`.
pub open spec fn deepest_unid(d: Seq<NodeView>, atoms: Seq<AtomModel>) -> Option<Seq<char>> {
    if atoms.len() > 0 && atoms.last().ancestor_elements.len() > 0 {
        let outer = atoms.last().ancestor_elements[0];
        if name_of(d, outer.0 as int) == Some(w_name("footnote"@)) || name_of(d, outer.0 as int)
            == Some(w_name("endnote"@)) {
            unid_at(d, outer)
        } else {
            None
        }
    } else {
        None
    }
}

// ── minting ─────────────────────────────────────────────────────────────────

/// A tree, the number of identities minted so far, and identities read or
/// minted.
pub struct Minted {
    pub d: Seq<NodeView>,
    pub n: nat,
    pub unids: Seq<Seq<char>>,
}

/// The identities of `ancs`, in order: each read off its element, or, where
/// it has none, the next one minted, which the element is then given.
pub open spec fn mint_all(d: Seq<NodeView>, n: nat, ancs: Seq<NodeId>) -> Minted
    decreases ancs.len(),
{
    if ancs.len() == 0 {
        Minted { d, n, unids: seq![] }
    } else {
        let m = mint_all(d, n, ancs.drop_last());
        let a = ancs.last();
        match unid_at(m.d, a) {
            Some(u) => Minted { d: m.d, n: m.n, unids: m.unids.push(u) },
            None => Minted {
                d: with_attr(m.d, a.0 as int, unid_name(), Some(unid_text(m.n))),
                n: m.n + 1,
                unids: m.unids.push(unid_text(m.n)),
            },
        }
    }
}

/// `s` with its first identity replaced by `deep`, when there is one.
pub open spec fn with_deepest(s: Seq<Seq<char>>, deep: Option<Seq<char>>) -> Seq<Seq<char>> {
    match deep {
        Some(x) => if s.len() > 0 {
            s.update(0, x)
        } else {
            s
        },
        None => s,
    }
}

proof fn lemma_mint_all(d: Seq<NodeView>, n: nat, ancs: Seq<NodeId>)
    ensures
        n <= mint_all(d, n, ancs).n <= n + ancs.len(),
        mint_all(d, n, ancs).unids.len() == ancs.len(),
    decreases ancs.len(),
{
    if ancs.len() > 0 {
        lemma_mint_all(d, n, ancs.drop_last());
    }
}

// ── the second pass: every atom, backwards ─────────────────────────────────

/// The state of the second pass: the tree, identities minted, the identities
/// and ancestors of the last paragraph mark seen, and each atom's identities.
pub struct BState {
    pub d: Seq<NodeView>,
    pub n: nat,
    pub current: Option<Seq<Seq<char>>>,
    pub elems: Option<Seq<NodeId>>,
    pub unids: Seq<Option<Seq<Seq<char>>>>,
}

/// From `k` on, how many leading ancestors of `anc` agree by element name with
/// those of `prev`, up to `limit`.
pub open spec fn shared_names(
    d: Seq<NodeView>,
    anc: Seq<NodeId>,
    prev: Seq<NodeId>,
    limit: int,
    k: int,
) -> int
    decreases limit - k,
{
    if 0 <= k < limit && k < anc.len() && k < prev.len() && name_of(d, anc[k].0 as int) == name_of(
        d,
        prev[k].0 as int,
    ) {
        shared_names(d, anc, prev, limit, k + 1)
    } else {
        k
    }
}

/// The second pass on atom `a`, at index `i`: a paragraph mark outside text
/// boxes gets the identities of all its ancestors; any other atom borrows
/// those of the last paragraph mark seen as far as the ancestor names agree,
/// and gets its own for the rest.
pub open spec fn pass_b_step(s: BState, a: AtomModel, i: int, deep: Option<Seq<char>>) -> BState {
    let anc = a.ancestor_elements;
    if is_ppr(s.d, a) && !txbx_from(s.d, anc, 0) {
        let m = mint_all(s.d, s.n, anc);
        let cur = with_deepest(m.unids, deep);
        BState {
            d: m.d,
            n: m.n,
            current: Some(cur),
            elems: Some(anc),
            unids: s.unids.update(i, Some(cur)),
        }
    } else {
        let prefix = match s.current {
            Some(c) => c,
            None => seq![],
        };
        let prev = match s.elems {
            Some(e) => e,
            None => seq![],
        };
        let share = shared_names(s.d, anc, prev, prefix.len() as int, 0);
        let m = mint_all(s.d, s.n, anc.skip(share));
        let full = with_deepest(prefix.take(share) + m.unids, deep);
        BState { d: m.d, n: m.n, current: s.current, elems: s.elems, unids: s.unids.update(i, Some(full)) }
    }
}

/// The second pass over the last `k` atoms.
pub open spec fn pass_b(s0: BState, atoms: Seq<AtomModel>, deep: Option<Seq<char>>, k: nat) -> BState
    decreases k,
{
    if k == 0 || k > atoms.len() {
        s0
    } else {
        let i = atoms.len() - k;
        pass_b_step(pass_b(s0, atoms, deep, (k - 1) as nat), atoms[i], i, deep)
    }
}

// ── the third pass: text boxes, backwards ──────────────────────────────────

/// The state of the third pass: the tree, identities minted, the identities
/// of the text-box paragraph being filled, whether atoms are passed over, and
/// each atom's identities.
pub struct CState {
    pub d: Seq<NodeView>,
    pub n: nat,
    pub current: Option<Seq<Seq<char>>>,
    pub skip: bool,
    pub unids: Seq<Option<Seq<Seq<char>>>>,
}

/// The identities of `anc` as their elements carry them.
pub open spec fn read_unids(d: Seq<NodeView>, anc: Seq<NodeId>) -> Seq<Seq<char>> {
    Seq::new(
        anc.len(),
        |k: int|
            match unid_at(d, anc[k]) {
                Some(u) => u,
                None => seq![],
            },
    )
}

/// The atom leaves the text-box paragraph being filled: it has fewer
/// ancestors than that paragraph's identities.
pub open spec fn leaves_current(s: CState, a: AtomModel) -> bool {
    match s.current {
        Some(cur) => a.ancestor_elements.len() < cur.len(),
        None => false,
    }
}

/// The third pass on atom `a` at index `i`.
pub open spec fn pass_c_step(s: CState, a: AtomModel, i: int) -> CState {
    let anc = a.ancestor_elements;
    if leaves_current(s, a) {
        CState { current: None, skip: true, ..s }
    } else if is_ppr(s.d, a) {
        if !txbx_from(s.d, anc, 0) {
            CState { current: None, skip: true, ..s }
        } else {
            let cur = read_unids(s.d, anc);
            CState { current: Some(cur), skip: false, unids: s.unids.update(i, Some(cur)), ..s }
        }
    } else if s.skip {
        s
    } else {
        match s.current {
            Some(cur) => {
                let m = mint_all(s.d, s.n, anc.skip(cur.len() as int));
                CState { d: m.d, n: m.n, unids: s.unids.update(i, Some(cur + m.unids)), ..s }
            },
            None => s,
        }
    }
}

/// The third pass over the last `k` atoms.
pub open spec fn pass_c(s0: CState, atoms: Seq<AtomModel>, k: nat) -> CState
    decreases k,
{
    if k == 0 || k > atoms.len() {
        s0
    } else {
        let i = atoms.len() - k;
        pass_c_step(pass_c(s0, atoms, (k - 1) as nat), atoms[i], i)
    }
}

/// A text-box paragraph mark met by the third pass has identities on all its
/// ancestors.
pub open spec fn pass_c_ok(s: CState, a: AtomModel) -> bool {
    (!leaves_current(s, a) && is_ppr(s.d, a) && txbx_from(s.d, a.ancestor_elements, 0)) ==> forall|
        k: int,
    |
        0 <= k < a.ancestor_elements.len() ==> #[trigger] unid_at(s.d, a.ancestor_elements[k]) is Some
}

/// The third pass over the last `k` atoms meets no text-box paragraph mark
/// with an ancestor lacking an identity.
pub open spec fn pass_c_safe(s0: CState, atoms: Seq<AtomModel>, k: nat) -> bool
    decreases k,
{
    if k == 0 || k > atoms.len() {
        true
    } else {
        pass_c_safe(s0, atoms, (k - 1) as nat) && pass_c_ok(
            pass_c(s0, atoms, (k - 1) as nat),
            atoms[atoms.len() - k],
        )
    }
}

// ── the whole ───────────────────────────────────────────────────────────────

/// The identities the atoms carry to start with.
pub open spec fn initial_unids(atoms: Seq<AtomModel>) -> Seq<Option<Seq<Seq<char>>>> {
    atoms.map_values(|a: AtomModel| a.ancestor_unids)
}

/// The state before the second pass.
pub open spec fn pass_b_start(d: Seq<NodeView>, atoms: Seq<AtomModel>, n: nat) -> BState {
    BState { d: pass_a(d, atoms), n, current: None, elems: None, unids: initial_unids(atoms) }
}

/// The state after the second pass.
pub open spec fn after_pass_b(d: Seq<NodeView>, atoms: Seq<AtomModel>, n: nat) -> BState {
    let s = pass_b_start(d, atoms, n);
    pass_b(s, atoms, deepest_unid(s.d, atoms), atoms.len())
}

/// The state before the third pass.
pub open spec fn pass_c_start(d: Seq<NodeView>, atoms: Seq<AtomModel>, n: nat) -> CState {
    let b = after_pass_b(d, atoms, n);
    CState { d: b.d, n: b.n, current: None, skip: false, unids: b.unids }
}

/// The tree, the count of identities minted and each atom's identities once
/// all three passes are done, starting from tree `d` and `n` identities minted.
pub open spec fn assembled(d: Seq<NodeView>, atoms: Seq<AtomModel>, n: nat) -> CState {
    pass_c(pass_c_start(d, atoms, n), atoms, atoms.len())
}

/// The third pass never meets a text-box paragraph mark with an ancestor
/// lacking an identity.
pub open spec fn assembly_safe(d: Seq<NodeView>, atoms: Seq<AtomModel>, n: nat) -> bool {
    pass_c_safe(pass_c_start(d, atoms, n), atoms, atoms.len())
}

/// The number of ancestors of the last `k` atoms.
pub open spec fn tail_ancestors(atoms: Seq<AtomModel>, k: nat) -> nat
    decreases k,
{
    if k == 0 || k > atoms.len() {
        0
    } else {
        tail_ancestors(atoms, (k - 1) as nat) + atoms[atoms.len() - k].ancestor_elements.len()
    }
}

/// `a` carrying the identities `u`.
pub open spec fn with_unids(a: AtomModel, u: Option<Seq<Seq<char>>>) -> AtomModel {
    AtomModel { ancestor_unids: u, ..a }
}

// ── lemmas ──────────────────────────────────────────────────────────────────

proof fn lemma_shared_names(
    d: Seq<NodeView>,
    anc: Seq<NodeId>,
    prev: Seq<NodeId>,
    limit: int,
    k: int,
)
    requires
        0 <= k,
        k <= anc.len(),
        k <= limit,
    ensures
        k <= shared_names(d, anc, prev, limit, k) <= anc.len(),
        shared_names(d, anc, prev, limit, k) <= limit,
    decreases limit - k,
{
    if 0 <= k < limit && k < anc.len() && k < prev.len() && name_of(d, anc[k].0 as int) == name_of(
        d,
        prev[k].0 as int,
    ) {
        lemma_shared_names(d, anc, prev, limit, k + 1);
    }
}

proof fn lemma_tail_grows(atoms: Seq<AtomModel>, j: nat, k: nat)
    requires
        j <= k <= atoms.len(),
    ensures
        tail_ancestors(atoms, j) <= tail_ancestors(atoms, k),
    decreases k,
{
    if j < k {
        lemma_tail_grows(atoms, j, (k - 1) as nat);
    }
}

proof fn lemma_pass_b(s0: BState, atoms: Seq<AtomModel>, deep: Option<Seq<char>>, k: nat)
    requires
        k <= atoms.len(),
        s0.unids.len() == atoms.len(),
    ensures
        s0.n <= pass_b(s0, atoms, deep, k).n <= s0.n + tail_ancestors(atoms, k),
        pass_b(s0, atoms, deep, k).unids.len() == atoms.len(),
    decreases k,
{
    if k > 0 {
        lemma_pass_b(s0, atoms, deep, (k - 1) as nat);
        let s = pass_b(s0, atoms, deep, (k - 1) as nat);
        let a = atoms[atoms.len() - k];
        let anc = a.ancestor_elements;
        lemma_mint_all(s.d, s.n, anc);
        let prefix = match s.current {
            Some(c) => c,
            None => seq![],
        };
        let prev = match s.elems {
            Some(e) => e,
            None => seq![],
        };
        lemma_shared_names(s.d, anc, prev, prefix.len() as int, 0);
        let share = shared_names(s.d, anc, prev, prefix.len() as int, 0);
        lemma_mint_all(s.d, s.n, anc.skip(share));
    }
}

proof fn lemma_pass_c(s0: CState, atoms: Seq<AtomModel>, k: nat)
    requires
        k <= atoms.len(),
        s0.unids.len() == atoms.len(),
    ensures
        s0.n <= pass_c(s0, atoms, k).n <= s0.n + tail_ancestors(atoms, k),
        pass_c(s0, atoms, k).unids.len() == atoms.len(),
    decreases k,
{
    if k > 0 {
        lemma_pass_c(s0, atoms, (k - 1) as nat);
        let s = pass_c(s0, atoms, (k - 1) as nat);
        let a = atoms[atoms.len() - k];
        match s.current {
            Some(cur) => {
                if cur.len() <= a.ancestor_elements.len() {
                    lemma_mint_all(s.d, s.n, a.ancestor_elements.skip(cur.len() as int));
                }
            },
            None => {},
        }
    }
}

proof fn lemma_pass_c_safe_at(s0: CState, atoms: Seq<AtomModel>, kk: nat, k: nat)
    requires
        pass_c_safe(s0, atoms, kk),
        k < kk <= atoms.len(),
    ensures
        pass_c_ok(pass_c(s0, atoms, k), atoms[atoms.len() - k - 1]),
    decreases kk,
{
    if k + 1 < kk {
        lemma_pass_c_safe_at(s0, atoms, (kk - 1) as nat, k);
    }
}

// ── execution ───────────────────────────────────────────────────────────────

/// The identities of `ancs` from position `lo` on, each read off its element
/// or minted and written to it.
fn mint_from(dom: &mut Dom, ancs: &Vec<NodeId>, lo: usize, mint: &mut UnidSource) -> (r: Vec<String>)
    requires
        old(dom).wf(),
        lo <= ancs@.len(),
        old(mint).issued() + ancs@.len() - lo <= u64::MAX,
    ensures
        final(dom).wf(),
        final(dom)@ == mint_all(old(dom)@, old(mint).issued(), ancs@.skip(lo as int)).d,
        final(mint).issued() == mint_all(old(dom)@, old(mint).issued(), ancs@.skip(lo as int)).n,
        strings_view(r@) == mint_all(old(dom)@, old(mint).issued(), ancs@.skip(lo as int)).unids,
{
    let unid = PT::unid();
    let ghost d0 = dom@;
    let ghost n0 = mint.issued();
    let ghost t = ancs@.skip(lo as int);
    let mut out: Vec<String> = Vec::new();
    let mut j: usize = lo;
    assert(t.take(0) =~= Seq::<NodeId>::empty());
    assert(strings_view(out@) =~= Seq::<Seq<char>>::empty());
    while j < ancs.len()
        invariant
            dom.wf(),
            unid@ == unid_name(),
            lo <= j <= ancs@.len(),
            t == ancs@.skip(lo as int),
            n0 + ancs@.len() - lo <= u64::MAX,
            mint_all(d0, n0, t.take(j - lo)).d == dom@,
            mint_all(d0, n0, t.take(j - lo)).n == mint.issued(),
            mint_all(d0, n0, t.take(j - lo)).unids == strings_view(out@),
        decreases ancs@.len() - j,
    {
        proof {
            lemma_mint_all(d0, n0, t.take(j - lo));
        }
        assert(t.take(j + 1 - lo).drop_last() =~= t.take(j - lo));
        assert(t.take(j + 1 - lo).last() == ancs@[j as int]);
        let ae = ancs[j];
        let existing: Option<String> = match dom.attribute(ae, &unid) {
            Some(u) => Some(String::from_str(u)),
            None => None,
        };
        let ghost sv = strings_view(out@);
        match existing {
            Some(u) => {
                out.push(u);
            },
            None => {
                let g = mint.generate_unid();
                dom.set_attribute_value(ae, &unid, Some(g.as_str()));
                out.push(g);
            },
        }
        assert(strings_view(out@) =~= sv.push(out@.last()@));
        j = j + 1;
    }
    assert(t.take(ancs@.len() - lo) =~= t);
    out
}

/// The pairs of the first pass for one atom, read off the tree.
fn matched_unid_pairs(dom: &Dom, aft: &Vec<NodeId>, bef: &Vec<NodeId>) -> (r: Vec<(NodeId, String)>)
    requires
        aft@.len() == bef@.len(),
    ensures
        pairs_view(r@) == unid_pairs(dom@, aft@, bef@, aft@.len() as int),
{
    let unid = PT::unid();
    let mut out: Vec<(NodeId, String)> = Vec::new();
    let mut k: usize = 0;
    assert(pairs_view(out@) =~= Seq::<(NodeId, Seq<char>)>::empty());
    while k < aft.len()
        invariant
            aft@.len() == bef@.len(),
            unid@ == unid_name(),
            k <= aft@.len(),
            pairs_view(out@) == unid_pairs(dom@, aft@, bef@, k as int),
        decreases aft@.len() - k,
    {
        let ghost pv = pairs_view(out@);
        match (dom.attribute(aft[k], &unid), dom.attribute(bef[k], &unid)) {
            (Some(_), Some(bv)) => {
                out.push((aft[k], String::from_str(bv)));
                assert(pairs_view(out@) =~= pv.push((aft@[k as int], bv@)));
            },
            _ => {},
        }
        k = k + 1;
    }
    out
}

/// The tree with each pair's element given the pair's identity, in order.
fn apply_pairs(dom: &mut Dom, ps: &Vec<(NodeId, String)>)
    requires
        old(dom).wf(),
    ensures
        final(dom).wf(),
        final(dom)@ == apply_unids(old(dom)@, pairs_view(ps@)),
{
    let unid = PT::unid();
    let ghost d0 = dom@;
    let mut j: usize = 0;
    assert(pairs_view(ps@).take(0) =~= Seq::<(NodeId, Seq<char>)>::empty());
    while j < ps.len()
        invariant
            dom.wf(),
            unid@ == unid_name(),
            j <= ps@.len(),
            dom@ == apply_unids(d0, pairs_view(ps@).take(j as int)),
        decreases ps@.len() - j,
    {
        assert(pairs_view(ps@).take(j + 1).drop_last() =~= pairs_view(ps@).take(j as int));
        assert(pairs_view(ps@).take(j + 1).last() == (ps@[j as int].0, ps@[j as int].1@));
        dom.set_attribute_value(ps[j].0, &unid, Some(ps[j].1.as_str()));
        j = j + 1;
    }
    assert(pairs_view(ps@).take(ps@.len() as int) =~= pairs_view(ps@));
}

/// The first pass: matched paragraph marks take over their matched
/// ancestors' identities.
fn take_matched_unids(dom: &mut Dom, atoms: &[ComparisonUnitAtom])
    requires
        old(dom).wf(),
    ensures
        final(dom).wf(),
        final(dom)@ == pass_a(old(dom)@, atoms_model(atoms@)),
{
    let ghost d0 = dom@;
    let ghost am = atoms_model(atoms@);
    let mut i: usize = 0;
    assert(am.take(0) =~= Seq::<AtomModel>::empty());
    while i < atoms.len()
        invariant
            dom.wf(),
            am == atoms_model(atoms@),
            i <= atoms@.len(),
            dom@ == pass_a(d0, am.take(i as int)),
        decreases atoms@.len() - i,
    {
        assert(am.take(i + 1).drop_last() =~= am.take(i as int));
        assert(am.take(i + 1).last() == atoms@[i as int]@);
        let a = &atoms[i];
        match &a.comparison_unit_atom_before {
            Some(b) => {
                if b.ancestor_elements.len() == a.ancestor_elements.len() && is_ppr_atom(dom, a) && (
                atom_in_textbox(dom, a) || a.correlation_status == CorrelationStatus::Equal) {
                    let ps = matched_unid_pairs(dom, &a.ancestor_elements, &b.ancestor_elements);
                    apply_pairs(dom, &ps);
                }
            },
            None => {},
        }
        i = i + 1;
    }
    assert(am.take(atoms@.len() as int) =~= am);
}

/// The identity of the outermost ancestor of the last atom, when that
/// ancestor is a `w:footnote` or `w:endnote`.
fn note_root_unid(dom: &Dom, atoms: &[ComparisonUnitAtom]) -> (r: Option<String>)
    ensures
        opt_str_view(r) == deepest_unid(dom@, atoms_model(atoms@)),
{
    if atoms.len() == 0 {
        return None;
    }
    let last = &atoms[atoms.len() - 1];
    assert(atoms_model(atoms@).last() == last@);
    if last.ancestor_elements.len() == 0 {
        return None;
    }
    let outer = last.ancestor_elements[0];
    let footnote = W::name("footnote");
    let endnote = W::name("endnote");
    let is_note = match dom.name(outer) {
        Some(nm) => nm.same(&footnote) || nm.same(&endnote),
        None => false,
    };
    if !is_note {
        return None;
    }
    match dom.attribute(outer, &PT::unid()) {
        Some(u) => Some(String::from_str(u)),
        None => None,
    }
}

/// Whether the two nodes have the same element name (or are both not
/// elements).
fn same_name(dom: &Dom, x: NodeId, y: NodeId) -> (r: bool)
    ensures
        r == (name_of(dom@, x.0 as int) == name_of(dom@, y.0 as int)),
{
    match (dom.name(x), dom.name(y)) {
        (Some(p), Some(q)) => p.same(&q),
        (None, None) => true,
        _ => false,
    }
}

/// `v` with its first identity replaced by `deep`, when there is one.
fn put_deepest(v: &mut Vec<String>, deep: &Option<String>)
    ensures
        strings_view(final(v)@) == with_deepest(strings_view(old(v)@), opt_str_view(*deep)),
{
    match deep {
        Some(x) => {
            if v.len() > 0 {
                let ghost sv = strings_view(v@);
                v.set(0, x.clone());
                assert(strings_view(v@) =~= sv.update(0, x@));
            }
        },
        None => {},
    }
}

/// Atom `i` given the identities `u`.
fn set_unids(atoms: &mut [ComparisonUnitAtom], i: usize, u: Vec<String>)
    requires
        i < old(atoms)@.len(),
    ensures
        final(atoms)@.len() == old(atoms)@.len(),
        forall|j: int| 0 <= j < old(atoms)@.len() && j != i ==> final(atoms)@[j] == old(atoms)@[j],
        final(atoms)@[i as int]@ == with_unids(old(atoms)@[i as int]@, Some(strings_view(u@))),
{
    let mut a = atoms[i].clone();
    a.ancestor_unids = Some(u);
    atoms[i] = a;
}

/// The second pass, over every atom backwards, from state `s0`.
fn give_every_atom_unids(
    dom: &mut Dom,
    atoms: &mut [ComparisonUnitAtom],
    mint: &mut UnidSource,
    deep: &Option<String>,
    Ghost(am): Ghost<Seq<AtomModel>>,
    Ghost(s0): Ghost<BState>,
)
    requires
        old(dom).wf(),
        am.len() == old(atoms)@.len(),
        forall|j: int|
            0 <= j < am.len() ==> #[trigger] old(atoms)@[j]@ == with_unids(am[j], s0.unids[j]),
        s0.d == old(dom)@,
        s0.n == old(mint).issued(),
        s0.current is None,
        s0.elems is None,
        s0.unids.len() == am.len(),
        old(mint).issued() + tail_ancestors(am, am.len()) <= u64::MAX,
    ensures
        final(dom).wf(),
        final(atoms)@.len() == am.len(),
        final(dom)@ == pass_b(s0, am, opt_str_view(*deep), am.len()).d,
        final(mint).issued() == pass_b(s0, am, opt_str_view(*deep), am.len()).n,
        forall|j: int|
            0 <= j < am.len() ==> #[trigger] final(atoms)@[j]@ == with_unids(
                am[j],
                pass_b(s0, am, opt_str_view(*deep), am.len()).unids[j],
            ),
{
    let ghost dv = opt_str_view(*deep);
    let ghost n0 = mint.issued();
    let mut current: Option<Vec<String>> = None;
    let mut current_elems: Option<Vec<NodeId>> = None;
    let no_unids: Vec<String> = Vec::new();
    let no_elems: Vec<NodeId> = Vec::new();
    let len = atoms.len();
    let mut k: usize = 0;
    while k < len
        invariant
            dom.wf(),
            len == am.len(),
            atoms@.len() == am.len(),
            s0.unids.len() == am.len(),
            no_unids@.len() == 0,
            no_elems@.len() == 0,
            k <= len,
            dv == opt_str_view(*deep),
            s0.n == n0,
            n0 + tail_ancestors(am, am.len()) <= u64::MAX,
            mint.issued() <= n0 + tail_ancestors(am, k as nat),
            dom@ == pass_b(s0, am, dv, k as nat).d,
            mint.issued() == pass_b(s0, am, dv, k as nat).n,
            match current {
                Some(c) => pass_b(s0, am, dv, k as nat).current == Some(strings_view(c@)),
                None => pass_b(s0, am, dv, k as nat).current is None,
            },
            match current_elems {
                Some(e) => pass_b(s0, am, dv, k as nat).elems == Some(e@),
                None => pass_b(s0, am, dv, k as nat).elems is None,
            },
            forall|j: int|
                0 <= j < am.len() ==> #[trigger] atoms@[j]@ == with_unids(
                    am[j],
                    pass_b(s0, am, dv, k as nat).unids[j],
                ),
        decreases len - k,
    {
        let i = len - 1 - k;
        let ghost s = pass_b(s0, am, dv, k as nat);
        proof {
            lemma_pass_b(s0, am, dv, k as nat);
            lemma_pass_b(s0, am, dv, (k + 1) as nat);
            lemma_tail_grows(am, (k + 1) as nat, am.len());
        }
        assert(pass_b(s0, am, dv, (k + 1) as nat) == pass_b_step(s, am[i as int], i as int, dv));
        assert(atoms@[i as int]@ == with_unids(am[i as int], s.unids[i as int]));
        let anc = copy_node_ids(&atoms[i].ancestor_elements);
        assert(anc@ == am[i as int].ancestor_elements);
        assert(tail_ancestors(am, (k + 1) as nat) == tail_ancestors(am, k as nat) + anc@.len());
        let ppr = is_ppr_atom(dom, &atoms[i]);
        let in_box = atom_in_textbox(dom, &atoms[i]);
        assert(ppr == is_ppr(s.d, am[i as int]));
        if ppr && !in_box {
            let mut cur = mint_from(dom, &anc, 0, mint);
            assert(anc@.skip(0) =~= anc@);
            put_deepest(&mut cur, deep);
            let ghost cv = strings_view(cur@);
            assert(cv == with_deepest(mint_all(s.d, s.n, am[i as int].ancestor_elements).unids, dv));
            assert(pass_b(s0, am, dv, (k + 1) as nat).unids[i as int] == Some(cv));
            let ghost before_atoms = atoms@;
            set_unids(atoms, i, copy_strings(&cur));
            assert(atoms@[i as int]@ == with_unids(am[i as int], Some(cv)));
            current = Some(cur);
            current_elems = Some(anc);
            assert forall|j: int| 0 <= j < am.len() implies #[trigger] atoms@[j]@ == with_unids(
                am[j],
                pass_b(s0, am, dv, (k + 1) as nat).unids[j],
            ) by {
                if j != i {
                    assert(before_atoms[j] == atoms@[j]);
                }
            }
        } else {
            let prefix: &Vec<String> = match &current {
                Some(c) => c,
                None => &no_unids,
            };
            let prev: &Vec<NodeId> = match &current_elems {
                Some(e) => e,
                None => &no_elems,
            };
            let ghost pv = prev@;
            let ghost pre = strings_view(prefix@);
            assert(pre == match s.current {
                Some(c) => c,
                None => Seq::<Seq<char>>::empty(),
            });
            assert(pv == match s.elems {
                Some(e) => e,
                None => Seq::<NodeId>::empty(),
            });
            let mut share: usize = 0;
            while share < prefix.len() && share < anc.len() && share < prev.len() && same_name(
                dom,
                anc[share],
                prev[share],
            )
                invariant
                    share <= prefix@.len(),
                    share <= anc@.len(),
                    pv == prev@,
                    pre == strings_view(prefix@),
                    shared_names(s.d, anc@, pv, pre.len() as int, 0) == shared_names(
                        s.d,
                        anc@,
                        pv,
                        pre.len() as int,
                        share as int,
                    ),
                    dom@ == s.d,
                decreases anc@.len() - share,
            {
                share = share + 1;
            }
            assert(share == shared_names(s.d, anc@, pv, pre.len() as int, 0));
            let mut full: Vec<String> = Vec::new();
            let mut t: usize = 0;
            while t < share
                invariant
                    t <= share <= prefix@.len(),
                    pre == strings_view(prefix@),
                    strings_view(full@) == pre.take(t as int),
                decreases share - t,
            {
                let ghost fv = strings_view(full@);
                let c = prefix[t].clone();
                full.push(c);
                assert(strings_view(full@) =~= fv.push(c@));
                assert(pre.take(t + 1) =~= pre.take(t as int).push(pre[t as int]));
                t = t + 1;
            }
            let mut rest = mint_from(dom, &anc, share, mint);
            let ghost fv = strings_view(full@);
            full.append(&mut rest);
            assert(strings_view(full@) =~= fv + mint_all(s.d, s.n, anc@.skip(share as int)).unids);
            put_deepest(&mut full, deep);
            let ghost cv = strings_view(full@);
            assert(pass_b(s0, am, dv, (k + 1) as nat).unids[i as int] == Some(cv));
            let ghost before_atoms = atoms@;
            set_unids(atoms, i, full);
            assert(atoms@[i as int]@ == with_unids(am[i as int], Some(cv)));
            assert forall|j: int| 0 <= j < am.len() implies #[trigger] atoms@[j]@ == with_unids(
                am[j],
                pass_b(s0, am, dv, (k + 1) as nat).unids[j],
            ) by {
                if j != i {
                    assert(before_atoms[j] == atoms@[j]);
                }
            }
        }
        k = k + 1;
    }
}

/// The identities of `anc` as their elements carry them; each has one.
fn read_all_unids(dom: &Dom, anc: &Vec<NodeId>) -> (r: Vec<String>)
    requires
        forall|k: int| 0 <= k < anc@.len() ==> #[trigger] unid_at(dom@, anc@[k]) is Some,
    ensures
        strings_view(r@) == read_unids(dom@, anc@),
{
    let unid = PT::unid();
    let mut out: Vec<String> = Vec::new();
    let mut k: usize = 0;
    while k < anc.len()
        invariant
            unid@ == unid_name(),
            forall|k: int| 0 <= k < anc@.len() ==> #[trigger] unid_at(dom@, anc@[k]) is Some,
            k <= anc@.len(),
            strings_view(out@) == read_unids(dom@, anc@).take(k as int),
        decreases anc@.len() - k,
    {
        assert(unid_at(dom@, anc@[k as int]) is Some);
        let u = dom.attribute(anc[k], &unid).unwrap();
        let ghost ov = strings_view(out@);
        let c = String::from_str(u);
        assert(read_unids(dom@, anc@)[k as int] == c@);
        out.push(c);
        assert(strings_view(out@) =~= ov.push(c@));
        assert(read_unids(dom@, anc@).take(k + 1) =~= read_unids(dom@, anc@).take(k as int).push(c@));
        k = k + 1;
    }
    assert(read_unids(dom@, anc@).take(anc@.len() as int) =~= read_unids(dom@, anc@));
    out
}

/// The third pass, over every atom backwards, from state `s0`: the atoms of a
/// text box take the identities of their own paragraph.
fn fix_text_box_unids(
    dom: &mut Dom,
    atoms: &mut [ComparisonUnitAtom],
    mint: &mut UnidSource,
    Ghost(am): Ghost<Seq<AtomModel>>,
    Ghost(s0): Ghost<CState>,
)
    requires
        old(dom).wf(),
        am.len() == old(atoms)@.len(),
        forall|j: int|
            0 <= j < am.len() ==> #[trigger] old(atoms)@[j]@ == with_unids(am[j], s0.unids[j]),
        s0.d == old(dom)@,
        s0.n == old(mint).issued(),
        s0.current is None,
        !s0.skip,
        s0.unids.len() == am.len(),
        old(mint).issued() + tail_ancestors(am, am.len()) <= u64::MAX,
        pass_c_safe(s0, am, am.len()),
    ensures
        final(dom).wf(),
        final(atoms)@.len() == am.len(),
        final(dom)@ == pass_c(s0, am, am.len()).d,
        final(mint).issued() == pass_c(s0, am, am.len()).n,
        forall|j: int|
            0 <= j < am.len() ==> #[trigger] final(atoms)@[j]@ == with_unids(
                am[j],
                pass_c(s0, am, am.len()).unids[j],
            ),
{
    let ghost n0 = mint.issued();
    let mut current: Option<Vec<String>> = None;
    let mut skip = false;
    let len = atoms.len();
    let mut k: usize = 0;
    while k < len
        invariant
            dom.wf(),
            len == am.len(),
            atoms@.len() == am.len(),
            s0.unids.len() == am.len(),
            k <= len,
            s0.n == n0,
            n0 + tail_ancestors(am, am.len()) <= u64::MAX,
            pass_c_safe(s0, am, am.len()),
            mint.issued() <= n0 + tail_ancestors(am, k as nat),
            dom@ == pass_c(s0, am, k as nat).d,
            mint.issued() == pass_c(s0, am, k as nat).n,
            skip == pass_c(s0, am, k as nat).skip,
            match current {
                Some(c) => pass_c(s0, am, k as nat).current == Some(strings_view(c@)),
                None => pass_c(s0, am, k as nat).current is None,
            },
            forall|j: int|
                0 <= j < am.len() ==> #[trigger] atoms@[j]@ == with_unids(
                    am[j],
                    pass_c(s0, am, k as nat).unids[j],
                ),
        decreases len - k,
    {
        let i = len - 1 - k;
        let ghost s = pass_c(s0, am, k as nat);
        proof {
            lemma_pass_c(s0, am, k as nat);
            lemma_pass_c(s0, am, (k + 1) as nat);
            lemma_tail_grows(am, (k + 1) as nat, am.len());
            lemma_pass_c_safe_at(s0, am, am.len(), k as nat);
        }
        assert(pass_c(s0, am, (k + 1) as nat) == pass_c_step(s, am[i as int], i as int));
        assert(atoms@[i as int]@ == with_unids(am[i as int], s.unids[i as int]));
        let anc = copy_node_ids(&atoms[i].ancestor_elements);
        assert(anc@ == am[i as int].ancestor_elements);
        assert(tail_ancestors(am, (k + 1) as nat) == tail_ancestors(am, k as nat) + anc@.len());
        let leaves = match &current {
            Some(c) => anc.len() < c.len(),
            None => false,
        };
        if leaves {
            current = None;
            skip = true;
        } else if is_ppr_atom(dom, &atoms[i]) {
            if !atom_in_textbox(dom, &atoms[i]) {
                current = None;
                skip = true;
            } else {
                let cur = read_all_unids(dom, &anc);
                let ghost cv = strings_view(cur@);
                let ghost before_atoms = atoms@;
                set_unids(atoms, i, copy_strings(&cur));
                current = Some(cur);
                skip = false;
                assert forall|j: int| 0 <= j < am.len() implies #[trigger] atoms@[j]@ == with_unids(
                    am[j],
                    pass_c(s0, am, (k + 1) as nat).unids[j],
                ) by {
                    if j != i {
                        assert(before_atoms[j] == atoms@[j]);
                    }
                }
            }
        } else if skip {
        } else {
            match &current {
                Some(cur) => {
                    let mut full = copy_strings(cur);
                    let mut rest = mint_from(dom, &anc, cur.len(), mint);
                    let ghost fv = strings_view(full@);
                    full.append(&mut rest);
                    assert(strings_view(full@) =~= fv + mint_all(
                        s.d,
                        s.n,
                        anc@.skip(cur@.len() as int),
                    ).unids);
                    let ghost cv = strings_view(full@);
                    let ghost before_atoms = atoms@;
                    set_unids(atoms, i, full);
                    assert forall|j: int|
                        0 <= j < am.len() implies #[trigger] atoms@[j]@ == with_unids(
                        am[j],
                        pass_c(s0, am, (k + 1) as nat).unids[j],
                    ) by {
                        if j != i {
                            assert(before_atoms[j] == atoms@[j]);
                        }
                    }
                },
                None => {},
            }
        }
        k = k + 1;
    }
}

/// Assembles the identities of every atom's ancestors for rebuilding the
/// produced tree, minting the missing ones from `mint`: paragraph marks
/// matched equal (or in a text box) first take over the identities of their
/// matched original ancestors; then, backwards, every atom is given its
/// ancestors' identities, borrowing the following paragraph's where the
/// ancestor names agree, with the outermost one replaced by a note root's;
/// then, backwards again, the atoms of a text box get their own paragraph's.
pub fn assemble_ancestor_unids(dom: &mut Dom, atoms: &mut [ComparisonUnitAtom], mint: &mut UnidSource)
    requires
        old(dom).wf(),
        old(mint).issued() + 2 * tail_ancestors(atoms_model(old(atoms)@), old(atoms)@.len())
            <= u64::MAX,
        assembly_safe(old(dom)@, atoms_model(old(atoms)@), old(mint).issued()),
    ensures
        final(dom).wf(),
        final(dom)@ == assembled(old(dom)@, atoms_model(old(atoms)@), old(mint).issued()).d,
        final(mint).issued() == assembled(old(dom)@, atoms_model(old(atoms)@), old(mint).issued()).n,
        final(atoms)@.len() == old(atoms)@.len(),
        forall|i: int|
            0 <= i < old(atoms)@.len() ==> #[trigger] final(atoms)@[i]@ == with_unids(
                old(atoms)@[i]@,
                assembled(old(dom)@, atoms_model(old(atoms)@), old(mint).issued()).unids[i],
            ),
{
    let ghost am = atoms_model(atoms@);
    let ghost d0 = dom@;
    let ghost n0 = mint.issued();
    take_matched_unids(dom, atoms);
    let deep = note_root_unid(dom, atoms);
    let ghost sb = pass_b_start(d0, am, n0);
    assert(dom@ == sb.d);
    assert forall|j: int| 0 <= j < am.len() implies #[trigger] atoms@[j]@ == with_unids(
        am[j],
        sb.unids[j],
    ) by {
        assert(sb.unids[j] == am[j].ancestor_unids);
    }
    give_every_atom_unids(dom, atoms, mint, &deep, Ghost(am), Ghost(sb));
    let ghost b = after_pass_b(d0, am, n0);
    proof {
        lemma_pass_b(sb, am, opt_str_view(deep), am.len());
    }
    let ghost sc = pass_c_start(d0, am, n0);
    assert(mint.issued() == sc.n);
    fix_text_box_unids(dom, atoms, mint, Ghost(am), Ghost(sc));
}

// ── laws ────────────────────────────────────────────────────────────────────

/// `u` holds one identity per ancestor of `a`.
pub open spec fn one_per_ancestor(u: Option<Seq<Seq<char>>>, a: AtomModel) -> bool {
    u matches Some(v) && v.len() == a.ancestor_elements.len()
}

proof fn lemma_pass_b_lengths(s0: BState, atoms: Seq<AtomModel>, deep: Option<Seq<char>>, k: nat)
    requires
        k <= atoms.len(),
        s0.unids.len() == atoms.len(),
    ensures
        forall|j: int|
            atoms.len() - k <= j < atoms.len() ==> #[trigger] one_per_ancestor(
                pass_b(s0, atoms, deep, k).unids[j],
                atoms[j],
            ),
    decreases k,
{
    if k > 0 {
        lemma_pass_b_lengths(s0, atoms, deep, (k - 1) as nat);
        lemma_pass_b(s0, atoms, deep, (k - 1) as nat);
        let s = pass_b(s0, atoms, deep, (k - 1) as nat);
        let i = atoms.len() - k;
        let a = atoms[i];
        let anc = a.ancestor_elements;
        lemma_mint_all(s.d, s.n, anc);
        let prefix = match s.current {
            Some(c) => c,
            None => seq![],
        };
        let prev = match s.elems {
            Some(e) => e,
            None => seq![],
        };
        lemma_shared_names(s.d, anc, prev, prefix.len() as int, 0);
        let share = shared_names(s.d, anc, prev, prefix.len() as int, 0);
        lemma_mint_all(s.d, s.n, anc.skip(share));
    }
}

proof fn lemma_pass_c_lengths(s0: CState, atoms: Seq<AtomModel>, k: nat)
    requires
        k <= atoms.len(),
        s0.unids.len() == atoms.len(),
        forall|j: int| 0 <= j < atoms.len() ==> #[trigger] one_per_ancestor(s0.unids[j], atoms[j]),
    ensures
        forall|j: int|
            0 <= j < atoms.len() ==> #[trigger] one_per_ancestor(
                pass_c(s0, atoms, k).unids[j],
                atoms[j],
            ),
    decreases k,
{
    if k > 0 {
        lemma_pass_c_lengths(s0, atoms, (k - 1) as nat);
        lemma_pass_c(s0, atoms, (k - 1) as nat);
        let s = pass_c(s0, atoms, (k - 1) as nat);
        let i = atoms.len() - k;
        let a = atoms[i];
        match s.current {
            Some(cur) => {
                if cur.len() <= a.ancestor_elements.len() {
                    lemma_mint_all(s.d, s.n, a.ancestor_elements.skip(cur.len() as int));
                }
            },
            None => {},
        }
        assert forall|j: int| 0 <= j < atoms.len() implies #[trigger] one_per_ancestor(
            pass_c(s0, atoms, k).unids[j],
            atoms[j],
        ) by {
            if j != i {
                assert(pass_c(s0, atoms, k).unids[j] == s.unids[j]);
            }
        }
    }
}

/// Once assembled, every atom carries exactly one identity per ancestor
/// element, so the identities never fall out of step with the ancestor chain.
pub proof fn lemma_assembled_one_per_ancestor(d: Seq<NodeView>, atoms: Seq<AtomModel>, n: nat)
    ensures
        assembled(d, atoms, n).unids.len() == atoms.len(),
        forall|i: int|
            0 <= i < atoms.len() ==> #[trigger] one_per_ancestor(
                assembled(d, atoms, n).unids[i],
                atoms[i],
            ),
{
    let sb = pass_b_start(d, atoms, n);
    let deep = deepest_unid(sb.d, atoms);
    lemma_pass_b(sb, atoms, deep, atoms.len());
    lemma_pass_b_lengths(sb, atoms, deep, atoms.len());
    let sc = pass_c_start(d, atoms, n);
    lemma_pass_c(sc, atoms, atoms.len());
    lemma_pass_c_lengths(sc, atoms, atoms.len());
}

} // verus!
