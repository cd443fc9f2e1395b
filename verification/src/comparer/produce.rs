//! Producing the marked-up result: flattening the correlated sequences into a
//! status-tagged atom list, and the element-level edits the reassembly makes
//! (text inside deleted opaque content, schema order of table properties,
//! `xml:space` and status labels).

use vstd::prelude::*;

use super::atoms::{
    atoms_model, lemma_models_atoms_step, model_atoms, models_atoms, units_model, AtomModel,
    ComparisonUnit, ComparisonUnitAtom, CorrelatedSequence, SequenceModel, UnitModel,
    sequences_model,
};
use super::block_clone::{adopt, copy_subtree, copy_tree, nm, set_all, wrap};
use super::lcs::{tagged_model, TaggedAtom, TaggedModel};
use super::CorrelationStatus;
use crate::namespaces::{pt_uri, w_name, w_uri, xmlns_uri, PT, W};
use crate::text::{chars_of, decimal, is_white_space, is_whitespace_char, str_eq, u64_to_decimal};
use crate::tree::{
    built, extends, forest_in, fresh_ok, lemma_accumulate, lemma_built_leaf, lemma_extends_trans,
    lemma_forest_push, lemma_push_keeps, loose_roots, tree_in, TreeView,
};
use crate::xml::{
    attached, attrs_view, descendants_of, elements_of, has_name, ids, links_ok, name_of, value_of,
    Attr, AttrView, Dom, KindView, NodeId, NodeView, XName, XNameView,
};

verus! {

// ── text inside deleted opaque content ──────────────────────────────────────

/// `d` with element `i` renamed to `nm`; other nodes, and a node that is not
/// an element, are left as they are.
pub open spec fn rename_one(d: Seq<NodeView>, i: int, nm: XNameView) -> Seq<NodeView> {
    if name_of(d, i) is Some {
        d.update(
            i,
            NodeView { kind: KindView::Element { name: nm, attrs: d[i].kind->Element_attrs }, ..d[i] },
        )
    } else {
        d
    }
}

/// `d` with every element among `ns` renamed to `nm`.
pub open spec fn renamed(d: Seq<NodeView>, ns: Seq<usize>, nm: XNameView) -> Seq<NodeView>
    decreases ns.len(),
{
    if ns.len() == 0 {
        d
    } else {
        rename_one(renamed(d, ns.drop_last(), nm), ns.last() as int, nm)
    }
}

/// For a deletion, renames every `w:t` below `node` to `w:delText` (text in a
/// deleted drawing, text box or alternate content); for any other status the
/// tree is left as it is. Other elements, such as `w:instrText`, keep their
/// names.
pub fn delete_text_in_opaque(dom: &mut Dom, node: NodeId, status: CorrelationStatus)
    requires
        old(dom).wf(),
    ensures
        final(dom).wf(),
        final(dom)@ == if status == CorrelationStatus::Deleted {
            renamed(
                old(dom)@,
                descendants_of(old(dom)@, node.0 as int, Some(w_name("t"@))),
                w_name("delText"@),
            )
        } else {
            old(dom)@
        },
{
    if status == CorrelationStatus::Deleted {
        let del_text = W::name("delText");
        let ts = dom.descendants(node, Some(&W::t()));
        let ghost d0 = dom@;
        let ghost ns = ids(ts@);
        let mut i: usize = 0;
        assert(ns.take(0) =~= Seq::<usize>::empty());
        while i < ts.len()
            invariant
                dom.wf(),
                ns == ids(ts@),
                i <= ts@.len(),
                dom@ == renamed(d0, ns.take(i as int), del_text@),
            decreases ts@.len() - i,
        {
            assert(ns.take(i + 1).drop_last() =~= ns.take(i as int));
            dom.set_name(ts[i], del_text.clone());
            i = i + 1;
        }
        assert(ns.take(ts@.len() as int) =~= ns);
    }
}

// ── schema order of table properties ───────────────────────────────────────

/// Position of a `w:tblPr` child in the schema's child sequence, by local name.
pub open spec fn tblpr_rank(local: Seq<char>) -> Option<int> {
    if local == "tblStyle"@ {
        Some(0)
    } else if local == "tblpPr"@ {
        Some(1)
    } else if local == "tblOverlap"@ {
        Some(2)
    } else if local == "bidiVisual"@ {
        Some(3)
    } else if local == "tblStyleRowBandSize"@ {
        Some(4)
    } else if local == "tblStyleColBandSize"@ {
        Some(5)
    } else if local == "tblW"@ {
        Some(6)
    } else if local == "jc"@ {
        Some(7)
    } else if local == "tblCellSpacing"@ {
        Some(8)
    } else if local == "tblInd"@ {
        Some(9)
    } else if local == "tblBorders"@ {
        Some(10)
    } else if local == "shd"@ {
        Some(11)
    } else if local == "tblLayout"@ {
        Some(12)
    } else if local == "tblCellMar"@ {
        Some(13)
    } else if local == "tblLook"@ {
        Some(14)
    } else if local == "tblCaption"@ {
        Some(15)
    } else if local == "tblDescription"@ {
        Some(16)
    } else {
        None
    }
}

fn tblpr_rank_exec(local: &str) -> (r: Option<usize>)
    ensures
        match r {
            Some(k) => tblpr_rank(local@) == Some(k as int),
            None => tblpr_rank(local@) is None,
        },
{
    if str_eq(local, "tblStyle") {
        Some(0)
    } else if str_eq(local, "tblpPr") {
        Some(1)
    } else if str_eq(local, "tblOverlap") {
        Some(2)
    } else if str_eq(local, "bidiVisual") {
        Some(3)
    } else if str_eq(local, "tblStyleRowBandSize") {
        Some(4)
    } else if str_eq(local, "tblStyleColBandSize") {
        Some(5)
    } else if str_eq(local, "tblW") {
        Some(6)
    } else if str_eq(local, "jc") {
        Some(7)
    } else if str_eq(local, "tblCellSpacing") {
        Some(8)
    } else if str_eq(local, "tblInd") {
        Some(9)
    } else if str_eq(local, "tblBorders") {
        Some(10)
    } else if str_eq(local, "shd") {
        Some(11)
    } else if str_eq(local, "tblLayout") {
        Some(12)
    } else if str_eq(local, "tblCellMar") {
        Some(13)
    } else if str_eq(local, "tblLook") {
        Some(14)
    } else if str_eq(local, "tblCaption") {
        Some(15)
    } else if str_eq(local, "tblDescription") {
        Some(16)
    } else {
        None
    }
}

/// Node `c` is an element that the schema places before a new child of rank
/// `new_rank` (no rank: after every ranked child).
pub open spec fn precedes_new(d: Seq<NodeView>, c: usize, new_rank: Option<int>) -> bool {
    match name_of(d, c as int) {
        Some(nm) => match tblpr_rank(nm.local) {
            Some(r) => new_rank is None || r < new_rank->0,
            None => false,
        },
        None => false,
    }
}

/// Where a new child goes among `cs`: just after the last one that precedes
/// it, else first.
pub open spec fn insert_pos(d: Seq<NodeView>, cs: Seq<usize>, new_rank: Option<int>) -> int
    decreases cs.len(),
{
    if cs.len() == 0 {
        0
    } else if precedes_new(d, cs.last(), new_rank) {
        cs.len() as int
    } else {
        insert_pos(d, cs.drop_last(), new_rank)
    }
}

/// Inserts the new `w:tblPr` child `child`, named `local`, under `tbl_pr` in
/// schema order: just after the last present child that the schema puts
/// before it, else as the first child.
pub fn add_tblpr_child_in_order(dom: &mut Dom, tbl_pr: NodeId, child: NodeId, local: &str)
    requires
        old(dom).wf(),
        tbl_pr.0 < old(dom)@.len(),
        child.0 < old(dom)@.len(),
        old(dom)@[child.0 as int].parent is None,
    ensures
        final(dom).wf(),
        final(dom)@ == attached(
            old(dom)@,
            tbl_pr.0 as int,
            insert_pos(old(dom)@, old(dom)@[tbl_pr.0 as int].children, tblpr_rank(local@)),
            child.0 as int,
        ),
{
    let new_rank = tblpr_rank_exec(local);
    let ghost nr = tblpr_rank(local@);
    let ghost cs = dom@[tbl_pr.0 as int].children;
    let n = dom.child_count(tbl_pr);
    let mut k = n;
    assert(cs.take(n as int) =~= cs);
    while k > 0
        invariant
            dom.wf(),
            tbl_pr.0 < dom@.len(),
            cs == dom@[tbl_pr.0 as int].children,
            n == cs.len(),
            k <= n,
            nr == tblpr_rank(local@),
            new_rank matches Some(x) ==> nr == Some(x as int),
            new_rank is None ==> nr is None,
            insert_pos(dom@, cs, nr) == insert_pos(dom@, cs.take(k as int), nr),
        ensures
            insert_pos(dom@, cs, nr) == k,
        decreases k,
    {
        let c = dom.child_at(tbl_pr, k - 1);
        assert(cs.take(k as int).drop_last() =~= cs.take(k - 1));
        let before = match dom.name(c) {
            Some(nm) => match tblpr_rank_exec(nm.local_name()) {
                Some(r) => match new_rank {
                    Some(x) => r < x,
                    None => true,
                },
                None => false,
            },
            None => false,
        };
        if before {
            break;
        }
        k = k - 1;
        assert(k == 0 ==> cs.take(k as int) =~= Seq::<usize>::empty());
    }
    dom.insert_child(tbl_pr, k, child);
}

// ── labels ──────────────────────────────────────────────────────────────────

/// `Some("preserve")` when `text` starts or ends with whitespace.
pub open spec fn xml_space(text: Seq<char>) -> Option<Seq<char>> {
    if text.len() > 0 && (is_white_space(text[0]) || is_white_space(text.last())) {
        Some("preserve"@)
    } else {
        None
    }
}

/// The `xml:space` value a text element needs: `"preserve"` when the text
/// starts or ends with whitespace.
pub fn xml_space_attr(text: &str) -> (r: Option<&'static str>)
    ensures
        match r {
            Some(s) => xml_space(text@) == Some(s@),
            None => xml_space(text@) is None,
        },
{
    let cs = chars_of(text);
    if cs.len() > 0 && (is_whitespace_char(cs[0]) || is_whitespace_char(cs[cs.len() - 1])) {
        Some("preserve")
    } else {
        None
    }
}

/// The label a status is written with in the result's annotations.
pub open spec fn status_label(s: CorrelationStatus) -> Seq<char> {
    match s {
        CorrelationStatus::Deleted => "Deleted"@,
        CorrelationStatus::Inserted => "Inserted"@,
        CorrelationStatus::MovedSource => "MovedSource"@,
        CorrelationStatus::MovedDestination => "MovedDestination"@,
        CorrelationStatus::FormatChanged => "FormatChanged"@,
        CorrelationStatus::Equal => "Equal"@,
        _ => "Nil"@,
    }
}

/// The label a status is written with in the result's annotations.
pub fn status_str(s: CorrelationStatus) -> (r: &'static str)
    ensures
        r@ == status_label(s),
{
    match s {
        CorrelationStatus::Deleted => "Deleted",
        CorrelationStatus::Inserted => "Inserted",
        CorrelationStatus::MovedSource => "MovedSource",
        CorrelationStatus::MovedDestination => "MovedDestination",
        CorrelationStatus::FormatChanged => "FormatChanged",
        CorrelationStatus::Equal => "Equal",
        _ => "Nil",
    }
}

// ── atoms and text boxes ────────────────────────────────────────────────────

/// The atom's content element is a `w:pPr` (a paragraph mark).
pub fn is_ppr_atom(dom: &Dom, atom: &ComparisonUnitAtom) -> (r: bool)
    ensures
        r == has_name(dom@, atom.content_element.0 as int, w_name("pPr"@)),
{
    dom.is_named(atom.content_element, &W::p_pr())
}

/// Some ancestor of the atom at or after position `level` of its ancestor
/// chain is a `w:txbxContent`.
pub open spec fn txbx_from(d: Seq<NodeView>, anc: Seq<NodeId>, level: int) -> bool {
    exists|k: int| level <= k < anc.len() && has_name(d, anc[k].0 as int, w_name("txbxContent"@))
}

fn txbx_from_exec(dom: &Dom, anc: &Vec<NodeId>, level: usize) -> (r: bool)
    ensures
        r == txbx_from(dom@, anc@, level as int),
{
    let txbx = W::name("txbxContent");
    let mut k = level;
    while k < anc.len()
        invariant
            txbx@ == w_name("txbxContent"@),
            level <= k || k >= anc@.len(),
            forall|j: int| level <= j < k && j < anc@.len() ==> !has_name(dom@, anc@[j].0 as int, txbx@),
        decreases anc@.len() - k,
    {
        if dom.is_named(anc[k], &txbx) {
            return true;
        }
        k = k + 1;
    }
    false
}

/// The atom lies inside a text box.
pub fn atom_in_textbox(dom: &Dom, atom: &ComparisonUnitAtom) -> (r: bool)
    ensures
        r == txbx_from(dom@, atom.ancestor_elements@, 0),
{
    txbx_from_exec(dom, &atom.ancestor_elements, 0)
}

/// The atom lies inside a text box whose `w:txbxContent` sits at or below
/// position `level` of its ancestor chain.
pub fn is_txbx_from_level(dom: &Dom, atom: &ComparisonUnitAtom, level: usize) -> (r: bool)
    ensures
        r == txbx_from(dom@, atom.ancestor_elements@, level as int),
{
    txbx_from_exec(dom, &atom.ancestor_elements, level)
}

// ── flattening correlated sequences ────────────────────────────────────────

/// The atoms of one side of a sequence (none when the side is absent).
pub open spec fn side_atoms(o: Option<Seq<UnitModel>>) -> Seq<AtomModel> {
    match o {
        Some(u) => models_atoms(u),
        None => seq![],
    }
}

/// `a` with status `s`.
pub open spec fn with_status(a: AtomModel, s: CorrelationStatus) -> AtomModel {
    AtomModel { correlation_status: s, ..a }
}

/// The status-tagged atoms of one sequence: for `Equal`, the revised side's
/// atoms paired position by position with the original side's (as many as
/// the shorter side has), each remembering its original content element and
/// the ancestors of the atom it was matched with; for
/// `Deleted`, the original side's atoms; for `Inserted`, the revised side's.
pub open spec fn flatten_one(m: SequenceModel) -> Seq<AtomModel> {
    let before = side_atoms(m.units1);
    let after = side_atoms(m.units2);
    if m.status == CorrelationStatus::Equal {
        Seq::new(
            if before.len() < after.len() {
                before.len()
            } else {
                after.len()
            },
            |k: int|
                AtomModel {
                    correlation_status: CorrelationStatus::Equal,
                    content_element_before: Some(before[k].content_element),
                    before_ancestors: Some(before[k].ancestor_elements),
                    ..after[k]
                },
        )
    } else if m.status == CorrelationStatus::Deleted {
        before.map_values(|a: AtomModel| with_status(a, CorrelationStatus::Deleted))
    } else {
        after.map_values(|a: AtomModel| with_status(a, CorrelationStatus::Inserted))
    }
}

/// The status-tagged atoms of a list of sequences, in order.
pub open spec fn flatten_spec(ms: Seq<SequenceModel>) -> Seq<AtomModel>
    decreases ms.len(),
{
    if ms.len() == 0 {
        seq![]
    } else {
        flatten_spec(ms.drop_last()) + flatten_one(ms.last())
    }
}

fn flatten_atoms(units: &Option<Vec<ComparisonUnit>>) -> (r: Vec<ComparisonUnitAtom>)
    ensures
        atoms_model(r@) == side_atoms(
            match units {
                Some(v) => Some(units_model(v@)),
                None => None,
            },
        ),
{
    let mut r: Vec<ComparisonUnitAtom> = Vec::new();
    match units {
        None => {
            assert(atoms_model(r@) =~= Seq::<AtomModel>::empty());
            r
        },
        Some(v) => {
            let ghost cs = units_model(v@);
            let mut i: usize = 0;
            assert(atoms_model(r@) =~= models_atoms(cs.take(0)));
            while i < v.len()
                invariant
                    cs == units_model(v@),
                    i <= v@.len(),
                    atoms_model(r@) == models_atoms(cs.take(i as int)),
                decreases v@.len() - i,
            {
                proof {
                    lemma_models_atoms_step(cs, i as int);
                }
                let mut sub = v[i].descendant_atoms();
                let ghost before = r@;
                r.append(&mut sub);
                assert(atoms_model(r@) =~= atoms_model(before) + model_atoms(cs[i as int]));
                i = i + 1;
            }
            assert(cs.take(cs.len() as int) =~= cs);
            r
        },
    }
}

/// The correlated sequences flattened into one status-tagged atom list. Each
/// sequence is `Equal`, `Deleted` or `Inserted`.
pub fn flatten_to_comparison_unit_atom_list(seqs: &[CorrelatedSequence]) -> (r: Vec<
    ComparisonUnitAtom,
>)
    requires
        forall|i: int|
            0 <= i < seqs@.len() ==> (#[trigger] seqs@[i]).correlation_status
                == CorrelationStatus::Equal || seqs@[i].correlation_status
                == CorrelationStatus::Deleted || seqs@[i].correlation_status
                == CorrelationStatus::Inserted,
    ensures
        atoms_model(r@) == flatten_spec(sequences_model(seqs@)),
{
    let ghost ms = sequences_model(seqs@);
    let mut out: Vec<ComparisonUnitAtom> = Vec::new();
    let mut i: usize = 0;
    assert(atoms_model(out@) =~= flatten_spec(ms.take(0)));
    while i < seqs.len()
        invariant
            ms == sequences_model(seqs@),
            i <= seqs@.len(),
            forall|i: int|
                0 <= i < seqs@.len() ==> (#[trigger] seqs@[i]).correlation_status
                    == CorrelationStatus::Equal || seqs@[i].correlation_status
                    == CorrelationStatus::Deleted || seqs@[i].correlation_status
                    == CorrelationStatus::Inserted,
            atoms_model(out@) == flatten_spec(ms.take(i as int)),
        decreases seqs@.len() - i,
    {
        let cs = &seqs[i];
        let ghost m = ms[i as int];
        assert(m == cs@);
        assert(ms.take(i + 1).drop_last() =~= ms.take(i as int));
        let ghost start = atoms_model(out@);
        if cs.correlation_status == CorrelationStatus::Equal {
            let before = flatten_atoms(&cs.com_units_1);
            let after = flatten_atoms(&cs.com_units_2);
            let n = if before.len() < after.len() {
                before.len()
            } else {
                after.len()
            };
            let mut k: usize = 0;
            while k < n
                invariant
                    n <= before@.len(),
                    n <= after@.len(),
                    k <= n,
                    atoms_model(before@) == side_atoms(m.units1),
                    atoms_model(after@) == side_atoms(m.units2),
                    atoms_model(out@) == start + flatten_one(m).take(k as int),
                    m.status == CorrelationStatus::Equal,
                decreases n - k,
            {
                let mut atom = after[k].clone();
                atom.correlation_status = CorrelationStatus::Equal;
                atom.content_element_before = Some(before[k].content_element);
                atom.comparison_unit_atom_before = Some(Box::new(before[k].clone()));
                let ghost prev = atoms_model(out@);
                out.push(atom);
                assert(atoms_model(out@) =~= prev.push(flatten_one(m)[k as int]));
                assert(flatten_one(m).take(k + 1) =~= flatten_one(m).take(k as int).push(
                    flatten_one(m)[k as int],
                ));
                k = k + 1;
            }
            assert(flatten_one(m).take(n as int) =~= flatten_one(m));
        } else {
            let deleted = cs.correlation_status == CorrelationStatus::Deleted;
            let atoms = if deleted {
                flatten_atoms(&cs.com_units_1)
            } else {
                flatten_atoms(&cs.com_units_2)
            };
            let status = if deleted {
                CorrelationStatus::Deleted
            } else {
                CorrelationStatus::Inserted
            };
            let mut k: usize = 0;
            while k < atoms.len()
                invariant
                    k <= atoms@.len(),
                    atoms_model(atoms@) == if deleted {
                        side_atoms(m.units1)
                    } else {
                        side_atoms(m.units2)
                    },
                    deleted == (m.status == CorrelationStatus::Deleted),
                    m.status != CorrelationStatus::Equal,
                    status == if deleted {
                        CorrelationStatus::Deleted
                    } else {
                        CorrelationStatus::Inserted
                    },
                    atoms_model(out@) == start + flatten_one(m).take(k as int),
                decreases atoms@.len() - k,
            {
                let mut atom = atoms[k].clone();
                atom.correlation_status = status;
                let ghost prev = atoms_model(out@);
                out.push(atom);
                assert(atoms_model(out@) =~= prev.push(flatten_one(m)[k as int]));
                assert(flatten_one(m).take(k + 1) =~= flatten_one(m).take(k as int).push(
                    flatten_one(m)[k as int],
                ));
                k = k + 1;
            }
            assert(flatten_one(m).take(atoms@.len() as int) =~= flatten_one(m));
        }
        i = i + 1;
    }
    assert(ms.take(seqs@.len() as int) =~= ms);
    out
}

// ── laws ────────────────────────────────────────────────────────────────────

/// Renaming elements changes no link of the tree: every node keeps its
/// parent and its children, and no node is added or lost.
pub proof fn lemma_renamed_keeps_shape(d: Seq<NodeView>, ns: Seq<usize>, nm: XNameView)
    ensures
        renamed(d, ns, nm).len() == d.len(),
        forall|i: int|
            0 <= i < d.len() ==> (#[trigger] renamed(d, ns, nm)[i]).children == d[i].children
                && renamed(d, ns, nm)[i].parent == d[i].parent,
    decreases ns.len(),
{
    if ns.len() > 0 {
        lemma_renamed_keeps_shape(d, ns.drop_last(), nm);
    }
}

/// Every flattened atom is `Equal`, `Deleted` or `Inserted`, as the sequence
/// it comes from.
pub proof fn lemma_flatten_statuses(ms: Seq<SequenceModel>)
    ensures
        forall|k: int|
            0 <= k < flatten_spec(ms).len() ==> {
                let st = (#[trigger] flatten_spec(ms)[k]).correlation_status;
                st == CorrelationStatus::Equal || st == CorrelationStatus::Deleted || st
                    == CorrelationStatus::Inserted
            },
    decreases ms.len(),
{
    if ms.len() > 0 {
        lemma_flatten_statuses(ms.drop_last());
        let pre = flatten_spec(ms.drop_last());
        let one = flatten_one(ms.last());
        assert forall|k: int| 0 <= k < flatten_spec(ms).len() implies {
            let st = (#[trigger] flatten_spec(ms)[k]).correlation_status;
            st == CorrelationStatus::Equal || st == CorrelationStatus::Deleted || st
                == CorrelationStatus::Inserted
        } by {
            if k < pre.len() {
                assert(flatten_spec(ms)[k] == pre[k]);
            } else {
                assert(flatten_spec(ms)[k] == one[k - pre.len()]);
            }
        }
    }
}


// ── the redline document ────────────────────────────────────────────────────

/// A source of revision ids: the ids handed out are the decimal forms of a
/// counter that starts at one.
pub struct RevIdSource {
    next: u64,
}

impl RevIdSource {
    /// The counter value the next id is the decimal form of.
    pub closed spec fn next_id(&self) -> nat {
        self.next as nat
    }

    /// A source whose first id is `1`.
    pub fn new() -> (r: Self)
        ensures
            r.next_id() == 1,
    {
        RevIdSource { next: 1 }
    }

    /// The next revision id.
    pub fn next_rev_id(&mut self) -> (r: String)
        requires
            old(self).next_id() < u64::MAX,
        ensures
            r@ == decimal(old(self).next_id()),
            final(self).next_id() == old(self).next_id() + 1,
    {
        let r = u64_to_decimal(self.next);
        self.next = self.next + 1;
        r
    }
}

/// The text an atom gives its run: the value of a `w:t` or `w:delText`
/// content element, nothing for other atoms.
pub open spec fn atom_run_text(d: Seq<NodeView>, a: AtomModel) -> Seq<char> {
    let ce = a.content_element.0 as int;
    if has_name(d, ce, w_name("t"@)) || has_name(d, ce, w_name("delText"@)) {
        value_of(d, ce)
    } else {
        seq![]
    }
}

/// The `xml:space` attribute name.
pub open spec fn xml_space_name() -> XNameView {
    nm("http://www.w3.org/XML/1998/namespace"@, "space"@)
}

/// `text` starts or ends with a space.
pub open spec fn edge_space(text: Seq<char>) -> bool {
    text.len() > 0 && (text[0] == ' ' || text.last() == ' ')
}

/// A run holding `text`, in a `w:delText` when `deleted` and a `w:t`
/// otherwise, which keeps its spaces when it starts or ends with one.
pub open spec fn text_run(text: Seq<char>, deleted: bool) -> TreeView {
    TreeView::Element {
        name: w_name("r"@),
        attrs: seq![],
        kids: seq![
            TreeView::Element {
                name: if deleted {
                    w_name("delText"@)
                } else {
                    w_name("t"@)
                },
                attrs: if edge_space(text) {
                    set_all(seq![], seq![AttrView { name: xml_space_name(), value: "preserve"@ }])
                } else {
                    seq![]
                },
                kids: seq![TreeView::Text { value: text }],
            },
        ],
    }
}

/// The attributes of a revision element: id, author and date.
pub open spec fn rev_attrs(id: nat, author: Seq<char>, date: Seq<char>) -> Seq<AttrView> {
    set_all(
        seq![],
        seq![
            AttrView { name: w_name("id"@), value: decimal(id) },
            AttrView { name: w_name("author"@), value: author },
            AttrView { name: w_name("date"@), value: date },
        ],
    )
}

/// A run holding `text`, wrapped in a revision element named `name` with
/// id `id`.
pub open spec fn wrapped_run(name: XNameView, id: nat, text: Seq<char>, deleted: bool, author: Seq<char>, date: Seq<char>) -> TreeView {
    TreeView::Element { name, attrs: rev_attrs(id, author, date), kids: seq![text_run(text, deleted)] }
}

/// The paragraph children after a group of status `st` holding `text` is
/// closed, and the next id: nothing more for empty text; an insertion or a
/// deletion wrapped with the next id; a plain run for any other status.
pub open spec fn close_group(kids: Seq<TreeView>, id: nat, st: CorrelationStatus, text: Seq<char>, author: Seq<char>, date: Seq<char>) -> (Seq<TreeView>, nat) {
    if text.len() == 0 {
        (kids, id)
    } else if st == CorrelationStatus::Inserted {
        (kids.push(wrapped_run(w_name("ins"@), id, text, false, author, date)), id + 1)
    } else if st == CorrelationStatus::Deleted {
        (kids.push(wrapped_run(w_name("del"@), id, text, true, author, date)), id + 1)
    } else {
        (kids.push(text_run(text, false)), id)
    }
}

/// Paragraph children, next id and open group after the run atoms `ts`:
/// adjacent atoms of one status form a group holding their text.
pub open spec fn status_groups(
    d: Seq<NodeView>,
    ts: Seq<TaggedModel>,
    kids0: Seq<TreeView>,
    id0: nat,
    author: Seq<char>,
    date: Seq<char>,
) -> (Seq<TreeView>, nat, Option<(CorrelationStatus, Seq<char>)>)
    decreases ts.len(),
{
    if ts.len() == 0 {
        (kids0, id0, None)
    } else {
        let (kids, id, open) = status_groups(d, ts.drop_last(), kids0, id0, author, date);
        let t = ts.last();
        let text = atom_run_text(d, t.atom);
        match open {
            Some((st, txt)) => if st == t.status {
                (kids, id, Some((st, txt + text)))
            } else {
                let (k2, id2) = close_group(kids, id, st, txt, author, date);
                (k2, id2, Some((t.status, text)))
            },
            None => (kids, id, Some((t.status, text))),
        }
    }
}

/// An element child of node `n`.
pub open spec fn has_element_child_spec(d: Seq<NodeView>, n: int) -> bool {
    elements_of(d, n, None).len() > 0
}

/// The copy of the paragraph mark's properties a paragraph starts with: the
/// content element of `ppr` copied when it is a `w:pPr` with element
/// children.
pub open spec fn ppr_copy(d: Seq<NodeView>, f: nat, ppr: AtomModel) -> Seq<TreeView> {
    let ce = ppr.content_element.0 as int;
    if has_name(d, ce, w_name("pPr"@)) && has_element_child_spec(d, ce) {
        seq![copy_tree(d, ce, f)]
    } else {
        seq![]
    }
}

/// A paragraph of the run atoms `ts` closed by the mark `ppr`, and the next
/// id.
pub open spec fn paragraph_tree(
    d: Seq<NodeView>,
    f: nat,
    ts: Seq<TaggedModel>,
    ppr: AtomModel,
    id0: nat,
    author: Seq<char>,
    date: Seq<char>,
) -> (TreeView, nat) {
    let (kids, id, open) = status_groups(d, ts, ppr_copy(d, f, ppr), id0, author, date);
    let (kids2, id2) = match open {
        Some((st, txt)) => close_group(kids, id, st, txt, author, date),
        None => (kids, id),
    };
    (TreeView::Element { name: w_name("p"@), attrs: seq![], kids: kids2 }, id2)
}

/// Paragraphs, next id and the atoms of the paragraph still open after the
/// tagged atoms `ts`: a paragraph-mark atom closes the open paragraph.
pub open spec fn body_paragraphs(
    d: Seq<NodeView>,
    f: nat,
    ts: Seq<TaggedModel>,
    id0: nat,
    author: Seq<char>,
    date: Seq<char>,
) -> (Seq<TreeView>, nat, Seq<TaggedModel>)
    decreases ts.len(),
{
    if ts.len() == 0 {
        (seq![], id0, seq![])
    } else {
        let (ps, id, cur) = body_paragraphs(d, f, ts.drop_last(), id0, author, date);
        let t = ts.last();
        if has_name(d, t.atom.content_element.0 as int, w_name("pPr"@)) {
            let (p, id2) = paragraph_tree(d, f, cur, t.atom, id, author, date);
            (ps.push(p), id2, seq![])
        } else {
            (ps, id, cur.push(t))
        }
    }
}

/// The redline document of the tagged atoms `ts`, and the next id: a
/// document holding `w:document` (declaring the WordprocessingML and
/// annotation namespaces) over a `w:body` of the paragraphs, trailing atoms
/// without a mark making a last paragraph.
pub open spec fn redline_document(d: Seq<NodeView>, ts: Seq<TaggedModel>, id0: nat, author: Seq<char>, date: Seq<char>) -> (TreeView, nat) {
    let (ps, id, cur) = body_paragraphs(d, d.len(), ts, id0, author, date);
    let (ps2, id2) = if cur.len() > 0 {
        let (p, i) = paragraph_tree(d, d.len(), cur, cur[0].atom, id, author, date);
        (ps.push(p), i)
    } else {
        (ps, id)
    };
    (
        TreeView::Document {
            kids: seq![
                TreeView::Element {
                    name: w_name("document"@),
                    attrs: set_all(
                        seq![],
                        seq![
                            AttrView { name: nm(xmlns_uri(), "w"@), value: w_uri() },
                            AttrView { name: nm(xmlns_uri(), "pt14"@), value: pt_uri() },
                        ],
                    ),
                    kids: seq![TreeView::Element { name: w_name("body"@), attrs: seq![], kids: ps2 }],
                },
            ],
        },
        id2,
    )
}


/// Whether node `node` has an element child.
pub fn has_element_child(dom: &Dom, node: NodeId) -> (r: bool)
    requires
        dom.wf(),
    ensures
        r == has_element_child_spec(dom@, node.0 as int),
{
    let es = dom.elements(node, None);
    es.len() > 0
}

/// A new run holding `text`, in a `w:delText` when `deleted` and a `w:t`
/// otherwise; the text element keeps its spaces (`xml:space="preserve"`)
/// when the text starts or ends with one.
pub fn build_text_run(dom: &mut Dom, text: &str, deleted: bool) -> (r: NodeId)
    requires
        old(dom).wf(),
    ensures
        final(dom).wf(),
        built(old(dom)@, final(dom)@, seq![r.0], seq![text_run(text@, deleted)]),
{
    let ghost e = dom@;
    let cs = chars_of(text);
    let spaced = cs.len() > 0 && (cs[0] == ' ' || cs[cs.len() - 1] == ' ');
    assert(spaced == edge_space(text@));
    let ghost tv = TreeView::Text { value: text@ };
    let x = dom.new_text(text);
    proof {
        lemma_built_leaf(e, dom@.last(), tv, x.0);
        assert(dom@ =~= e.push(dom@.last()));
    }
    let mut tkids: Vec<NodeId> = Vec::new();
    tkids.push(x);
    assert(ids(tkids@) =~= seq![x.0]);
    let mut sets: Vec<Attr> = Vec::new();
    if spaced {
        sets.push(
            Attr {
                name: XName::get("space", "http://www.w3.org/XML/1998/namespace"),
                value: String::from_str("preserve"),
            },
        );
        assert(attrs_view(sets@) =~= seq![AttrView { name: xml_space_name(), value: "preserve"@ }]);
    } else {
        assert(attrs_view(sets@) =~= Seq::<AttrView>::empty());
        assert(set_all(seq![], seq![]) == Seq::<AttrView>::empty());
    }
    let name = if deleted {
        W::name("delText")
    } else {
        W::t()
    };
    let ghost tkts = seq![tv];
    let t = wrap(dom, name, &sets, &tkids, Ghost(e), Ghost(tkts));
    let ghost t_tree = TreeView::Element {
        name: if deleted { w_name("delText"@) } else { w_name("t"@) },
        attrs: set_all(seq![], attrs_view(sets@)),
        kids: tkts,
    };
    let mut rkids: Vec<NodeId> = Vec::new();
    rkids.push(t);
    assert(ids(rkids@) =~= seq![t.0]);
    let no_attrs: Vec<Attr> = Vec::new();
    assert(attrs_view(no_attrs@) =~= Seq::<AttrView>::empty());
    let ghost rkts = seq![t_tree];
    let r = wrap(dom, W::r(), &no_attrs, &rkids, Ghost(e), Ghost(rkts));
    assert(set_all(seq![], seq![]) == Seq::<AttrView>::empty());
    r
}

/// A new run holding `text`, wrapped in a `w:del` for a deletion and a
/// `w:ins` otherwise, with the next revision id, `author` and `date`.
pub fn wrap_run(
    dom: &mut Dom,
    text: &str,
    deleted: bool,
    author: &str,
    date: &str,
    status: CorrelationStatus,
    rev_ids: &mut RevIdSource,
) -> (r: NodeId)
    requires
        old(dom).wf(),
        old(rev_ids).next_id() < u64::MAX,
    ensures
        final(dom).wf(),
        final(rev_ids).next_id() == old(rev_ids).next_id() + 1,
        built(
            old(dom)@,
            final(dom)@,
            seq![r.0],
            seq![
                wrapped_run(
                    if status == CorrelationStatus::Deleted {
                        w_name("del"@)
                    } else {
                        w_name("ins"@)
                    },
                    old(rev_ids).next_id(),
                    text@,
                    deleted,
                    author@,
                    date@,
                ),
            ],
        ),
{
    let ghost e = dom@;
    let name = if status == CorrelationStatus::Deleted {
        W::name("del")
    } else {
        W::name("ins")
    };
    let id = rev_ids.next_rev_id();
    let run = build_text_run(dom, text, deleted);
    let mut sets: Vec<Attr> = Vec::new();
    sets.push(Attr { name: W::name("id"), value: id });
    sets.push(Attr { name: W::name("author"), value: String::from_str(author) });
    sets.push(Attr { name: W::name("date"), value: String::from_str(date) });
    assert(attrs_view(sets@) =~= seq![
        AttrView { name: w_name("id"@), value: decimal(old(rev_ids).next_id()) },
        AttrView { name: w_name("author"@), value: author@ },
        AttrView { name: w_name("date"@), value: date@ },
    ]);
    let mut kids: Vec<NodeId> = Vec::new();
    kids.push(run);
    assert(ids(kids@) =~= seq![run.0]);
    let ghost kts = seq![text_run(text@, deleted)];
    wrap(dom, name, &sets, &kids, Ghost(e), Ghost(kts))
}

/// The paragraph child a closed group of status `status` holding `text`
/// gives: none for empty text; an insertion or a deletion wrapped with the
/// next revision id; a plain run for any other status.
fn group_run(
    dom: &mut Dom,
    status: CorrelationStatus,
    text: &str,
    author: &str,
    date: &str,
    rev_ids: &mut RevIdSource,
) -> (r: Option<NodeId>)
    requires
        old(dom).wf(),
        old(rev_ids).next_id() < u64::MAX,
    ensures
        final(dom).wf(),
        final(rev_ids).next_id() == close_group(seq![], old(rev_ids).next_id(), status, text@, author@, date@).1,
        match r {
            None => text@.len() == 0 && final(dom)@ == old(dom)@,
            Some(n) => built(
                old(dom)@,
                final(dom)@,
                seq![n.0],
                close_group(seq![], old(rev_ids).next_id(), status, text@, author@, date@).0,
            ),
        },
{
    if text.unicode_len() == 0 {
        return None;
    }
    if status == CorrelationStatus::Inserted {
        let w = wrap_run(dom, text, false, author, date, CorrelationStatus::Inserted, rev_ids);
        assert(seq![].push(wrapped_run(w_name("ins"@), old(rev_ids).next_id(), text@, false, author@, date@)) =~= seq![wrapped_run(w_name("ins"@), old(rev_ids).next_id(), text@, false, author@, date@)]);
        Some(w)
    } else if status == CorrelationStatus::Deleted {
        let w = wrap_run(dom, text, true, author, date, CorrelationStatus::Deleted, rev_ids);
        assert(seq![].push(wrapped_run(w_name("del"@), old(rev_ids).next_id(), text@, true, author@, date@)) =~= seq![wrapped_run(w_name("del"@), old(rev_ids).next_id(), text@, true, author@, date@)]);
        Some(w)
    } else {
        let r = build_text_run(dom, text, false);
        assert(seq![].push(text_run(text@, false)) =~= seq![text_run(text@, false)]);
        Some(r)
    }
}


/// Closing a group after earlier paragraph children appends what the group
/// gives.
proof fn lemma_close_group_append(kids: Seq<TreeView>, id: nat, st: CorrelationStatus, text: Seq<char>, author: Seq<char>, date: Seq<char>)
    ensures
        close_group(kids, id, st, text, author, date).0 == kids + close_group(seq![], id, st, text, author, date).0,
        close_group(kids, id, st, text, author, date).1 == close_group(seq![], id, st, text, author, date).1,
        close_group(seq![], id, st, text, author, date).1 <= id + 1,
{
    assert(kids + Seq::<TreeView>::empty() =~= kids);
    let w1 = wrapped_run(w_name("ins"@), id, text, false, author, date);
    let w2 = wrapped_run(w_name("del"@), id, text, true, author, date);
    let w3 = text_run(text, false);
    assert(kids.push(w1) =~= kids + seq![].push(w1));
    assert(kids.push(w2) =~= kids + seq![].push(w2));
    assert(kids.push(w3) =~= kids + seq![].push(w3));
}

/// A new paragraph of the run atoms `run_atoms` closed by the mark
/// `ppr_atom`: the mark's properties copied first when `ppr_copyable` (a
/// `w:pPr` with element children), then, for each group of adjacent run
/// atoms of one status, the group's text (`texts` holds each atom's) in a
/// run, an insertion or deletion wrapped with the next revision id; groups
/// without text give nothing.
fn build_paragraph(
    dom: &mut Dom,
    run_atoms: &[TaggedAtom],
    texts: &[String],
    ppr_atom: &TaggedAtom,
    ppr_copyable: bool,
    fuel: usize,
    author: &str,
    date: &str,
    rev_ids: &mut RevIdSource,
    Ghost(d0): Ghost<Seq<NodeView>>,
) -> (r: NodeId)
    requires
        old(dom).wf(),
        links_ok(d0),
        extends(d0, old(dom)@),
        texts@.len() == run_atoms@.len(),
        forall|i: int| 0 <= i < texts@.len() ==> #[trigger] texts@[i]@ == atom_run_text(d0, run_atoms@[i].atom@),
        ppr_copyable == (has_name(d0, ppr_atom.atom.content_element.0 as int, w_name("pPr"@))
            && has_element_child_spec(d0, ppr_atom.atom.content_element.0 as int)),
        old(rev_ids).next_id() + run_atoms@.len() <= u64::MAX,
    ensures
        final(dom).wf(),
        built(
            old(dom)@,
            final(dom)@,
            seq![r.0],
            seq![paragraph_tree(d0, fuel as nat, tagged_model(run_atoms@), ppr_atom.atom@, old(rev_ids).next_id(), author@, date@).0],
        ),
        final(rev_ids).next_id() == paragraph_tree(d0, fuel as nat, tagged_model(run_atoms@), ppr_atom.atom@, old(rev_ids).next_id(), author@, date@).1,
        final(rev_ids).next_id() <= old(rev_ids).next_id() + run_atoms@.len(),
{
    let ghost e = dom@;
    let ghost lo = e.len() as int;
    let ghost ts = tagged_model(run_atoms@);
    let ghost id0 = rev_ids.next_id();
    let ghost kids0 = ppr_copy(d0, fuel as nat, ppr_atom.atom@);
    let mut kids: Vec<NodeId> = Vec::new();
    assert(ids(kids@) =~= Seq::<usize>::empty());
    if ppr_copyable {
        let ghost d1 = dom@;
        let c = copy_subtree(dom, ppr_atom.atom.content_element, fuel, Ghost(d0));
        proof {
            lemma_accumulate(e, d1, dom@, ids(kids@), seq![], seq![c.0], kids0);
            lemma_extends_trans(d0, d1, dom@);
            assert(Seq::<TreeView>::empty() + kids0 =~= kids0);
        }
        let ghost before = ids(kids@);
        kids.push(c);
        assert(ids(kids@) =~= before + seq![c.0]);
    } else {
        assert(kids0 =~= Seq::<TreeView>::empty());
    }
    let mut has_open = false;
    let mut open_status = CorrelationStatus::Nil;
    let mut open_text = String::new();
    let mut i: usize = 0;
    assert(ts.take(0) =~= Seq::<TaggedModel>::empty());
    while i < run_atoms.len()
        invariant
            dom.wf(),
            links_ok(d0),
            extends(d0, dom@),
            extends(e, dom@),
            lo == e.len(),
            e == old(dom)@,
            ts == tagged_model(run_atoms@),
            texts@.len() == run_atoms@.len(),
            forall|j: int| 0 <= j < texts@.len() ==> #[trigger] texts@[j]@ == atom_run_text(d0, run_atoms@[j].atom@),
            id0 == old(rev_ids).next_id(),
            id0 + run_atoms@.len() <= u64::MAX,
            i <= run_atoms@.len(),
            fresh_ok(dom@, lo, dom@.len() as int),
            loose_roots(dom@, ids(kids@), lo, dom@.len() as int),
            forest_in(dom@, ids(kids@), status_groups(d0, ts.take(i as int), kids0, id0, author@, date@).0, lo, dom@.len() as int),
            rev_ids.next_id() == status_groups(d0, ts.take(i as int), kids0, id0, author@, date@).1,
            status_groups(d0, ts.take(i as int), kids0, id0, author@, date@).2 == if has_open {
                Some((open_status, open_text@))
            } else {
                None::<(CorrelationStatus, Seq<char>)>
            },
            rev_ids.next_id() + (if has_open { 1int } else { 0int }) <= id0 + i,
        decreases run_atoms@.len() - i,
    {
        let st = run_atoms[i].status;
        assert(ts.take(i + 1).drop_last() =~= ts.take(i as int));
        assert(ts.take(i + 1).last() == run_atoms@[i as int]@);
        assert(texts@[i as int]@ == atom_run_text(d0, run_atoms@[i as int].atom@));
        if has_open && open_status == st {
            open_text.append(texts[i].as_str());
        } else {
            if has_open {
                let ghost d1 = dom@;
                let ghost sg = status_groups(d0, ts.take(i as int), kids0, id0, author@, date@);
                let ghost cg = close_group(seq![], rev_ids.next_id(), open_status, open_text@, author@, date@);
                proof {
                    lemma_close_group_append(sg.0, sg.1, open_status, open_text@, author@, date@);
                }
                match group_run(dom, open_status, open_text.as_str(), author, date, rev_ids) {
                    Some(n) => {
                        proof {
                            lemma_accumulate(e, d1, dom@, ids(kids@), sg.0, seq![n.0], cg.0);
                            lemma_extends_trans(d0, d1, dom@);
                        }
                        let ghost before = ids(kids@);
                        kids.push(n);
                        assert(ids(kids@) =~= before + seq![n.0]);
                    },
                    None => {
                        assert(sg.0 + cg.0 =~= sg.0);
                    },
                }
            }
            has_open = true;
            open_status = st;
            open_text = texts[i].clone();
        }
        i = i + 1;
    }
    assert(ts.take(run_atoms@.len() as int) =~= ts);
    if has_open {
        let ghost d1 = dom@;
        let ghost sg = status_groups(d0, ts, kids0, id0, author@, date@);
        let ghost cg = close_group(seq![], rev_ids.next_id(), open_status, open_text@, author@, date@);
        proof {
            lemma_close_group_append(sg.0, sg.1, open_status, open_text@, author@, date@);
        }
        match group_run(dom, open_status, open_text.as_str(), author, date, rev_ids) {
            Some(n) => {
                proof {
                    lemma_accumulate(e, d1, dom@, ids(kids@), sg.0, seq![n.0], cg.0);
                    lemma_extends_trans(d0, d1, dom@);
                }
                let ghost before = ids(kids@);
                kids.push(n);
                assert(ids(kids@) =~= before + seq![n.0]);
            },
            None => {
                assert(sg.0 + cg.0 =~= sg.0);
            },
        }
    }
    let no_attrs: Vec<Attr> = Vec::new();
    assert(attrs_view(no_attrs@) =~= Seq::<AttrView>::empty());
    assert(set_all(seq![], seq![]) == Seq::<AttrView>::empty());
    let ghost pk = paragraph_tree(d0, fuel as nat, ts, ppr_atom.atom@, id0, author@, date@).0->Element_kids;
    wrap(dom, W::p(), &no_attrs, &kids, Ghost(e), Ghost(pk))
}


/// The redline document of the tagged atom stream: a new document node
/// holding `w:document` (declaring the WordprocessingML and annotation
/// namespaces) over a `w:body` of paragraphs. Each paragraph-mark atom
/// closes a paragraph of the atoms before it; atoms after the last mark
/// make a last paragraph. Insertions and deletions are wrapped with
/// revision ids from `rev_ids`, `author` and `date`.
pub fn produce_document(
    dom: &mut Dom,
    tagged: &[TaggedAtom],
    author: &str,
    date: &str,
    rev_ids: &mut RevIdSource,
) -> (r: NodeId)
    requires
        old(dom).wf(),
        old(rev_ids).next_id() + tagged@.len() <= u64::MAX,
    ensures
        final(dom).wf(),
        extends(old(dom)@, final(dom)@),
        final(dom)@[r.0 as int].parent is None,
        tree_in(
            final(dom)@,
            r.0 as int,
            redline_document(old(dom)@, tagged_model(tagged@), old(rev_ids).next_id(), author@, date@).0,
            old(dom)@.len() as int,
            final(dom)@.len() as int,
        ),
        final(rev_ids).next_id() == redline_document(old(dom)@, tagged_model(tagged@), old(rev_ids).next_id(), author@, date@).1,
{
    let ghost d0 = dom@;
    let ghost lo = d0.len() as int;
    let ghost ts = tagged_model(tagged@);
    let ghost id0 = rev_ids.next_id();
    let fuel = dom.len();
    // What each atom is, read before anything is built.
    let mut marks: Vec<bool> = Vec::new();
    let mut copyable: Vec<bool> = Vec::new();
    let mut texts: Vec<String> = Vec::new();
    let mut k: usize = 0;
    while k < tagged.len()
        invariant
            dom@ == d0,
            dom.wf(),
            k <= tagged@.len(),
            marks@.len() == k,
            copyable@.len() == k,
            texts@.len() == k,
            forall|j: int| 0 <= j < k ==> #[trigger] marks@[j] == has_name(d0, tagged@[j].atom.content_element.0 as int, w_name("pPr"@)),
            forall|j: int| 0 <= j < k ==> #[trigger] copyable@[j] == (has_name(d0, tagged@[j].atom.content_element.0 as int, w_name("pPr"@))
                && has_element_child_spec(d0, tagged@[j].atom.content_element.0 as int)),
            forall|j: int| 0 <= j < k ==> #[trigger] texts@[j]@ == atom_run_text(d0, tagged@[j].atom@),
        decreases tagged@.len() - k,
    {
        let ce = tagged[k].atom.content_element;
        let m = dom.is_named(ce, &W::p_pr());
        marks.push(m);
        let c = m && has_element_child(dom, ce);
        copyable.push(c);
        let t = if dom.is_named(ce, &W::t()) || dom.is_named(ce, &W::name("delText")) {
            dom.value_str(ce)
        } else {
            String::new()
        };
        texts.push(t);
        k = k + 1;
    }
    // The paragraphs.
    let mut paras: Vec<NodeId> = Vec::new();
    let mut start: usize = 0;
    let mut k: usize = 0;
    assert(ts.take(0) =~= Seq::<TaggedModel>::empty());
    assert(ids(paras@) =~= Seq::<usize>::empty());
    assert(ts.subrange(0, 0) =~= Seq::<TaggedModel>::empty());
    while k < tagged.len()
        invariant
            dom.wf(),
            links_ok(d0),
            extends(d0, dom@),
            lo == d0.len(),
            ts == tagged_model(tagged@),
            fuel == d0.len(),
            id0 + tagged@.len() <= u64::MAX,
            marks@.len() == tagged@.len(),
            copyable@.len() == tagged@.len(),
            texts@.len() == tagged@.len(),
            forall|j: int| 0 <= j < tagged@.len() ==> #[trigger] marks@[j] == has_name(d0, tagged@[j].atom.content_element.0 as int, w_name("pPr"@)),
            forall|j: int| 0 <= j < tagged@.len() ==> #[trigger] copyable@[j] == (has_name(d0, tagged@[j].atom.content_element.0 as int, w_name("pPr"@))
                && has_element_child_spec(d0, tagged@[j].atom.content_element.0 as int)),
            forall|j: int| 0 <= j < tagged@.len() ==> #[trigger] texts@[j]@ == atom_run_text(d0, tagged@[j].atom@),
            start <= k <= tagged@.len(),
            fresh_ok(dom@, lo, dom@.len() as int),
            loose_roots(dom@, ids(paras@), lo, dom@.len() as int),
            forest_in(dom@, ids(paras@), body_paragraphs(d0, fuel as nat, ts.take(k as int), id0, author@, date@).0, lo, dom@.len() as int),
            rev_ids.next_id() == body_paragraphs(d0, fuel as nat, ts.take(k as int), id0, author@, date@).1,
            body_paragraphs(d0, fuel as nat, ts.take(k as int), id0, author@, date@).2 == ts.subrange(start as int, k as int),
            rev_ids.next_id() <= id0 + start,
        decreases tagged@.len() - k,
    {
        assert(ts.take(k + 1).drop_last() =~= ts.take(k as int));
        assert(ts.take(k + 1).last() == tagged@[k as int]@);
        if marks[k] {
            let ghost d1 = dom@;
            let ghost bp = body_paragraphs(d0, fuel as nat, ts.take(k as int), id0, author@, date@);
            let run = vstd::slice::slice_subrange(tagged, start, k);
            let run_texts = vstd::slice::slice_subrange(texts.as_slice(), start, k);
            proof {
                assert(tagged_model(run@) =~= ts.subrange(start as int, k as int));
                assert forall|i: int| 0 <= i < run_texts@.len() implies #[trigger] run_texts@[i]@ == atom_run_text(d0, run@[i].atom@) by {
                    assert(run_texts@[i] == texts@[start + i]);
                    assert(run@[i] == tagged@[start + i]);
                }
            }
            let p = build_paragraph(dom, run, run_texts, &tagged[k], copyable[k], fuel, author, date, rev_ids, Ghost(d0));
            let ghost pt = paragraph_tree(d0, fuel as nat, bp.2, tagged@[k as int].atom@, bp.1, author@, date@);
            proof {
                lemma_accumulate(d0, d1, dom@, ids(paras@), bp.0, seq![p.0], seq![pt.0]);
                lemma_extends_trans(d0, d1, dom@);
                assert(bp.0 + seq![pt.0] =~= bp.0.push(pt.0));
                assert(ts.subrange(k + 1, k + 1) =~= Seq::<TaggedModel>::empty());
            }
            let ghost before = ids(paras@);
            paras.push(p);
            assert(ids(paras@) =~= before + seq![p.0]);
            start = k + 1;
        } else {
            assert(ts.subrange(start as int, k + 1) =~= ts.subrange(start as int, k as int).push(tagged@[k as int]@));
        }
        k = k + 1;
    }
    assert(ts.take(tagged@.len() as int) =~= ts);
    let ghost bp = body_paragraphs(d0, fuel as nat, ts, id0, author@, date@);
    if start < tagged.len() {
        let ghost d1 = dom@;
        let run = vstd::slice::slice_subrange(tagged, start, tagged.len());
        let run_texts = vstd::slice::slice_subrange(texts.as_slice(), start, tagged.len());
        proof {
            assert(tagged_model(run@) =~= ts.subrange(start as int, tagged@.len() as int));
            assert forall|i: int| 0 <= i < run_texts@.len() implies #[trigger] run_texts@[i]@ == atom_run_text(d0, run@[i].atom@) by {
                assert(run_texts@[i] == texts@[start + i]);
                assert(run@[i] == tagged@[start + i]);
            }
            assert(bp.2[0] == tagged@[start as int]@);
        }
        let p = build_paragraph(dom, run, run_texts, &tagged[start], copyable[start], fuel, author, date, rev_ids, Ghost(d0));
        let ghost pt = paragraph_tree(d0, fuel as nat, bp.2, bp.2[0].atom, bp.1, author@, date@);
        proof {
            lemma_accumulate(d0, d1, dom@, ids(paras@), bp.0, seq![p.0], seq![pt.0]);
            lemma_extends_trans(d0, d1, dom@);
            assert(bp.0 + seq![pt.0] =~= bp.0.push(pt.0));
        }
        let ghost before = ids(paras@);
        paras.push(p);
        assert(ids(paras@) =~= before + seq![p.0]);
    } else {
        assert(bp.2 =~= Seq::<TaggedModel>::empty());
    }
    let ghost doc_tree = redline_document(d0, ts, id0, author@, date@).0;
    let ghost document_tree = doc_tree->Document_kids[0];
    let ghost body_tree = document_tree->Element_kids[0];
    let no_attrs: Vec<Attr> = Vec::new();
    assert(attrs_view(no_attrs@) =~= Seq::<AttrView>::empty());
    assert(set_all(seq![], seq![]) == Seq::<AttrView>::empty());
    let body = wrap(dom, W::name("body"), &no_attrs, &paras, Ghost(d0), Ghost(body_tree->Element_kids));
    let mut decls: Vec<Attr> = Vec::new();
    decls.push(Attr { name: XName::get("w", "http://www.w3.org/2000/xmlns/"), value: String::from_str(W::uri()) });
    decls.push(Attr { name: XName::get("pt14", "http://www.w3.org/2000/xmlns/"), value: String::from_str(PT::uri()) });
    assert(attrs_view(decls@) =~= seq![
        AttrView { name: nm(xmlns_uri(), "w"@), value: w_uri() },
        AttrView { name: nm(xmlns_uri(), "pt14"@), value: pt_uri() },
    ]);
    let mut dkids: Vec<NodeId> = Vec::new();
    dkids.push(body);
    assert(ids(dkids@) =~= seq![body.0]);
    let ghost dk = seq![body_tree];
    let document = wrap(dom, W::name("document"), &decls, &dkids, Ghost(d0), Ghost(dk));
    let ghost d3 = dom@;
    let doc = dom.new_document();
    let mut top: Vec<NodeId> = Vec::new();
    top.push(document);
    assert(ids(top@) =~= seq![document.0]);
    let ghost tk = seq![document_tree];
    proof {
        lemma_push_keeps(d3, dom@.last(), lo, ids(top@), tk);
        assert(dom@ =~= d3.push(dom@.last()));
    }
    let ghost d4 = dom@;
    adopt(dom, doc, &top, Ghost(lo), Ghost(tk));
    proof {
        assert(tree_in(dom@, doc.0 as int, doc_tree, lo, dom@.len() as int));
        assert forall|j: int| 0 <= j < d0.len() implies #[trigger] dom@[j] == d0[j] by {
            assert(dom@[j] == d4[j]);
            assert(d4[j] == d3[j]);
        }
    }
    doc
}


/// Flattening an equal pair matches its sides atom by atom: the `k`-th atom
/// is the `k`-th atom of the revised side, marked equal, remembering the
/// content element and ancestors of the `k`-th atom of the original side;
/// there are as many as the shorter side has.
pub proof fn lemma_equal_flatten_remembers_original(u1: Seq<UnitModel>, u2: Seq<UnitModel>, k: int)
    requires
        0 <= k < models_atoms(u1).len(),
        k < models_atoms(u2).len(),
    ensures
        ({
            let m = SequenceModel { status: CorrelationStatus::Equal, units1: Some(u1), units2: Some(u2) };
            let f = flatten_one(m);
            &&& f.len() == if models_atoms(u1).len() < models_atoms(u2).len() {
                models_atoms(u1).len()
            } else {
                models_atoms(u2).len()
            }
            &&& f[k].correlation_status == CorrelationStatus::Equal
            &&& f[k].content_element == models_atoms(u2)[k].content_element
            &&& f[k].ancestor_elements == models_atoms(u2)[k].ancestor_elements
            &&& f[k].content_element_before == Some(models_atoms(u1)[k].content_element)
            &&& f[k].before_ancestors == Some(models_atoms(u1)[k].ancestor_elements)
        }),
{
}

/// Flattening a list of sequences places each sequence's atoms after those
/// of the sequences before it.
pub proof fn lemma_flatten_places_sequence(ms: Seq<SequenceModel>, i: int, k: int)
    requires
        0 <= i < ms.len(),
        0 <= k < flatten_one(ms[i]).len(),
    ensures
        flatten_spec(ms.take(i)).len() + k < flatten_spec(ms).len(),
        flatten_spec(ms)[flatten_spec(ms.take(i)).len() + k] == flatten_one(ms[i])[k],
    decreases ms.len(),
{
    if i == ms.len() - 1 {
        assert(ms.drop_last() =~= ms.take(i));
    } else {
        assert(ms.drop_last().take(i) =~= ms.take(i));
        assert(ms.drop_last()[i] == ms[i]);
        lemma_flatten_places_sequence(ms.drop_last(), i, k);
    }
}

} // verus!
