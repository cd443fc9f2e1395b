//! The comparison-unit model: atoms (the smallest compared pieces of content),
//! words (runs of atoms), groups (paragraphs, tables, rows, cells, text boxes)
//! and correlated sequences, each with a mathematical view.

use vstd::prelude::*;

use super::{ComparisonUnitGroupType, CorrelationStatus};
use crate::xml::NodeId;

verus! {

/// The smallest compared piece of content: one character of text, one
/// paragraph mark, one drawing, ... together with its ancestor chain and hash.
#[derive(Debug)]
pub struct ComparisonUnitAtom {
    /// The content element this atom stands for.
    pub content_element: NodeId,
    /// Ancestor elements, outermost first.
    pub ancestor_elements: Vec<NodeId>,
    /// Content hash of the atom.
    pub sha1_hash: String,
    /// Correlation status assigned by the comparison.
    pub correlation_status: CorrelationStatus,
    /// For an equal atom, the content element it was matched with in the
    /// original document.
    pub content_element_before: Option<NodeId>,
    /// Move group of a detected move.
    pub move_group_id: Option<u32>,
    /// Move name (`moveN`) of a detected move.
    pub move_name: Option<String>,
    /// The `pt:Unid`s of the ancestor elements, outermost first, once the
    /// produced tree's identities are assembled.
    pub ancestor_unids: Option<Vec<String>>,
    /// For an equal atom, the atom of the original document it was matched with.
    pub comparison_unit_atom_before: Option<Box<ComparisonUnitAtom>>,
}

/// Mathematical view of a [`ComparisonUnitAtom`].
pub struct AtomModel {
    pub content_element: NodeId,
    pub ancestor_elements: Seq<NodeId>,
    pub sha1_hash: Seq<char>,
    pub correlation_status: CorrelationStatus,
    pub content_element_before: Option<NodeId>,
    pub move_group_id: Option<u32>,
    pub move_name: Option<Seq<char>>,
    pub ancestor_unids: Option<Seq<Seq<char>>>,
    /// The ancestor elements of the matched atom of the original document.
    pub before_ancestors: Option<Seq<NodeId>>,
}

/// The view of an optional string.
pub open spec fn opt_str_view(o: Option<String>) -> Option<Seq<char>> {
    match o {
        Some(s) => Some(s@),
        None => None,
    }
}

impl View for ComparisonUnitAtom {
    type V = AtomModel;

    open spec fn view(&self) -> AtomModel {
        AtomModel {
            content_element: self.content_element,
            ancestor_elements: self.ancestor_elements@,
            sha1_hash: self.sha1_hash@,
            correlation_status: self.correlation_status,
            content_element_before: self.content_element_before,
            move_group_id: self.move_group_id,
            move_name: opt_str_view(self.move_name),
            ancestor_unids: opt_strings_view(self.ancestor_unids),
            before_ancestors: match self.comparison_unit_atom_before {
                Some(b) => Some(b.ancestor_elements@),
                None => None,
            },
        }
    }
}

/// The view of an optional list of strings.
pub open spec fn opt_strings_view(o: Option<Vec<String>>) -> Option<Seq<Seq<char>>> {
    match o {
        Some(v) => Some(v@.map_values(|s: String| s@)),
        None => None,
    }
}

/// A copy of a list of strings.
pub fn copy_strings(v: &Vec<String>) -> (r: Vec<String>)
    ensures
        r@.map_values(|s: String| s@) == v@.map_values(|s: String| s@),
{
    let mut r: Vec<String> = Vec::new();
    let mut i: usize = 0;
    while i < v.len()
        invariant
            i <= v@.len(),
            r@.map_values(|s: String| s@) == v@.map_values(|s: String| s@).take(i as int),
        decreases v@.len() - i,
    {
        let ghost before = r@.map_values(|s: String| s@);
        let c = v[i].clone();
        r.push(c);
        assert(r@.map_values(|s: String| s@) =~= before.push(c@));
        assert(v@.map_values(|s: String| s@).take(i + 1) =~= v@.map_values(|s: String| s@).take(
            i as int,
        ).push(v@[i as int]@));
        i = i + 1;
    }
    assert(v@.map_values(|s: String| s@).take(v@.len() as int) =~= v@.map_values(|s: String| s@));
    r
}

/// A copy of an optional list of strings.
pub fn copy_opt_strings(o: &Option<Vec<String>>) -> (r: Option<Vec<String>>)
    ensures
        opt_strings_view(r) == opt_strings_view(*o),
{
    match o {
        Some(v) => Some(copy_strings(v)),
        None => None,
    }
}

/// A copy of an atom, with the matched atom it carries.
pub fn copy_atom(a: &ComparisonUnitAtom) -> (r: ComparisonUnitAtom)
    ensures
        r@ == a@,
    decreases a,
{
    ComparisonUnitAtom {
        content_element: a.content_element,
        ancestor_elements: copy_node_ids(&a.ancestor_elements),
        sha1_hash: a.sha1_hash.clone(),
        correlation_status: a.correlation_status,
        content_element_before: a.content_element_before,
        move_group_id: a.move_group_id,
        move_name: copy_opt_string(&a.move_name),
        ancestor_unids: copy_opt_strings(&a.ancestor_unids),
        comparison_unit_atom_before: match &a.comparison_unit_atom_before {
            Some(b) => Some(Box::new(copy_atom(&**b))),
            None => None,
        },
    }
}

/// A copy of a vector of node ids.
pub fn copy_node_ids(v: &Vec<NodeId>) -> (r: Vec<NodeId>)
    ensures
        r@ == v@,
{
    let mut r: Vec<NodeId> = Vec::new();
    let mut i: usize = 0;
    while i < v.len()
        invariant
            i <= v@.len(),
            r@ == v@.take(i as int),
        decreases v@.len() - i,
    {
        r.push(v[i]);
        i = i + 1;
    }
    assert(v@.take(v@.len() as int) =~= v@);
    r
}

/// A copy of an optional string.
pub fn copy_opt_string(o: &Option<String>) -> (r: Option<String>)
    ensures
        opt_str_view(r) == opt_str_view(*o),
{
    match o {
        Some(s) => Some(s.clone()),
        None => None,
    }
}

impl ComparisonUnitAtom {
    /// A fresh, unclassified atom.
    pub fn new(content_element: NodeId, ancestor_elements: Vec<NodeId>, sha1_hash: String) -> (a:
        Self)
        ensures
            a.content_element == content_element,
            a.ancestor_elements@ == ancestor_elements@,
            a.sha1_hash@ == sha1_hash@,
            a.correlation_status == CorrelationStatus::Nil,
            a.content_element_before is None,
            a.move_group_id is None,
            a.move_name is None,
            a.ancestor_unids is None,
            a.comparison_unit_atom_before is None,
    {
        ComparisonUnitAtom {
            content_element,
            ancestor_elements,
            sha1_hash,
            correlation_status: CorrelationStatus::Nil,
            content_element_before: None,
            move_group_id: None,
            move_name: None,
            ancestor_unids: None,
            comparison_unit_atom_before: None,
        }
    }
}

impl Clone for ComparisonUnitAtom {
    fn clone(&self) -> (r: Self)
        ensures
            r@ == self@,
    {
        copy_atom(self)
    }
}

/// The views of a sequence of atoms.
pub open spec fn atoms_model(v: Seq<ComparisonUnitAtom>) -> Seq<AtomModel> {
    v.map_values(|a: ComparisonUnitAtom| a@)
}

/// A copy of a range of atoms.
pub fn copy_atoms(v: &[ComparisonUnitAtom], lo: usize, hi: usize) -> (r: Vec<ComparisonUnitAtom>)
    requires
        lo <= hi <= v@.len(),
    ensures
        atoms_model(r@) == atoms_model(v@.subrange(lo as int, hi as int)),
{
    let mut r: Vec<ComparisonUnitAtom> = Vec::new();
    let mut i: usize = lo;
    while i < hi
        invariant
            lo <= i <= hi <= v@.len(),
            r@.len() == i - lo,
            forall|k: int| 0 <= k < r@.len() ==> (#[trigger] r@[k])@ == v@[lo + k]@,
        decreases hi - i,
    {
        r.push(v[i].clone());
        i = i + 1;
    }
    assert(atoms_model(r@) =~= atoms_model(v@.subrange(lo as int, hi as int)));
    r
}

/// A word: a run of atoms compared as one unit.
#[derive(Debug)]
pub struct ComparisonUnitWord {
    /// Correlation status of the word.
    pub correlation_status: CorrelationStatus,
    /// The atoms of the word, in document order.
    pub contents: Vec<ComparisonUnitAtom>,
    /// Content hash of the word.
    pub sha1_hash: String,
}

/// A group: a paragraph, table, row, cell or text box and its nested units.
#[derive(Debug)]
pub struct ComparisonUnitGroup {
    /// Correlation status of the group.
    pub correlation_status: CorrelationStatus,
    /// What the group stands for.
    pub group_type: ComparisonUnitGroupType,
    /// Nested units, in document order.
    pub contents: Vec<ComparisonUnit>,
    /// Nesting level of the group.
    pub level: usize,
    /// Content hash of the group.
    pub sha1_hash: String,
    /// Hash of the group's projection, used to pre-correlate blocks.
    pub correlated_sha1_hash: Option<String>,
    /// Hash of the group's element structure alone.
    pub structure_sha1_hash: Option<String>,
}

/// A comparison unit: a word or a group.
#[derive(Debug)]
pub enum ComparisonUnit {
    /// A word.
    Word(ComparisonUnitWord),
    /// A group.
    Group(ComparisonUnitGroup),
}

/// Mathematical view of a [`ComparisonUnit`].
pub enum UnitModel {
    Word { status: CorrelationStatus, atoms: Seq<AtomModel>, sha1: Seq<char> },
    Group {
        status: CorrelationStatus,
        group_type: ComparisonUnitGroupType,
        contents: Seq<UnitModel>,
        level: usize,
        sha1: Seq<char>,
        correlated: Option<Seq<char>>,
        structure: Option<Seq<char>>,
    },
}

/// The view of a comparison unit.
pub open spec fn unit_model(u: ComparisonUnit) -> UnitModel
    decreases u,
{
    match u {
        ComparisonUnit::Word(w) => UnitModel::Word {
            status: w.correlation_status,
            atoms: atoms_model(w.contents@),
            sha1: w.sha1_hash@,
        },
        ComparisonUnit::Group(g) => UnitModel::Group {
            status: g.correlation_status,
            group_type: g.group_type,
            contents: Seq::new(
                g.contents@.len(),
                |i: int|
                    if 0 <= i < g.contents@.len() {
                        unit_model(g.contents@[i])
                    } else {
                        UnitModel::Word { status: CorrelationStatus::Nil, atoms: seq![], sha1: seq![] }
                    },
            ),
            level: g.level,
            sha1: g.sha1_hash@,
            correlated: opt_str_view(g.correlated_sha1_hash),
            structure: opt_str_view(g.structure_sha1_hash),
        },
    }
}

impl View for ComparisonUnit {
    type V = UnitModel;

    open spec fn view(&self) -> UnitModel {
        unit_model(*self)
    }
}

/// The views of a sequence of units.
pub open spec fn units_model(v: Seq<ComparisonUnit>) -> Seq<UnitModel> {
    v.map_values(|u: ComparisonUnit| u@)
}

impl UnitModel {
    /// The unit's content hash.
    pub open spec fn sha1(self) -> Seq<char> {
        match self {
            UnitModel::Word { sha1, .. } => sha1,
            UnitModel::Group { sha1, .. } => sha1,
        }
    }

    /// The projection hash (groups only).
    pub open spec fn correlated(self) -> Option<Seq<char>> {
        match self {
            UnitModel::Word { .. } => None,
            UnitModel::Group { correlated, .. } => correlated,
        }
    }

    /// The structure hash (groups only).
    pub open spec fn structure(self) -> Option<Seq<char>> {
        match self {
            UnitModel::Word { .. } => None,
            UnitModel::Group { structure, .. } => structure,
        }
    }

    /// The unit's correlation status.
    pub open spec fn status(self) -> CorrelationStatus {
        match self {
            UnitModel::Word { status, .. } => status,
            UnitModel::Group { status, .. } => status,
        }
    }

    /// Nested units of a group; empty for a word.
    pub open spec fn children(self) -> Seq<UnitModel> {
        match self {
            UnitModel::Word { .. } => seq![],
            UnitModel::Group { contents, .. } => contents,
        }
    }
}

/// All atoms of a unit, in document order.
pub open spec fn model_atoms(m: UnitModel) -> Seq<AtomModel>
    decreases m, 1nat,
{
    match m {
        UnitModel::Word { atoms, .. } => atoms,
        UnitModel::Group { contents, .. } => models_atoms(contents),
    }
}

/// All atoms of a sequence of units, in document order.
pub open spec fn models_atoms(cs: Seq<UnitModel>) -> Seq<AtomModel>
    decreases cs, 0nat,
{
    if cs.len() == 0 {
        seq![]
    } else {
        proof {
            assert(decreases_to!(cs => cs.last()));
        }
        models_atoms(cs.drop_last()) + model_atoms(cs.last())
    }
}

/// Number of atoms of a unit.
pub open spec fn atom_count(m: UnitModel) -> nat {
    model_atoms(m).len()
}

/// Total number of atoms of a sequence of units.
pub open spec fn atoms_total(cs: Seq<UnitModel>) -> nat {
    models_atoms(cs).len()
}

/// A nested unit of a group decreases from the group.
pub proof fn lemma_child_decreases(u: ComparisonUnit, i: int)
    requires
        u is Group,
        0 <= i < u->Group_0.contents@.len(),
    ensures
        decreases_to!(u => u->Group_0.contents@[i]),
{
    broadcast use vstd::std_specs::vec::group_vec_axioms;

    let g = u->Group_0;
    assert(decreases_to!(u => u->Group_0));
    assert(decreases_to!(g => g.contents));
    assert(decreases_to!(g.contents => g.contents@));
    assert(decreases_to!(g.contents@ => g.contents@[i]));
}

/// The atoms of `cs.take(i + 1)` are those of `cs.take(i)` followed by those of `cs[i]`.
pub proof fn lemma_models_atoms_step(cs: Seq<UnitModel>, i: int)
    requires
        0 <= i < cs.len(),
    ensures
        models_atoms(cs.take(i + 1)) == models_atoms(cs.take(i)) + model_atoms(cs[i]),
{
    assert(cs.take(i + 1).drop_last() =~= cs.take(i));
}

/// Appending a unit appends its atoms.
pub proof fn lemma_models_atoms_push(cs: Seq<UnitModel>, m: UnitModel)
    ensures
        models_atoms(cs.push(m)) == models_atoms(cs) + model_atoms(m),
{
    assert(cs.push(m).drop_last() =~= cs);
}

/// The atoms of a concatenation are the concatenation of the atoms.
pub proof fn lemma_models_atoms_concat(a: Seq<UnitModel>, b: Seq<UnitModel>)
    ensures
        models_atoms(a + b) == models_atoms(a) + models_atoms(b),
    decreases b.len(),
{
    if b.len() == 0 {
        assert(a + b =~= a);
        assert(models_atoms(b) =~= seq![]);
        assert(models_atoms(a) + models_atoms(b) =~= models_atoms(a));
    } else {
        lemma_models_atoms_concat(a, b.drop_last());
        assert((a + b).drop_last() =~= a + b.drop_last());
        assert((a + b).last() == b.last());
        assert(models_atoms(a) + models_atoms(b.drop_last()) + model_atoms(b.last())
            =~= models_atoms(a) + (models_atoms(b.drop_last()) + model_atoms(b.last())));
    }
}

/// The atom total of a prefix never exceeds the total.
pub proof fn lemma_atoms_total_take(cs: Seq<UnitModel>, i: int)
    requires
        0 <= i <= cs.len(),
    ensures
        atoms_total(cs.take(i)) <= atoms_total(cs),
{
    lemma_models_atoms_concat(cs.take(i), cs.skip(i));
    assert(cs.take(i) + cs.skip(i) =~= cs);
}

/// A copy of a comparison unit.
pub fn copy_unit(u: &ComparisonUnit) -> (r: ComparisonUnit)
    ensures
        r@ == u@,
    decreases u,
{
    match u {
        ComparisonUnit::Word(w) => {
            let contents = copy_atoms(w.contents.as_slice(), 0, w.contents.len());
            assert(w.contents@.subrange(0, w.contents@.len() as int) =~= w.contents@);
            let r = ComparisonUnit::Word(
                ComparisonUnitWord {
                    correlation_status: w.correlation_status,
                    contents,
                    sha1_hash: w.sha1_hash.clone(),
                },
            );
            r
        },
        ComparisonUnit::Group(g) => {
            let mut contents: Vec<ComparisonUnit> = Vec::new();
            let mut i: usize = 0;
            while i < g.contents.len()
                invariant
                    *u == ComparisonUnit::Group(*g),
                    i <= g.contents@.len(),
                    contents@.len() == i,
                    forall|k: int| 0 <= k < i ==> (#[trigger] contents@[k])@ == g.contents@[k]@,
                decreases g.contents@.len() - i,
            {
                proof {
                    lemma_child_decreases(*u, i as int);
                }
                let c = copy_unit(&g.contents[i]);
                contents.push(c);
                i = i + 1;
            }
            let r = ComparisonUnit::Group(
                ComparisonUnitGroup {
                    correlation_status: g.correlation_status,
                    group_type: g.group_type,
                    contents,
                    level: g.level,
                    sha1_hash: g.sha1_hash.clone(),
                    correlated_sha1_hash: copy_opt_string(&g.correlated_sha1_hash),
                    structure_sha1_hash: copy_opt_string(&g.structure_sha1_hash),
                },
            );
            proof {
                let s1 = r@.children();
                let s2 = u@.children();
                assert(s1 =~= s2);
            }
            r
        },
    }
}

impl Clone for ComparisonUnit {
    fn clone(&self) -> (r: Self)
        ensures
            r@ == self@,
    {
        copy_unit(self)
    }
}

/// A copy of a range of units.
pub fn copy_units(v: &[ComparisonUnit], lo: usize, hi: usize) -> (r: Vec<ComparisonUnit>)
    requires
        lo <= hi <= v@.len(),
    ensures
        units_model(r@) == units_model(v@.subrange(lo as int, hi as int)),
{
    let mut r: Vec<ComparisonUnit> = Vec::new();
    let mut i: usize = lo;
    while i < hi
        invariant
            lo <= i <= hi <= v@.len(),
            r@.len() == i - lo,
            forall|k: int| 0 <= k < r@.len() ==> (#[trigger] r@[k])@ == v@[lo + k]@,
        decreases hi - i,
    {
        r.push(copy_unit(&v[i]));
        i = i + 1;
    }
    assert(units_model(r@) =~= units_model(v@.subrange(lo as int, hi as int)));
    r
}

impl ComparisonUnit {
    /// The unit's content hash.
    pub fn sha1(&self) -> (r: &str)
        ensures
            r@ == self@.sha1(),
    {
        match self {
            ComparisonUnit::Word(w) => w.sha1_hash.as_str(),
            ComparisonUnit::Group(g) => g.sha1_hash.as_str(),
        }
    }

    /// The unit's projection hash (groups only).
    pub fn correlated_sha1(&self) -> (r: Option<&str>)
        ensures
            match r {
                Some(s) => self@.correlated() == Some(s@),
                None => self@.correlated() is None,
            },
    {
        match self {
            ComparisonUnit::Word(_) => None,
            ComparisonUnit::Group(g) => match &g.correlated_sha1_hash {
                Some(s) => Some(s.as_str()),
                None => None,
            },
        }
    }

    /// All atoms under the unit, in document order.
    pub fn descendant_atoms(&self) -> (r: Vec<ComparisonUnitAtom>)
        ensures
            atoms_model(r@) == model_atoms(self@),
        decreases self,
    {
        match self {
            ComparisonUnit::Word(w) => {
                let r = copy_atoms(w.contents.as_slice(), 0, w.contents.len());
                assert(w.contents@.subrange(0, w.contents@.len() as int) =~= w.contents@);
                r
            },
            ComparisonUnit::Group(g) => {
                let mut r: Vec<ComparisonUnitAtom> = Vec::new();
                let mut i: usize = 0;
                let ghost cs = self@.children();
                while i < g.contents.len()
                    invariant
                        *self == ComparisonUnit::Group(*g),
                        cs == self@.children(),
                        cs.len() == g.contents@.len(),
                        i <= g.contents@.len(),
                        atoms_model(r@) == models_atoms(cs.take(i as int)),
                    decreases g.contents@.len() - i,
                {
                    proof {
                        lemma_child_decreases(*self, i as int);
                        lemma_models_atoms_step(cs, i as int);
                    }
                    let mut sub = g.contents[i].descendant_atoms();
                    let ghost before = r@;
                    r.append(&mut sub);
                    assert(atoms_model(r@) =~= atoms_model(before) + model_atoms(cs[i as int]));
                    i = i + 1;
                }
                assert(cs.take(cs.len() as int) =~= cs);
                r
            },
        }
    }

    /// Number of atoms under the unit.
    pub fn descendant_content_atoms_count(&self) -> (n: usize)
        requires
            atom_count(self@) <= usize::MAX,
        ensures
            n == atom_count(self@),
        decreases self,
    {
        match self {
            ComparisonUnit::Word(w) => w.contents.len(),
            ComparisonUnit::Group(g) => {
                let mut n: usize = 0;
                let mut i: usize = 0;
                let ghost cs = self@.children();
                while i < g.contents.len()
                    invariant
                        *self == ComparisonUnit::Group(*g),
                        cs == self@.children(),
                        cs.len() == g.contents@.len(),
                        atoms_total(cs) <= usize::MAX,
                        i <= g.contents@.len(),
                        n == atoms_total(cs.take(i as int)),
                    decreases g.contents@.len() - i,
                {
                    proof {
                        lemma_child_decreases(*self, i as int);
                        lemma_models_atoms_step(cs, i as int);
                        lemma_atoms_total_take(cs, i + 1);
                    }
                    let k = g.contents[i].descendant_content_atoms_count();
                    n = n + k;
                    i = i + 1;
                }
                assert(cs.take(cs.len() as int) =~= cs);
                n
            },
        }
    }
}

/// A pair of unit sequences with a correlation status; one side is absent for
/// pure insertions and deletions.
#[derive(Debug)]
pub struct CorrelatedSequence {
    /// How the two sides relate.
    pub correlation_status: CorrelationStatus,
    /// Units of the original document.
    pub com_units_1: Option<Vec<ComparisonUnit>>,
    /// Units of the revised document.
    pub com_units_2: Option<Vec<ComparisonUnit>>,
}

/// Mathematical view of a [`CorrelatedSequence`].
pub struct SequenceModel {
    pub status: CorrelationStatus,
    pub units1: Option<Seq<UnitModel>>,
    pub units2: Option<Seq<UnitModel>>,
}

/// The view of an optional vector of units.
pub open spec fn opt_units_model(o: Option<Vec<ComparisonUnit>>) -> Option<Seq<UnitModel>> {
    match o {
        Some(v) => Some(units_model(v@)),
        None => None,
    }
}

impl View for CorrelatedSequence {
    type V = SequenceModel;

    open spec fn view(&self) -> SequenceModel {
        SequenceModel {
            status: self.correlation_status,
            units1: opt_units_model(self.com_units_1),
            units2: opt_units_model(self.com_units_2),
        }
    }
}

/// The views of a sequence of correlated sequences.
pub open spec fn sequences_model(v: Seq<CorrelatedSequence>) -> Seq<SequenceModel> {
    v.map_values(|s: CorrelatedSequence| s@)
}

impl CorrelatedSequence {
    /// A sequence relating `units1` (original) to `units2` (revised).
    pub fn paired(
        status: CorrelationStatus,
        units1: Vec<ComparisonUnit>,
        units2: Vec<ComparisonUnit>,
    ) -> (r: Self)
        ensures
            r@ == (SequenceModel {
                status,
                units1: Some(units_model(units1@)),
                units2: Some(units_model(units2@)),
            }),
    {
        CorrelatedSequence {
            correlation_status: status,
            com_units_1: Some(units1),
            com_units_2: Some(units2),
        }
    }

    /// Units present only in the original document.
    pub fn deleted(units1: Vec<ComparisonUnit>) -> (r: Self)
        ensures
            r@ == (SequenceModel {
                status: CorrelationStatus::Deleted,
                units1: Some(units_model(units1@)),
                units2: None,
            }),
    {
        CorrelatedSequence {
            correlation_status: CorrelationStatus::Deleted,
            com_units_1: Some(units1),
            com_units_2: None,
        }
    }

    /// Units present only in the revised document.
    pub fn inserted(units2: Vec<ComparisonUnit>) -> (r: Self)
        ensures
            r@ == (SequenceModel {
                status: CorrelationStatus::Inserted,
                units1: None,
                units2: Some(units_model(units2@)),
            }),
    {
        CorrelatedSequence {
            correlation_status: CorrelationStatus::Inserted,
            com_units_1: None,
            com_units_2: Some(units2),
        }
    }
}

/// A block of atoms: indices into an atom list, with the index it starts at.
#[derive(Clone, Debug)]
pub struct AtomBlock {
    /// Indices of the block's atoms, ascending.
    pub atoms: Vec<usize>,
    /// Index of the first atom of the block.
    pub start_index: usize,
}

} // verus!
