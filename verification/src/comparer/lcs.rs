//! Correlation of comparison sequences: the atom-level longest-common-run
//! diff, the unit-level longest common run, the correlated-hash pre-pass and
//! the small structural helpers of the unit-level LCS.

use vstd::prelude::*;

use super::atoms::{
    AtomModel, ComparisonUnit, ComparisonUnitAtom, ComparisonUnitGroup, CorrelatedSequence, UnitModel, atom_count,
    atoms_model, atoms_total, lemma_atoms_total_take, lemma_models_atoms_concat, model_atoms,
    lemma_models_atoms_push, lemma_models_atoms_step, models_atoms, units_model, SequenceModel, sequences_model, copy_units,
};
use super::{ComparisonUnitGroupType, CorrelationStatus};
use vstd::hash_map::StringHashMap;
use crate::text::str_eq;
use crate::namespaces::{w_name, W};
use crate::namespaces::{pt_name, PT};
use crate::xml::{attribute_of, has_name, with_attr, Dom, NodeId, NodeView, XNameView};

verus! {

/// An atom tagged with its correlation status, ready for the produce step.
#[derive(Debug)]
pub struct TaggedAtom {
    /// The atom (the revised side's atom for `Equal`).
    pub atom: ComparisonUnitAtom,
    /// How the atom relates the two documents.
    pub status: CorrelationStatus,
}

/// Mathematical view of a [`TaggedAtom`].
pub struct TaggedModel {
    pub atom: AtomModel,
    pub status: CorrelationStatus,
}

impl View for TaggedAtom {
    type V = TaggedModel;

    open spec fn view(&self) -> TaggedModel {
        TaggedModel { atom: self.atom@, status: self.status }
    }
}

/// The views of a sequence of tagged atoms.
pub open spec fn tagged_model(v: Seq<TaggedAtom>) -> Seq<TaggedModel> {
    v.map_values(|t: TaggedAtom| t@)
}

/// Every atom of `a` tagged with `status`.
pub open spec fn tag_seq(a: Seq<AtomModel>, status: CorrelationStatus) -> Seq<TaggedModel> {
    a.map_values(|x: AtomModel| TaggedModel { atom: x, status })
}

/// Length of the longest run of equal hashes starting at `a[i]` and `b[j]`.
pub open spec fn common_len(a: Seq<AtomModel>, b: Seq<AtomModel>, i: int, j: int) -> nat
    decreases a.len() - i,
{
    if 0 <= i < a.len() && 0 <= j < b.len() && a[i].sha1_hash == b[j].sha1_hash {
        1 + common_len(a, b, i + 1, j + 1)
    } else {
        0
    }
}

/// `(p, q)` comes before `(x, y)` in row-major order.
pub open spec fn lex_before(p: int, q: int, x: int, y: int) -> bool {
    p < x || (p == x && q < y)
}

/// `(i, j)` starts a longest common run of `a` and `b`, and no pair before it
/// in row-major order starts one as long.
pub open spec fn is_first_longest(a: Seq<AtomModel>, b: Seq<AtomModel>, i: int, j: int) -> bool {
    &&& 0 <= i < a.len()
    &&& 0 <= j < b.len()
    &&& common_len(a, b, i, j) > 0
    &&& forall|p: int, q: int|
        0 <= p < a.len() && 0 <= q < b.len() ==> #[trigger] common_len(a, b, p, q) <= common_len(
            a,
            b,
            i,
            j,
        )
    &&& forall|p: int, q: int|
        0 <= p < a.len() && 0 <= q < b.len() && lex_before(p, q, i, j) ==> #[trigger] common_len(
            a,
            b,
            p,
            q,
        ) < common_len(a, b, i, j)
}

/// The first longest common run of `a` and `b` as `(start in a, start in b,
/// length)`; length 0 when the two share no hash.
pub open spec fn first_longest_run(a: Seq<AtomModel>, b: Seq<AtomModel>) -> (int, int, nat) {
    if exists|i: int, j: int| is_first_longest(a, b, i, j) {
        let (i, j) = choose|i: int, j: int| is_first_longest(a, b, i, j);
        (i, j, common_len(a, b, i, j))
    } else {
        (0, 0, 0)
    }
}

/// The diff of `a` (original) against `b` (revised): the first longest common
/// run is `Equal` (carrying `b`'s atoms) and the parts before and after it are
/// diffed recursively; with no common run, `a` is `Deleted` then `b` `Inserted`.
pub open spec fn lcs_tagging(a: Seq<AtomModel>, b: Seq<AtomModel>) -> Seq<TaggedModel>
    decreases a.len() + b.len(),
{
    if a.len() == 0 && b.len() == 0 {
        seq![]
    } else if b.len() == 0 {
        tag_seq(a, CorrelationStatus::Deleted)
    } else if a.len() == 0 {
        tag_seq(b, CorrelationStatus::Inserted)
    } else {
        let (i, j, n) = first_longest_run(a, b);
        if n == 0 || i < 0 || j < 0 || i + n > a.len() || j + n > b.len() {
            tag_seq(a, CorrelationStatus::Deleted) + tag_seq(b, CorrelationStatus::Inserted)
        } else {
            lcs_tagging(a.take(i), b.take(j)) + tag_seq(b.subrange(j, j + n), CorrelationStatus::Equal)
                + lcs_tagging(a.skip(i + n), b.skip(j + n))
        }
    }
}

proof fn lemma_common_len_bound(a: Seq<AtomModel>, b: Seq<AtomModel>, i: int, j: int)
    requires
        0 <= i,
        0 <= j,
    ensures
        common_len(a, b, i, j) <= if a.len() - i < b.len() - j {
            if a.len() - i < 0 { 0 } else { a.len() - i }
        } else {
            if b.len() - j < 0 { 0 } else { b.len() - j }
        },
    decreases a.len() - i,
{
    if 0 <= i < a.len() && 0 <= j < b.len() && a[i].sha1_hash == b[j].sha1_hash {
        lemma_common_len_bound(a, b, i + 1, j + 1);
    }
}

proof fn lemma_common_len_hashes(a: Seq<AtomModel>, b: Seq<AtomModel>, i: int, j: int, k: int)
    requires
        0 <= i,
        0 <= j,
        0 <= k < common_len(a, b, i, j),
    ensures
        i + k < a.len(),
        j + k < b.len(),
        a[i + k].sha1_hash == b[j + k].sha1_hash,
    decreases k,
{
    if k > 0 {
        lemma_common_len_hashes(a, b, i + 1, j + 1, k - 1);
    }
}

proof fn lemma_first_longest_unique(a: Seq<AtomModel>, b: Seq<AtomModel>, i: int, j: int)
    requires
        is_first_longest(a, b, i, j),
    ensures
        first_longest_run(a, b) == (i, j, common_len(a, b, i, j)),
{
    let (x, y) = choose|x: int, y: int| is_first_longest(a, b, x, y);
    assert(is_first_longest(a, b, x, y));
    assert(common_len(a, b, x, y) <= common_len(a, b, i, j));
    assert(common_len(a, b, i, j) <= common_len(a, b, x, y));
    if lex_before(x, y, i, j) {
        assert(common_len(a, b, x, y) < common_len(a, b, i, j));
    }
    if lex_before(i, j, x, y) {
        assert(common_len(a, b, i, j) < common_len(a, b, x, y));
    }
}

proof fn lemma_no_run(a: Seq<AtomModel>, b: Seq<AtomModel>)
    requires
        forall|p: int, q: int|
            0 <= p < a.len() && 0 <= q < b.len() ==> #[trigger] common_len(a, b, p, q) == 0,
    ensures
        first_longest_run(a, b).2 == 0,
{
    if exists|i: int, j: int| is_first_longest(a, b, i, j) {
        let (x, y) = choose|x: int, y: int| is_first_longest(a, b, x, y);
        assert(common_len(a, b, x, y) == 0);
    }
}

/// The revised document read off a tagging: every atom not `Deleted`.
pub open spec fn accepted_atoms(t: Seq<TaggedModel>) -> Seq<AtomModel>
    decreases t.len(),
{
    if t.len() == 0 {
        seq![]
    } else {
        accepted_atoms(t.drop_last()) + if t.last().status == CorrelationStatus::Deleted {
            Seq::<AtomModel>::empty()
        } else {
            seq![t.last().atom]
        }
    }
}

/// The original document's hashes read off a tagging: every atom not `Inserted`.
pub open spec fn rejected_hashes(t: Seq<TaggedModel>) -> Seq<Seq<char>>
    decreases t.len(),
{
    if t.len() == 0 {
        seq![]
    } else {
        rejected_hashes(t.drop_last()) + if t.last().status == CorrelationStatus::Inserted {
            Seq::<Seq<char>>::empty()
        } else {
            seq![t.last().atom.sha1_hash]
        }
    }
}

/// The hashes of a sequence of atoms.
pub open spec fn atom_hashes(a: Seq<AtomModel>) -> Seq<Seq<char>> {
    a.map_values(|x: AtomModel| x.sha1_hash)
}

/// Each tag of `t` is `Equal`, `Inserted` or `Deleted`.
pub open spec fn diff_statuses(t: Seq<TaggedModel>) -> bool {
    forall|k: int|
        0 <= k < t.len() ==> (#[trigger] t[k]).status == CorrelationStatus::Equal || t[k].status
            == CorrelationStatus::Inserted || t[k].status == CorrelationStatus::Deleted
}

proof fn lemma_accepted_concat(x: Seq<TaggedModel>, y: Seq<TaggedModel>)
    ensures
        accepted_atoms(x + y) == accepted_atoms(x) + accepted_atoms(y),
        rejected_hashes(x + y) == rejected_hashes(x) + rejected_hashes(y),
    decreases y.len(),
{
    if y.len() == 0 {
        assert(x + y =~= x);
        assert(accepted_atoms(x) + accepted_atoms(y) =~= accepted_atoms(x));
        assert(rejected_hashes(x) + rejected_hashes(y) =~= rejected_hashes(x));
    } else {
        lemma_accepted_concat(x, y.drop_last());
        assert((x + y).drop_last() =~= x + y.drop_last());
        assert((x + y).last() == y.last());
        let ea = if y.last().status == CorrelationStatus::Deleted {
            Seq::<AtomModel>::empty()
        } else {
            seq![y.last().atom]
        };
        let eh = if y.last().status == CorrelationStatus::Inserted {
            Seq::<Seq<char>>::empty()
        } else {
            seq![y.last().atom.sha1_hash]
        };
        assert(accepted_atoms(x) + accepted_atoms(y.drop_last()) + ea =~= accepted_atoms(x) + (
        accepted_atoms(y.drop_last()) + ea));
        assert(rejected_hashes(x) + rejected_hashes(y.drop_last()) + eh =~= rejected_hashes(x) + (
        rejected_hashes(y.drop_last()) + eh));
    }
}

proof fn lemma_tag_seq_read(a: Seq<AtomModel>, status: CorrelationStatus)
    ensures
        accepted_atoms(tag_seq(a, status)) == if status == CorrelationStatus::Deleted {
            Seq::<AtomModel>::empty()
        } else {
            a
        },
        rejected_hashes(tag_seq(a, status)) == if status == CorrelationStatus::Inserted {
            Seq::<Seq<char>>::empty()
        } else {
            atom_hashes(a)
        },
        diff_statuses(tag_seq(a, status)) <== (status == CorrelationStatus::Equal || status
            == CorrelationStatus::Inserted || status == CorrelationStatus::Deleted),
    decreases a.len(),
{
    if a.len() > 0 {
        lemma_tag_seq_read(a.drop_last(), status);
        assert(tag_seq(a, status).drop_last() =~= tag_seq(a.drop_last(), status));
        assert(a.drop_last().push(a.last()) =~= a);
        assert(atom_hashes(a.drop_last()).push(a.last().sha1_hash) =~= atom_hashes(a));
    } else {
        assert(tag_seq(a, status) =~= seq![]);
        assert(atom_hashes(a) =~= seq![]);
    }
}

proof fn lemma_run_hashes(a: Seq<AtomModel>, b: Seq<AtomModel>, i: int, j: int)
    requires
        0 <= i,
        0 <= j,
        i + common_len(a, b, i, j) <= a.len(),
        j + common_len(a, b, i, j) <= b.len(),
    ensures
        atom_hashes(a.subrange(i, i + common_len(a, b, i, j))) == atom_hashes(
            b.subrange(j, j + common_len(a, b, i, j)),
        ),
{
    let n = common_len(a, b, i, j) as int;
    assert forall|k: int| 0 <= k < n implies #[trigger] atom_hashes(a.subrange(i, i + n))[k]
        == atom_hashes(b.subrange(j, j + n))[k] by {
        lemma_common_len_hashes(a, b, i, j, k);
    }
    assert(atom_hashes(a.subrange(i, i + n)) =~= atom_hashes(b.subrange(j, j + n)));
}

/// The diff is faithful to both documents: accepting every change (dropping
/// `Deleted` atoms) gives back exactly the revised atoms, rejecting every
/// change (dropping `Inserted` atoms) gives back the original's hashes in
/// order, and every tag is `Equal`, `Inserted` or `Deleted`.
pub proof fn lemma_lcs_tagging_round_trip(a: Seq<AtomModel>, b: Seq<AtomModel>)
    ensures
        accepted_atoms(lcs_tagging(a, b)) == b,
        rejected_hashes(lcs_tagging(a, b)) == atom_hashes(a),
        diff_statuses(lcs_tagging(a, b)),
    decreases a.len() + b.len(),
{
    let t = lcs_tagging(a, b);
    if a.len() == 0 && b.len() == 0 {
        assert(b =~= seq![]);
        assert(atom_hashes(a) =~= seq![]);
    } else if b.len() == 0 {
        lemma_tag_seq_read(a, CorrelationStatus::Deleted);
        assert(b =~= seq![]);
    } else if a.len() == 0 {
        lemma_tag_seq_read(b, CorrelationStatus::Inserted);
        assert(atom_hashes(a) =~= seq![]);
    } else {
        let (i, j, n) = first_longest_run(a, b);
        if n == 0 || i < 0 || j < 0 || i + n > a.len() || j + n > b.len() {
            let x = tag_seq(a, CorrelationStatus::Deleted);
            let y = tag_seq(b, CorrelationStatus::Inserted);
            lemma_tag_seq_read(a, CorrelationStatus::Deleted);
            lemma_tag_seq_read(b, CorrelationStatus::Inserted);
            lemma_accepted_concat(x, y);
            assert(accepted_atoms(x) + accepted_atoms(y) =~= b);
            assert(rejected_hashes(x) + rejected_hashes(y) =~= atom_hashes(a));
        } else {
            let (ci, cj) = choose|ci: int, cj: int| is_first_longest(a, b, ci, cj);
            assert(i == ci && j == cj && n == common_len(a, b, i, j));
            let l = lcs_tagging(a.take(i), b.take(j));
            let m = tag_seq(b.subrange(j, j + n), CorrelationStatus::Equal);
            let r = lcs_tagging(a.skip(i + n), b.skip(j + n));
            lemma_lcs_tagging_round_trip(a.take(i), b.take(j));
            lemma_lcs_tagging_round_trip(a.skip(i + n), b.skip(j + n));
            lemma_tag_seq_read(b.subrange(j, j + n), CorrelationStatus::Equal);
            lemma_run_hashes(a, b, i, j);
            lemma_accepted_concat(l, m);
            lemma_accepted_concat(l + m, r);
            assert(b.take(j) + b.subrange(j, j + n) + b.skip(j + n) =~= b);
            assert(atom_hashes(a.take(i)) + atom_hashes(a.subrange(i, i + n)) + atom_hashes(
                a.skip(i + n),
            ) =~= atom_hashes(a));
            assert(diff_statuses(l + m + r)) by {
                assert forall|k: int| 0 <= k < (l + m + r).len() implies #[trigger] (l + m
                    + r)[k].status == CorrelationStatus::Equal || (l + m + r)[k].status
                    == CorrelationStatus::Inserted || (l + m + r)[k].status
                    == CorrelationStatus::Deleted by {
                    if k < l.len() {
                        assert((l + m + r)[k] == l[k]);
                    } else if k < l.len() + m.len() {
                        assert((l + m + r)[k] == m[k - l.len()]);
                    } else {
                        assert((l + m + r)[k] == r[k - l.len() - m.len()]);
                    }
                }
            }
        }
    }
}

fn tag_all(atoms: &[ComparisonUnitAtom], status: CorrelationStatus, out: &mut Vec<TaggedAtom>)
    ensures
        tagged_model(final(out)@) == tagged_model(old(out)@) + tag_seq(
            atoms_model(atoms@),
            status,
        ),
{
    let mut i: usize = 0;
    while i < atoms.len()
        invariant
            i <= atoms@.len(),
            tagged_model(out@) =~= tagged_model(old(out)@) + tag_seq(
                atoms_model(atoms@.take(i as int)),
                status,
            ),
        decreases atoms@.len() - i,
    {
        let ghost prev = out@;
        out.push(TaggedAtom { atom: atoms[i].clone(), status });
        assert(tagged_model(out@) =~= tagged_model(prev).push(out@.last()@));
        assert(tag_seq(atoms_model(atoms@.take(i + 1)), status) =~= tag_seq(
            atoms_model(atoms@.take(i as int)),
            status,
        ).push(TaggedModel { atom: atoms@[i as int]@, status }));
        i = i + 1;
    }
    assert(atoms@.take(atoms@.len() as int) =~= atoms@);
}

/// Finds the first longest run of equal atom hashes.
fn longest_atom_run(cul1: &[ComparisonUnitAtom], cul2: &[ComparisonUnitAtom]) -> (r: (
    usize,
    usize,
    usize,
))
    ensures
        ({
            let a = atoms_model(cul1@);
            let b = atoms_model(cul2@);
            if r.2 == 0 {
                forall|p: int, q: int|
                    0 <= p < a.len() && 0 <= q < b.len() ==> #[trigger] common_len(a, b, p, q)
                        == 0
            } else {
                is_first_longest(a, b, r.0 as int, r.1 as int) && r.2 == common_len(
                    a,
                    b,
                    r.0 as int,
                    r.1 as int,
                )
            }
        }),
{
    let ghost a = atoms_model(cul1@);
    let ghost b = atoms_model(cul2@);
    let mut best_len: usize = 0;
    let mut best_i1: usize = 0;
    let mut best_i2: usize = 0;
    let mut i1: usize = 0;
    while best_len < cul1.len() - i1
        invariant
            a == atoms_model(cul1@),
            b == atoms_model(cul2@),
            i1 <= cul1@.len(),
            best_len <= cul1@.len(),
            forall|p: int, q: int|
                0 <= p < a.len() && 0 <= q < b.len() && p < i1 ==> #[trigger] common_len(
                    a,
                    b,
                    p,
                    q,
                ) <= best_len,
            best_len > 0 ==> {
                &&& best_i1 < i1
                &&& best_i2 < b.len()
                &&& common_len(a, b, best_i1 as int, best_i2 as int) == best_len
                &&& forall|p: int, q: int|
                    0 <= p < a.len() && 0 <= q < b.len() && lex_before(
                        p,
                        q,
                        best_i1 as int,
                        best_i2 as int,
                    ) ==> #[trigger] common_len(a, b, p, q) < best_len
            },
        decreases cul1@.len() - i1,
    {
        let mut i2: usize = 0;
        while best_len < cul2.len() - i2
            invariant
                a == atoms_model(cul1@),
                b == atoms_model(cul2@),
                i1 < cul1@.len(),
                i2 <= cul2@.len(),
                best_len <= cul1@.len(),
                forall|p: int, q: int|
                    0 <= p < a.len() && 0 <= q < b.len() && lex_before(p, q, i1 as int, i2 as int)
                        ==> #[trigger] common_len(a, b, p, q) <= best_len,
                best_len > 0 ==> {
                    &&& lex_before(best_i1 as int, best_i2 as int, i1 as int, i2 as int)
                    &&& best_i1 <= i1
                    &&& best_i2 < b.len()
                    &&& common_len(a, b, best_i1 as int, best_i2 as int) == best_len
                    &&& forall|p: int, q: int|
                        0 <= p < a.len() && 0 <= q < b.len() && lex_before(
                            p,
                            q,
                            best_i1 as int,
                            best_i2 as int,
                        ) ==> #[trigger] common_len(a, b, p, q) < best_len
                },
            decreases cul2@.len() - i2,
        {
            let mut len: usize = 0;
            let mut t1: usize = i1;
            let mut t2: usize = i2;
            while t1 < cul1.len() && t2 < cul2.len() && cul1[t1].sha1_hash == cul2[t2].sha1_hash
                invariant
                    a == atoms_model(cul1@),
                    b == atoms_model(cul2@),
                    i1 < cul1@.len(),
                    i2 < cul2@.len(),
                    t1 == i1 + len,
                    t2 == i2 + len,
                    t1 <= cul1@.len(),
                    t2 <= cul2@.len(),
                    common_len(a, b, i1 as int, i2 as int) == len + common_len(
                        a,
                        b,
                        t1 as int,
                        t2 as int,
                    ),
                decreases cul1@.len() - t1,
            {
                t1 = t1 + 1;
                t2 = t2 + 1;
                len = len + 1;
            }
            assert(common_len(a, b, t1 as int, t2 as int) == 0);
            if len > best_len {
                best_len = len;
                best_i1 = i1;
                best_i2 = i2;
            }
            i2 = i2 + 1;
        }
        proof {
            assert forall|p: int, q: int|
                0 <= p < a.len() && 0 <= q < b.len() && p < i1 + 1 implies #[trigger] common_len(
                a,
                b,
                p,
                q,
            ) <= best_len by {
                if p == i1 && q >= i2 {
                    lemma_common_len_bound(a, b, p, q);
                }
            }
        }
        i1 = i1 + 1;
    }
    proof {
        assert forall|p: int, q: int|
            0 <= p < a.len() && 0 <= q < b.len() implies #[trigger] common_len(a, b, p, q)
            <= best_len by {
            if p >= i1 {
                lemma_common_len_bound(a, b, p, q);
            }
        }
    }
    (best_i1, best_i2, best_len)
}

fn do_lcs(cul1: &[ComparisonUnitAtom], cul2: &[ComparisonUnitAtom], out: &mut Vec<TaggedAtom>)
    ensures
        tagged_model(final(out)@) == tagged_model(old(out)@) + lcs_tagging(
            atoms_model(cul1@),
            atoms_model(cul2@),
        ),
    decreases cul1@.len() + cul2@.len(),
{
    let ghost a = atoms_model(cul1@);
    let ghost b = atoms_model(cul2@);
    if cul1.len() == 0 && cul2.len() == 0 {
        assert(tagged_model(out@) =~= tagged_model(out@) + lcs_tagging(a, b));
        return ;
    }
    if cul2.len() == 0 {
        tag_all(cul1, CorrelationStatus::Deleted, out);
        return ;
    }
    if cul1.len() == 0 {
        tag_all(cul2, CorrelationStatus::Inserted, out);
        return ;
    }
    let (best_i1, best_i2, best_len) = longest_atom_run(cul1, cul2);
    if best_len == 0 {
        proof {
            lemma_no_run(a, b);
        }
        tag_all(cul1, CorrelationStatus::Deleted, out);
        tag_all(cul2, CorrelationStatus::Inserted, out);
        assert(tagged_model(out@) =~= tagged_model(old(out)@) + lcs_tagging(a, b));
        return ;
    }
    proof {
        lemma_first_longest_unique(a, b, best_i1 as int, best_i2 as int);
        lemma_common_len_bound(a, b, best_i1 as int, best_i2 as int);
    }
    let ghost before = tagged_model(out@);
    do_lcs(&cul1[0..best_i1], &cul2[0..best_i2], out);
    let ghost mid1 = tagged_model(out@);
    tag_all(&cul2[best_i2..best_i2 + best_len], CorrelationStatus::Equal, out);
    let ghost mid2 = tagged_model(out@);
    do_lcs(&cul1[best_i1 + best_len..cul1.len()], &cul2[best_i2 + best_len..cul2.len()], out);
    proof {
        assert(atoms_model(cul1@.subrange(0, best_i1 as int)) =~= a.take(best_i1 as int));
        assert(atoms_model(cul2@.subrange(0, best_i2 as int)) =~= b.take(best_i2 as int));
        assert(atoms_model(cul2@.subrange(best_i2 as int, best_i2 + best_len)) =~= b.subrange(
            best_i2 as int,
            best_i2 + best_len,
        ));
        assert(atoms_model(cul1@.subrange(best_i1 + best_len, cul1@.len() as int)) =~= a.skip(
            best_i1 + best_len,
        ));
        assert(atoms_model(cul2@.subrange(best_i2 + best_len, cul2@.len() as int)) =~= b.skip(
            best_i2 + best_len,
        ));
        assert(tagged_model(out@) =~= before + lcs_tagging(a, b));
    }
}

/// Correlate two atom streams by hash into one merged, tagged stream. `Equal`
/// atoms carry the revised side's atom; `Deleted` atoms the original's.
pub fn correlate_atoms(atoms1: &[ComparisonUnitAtom], atoms2: &[ComparisonUnitAtom]) -> (r: Vec<
    TaggedAtom,
>)
    ensures
        tagged_model(r@) == lcs_tagging(atoms_model(atoms1@), atoms_model(atoms2@)),
{
    let mut out: Vec<TaggedAtom> = Vec::new();
    do_lcs(atoms1, atoms2, &mut out);
    assert(tagged_model(out@) =~= seq![] + lcs_tagging(atoms_model(atoms1@), atoms_model(atoms2@)));
    out
}

} // verus!

verus! {

// ── correlated-hash pre-correlation ─────────────────────────────────────────

/// The group of a unit, if it is one.
pub fn as_group(u: &ComparisonUnit) -> (r: Option<&ComparisonUnitGroup>)
    ensures
        match r {
            Some(g) => *u == ComparisonUnit::Group(*g),
            None => u is Word,
        },
{
    match u {
        ComparisonUnit::Group(g) => Some(g),
        ComparisonUnit::Word(_) => None,
    }
}

/// `x` and `y` are groups of one type carrying the same projection hash.
pub open spec fn corr_match(x: UnitModel, y: UnitModel) -> bool {
    &&& x is Group
    &&& y is Group
    &&& x->Group_group_type == y->Group_group_type
    &&& x->Group_correlated is Some
    &&& x->Group_correlated == y->Group_correlated
}

/// Length of the run of correlated groups starting at `c1[i]` and `c2[j]`.
pub open spec fn corr_len(c1: Seq<UnitModel>, c2: Seq<UnitModel>, i: int, j: int) -> nat
    decreases c1.len() - i,
{
    if 0 <= i < c1.len() && 0 <= j < c2.len() && corr_match(c1[i], c2[j]) {
        1 + corr_len(c1, c2, i + 1, j + 1)
    } else {
        0
    }
}

/// Atoms (counted on the original side) of the run starting at `c1[i]` and `c2[j]`.
pub open spec fn corr_atoms(c1: Seq<UnitModel>, c2: Seq<UnitModel>, i: int, j: int) -> nat
    decreases c1.len() - i,
{
    if 0 <= i < c1.len() && 0 <= j < c2.len() && corr_match(c1[i], c2[j]) {
        atom_count(c1[i]) + corr_atoms(c1, c2, i + 1, j + 1)
    } else {
        0
    }
}

/// `(i, j)` starts a correlated run of the most atoms, and no pair before it
/// in row-major order starts one as heavy.
pub open spec fn is_first_heaviest(c1: Seq<UnitModel>, c2: Seq<UnitModel>, i: int, j: int) -> bool {
    &&& 0 <= i < c1.len()
    &&& 0 <= j < c2.len()
    &&& corr_atoms(c1, c2, i, j) > 0
    &&& forall|p: int, q: int|
        0 <= p < c1.len() && 0 <= q < c2.len() ==> #[trigger] corr_atoms(c1, c2, p, q)
            <= corr_atoms(c1, c2, i, j)
    &&& forall|p: int, q: int|
        0 <= p < c1.len() && 0 <= q < c2.len() && lex_before(p, q, i, j) ==> #[trigger] corr_atoms(
            c1,
            c2,
            p,
            q,
        ) < corr_atoms(c1, c2, i, j)
}

/// A unit may open a correlated window: a paragraph, table or row group.
pub open spec fn opens_window(u: UnitModel) -> bool {
    u is Group && (u->Group_group_type == ComparisonUnitGroupType::Paragraph
        || u->Group_group_type == ComparisonUnitGroupType::Table || u->Group_group_type
        == ComparisonUnitGroupType::Row)
}

/// Both sides hold at least three units and both open with a paragraph, table
/// or row group.
pub open spec fn corr_eligible(c1: Seq<UnitModel>, c2: Seq<UnitModel>) -> bool {
    c1.len() >= 3 && c2.len() >= 3 && opens_window(c1[0]) && opens_window(c2[0])
}

/// The size gate on a run of `n` groups starting at `c1[i]` and `c2[j]`: a
/// single group needs more than 16 atoms on each side, two or three groups
/// more than 32 in total on each side, and longer runs always pass.
pub open spec fn corr_threshold(c1: Seq<UnitModel>, c2: Seq<UnitModel>, i: int, j: int, n: nat) -> bool {
    if n == 1 {
        atom_count(c1[i]) > 16 && atom_count(c2[j]) > 16
    } else if n == 2 || n == 3 {
        atoms_total(c1.subrange(i, i + n)) > 32 && atoms_total(c2.subrange(j, j + n)) > 32
    } else {
        n > 3
    }
}

/// The correlated run selected for `c1` against `c2`, as `(start in c1,
/// start in c2, length)`, or `None` when the pre-pass declines.
pub open spec fn correlated_run_spec(c1: Seq<UnitModel>, c2: Seq<UnitModel>) -> Option<
    (int, int, nat),
> {
    if !corr_eligible(c1, c2) {
        None
    } else if exists|i: int, j: int| is_first_heaviest(c1, c2, i, j) {
        let (i, j) = choose|i: int, j: int| is_first_heaviest(c1, c2, i, j);
        let n = corr_len(c1, c2, i, j);
        if corr_threshold(c1, c2, i, j, n) {
            Some((i, j, n))
        } else {
            None
        }
    } else {
        None
    }
}

/// A selected correlated run: `len` groups from `left_start` on the original
/// side paired with `len` groups from `right_start` on the revised side.
#[derive(Clone, Copy, Debug)]
pub struct CorrelatedHashRun {
    /// First group of the run on the original side.
    pub left_start: usize,
    /// First group of the run on the revised side.
    pub right_start: usize,
    /// Number of paired groups.
    pub len: usize,
}

/// The units of one side of a sequence (empty when the side is absent).
pub open spec fn side_units(o: Option<Vec<ComparisonUnit>>) -> Seq<ComparisonUnit> {
    match o {
        Some(v) => v@,
        None => seq![],
    }
}

/// The run selection read as a plain option.
pub open spec fn run_view(r: Option<CorrelatedHashRun>) -> Option<(int, int, nat)> {
    match r {
        Some(x) => Some((x.left_start as int, x.right_start as int, x.len as nat)),
        None => None,
    }
}

proof fn lemma_corr_bounds(c1: Seq<UnitModel>, c2: Seq<UnitModel>, i: int, j: int)
    requires
        0 <= i,
        0 <= j,
    ensures
        i + corr_len(c1, c2, i, j) <= if i <= c1.len() { c1.len() as int } else { i },
        j + corr_len(c1, c2, i, j) <= if j <= c2.len() { c2.len() as int } else { j },
        i <= c1.len() ==> corr_atoms(c1, c2, i, j) <= atoms_total(c1.subrange(i, c1.len() as int)),
        i <= c1.len() && i + corr_len(c1, c2, i, j) <= c1.len() ==> corr_atoms(c1, c2, i, j)
            == atoms_total(c1.subrange(i, i + corr_len(c1, c2, i, j))),
    decreases c1.len() - i,
{
    if 0 <= i < c1.len() && 0 <= j < c2.len() && corr_match(c1[i], c2[j]) {
        lemma_corr_bounds(c1, c2, i + 1, j + 1);
        let n = corr_len(c1, c2, i, j) as int;
        assert(c1.subrange(i, i + n) =~= seq![c1[i]] + c1.subrange(i + 1, i + n));
        lemma_models_atoms_concat(seq![c1[i]], c1.subrange(i + 1, i + n));
        assert(seq![c1[i]] =~= Seq::<UnitModel>::empty().push(c1[i]));
        lemma_models_atoms_push(Seq::<UnitModel>::empty(), c1[i]);
        assert(c1.subrange(i, c1.len() as int) =~= seq![c1[i]] + c1.subrange(i + 1, c1.len() as int));
        lemma_models_atoms_concat(seq![c1[i]], c1.subrange(i + 1, c1.len() as int));
    } else {
        if i + corr_len(c1, c2, i, j) <= c1.len() && i <= c1.len() {
            assert(c1.subrange(i, i) =~= Seq::<UnitModel>::empty());
        }
    }
}

proof fn lemma_heaviest_unique(c1: Seq<UnitModel>, c2: Seq<UnitModel>, i: int, j: int)
    requires
        is_first_heaviest(c1, c2, i, j),
    ensures
        (choose|x: int, y: int| is_first_heaviest(c1, c2, x, y)) == (i, j),
{
    let (x, y) = choose|x: int, y: int| is_first_heaviest(c1, c2, x, y);
    assert(is_first_heaviest(c1, c2, x, y));
    if lex_before(x, y, i, j) {
        assert(corr_atoms(c1, c2, x, y) < corr_atoms(c1, c2, i, j));
    }
    if lex_before(i, j, x, y) {
        assert(corr_atoms(c1, c2, i, j) < corr_atoms(c1, c2, x, y));
    }
}

proof fn lemma_no_heaviest(c1: Seq<UnitModel>, c2: Seq<UnitModel>)
    requires
        forall|p: int, q: int|
            0 <= p < c1.len() && 0 <= q < c2.len() ==> #[trigger] corr_atoms(c1, c2, p, q) == 0,
    ensures
        !exists|i: int, j: int| is_first_heaviest(c1, c2, i, j),
{
    if exists|i: int, j: int| is_first_heaviest(c1, c2, i, j) {
        let (x, y) = choose|x: int, y: int| is_first_heaviest(c1, c2, x, y);
        assert(corr_atoms(c1, c2, x, y) == 0);
    }
}

/// Whether two units continue a correlated run.
fn units_corr_match(x: &ComparisonUnit, y: &ComparisonUnit) -> (r: bool)
    ensures
        r == corr_match(x@, y@),
{
    match (as_group(x), as_group(y)) {
        (Some(g1), Some(g2)) => {
            g1.group_type == g2.group_type && match (
                &g1.correlated_sha1_hash,
                &g2.correlated_sha1_hash,
            ) {
                (Some(h1), Some(h2)) => *h1 == *h2,
                _ => false,
            }
        },
        _ => false,
    }
}

/// Extends the correlated run starting at `(i1, i2)`; returns its length and
/// its atom count on the original side.
fn extend_corr_run(cul1: &[ComparisonUnit], cul2: &[ComparisonUnit], i1: usize, i2: usize) -> (r: (
    usize,
    usize,
))
    requires
        i1 < cul1@.len(),
        i2 < cul2@.len(),
        atoms_total(units_model(cul1@)) <= usize::MAX,
    ensures
        r.0 == corr_len(units_model(cul1@), units_model(cul2@), i1 as int, i2 as int),
        r.1 == corr_atoms(units_model(cul1@), units_model(cul2@), i1 as int, i2 as int),
{
    let ghost c1 = units_model(cul1@);
    let ghost c2 = units_model(cul2@);
    let mut len: usize = 0;
    let mut atoms: usize = 0;
    let mut t1: usize = i1;
    let mut t2: usize = i2;
    proof {
        lemma_corr_bounds(c1, c2, i1 as int, i2 as int);
        lemma_models_atoms_concat(c1.take(i1 as int), c1.subrange(i1 as int, c1.len() as int));
        assert(c1.take(i1 as int) + c1.subrange(i1 as int, c1.len() as int) =~= c1);
    }
    while t1 < cul1.len() && t2 < cul2.len() && units_corr_match(&cul1[t1], &cul2[t2])
        invariant
            c1 == units_model(cul1@),
            c2 == units_model(cul2@),
            atoms_total(c1) <= usize::MAX,
            i1 <= t1 <= cul1@.len(),
            i2 <= t2 <= cul2@.len(),
            t1 == i1 + len,
            t2 == i2 + len,
            corr_len(c1, c2, i1 as int, i2 as int) == len + corr_len(c1, c2, t1 as int, t2 as int),
            corr_atoms(c1, c2, i1 as int, i2 as int) == atoms + corr_atoms(
                c1,
                c2,
                t1 as int,
                t2 as int,
            ),
            corr_atoms(c1, c2, i1 as int, i2 as int) <= atoms_total(c1),
        decreases cul1@.len() - t1,
    {
        assert(c1[t1 as int] == cul1@[t1 as int]@);
        assert(atom_count(c1[t1 as int]) <= corr_atoms(c1, c2, t1 as int, t2 as int));
        let k = cul1[t1].descendant_content_atoms_count();
        atoms = atoms + k;
        t1 = t1 + 1;
        t2 = t2 + 1;
        len = len + 1;
    }
    (len, atoms)
}

} // verus!

verus! {

/// The state of a row-major search for the first heaviest correlated run,
/// after every start pair before `(x, y)` was weighed.
pub open spec fn corr_search_inv(
    c1: Seq<UnitModel>,
    c2: Seq<UnitModel>,
    x: int,
    y: int,
    best_len: nat,
    best_atoms: nat,
    bi1: int,
    bi2: int,
) -> bool {
    &&& forall|p: int, q: int|
        0 <= p < c1.len() && 0 <= q < c2.len() && lex_before(p, q, x, y) ==> #[trigger] corr_atoms(
            c1,
            c2,
            p,
            q,
        ) <= best_atoms
    &&& best_atoms > 0 ==> {
        &&& 0 <= bi1 < c1.len()
        &&& 0 <= bi2 < c2.len()
        &&& lex_before(bi1, bi2, x, y)
        &&& corr_atoms(c1, c2, bi1, bi2) == best_atoms
        &&& corr_len(c1, c2, bi1, bi2) == best_len
        &&& forall|p: int, q: int|
            0 <= p < c1.len() && 0 <= q < c2.len() && lex_before(p, q, bi1, bi2)
                ==> #[trigger] corr_atoms(c1, c2, p, q) < best_atoms
    }
}

proof fn lemma_search_visit(
    c1: Seq<UnitModel>,
    c2: Seq<UnitModel>,
    x: int,
    y: int,
    best_len: nat,
    best_atoms: nat,
    bi1: int,
    bi2: int,
)
    requires
        corr_search_inv(c1, c2, x, y, best_len, best_atoms, bi1, bi2),
        0 <= x < c1.len(),
        0 <= y < c2.len(),
    ensures
        ({
            let a = corr_atoms(c1, c2, x, y);
            if a > best_atoms {
                corr_search_inv(c1, c2, x, y + 1, corr_len(c1, c2, x, y), a, x, y)
            } else {
                corr_search_inv(c1, c2, x, y + 1, best_len, best_atoms, bi1, bi2)
            }
        }),
{
}

proof fn lemma_search_skip(
    c1: Seq<UnitModel>,
    c2: Seq<UnitModel>,
    x: int,
    y: int,
    z: int,
    best_len: nat,
    best_atoms: nat,
    bi1: int,
    bi2: int,
)
    requires
        corr_search_inv(c1, c2, x, y, best_len, best_atoms, bi1, bi2),
        0 <= x < c1.len(),
        y <= z <= c2.len(),
        forall|q: int| y <= q < z ==> #[trigger] corr_atoms(c1, c2, x, q) == 0,
    ensures
        corr_search_inv(c1, c2, x, z, best_len, best_atoms, bi1, bi2),
{
}

proof fn lemma_search_row_end(
    c1: Seq<UnitModel>,
    c2: Seq<UnitModel>,
    x: int,
    best_len: nat,
    best_atoms: nat,
    bi1: int,
    bi2: int,
)
    requires
        corr_search_inv(c1, c2, x, c2.len() as int, best_len, best_atoms, bi1, bi2),
    ensures
        corr_search_inv(c1, c2, x + 1, 0, best_len, best_atoms, bi1, bi2),
{
}

proof fn lemma_search_done(
    c1: Seq<UnitModel>,
    c2: Seq<UnitModel>,
    best_len: nat,
    best_atoms: nat,
    bi1: int,
    bi2: int,
)
    requires
        corr_search_inv(c1, c2, c1.len() as int, 0, best_len, best_atoms, bi1, bi2),
    ensures
        best_atoms == 0 ==> forall|p: int, q: int|
            0 <= p < c1.len() && 0 <= q < c2.len() ==> #[trigger] corr_atoms(c1, c2, p, q) == 0,
        best_atoms > 0 ==> is_first_heaviest(c1, c2, bi1, bi2) && corr_len(c1, c2, bi1, bi2)
            == best_len,
{
    assert forall|p: int, q: int|
        0 <= p < c1.len() && 0 <= q < c2.len() implies #[trigger] corr_atoms(c1, c2, p, q)
        <= best_atoms by {
        assert(lex_before(p, q, c1.len() as int, 0));
    }
}

/// The result of a completed search, read as the run selection.
proof fn lemma_search_result(
    c1: Seq<UnitModel>,
    c2: Seq<UnitModel>,
    best_len: nat,
    best_atoms: nat,
    bi1: int,
    bi2: int,
)
    requires
        corr_search_inv(c1, c2, c1.len() as int, 0, best_len, best_atoms, bi1, bi2),
        corr_eligible(c1, c2),
    ensures
        correlated_run_spec(c1, c2) == if best_atoms > 0 && corr_threshold(
            c1,
            c2,
            bi1,
            bi2,
            best_len,
        ) {
            Some((bi1, bi2, best_len))
        } else {
            None::<(int, int, nat)>
        },
{
    lemma_search_done(c1, c2, best_len, best_atoms, bi1, bi2);
    if best_atoms > 0 {
        lemma_heaviest_unique(c1, c2, bi1, bi2);
    } else {
        lemma_no_heaviest(c1, c2);
    }
}

/// The units of one side of a sequence.
fn side(o: &Option<Vec<ComparisonUnit>>) -> (r: &[ComparisonUnit])
    ensures
        r@ == side_units(*o),
{
    match o {
        Some(v) => v.as_slice(),
        None => &[],
    }
}

fn opens_window_exec(u: &ComparisonUnit) -> (r: bool)
    ensures
        r == opens_window(u@),
{
    match as_group(u) {
        Some(g) => match g.group_type {
            ComparisonUnitGroupType::Paragraph => true,
            ComparisonUnitGroupType::Table => true,
            ComparisonUnitGroupType::Row => true,
            _ => false,
        },
        None => false,
    }
}

fn corr_eligible_exec(cul1: &[ComparisonUnit], cul2: &[ComparisonUnit]) -> (r: bool)
    ensures
        r == corr_eligible(units_model(cul1@), units_model(cul2@)),
{
    if cul1.len() < 3 || cul2.len() < 3 {
        return false;
    }
    opens_window_exec(&cul1[0]) && opens_window_exec(&cul2[0])
}

/// Atom total of `cul[lo..hi]`.
fn atoms_sum(cul: &[ComparisonUnit], lo: usize, hi: usize) -> (n: usize)
    requires
        lo <= hi <= cul@.len(),
        atoms_total(units_model(cul@)) <= usize::MAX,
    ensures
        n == atoms_total(units_model(cul@).subrange(lo as int, hi as int)),
{
    let ghost c = units_model(cul@);
    proof {
        lemma_models_atoms_concat(c.take(lo as int), c.skip(lo as int));
        assert(c.take(lo as int) + c.skip(lo as int) =~= c);
        lemma_atoms_total_take(c.skip(lo as int), hi - lo);
        assert(c.skip(lo as int).take(hi - lo) =~= c.subrange(lo as int, hi as int));
    }
    let mut n: usize = 0;
    let mut i: usize = lo;
    while i < hi
        invariant
            c == units_model(cul@),
            lo <= i <= hi <= cul@.len(),
            atoms_total(c.subrange(lo as int, hi as int)) <= usize::MAX,
            n == atoms_total(c.subrange(lo as int, i as int)),
        decreases hi - i,
    {
        proof {
            lemma_models_atoms_step(c.subrange(lo as int, hi as int), i - lo);
            assert(c.subrange(lo as int, hi as int).take(i - lo) =~= c.subrange(lo as int, i as int));
            assert(c.subrange(lo as int, hi as int).take(i - lo + 1) =~= c.subrange(
                lo as int,
                i + 1,
            ));
            lemma_atoms_total_take(c.subrange(lo as int, hi as int), i - lo + 1);
        }
        let k = cul[i].descendant_content_atoms_count();
        n = n + k;
        i = i + 1;
    }
    n
}

/// The size gate on a correlated run of `best_len` groups.
pub fn correlated_hash_run_threshold(
    cul1: &[ComparisonUnit],
    cul2: &[ComparisonUnit],
    bi1: usize,
    bi2: usize,
    best_len: usize,
) -> (r: bool)
    requires
        1 <= best_len <= 3 ==> bi1 + best_len <= cul1@.len() && bi2 + best_len <= cul2@.len(),
        atoms_total(units_model(cul1@)) <= usize::MAX,
        atoms_total(units_model(cul2@)) <= usize::MAX,
    ensures
        r == corr_threshold(
            units_model(cul1@),
            units_model(cul2@),
            bi1 as int,
            bi2 as int,
            best_len as nat,
        ),
{
    let ghost c1 = units_model(cul1@);
    let ghost c2 = units_model(cul2@);
    let _n1 = cul1.len();
    let _n2 = cul2.len();
    if best_len == 1 {
        proof {
            assert(c1.subrange(bi1 as int, bi1 + 1) =~= seq![c1[bi1 as int]]);
            assert(c2.subrange(bi2 as int, bi2 + 1) =~= seq![c2[bi2 as int]]);
        }
        let s1 = atoms_sum(cul1, bi1, bi1 + 1);
        let s2 = atoms_sum(cul2, bi2, bi2 + 1);
        proof {
            assert(seq![c1[bi1 as int]] =~= Seq::<UnitModel>::empty().push(c1[bi1 as int]));
            lemma_models_atoms_push(Seq::<UnitModel>::empty(), c1[bi1 as int]);
            assert(seq![c2[bi2 as int]] =~= Seq::<UnitModel>::empty().push(c2[bi2 as int]));
            lemma_models_atoms_push(Seq::<UnitModel>::empty(), c2[bi2 as int]);
            assert(models_atoms(Seq::<UnitModel>::empty()) =~= Seq::<AtomModel>::empty());
        }
        s1 > 16 && s2 > 16
    } else if best_len == 2 || best_len == 3 {
        let s1 = atoms_sum(cul1, bi1, bi1 + best_len);
        let s2 = atoms_sum(cul2, bi2, bi2 + best_len);
        s1 > 32 && s2 > 32
    } else {
        best_len > 3
    }
}

} // verus!

verus! {

/// Weighs every start pair in row-major order and keeps the first heaviest.
fn heaviest_run_scan(cul1: &[ComparisonUnit], cul2: &[ComparisonUnit]) -> (r: (
    usize,
    usize,
    usize,
    usize,
))
    requires
        atoms_total(units_model(cul1@)) <= usize::MAX,
    ensures
        corr_search_inv(
            units_model(cul1@),
            units_model(cul2@),
            cul1@.len() as int,
            0,
            r.0 as nat,
            r.1 as nat,
            r.2 as int,
            r.3 as int,
        ),
{
    let ghost c1 = units_model(cul1@);
    let ghost c2 = units_model(cul2@);
    let mut best_len: usize = 0;
    let mut best_atoms: usize = 0;
    let mut bi1: usize = 0;
    let mut bi2: usize = 0;
    let mut i1: usize = 0;
    while i1 < cul1.len()
        invariant
            c1 == units_model(cul1@),
            c2 == units_model(cul2@),
            atoms_total(c1) <= usize::MAX,
            i1 <= cul1@.len(),
            corr_search_inv(
                c1,
                c2,
                i1 as int,
                0,
                best_len as nat,
                best_atoms as nat,
                bi1 as int,
                bi2 as int,
            ),
        decreases cul1@.len() - i1,
    {
        let mut i2: usize = 0;
        while i2 < cul2.len()
            invariant
                c1 == units_model(cul1@),
                c2 == units_model(cul2@),
                atoms_total(c1) <= usize::MAX,
                i1 < cul1@.len(),
                i2 <= cul2@.len(),
                corr_search_inv(
                    c1,
                    c2,
                    i1 as int,
                    i2 as int,
                    best_len as nat,
                    best_atoms as nat,
                    bi1 as int,
                    bi2 as int,
                ),
            decreases cul2@.len() - i2,
        {
            let (len, atoms) = extend_corr_run(cul1, cul2, i1, i2);
            proof {
                lemma_search_visit(
                    c1,
                    c2,
                    i1 as int,
                    i2 as int,
                    best_len as nat,
                    best_atoms as nat,
                    bi1 as int,
                    bi2 as int,
                );
            }
            if atoms > best_atoms {
                best_len = len;
                best_atoms = atoms;
                bi1 = i1;
                bi2 = i2;
            }
            i2 = i2 + 1;
        }
        proof {
            lemma_search_row_end(
                c1,
                c2,
                i1 as int,
                best_len as nat,
                best_atoms as nat,
                bi1 as int,
                bi2 as int,
            );
        }
        i1 = i1 + 1;
    }
    (best_len, best_atoms, bi1, bi2)
}

/// Applies the size gate to a completed search.
fn finish_corr_run(
    cul1: &[ComparisonUnit],
    cul2: &[ComparisonUnit],
    found: (usize, usize, usize, usize),
) -> (r: Option<CorrelatedHashRun>)
    requires
        atoms_total(units_model(cul1@)) <= usize::MAX,
        atoms_total(units_model(cul2@)) <= usize::MAX,
        corr_eligible(units_model(cul1@), units_model(cul2@)),
        corr_search_inv(
            units_model(cul1@),
            units_model(cul2@),
            cul1@.len() as int,
            0,
            found.0 as nat,
            found.1 as nat,
            found.2 as int,
            found.3 as int,
        ),
    ensures
        run_view(r) == correlated_run_spec(units_model(cul1@), units_model(cul2@)),
{
    let ghost c1 = units_model(cul1@);
    let ghost c2 = units_model(cul2@);
    let (best_len, best_atoms, bi1, bi2) = found;
    proof {
        lemma_search_result(
            c1,
            c2,
            best_len as nat,
            best_atoms as nat,
            bi1 as int,
            bi2 as int,
        );
    }
    if best_atoms == 0 {
        return None;
    }
    proof {
        lemma_corr_bounds(c1, c2, bi1 as int, bi2 as int);
    }
    if correlated_hash_run_threshold(cul1, cul2, bi1, bi2, best_len) {
        Some(CorrelatedHashRun { left_start: bi1, right_start: bi2, len: best_len })
    } else {
        None
    }
}

/// Row-major scan for the correlated run: the first start pair whose run of
/// same-type groups with equal projection hashes holds the most atoms,
/// subject to the size gate; `None` declines.
pub fn correlated_hash_run_scan(unknown: &CorrelatedSequence) -> (r: Option<CorrelatedHashRun>)
    requires
        atoms_total(units_model(side_units(unknown.com_units_1))) <= usize::MAX,
        atoms_total(units_model(side_units(unknown.com_units_2))) <= usize::MAX,
    ensures
        run_view(r) == correlated_run_spec(
            units_model(side_units(unknown.com_units_1)),
            units_model(side_units(unknown.com_units_2)),
        ),
{
    let cul1 = side(&unknown.com_units_1);
    let cul2 = side(&unknown.com_units_2);
    if !corr_eligible_exec(cul1, cul2) {
        return None;
    }
    let found = heaviest_run_scan(cul1, cul2);
    finish_corr_run(cul1, cul2, found)
}

/// The projection hash that indexes a unit (groups only).
pub open spec fn corr_key(u: UnitModel) -> Option<Seq<char>> {
    if u is Group {
        u->Group_correlated
    } else {
        None
    }
}

/// Ascending positions below `m` of `c2` whose projection hash is `h`.
pub open spec fn positions_of(c2: Seq<UnitModel>, h: Seq<char>, m: int) -> Seq<usize>
    decreases m,
{
    if m <= 0 {
        seq![]
    } else {
        positions_of(c2, h, m - 1) + if m - 1 < c2.len() && corr_key(c2[m - 1]) == Some(h) {
            seq![(m - 1) as usize]
        } else {
            Seq::<usize>::empty()
        }
    }
}

proof fn lemma_positions(c2: Seq<UnitModel>, h: Seq<char>, m: int)
    requires
        0 <= m <= c2.len(),
        c2.len() <= usize::MAX,
    ensures
        forall|k: int|
            0 <= k < positions_of(c2, h, m).len() ==> #[trigger] positions_of(c2, h, m)[k] < m
                && corr_key(c2[positions_of(c2, h, m)[k] as int]) == Some(h),
        forall|k1: int, k2: int|
            0 <= k1 < k2 < positions_of(c2, h, m).len() ==> #[trigger] positions_of(c2, h, m)[k1]
                < #[trigger] positions_of(c2, h, m)[k2],
        forall|q: int|
            0 <= q < m && corr_key(#[trigger] c2[q]) == Some(h) ==> positions_of(
                c2,
                h,
                m,
            ).contains(q as usize),
    decreases m,
{
    if m > 0 {
        lemma_positions(c2, h, m - 1);
        let p = positions_of(c2, h, m - 1);
        let pm = positions_of(c2, h, m);
        assert forall|q: int| 0 <= q < m && corr_key(#[trigger] c2[q]) == Some(h) implies pm.contains(
            q as usize,
        ) by {
            if q < m - 1 {
                let k = choose|k: int| 0 <= k < p.len() && p[k] == q as usize;
                assert(pm[k] == q as usize);
            } else {
                assert(pm[p.len() as int] == q as usize);
            }
        }
    }
}

/// Positions of the revised side indexed by projection hash.
fn index_by_correlated_hash(cul2: &[ComparisonUnit]) -> (index: StringHashMap<Vec<usize>>)
    ensures
        forall|h: Seq<char>|
            #![trigger index@.contains_key(h)]
            (index@.contains_key(h) ==> index@[h]@ == positions_of(
                units_model(cul2@),
                h,
                cul2@.len() as int,
            )) && (!index@.contains_key(h) ==> positions_of(
                units_model(cul2@),
                h,
                cul2@.len() as int,
            ).len() == 0),
{
    let ghost c2 = units_model(cul2@);
    let mut index: StringHashMap<Vec<usize>> = StringHashMap::new();
    let mut i2: usize = 0;
    while i2 < cul2.len()
        invariant
            c2 == units_model(cul2@),
            i2 <= cul2@.len(),
            forall|h: Seq<char>|
                #![trigger index@.contains_key(h)]
                (index@.contains_key(h) ==> index@[h]@ == positions_of(c2, h, i2 as int)) && (
                !index@.contains_key(h) ==> positions_of(c2, h, i2 as int).len() == 0),
        decreases cul2@.len() - i2,
    {
        let ghost old_index = index@;
        assert(c2[i2 as int] == cul2@[i2 as int]@);
        match as_group(&cul2[i2]) {
            Some(g) => match &g.correlated_sha1_hash {
                Some(h) => {
                    let mut v: Vec<usize> = match index.get(h.as_str()) {
                        Some(existing) => copy_positions(existing),
                        None => Vec::new(),
                    };
                    v.push(i2);
                    index.insert(h.clone(), v);
                    proof {
                        assert forall|k: Seq<char>| #![trigger index@.contains_key(k)]
                            (index@.contains_key(k) ==> index@[k]@ == positions_of(c2, k, i2 + 1))
                                && (!index@.contains_key(k) ==> positions_of(c2, k, i2 + 1).len()
                                == 0) by {
                            assert(old_index.contains_key(k) ==> old_index[k]@ == positions_of(c2, k, i2 as int));
                            if k == h@ {
                                assert(positions_of(c2, k, i2 + 1) =~= positions_of(c2, k, i2 as int).push(i2));
                            } else {
                                assert(positions_of(c2, k, i2 + 1) =~= positions_of(c2, k, i2 as int));
                            }
                        }
                    }
                },
                None => {
                    proof {
                        assert forall|k: Seq<char>| #![trigger index@.contains_key(k)]
                            (index@.contains_key(k) ==> index@[k]@ == positions_of(c2, k, i2 + 1))
                                && (!index@.contains_key(k) ==> positions_of(c2, k, i2 + 1).len()
                                == 0) by {
                            assert(positions_of(c2, k, i2 + 1) =~= positions_of(c2, k, i2 as int));
                        }
                    }
                },
            },
            None => {
                proof {
                    assert forall|k: Seq<char>| #![trigger index@.contains_key(k)]
                        (index@.contains_key(k) ==> index@[k]@ == positions_of(c2, k, i2 + 1)) && (
                        !index@.contains_key(k) ==> positions_of(c2, k, i2 + 1).len() == 0) by {
                        assert(positions_of(c2, k, i2 + 1) =~= positions_of(c2, k, i2 as int));
                    }
                }
            },
        }
        i2 = i2 + 1;
    }
    index
}

fn copy_positions(v: &Vec<usize>) -> (r: Vec<usize>)
    ensures
        r@ == v@,
{
    let mut r: Vec<usize> = Vec::new();
    let mut i: usize = 0;
    while i < v.len()
        invariant
            i <= v@.len(),
            r@ == v@.take(i as int),
        decreases v@.len() - i,
    {
        r.push(v[i]);
        i = i + 1;
    }
    assert(v@.take(v@.len() as int) =~= v@);
    r
}

proof fn lemma_runs_only_at_positions(
    c1: Seq<UnitModel>,
    c2: Seq<UnitModel>,
    i1: int,
    h: Seq<char>,
    q: int,
)
    requires
        0 <= i1 < c1.len(),
        0 <= q < c2.len(),
        c2.len() <= usize::MAX,
        corr_key(c1[i1]) == Some(h) || corr_key(c1[i1]) is None,
        corr_atoms(c1, c2, i1, q) > 0,
    ensures
        corr_key(c1[i1]) == Some(h),
        positions_of(c2, h, c2.len() as int).contains(q as usize),
{
    lemma_positions(c2, h, c2.len() as int);
}

/// Hash-indexed search for the correlated run: only start pairs whose
/// revised-side group carries the original group's projection hash are
/// weighed. Selects exactly the run of [`correlated_hash_run_scan`].
pub fn correlated_hash_run_indexed(unknown: &CorrelatedSequence) -> (r: Option<CorrelatedHashRun>)
    requires
        atoms_total(units_model(side_units(unknown.com_units_1))) <= usize::MAX,
        atoms_total(units_model(side_units(unknown.com_units_2))) <= usize::MAX,
    ensures
        run_view(r) == correlated_run_spec(
            units_model(side_units(unknown.com_units_1)),
            units_model(side_units(unknown.com_units_2)),
        ),
{
    let cul1 = side(&unknown.com_units_1);
    let cul2 = side(&unknown.com_units_2);
    if !corr_eligible_exec(cul1, cul2) {
        return None;
    }
    let ghost c1 = units_model(cul1@);
    let ghost c2 = units_model(cul2@);
    let n2 = cul2.len();
    let index = index_by_correlated_hash(cul2);
    let mut best_len: usize = 0;
    let mut best_atoms: usize = 0;
    let mut bi1: usize = 0;
    let mut bi2: usize = 0;
    let mut i1: usize = 0;
    while i1 < cul1.len()
        invariant
            c1 == units_model(cul1@),
            c2 == units_model(cul2@),
            n2 == cul2@.len(),
            atoms_total(c1) <= usize::MAX,
            i1 <= cul1@.len(),
            forall|h: Seq<char>|
                #![trigger index@.contains_key(h)]
                (index@.contains_key(h) ==> index@[h]@ == positions_of(c2, h, c2.len() as int)) && (
                !index@.contains_key(h) ==> positions_of(c2, h, c2.len() as int).len() == 0),
            corr_search_inv(
                c1,
                c2,
                i1 as int,
                0,
                best_len as nat,
                best_atoms as nat,
                bi1 as int,
                bi2 as int,
            ),
        decreases cul1@.len() - i1,
    {
        assert(c1[i1 as int] == cul1@[i1 as int]@);
        let key: Option<&String> = match as_group(&cul1[i1]) {
            Some(g) => match &g.correlated_sha1_hash {
                Some(h) => Some(h),
                None => None,
            },
            None => None,
        };
        let positions: Option<&Vec<usize>> = match key {
            Some(h) => index.get(h.as_str()),
            None => None,
        };
        match positions {
            None => {
                proof {
                    assert forall|q: int| 0 <= q < n2 implies #[trigger] corr_atoms(
                        c1,
                        c2,
                        i1 as int,
                        q,
                    ) == 0 by {
                        if corr_atoms(c1, c2, i1 as int, q) > 0 {
                            let h = corr_key(c1[i1 as int]).unwrap();
                            lemma_runs_only_at_positions(c1, c2, i1 as int, h, q);
                            assert(index@.contains_key(h) || !index@.contains_key(h));
                        }
                    }
                    lemma_search_skip(
                        c1,
                        c2,
                        i1 as int,
                        0,
                        n2 as int,
                        best_len as nat,
                        best_atoms as nat,
                        bi1 as int,
                        bi2 as int,
                    );
                }
            },
            Some(pos) => {
                let ghost h = key.unwrap()@;
                let ghost p = pos@;
                proof {
                    assert(index@.contains_key(h));
                    lemma_positions(c2, h, c2.len() as int);
                    let first = if p.len() > 0 { p[0] as int } else { n2 as int };
                    assert forall|q: int| 0 <= q < first implies #[trigger] corr_atoms(
                        c1,
                        c2,
                        i1 as int,
                        q,
                    ) == 0 by {
                        if corr_atoms(c1, c2, i1 as int, q) > 0 {
                            lemma_runs_only_at_positions(c1, c2, i1 as int, h, q);
                            let k = choose|k: int| 0 <= k < p.len() && p[k] == q as usize;
                            if k > 0 {
                                assert(p[0] < p[k]);
                            }
                        }
                    }
                    lemma_search_skip(
                        c1,
                        c2,
                        i1 as int,
                        0,
                        first,
                        best_len as nat,
                        best_atoms as nat,
                        bi1 as int,
                        bi2 as int,
                    );
                }
                let mut k: usize = 0;
                while k < pos.len()
                    invariant
                        c1 == units_model(cul1@),
                        c2 == units_model(cul2@),
                        n2 == cul2@.len(),
                        atoms_total(c1) <= usize::MAX,
                        i1 < cul1@.len(),
                        p == pos@,
                        p == positions_of(c2, h, c2.len() as int),
                        corr_key(c1[i1 as int]) == Some(h),
                        k <= p.len(),
                        corr_search_inv(
                            c1,
                            c2,
                            i1 as int,
                            if k < p.len() {
                                p[k as int] as int
                            } else {
                                n2 as int
                            },
                            best_len as nat,
                            best_atoms as nat,
                            bi1 as int,
                            bi2 as int,
                        ),
                    decreases p.len() - k,
                {
                    let i2 = pos[k];
                    proof {
                        lemma_positions(c2, h, c2.len() as int);
                        lemma_search_visit(
                            c1,
                            c2,
                            i1 as int,
                            i2 as int,
                            best_len as nat,
                            best_atoms as nat,
                            bi1 as int,
                            bi2 as int,
                        );
                    }
                    let (len, atoms) = extend_corr_run(cul1, cul2, i1, i2);
                    if atoms > best_atoms {
                        best_len = len;
                        best_atoms = atoms;
                        bi1 = i1;
                        bi2 = i2;
                    }
                    proof {
                        let next = if k + 1 < p.len() { p[k + 1] as int } else { n2 as int };
                        assert forall|q: int| i2 + 1 <= q < next implies #[trigger] corr_atoms(
                            c1,
                            c2,
                            i1 as int,
                            q,
                        ) == 0 by {
                            if corr_atoms(c1, c2, i1 as int, q) > 0 {
                                lemma_runs_only_at_positions(c1, c2, i1 as int, h, q);
                                let j = choose|j: int| 0 <= j < p.len() && p[j] == q as usize;
                                if j <= k {
                                    if j < k {
                                        assert(p[j] < p[k as int]);
                                    }
                                } else if j > k + 1 {
                                    assert(p[k + 1] < p[j]);
                                }
                            }
                        }
                        lemma_search_skip(
                            c1,
                            c2,
                            i1 as int,
                            i2 + 1,
                            next,
                            best_len as nat,
                            best_atoms as nat,
                            bi1 as int,
                            bi2 as int,
                        );
                    }
                    k = k + 1;
                }
            },
        }
        proof {
            lemma_search_row_end(
                c1,
                c2,
                i1 as int,
                best_len as nat,
                best_atoms as nat,
                bi1 as int,
                bi2 as int,
            );
        }
        i1 = i1 + 1;
    }
    finish_corr_run(cul1, cul2, (best_len, best_atoms, bi1, bi2))
}

/// The correlated run used by the comparison (the indexed search).
pub fn correlated_hash_run(unknown: &CorrelatedSequence) -> (r: Option<CorrelatedHashRun>)
    requires
        atoms_total(units_model(side_units(unknown.com_units_1))) <= usize::MAX,
        atoms_total(units_model(side_units(unknown.com_units_2))) <= usize::MAX,
    ensures
        run_view(r) == correlated_run_spec(
            units_model(side_units(unknown.com_units_1)),
            units_model(side_units(unknown.com_units_2)),
        ),
{
    correlated_hash_run_indexed(unknown)
}

} // verus!

verus! {

/// The four-way cascade for a pair of regions: both non-empty gives an
/// `Unknown` pair, one side alone a `Deleted` or `Inserted` sequence, and two
/// empty regions nothing.
pub open spec fn cascade_spec(l: Seq<UnitModel>, r: Seq<UnitModel>) -> Seq<SequenceModel> {
    if l.len() > 0 && r.len() > 0 {
        seq![SequenceModel { status: CorrelationStatus::Unknown, units1: Some(l), units2: Some(r) }]
    } else if l.len() > 0 {
        seq![SequenceModel { status: CorrelationStatus::Deleted, units1: Some(l), units2: None }]
    } else if r.len() > 0 {
        seq![SequenceModel { status: CorrelationStatus::Inserted, units1: None, units2: Some(r) }]
    } else {
        seq![]
    }
}

/// The split of a correlated run: the regions before the run, one `Unknown`
/// pair per matched group, then the regions after the run.
pub open spec fn correlated_split(
    c1: Seq<UnitModel>,
    c2: Seq<UnitModel>,
    i: int,
    j: int,
    n: nat,
) -> Seq<SequenceModel> {
    cascade_spec(c1.take(i), c2.take(j)) + Seq::new(
        n,
        |k: int|
            SequenceModel {
                status: CorrelationStatus::Unknown,
                units1: Some(seq![c1[i + k]]),
                units2: Some(seq![c2[j + k]]),
            },
    ) + cascade_spec(c1.skip(i + n), c2.skip(j + n))
}

/// Pushes the cascade of `left` against `right`.
pub fn cascade(left: Vec<ComparisonUnit>, right: Vec<ComparisonUnit>, out: &mut Vec<
    CorrelatedSequence,
>)
    ensures
        sequences_model(final(out)@) == sequences_model(old(out)@) + cascade_spec(
            units_model(left@),
            units_model(right@),
        ),
{
    let ghost prev = out@;
    let ghost l = units_model(left@);
    let ghost r = units_model(right@);
    let le = left.len() == 0;
    let re = right.len() == 0;
    if !le && re {
        out.push(CorrelatedSequence::deleted(left));
    } else if le && !re {
        out.push(CorrelatedSequence::inserted(right));
    } else if !le && !re {
        out.push(CorrelatedSequence::paired(CorrelationStatus::Unknown, left, right));
    }
    assert(sequences_model(out@) =~= sequences_model(prev) + cascade_spec(l, r));
}

proof fn lemma_run_spec_bounds(c1: Seq<UnitModel>, c2: Seq<UnitModel>)
    requires
        correlated_run_spec(c1, c2) is Some,
    ensures
        ({
            let (i, j, n) = correlated_run_spec(c1, c2).unwrap();
            0 <= i && 0 <= j && i + n <= c1.len() && j + n <= c2.len()
        }),
{
    let (i, j) = choose|i: int, j: int| is_first_heaviest(c1, c2, i, j);
    lemma_corr_bounds(c1, c2, i, j);
}

/// What resolving an unresolved pair by projection hash gives: the split
/// around the selected run, or none when no run is selected.
pub open spec fn correlated_resolution(unknown: CorrelatedSequence) -> Option<Seq<SequenceModel>> {
    let c1 = units_model(side_units(unknown.com_units_1));
    let c2 = units_model(side_units(unknown.com_units_2));
    match correlated_run_spec(c1, c2) {
        Some(run) => Some(correlated_split(c1, c2, run.0, run.1, run.2)),
        None => None,
    }
}

/// Pre-correlates runs of paragraph, table and row groups by projection hash:
/// the selected run is split into one `Unknown` pair per group, between the
/// cascades of the regions before and after it. `None` declines.
pub fn process_correlated_hashes(unknown: &CorrelatedSequence) -> (r: Option<
    Vec<CorrelatedSequence>,
>)
    requires
        atoms_total(units_model(side_units(unknown.com_units_1))) <= usize::MAX,
        atoms_total(units_model(side_units(unknown.com_units_2))) <= usize::MAX,
    ensures
        match r {
            None => correlated_resolution(*unknown) is None,
            Some(out) => correlated_resolution(*unknown) == Some(sequences_model(out@)),
        },
{
    let run = match correlated_hash_run(unknown) {
        Some(run) => run,
        None => return None,
    };
    let cul1 = side(&unknown.com_units_1);
    let cul2 = side(&unknown.com_units_2);
    let ghost c1 = units_model(cul1@);
    let ghost c2 = units_model(cul2@);
    proof {
        lemma_run_spec_bounds(c1, c2);
    }
    let l = run.left_start;
    let rs = run.right_start;
    let n = run.len;
    let n1 = cul1.len();
    let n2 = cul2.len();
    let mut out: Vec<CorrelatedSequence> = Vec::new();
    let before1 = copy_units(cul1, 0, l);
    let before2 = copy_units(cul2, 0, rs);
    cascade(before1, before2, &mut out);
    let ghost head = sequences_model(out@);
    assert(units_model(cul1@.subrange(0, l as int)) =~= c1.take(l as int));
    assert(units_model(cul2@.subrange(0, rs as int)) =~= c2.take(rs as int));
    let mut i: usize = 0;
    while i < n
        invariant
            c1 == units_model(cul1@),
            c2 == units_model(cul2@),
            l + n <= cul1@.len(),
            rs + n <= cul2@.len(),
            n1 == cul1@.len(),
            n2 == cul2@.len(),
            i <= n,
            sequences_model(out@) =~= head + Seq::new(
                i as nat,
                |k: int|
                    SequenceModel {
                        status: CorrelationStatus::Unknown,
                        units1: Some(seq![c1[l + k]]),
                        units2: Some(seq![c2[rs + k]]),
                    },
            ),
        decreases n - i,
    {
        let mut left: Vec<ComparisonUnit> = Vec::new();
        left.push(cul1[l + i].clone());
        let mut right: Vec<ComparisonUnit> = Vec::new();
        right.push(cul2[rs + i].clone());
        assert(units_model(left@) =~= seq![c1[l + i]]);
        assert(units_model(right@) =~= seq![c2[rs + i]]);
        let ghost prev = out@;
        out.push(CorrelatedSequence::paired(CorrelationStatus::Unknown, left, right));
        proof {
            let f = |k: int|
                SequenceModel {
                    status: CorrelationStatus::Unknown,
                    units1: Some(seq![c1[l + k]]),
                    units2: Some(seq![c2[rs + k]]),
                };
            assert(sequences_model(out@) =~= sequences_model(prev).push(out@.last()@));
            assert(Seq::new((i + 1) as nat, f) =~= Seq::new(i as nat, f).push(f(i as int)));
        }
        i = i + 1;
    }
    let after1 = copy_units(cul1, l + n, cul1.len());
    let after2 = copy_units(cul2, rs + n, cul2.len());
    assert(units_model(cul1@.subrange(l + n, cul1@.len() as int)) =~= c1.skip(l + n));
    assert(units_model(cul2@.subrange(rs + n, cul2@.len() as int)) =~= c2.skip(rs + n));
    cascade(after1, after2, &mut out);
    Some(out)
}

/// Moves the last `n` units off two vectors as `Unknown` pairs, in order.
fn pair_off(matched1: &mut Vec<ComparisonUnit>, matched2: &mut Vec<ComparisonUnit>, out: &mut Vec<
    CorrelatedSequence,
>)
    requires
        old(matched1)@.len() == old(matched2)@.len(),
    ensures
        final(matched1)@.len() == 0,
        final(matched2)@.len() == 0,
        sequences_model(final(out)@) =~= sequences_model(old(out)@) + Seq::new(
            old(matched1)@.len(),
            |k: int|
                SequenceModel {
                    status: CorrelationStatus::Unknown,
                    units1: Some(seq![old(matched1)@[k]@]),
                    units2: Some(seq![old(matched2)@[k]@]),
                },
        ),
{
    let ghost m1 = matched1@;
    let ghost m2 = matched2@;
    let ghost n = m1.len();
    let mut rev: Vec<CorrelatedSequence> = Vec::new();
    while matched1.len() > 0
        invariant
            matched1@.len() == matched2@.len(),
            matched1@.len() <= n,
            matched1@ == m1.take(matched1@.len() as int),
            matched2@ == m2.take(matched2@.len() as int),
            m1.len() == n,
            m2.len() == n,
            rev@.len() == n - matched1@.len(),
            forall|t: int|
                0 <= t < rev@.len() ==> (#[trigger] rev@[t])@ == (SequenceModel {
                    status: CorrelationStatus::Unknown,
                    units1: Some(seq![m1[n - 1 - t]@]),
                    units2: Some(seq![m2[n - 1 - t]@]),
                }),
        decreases matched1@.len(),
    {
        let a = matched1.pop().unwrap();
        let b = matched2.pop().unwrap();
        let mut left: Vec<ComparisonUnit> = Vec::new();
        left.push(a);
        let mut right: Vec<ComparisonUnit> = Vec::new();
        right.push(b);
        assert(units_model(left@) =~= seq![m1[matched1@.len() as int]@]);
        assert(units_model(right@) =~= seq![m2[matched2@.len() as int]@]);
        rev.push(CorrelatedSequence::paired(CorrelationStatus::Unknown, left, right));
        assert(matched1@ =~= m1.take(matched1@.len() as int));
        assert(matched2@ =~= m2.take(matched2@.len() as int));
    }
    let ghost prev = sequences_model(out@);
    let mut k: usize = 0;
    let total = rev.len();
    while rev.len() > 0
        invariant
            rev@.len() + k == n,
            total == n,
            forall|t: int|
                0 <= t < rev@.len() ==> (#[trigger] rev@[t])@ == (SequenceModel {
                    status: CorrelationStatus::Unknown,
                    units1: Some(seq![m1[n - 1 - t]@]),
                    units2: Some(seq![m2[n - 1 - t]@]),
                }),
            m1.len() == n,
            m2.len() == n,
            sequences_model(out@) =~= prev + Seq::new(
                k as nat,
                |j: int|
                    SequenceModel {
                        status: CorrelationStatus::Unknown,
                        units1: Some(seq![m1[j]@]),
                        units2: Some(seq![m2[j]@]),
                    },
            ),
        decreases rev@.len(),
    {
        let ghost before = out@;
        let s = rev.pop().unwrap();
        out.push(s);
        proof {
            let f = |j: int|
                SequenceModel {
                    status: CorrelationStatus::Unknown,
                    units1: Some(seq![m1[j]@]),
                    units2: Some(seq![m2[j]@]),
                };
            assert(sequences_model(out@) =~= sequences_model(before).push(out@.last()@));
            assert(Seq::new((k + 1) as nat, f) =~= Seq::new(k as nat, f).push(f(k as int)));
        }
        k = k + 1;
    }
}

/// [`process_correlated_hashes`] on an owned sequence, moving every unit into
/// the result; a decline hands the sequence back unchanged.
pub fn process_correlated_hashes_owned(unknown: CorrelatedSequence) -> (r: Result<
    Vec<CorrelatedSequence>,
    CorrelatedSequence,
>)
    requires
        atoms_total(units_model(side_units(unknown.com_units_1))) <= usize::MAX,
        atoms_total(units_model(side_units(unknown.com_units_2))) <= usize::MAX,
    ensures
        match r {
            Err(back) => correlated_resolution(unknown) is None && back == unknown,
            Ok(out) => correlated_resolution(unknown) == Some(sequences_model(out@)),
        },
{
    let run = match correlated_hash_run(&unknown) {
        Some(run) => run,
        None => return Err(unknown),
    };
    let ghost c1 = units_model(side_units(unknown.com_units_1));
    let ghost c2 = units_model(side_units(unknown.com_units_2));
    proof {
        lemma_run_spec_bounds(c1, c2);
    }
    let mut cul1: Vec<ComparisonUnit> = match unknown.com_units_1 {
        Some(v) => v,
        None => Vec::new(),
    };
    let mut cul2: Vec<ComparisonUnit> = match unknown.com_units_2 {
        Some(v) => v,
        None => Vec::new(),
    };
    assert(units_model(cul1@) == c1);
    assert(units_model(cul2@) == c2);
    let l = run.left_start;
    let rs = run.right_start;
    let n = run.len;
    let _n1 = cul1.len();
    let _n2 = cul2.len();
    let after1 = cul1.split_off(l + n);
    let mut matched1 = cul1.split_off(l);
    let after2 = cul2.split_off(rs + n);
    let mut matched2 = cul2.split_off(rs);
    assert(units_model(cul1@) =~= c1.take(l as int));
    assert(units_model(cul2@) =~= c2.take(rs as int));
    assert(units_model(after1@) =~= c1.skip(l + n));
    assert(units_model(after2@) =~= c2.skip(rs + n));
    let ghost mm1 = matched1@;
    let ghost mm2 = matched2@;
    let mut out: Vec<CorrelatedSequence> = Vec::new();
    cascade(cul1, cul2, &mut out);
    pair_off(&mut matched1, &mut matched2, &mut out);
    cascade(after1, after2, &mut out);
    proof {
        let mid = Seq::new(
            n as nat,
            |k: int|
                SequenceModel {
                    status: CorrelationStatus::Unknown,
                    units1: Some(seq![mm1[k]@]),
                    units2: Some(seq![mm2[k]@]),
                },
        );
        let want = Seq::new(
            n as nat,
            |k: int|
                SequenceModel {
                    status: CorrelationStatus::Unknown,
                    units1: Some(seq![c1[l + k]]),
                    units2: Some(seq![c2[rs + k]]),
                },
        );
        assert forall|k: int| 0 <= k < n implies mid[k] == want[k] by {
            assert(mm1[k]@ == c1[l + k]);
            assert(mm2[k]@ == c2[rs + k]);
        }
        assert(mid =~= want);
    }
    Ok(out)
}

} // verus!

verus! {

/// The original-side units of a list of sequences, in order.
pub open spec fn left_units(s: Seq<SequenceModel>) -> Seq<UnitModel>
    decreases s.len(),
{
    if s.len() == 0 {
        seq![]
    } else {
        left_units(s.drop_last()) + match s.last().units1 {
            Some(u) => u,
            None => Seq::<UnitModel>::empty(),
        }
    }
}

/// The revised-side units of a list of sequences, in order.
pub open spec fn right_units(s: Seq<SequenceModel>) -> Seq<UnitModel>
    decreases s.len(),
{
    if s.len() == 0 {
        seq![]
    } else {
        right_units(s.drop_last()) + match s.last().units2 {
            Some(u) => u,
            None => Seq::<UnitModel>::empty(),
        }
    }
}

proof fn lemma_sides_concat(x: Seq<SequenceModel>, y: Seq<SequenceModel>)
    ensures
        left_units(x + y) == left_units(x) + left_units(y),
        right_units(x + y) == right_units(x) + right_units(y),
    decreases y.len(),
{
    if y.len() == 0 {
        assert(x + y =~= x);
        assert(left_units(x) + left_units(y) =~= left_units(x));
        assert(right_units(x) + right_units(y) =~= right_units(x));
    } else {
        lemma_sides_concat(x, y.drop_last());
        assert((x + y).drop_last() =~= x + y.drop_last());
        let el = match y.last().units1 {
            Some(u) => u,
            None => Seq::<UnitModel>::empty(),
        };
        let er = match y.last().units2 {
            Some(u) => u,
            None => Seq::<UnitModel>::empty(),
        };
        assert(left_units(x) + left_units(y.drop_last()) + el =~= left_units(x) + (left_units(
            y.drop_last(),
        ) + el));
        assert(right_units(x) + right_units(y.drop_last()) + er =~= right_units(x) + (
        right_units(y.drop_last()) + er));
    }
}

proof fn lemma_cascade_sides(l: Seq<UnitModel>, r: Seq<UnitModel>)
    ensures
        left_units(cascade_spec(l, r)) == l,
        right_units(cascade_spec(l, r)) == r,
{
    let c = cascade_spec(l, r);
    let e = Seq::<SequenceModel>::empty();
    assert(left_units(e) =~= Seq::<UnitModel>::empty());
    assert(right_units(e) =~= Seq::<UnitModel>::empty());
    if c.len() > 0 {
        assert(c.drop_last() =~= e);
        assert(left_units(c) == left_units(e) + match c.last().units1 {
            Some(u) => u,
            None => Seq::<UnitModel>::empty(),
        });
    }
    assert(left_units(c) =~= l);
    assert(right_units(c) =~= r);
}

proof fn lemma_pairs_sides(c1: Seq<UnitModel>, c2: Seq<UnitModel>, i: int, j: int, n: nat)
    requires
        0 <= i,
        0 <= j,
        i + n <= c1.len(),
        j + n <= c2.len(),
    ensures
        ({
            let mid = Seq::new(
                n,
                |k: int|
                    SequenceModel {
                        status: CorrelationStatus::Unknown,
                        units1: Some(seq![c1[i + k]]),
                        units2: Some(seq![c2[j + k]]),
                    },
            );
            left_units(mid) == c1.subrange(i, i + n) && right_units(mid) == c2.subrange(j, j + n)
        }),
    decreases n,
{
    let mid = Seq::new(
        n,
        |k: int|
            SequenceModel {
                status: CorrelationStatus::Unknown,
                units1: Some(seq![c1[i + k]]),
                units2: Some(seq![c2[j + k]]),
            },
    );
    if n == 0 {
        assert(left_units(mid) =~= c1.subrange(i, i + n));
        assert(right_units(mid) =~= c2.subrange(j, j + n));
    } else {
        lemma_pairs_sides(c1, c2, i, j, (n - 1) as nat);
        let prev = Seq::new(
            (n - 1) as nat,
            |k: int|
                SequenceModel {
                    status: CorrelationStatus::Unknown,
                    units1: Some(seq![c1[i + k]]),
                    units2: Some(seq![c2[j + k]]),
                },
        );
        assert(mid.drop_last() =~= prev);
        assert(c1.subrange(i, i + n - 1) + seq![c1[i + n - 1]] =~= c1.subrange(i, i + n));
        assert(c2.subrange(j, j + n - 1) + seq![c2[j + n - 1]] =~= c2.subrange(j, j + n));
    }
}

/// Splitting on a correlated run keeps every unit of both sides, in order:
/// the original-side units of the split read back as `c1` and the
/// revised-side units as `c2`.
pub proof fn lemma_correlated_split_keeps_units(
    c1: Seq<UnitModel>,
    c2: Seq<UnitModel>,
    i: int,
    j: int,
    n: nat,
)
    requires
        0 <= i,
        0 <= j,
        i + n <= c1.len(),
        j + n <= c2.len(),
    ensures
        left_units(correlated_split(c1, c2, i, j, n)) == c1,
        right_units(correlated_split(c1, c2, i, j, n)) == c2,
{
    let a = cascade_spec(c1.take(i), c2.take(j));
    let mid = Seq::new(
        n,
        |k: int|
            SequenceModel {
                status: CorrelationStatus::Unknown,
                units1: Some(seq![c1[i + k]]),
                units2: Some(seq![c2[j + k]]),
            },
    );
    let b = cascade_spec(c1.skip(i + n), c2.skip(j + n));
    lemma_cascade_sides(c1.take(i), c2.take(j));
    lemma_cascade_sides(c1.skip(i + n), c2.skip(j + n));
    lemma_pairs_sides(c1, c2, i, j, n);
    lemma_sides_concat(a, mid);
    lemma_sides_concat(a + mid, b);
    assert(c1.take(i) + c1.subrange(i, i + n) + c1.skip(i + n) =~= c1);
    assert(c2.take(j) + c2.subrange(j, j + n) + c2.skip(j + n) =~= c2);
}

} // verus!

verus! {

// ── longest common run of comparison units ─────────────────────────────────

/// Length of the run of equal unit hashes starting at `c1[i]` and `c2[j]`.
pub open spec fn unit_common_len(c1: Seq<UnitModel>, c2: Seq<UnitModel>, i: int, j: int) -> nat
    decreases c1.len() - i,
{
    if 0 <= i < c1.len() && 0 <= j < c2.len() && c1[i].sha1() == c2[j].sha1() {
        1 + unit_common_len(c1, c2, i + 1, j + 1)
    } else {
        0
    }
}

/// `(i, j)` starts a longest run of equal unit hashes, and no pair before it
/// in row-major order starts one as long.
pub open spec fn is_first_longest_unit_run(
    c1: Seq<UnitModel>,
    c2: Seq<UnitModel>,
    i: int,
    j: int,
) -> bool {
    &&& 0 <= i < c1.len()
    &&& 0 <= j < c2.len()
    &&& unit_common_len(c1, c2, i, j) > 0
    &&& forall|p: int, q: int|
        0 <= p < c1.len() && 0 <= q < c2.len() ==> #[trigger] unit_common_len(c1, c2, p, q)
            <= unit_common_len(c1, c2, i, j)
    &&& forall|p: int, q: int|
        0 <= p < c1.len() && 0 <= q < c2.len() && lex_before(p, q, i, j)
            ==> #[trigger] unit_common_len(c1, c2, p, q) < unit_common_len(c1, c2, i, j)
}

/// The first longest common run of unit hashes as `(start in c1, start in c2,
/// length)`, or `(0, 0, 0)` when the two share no hash.
pub open spec fn longest_unit_run_spec(c1: Seq<UnitModel>, c2: Seq<UnitModel>) -> (int, int, nat) {
    if exists|i: int, j: int| is_first_longest_unit_run(c1, c2, i, j) {
        let (i, j) = choose|i: int, j: int| is_first_longest_unit_run(c1, c2, i, j);
        (i, j, unit_common_len(c1, c2, i, j))
    } else {
        (0, 0, 0)
    }
}

pub proof fn lemma_unit_run_bound(c1: Seq<UnitModel>, c2: Seq<UnitModel>, i: int, j: int)
    requires
        0 <= i <= c1.len(),
        0 <= j,
    ensures
        i + unit_common_len(c1, c2, i, j) <= c1.len(),
        j < c2.len() ==> j + unit_common_len(c1, c2, i, j) <= c2.len(),
    decreases c1.len() - i,
{
    if 0 <= i < c1.len() && 0 <= j < c2.len() && c1[i].sha1() == c2[j].sha1() {
        lemma_unit_run_bound(c1, c2, i + 1, j + 1);
    }
}

/// Length of the common run of unit hashes starting at `(i1, i2)`.
pub fn extend_common_run(cul1: &[ComparisonUnit], cul2: &[ComparisonUnit], i1: usize, i2: usize) -> (r:
    usize)
    requires
        i1 <= cul1@.len(),
    ensures
        r == unit_common_len(units_model(cul1@), units_model(cul2@), i1 as int, i2 as int),
{
    let ghost c1 = units_model(cul1@);
    let ghost c2 = units_model(cul2@);
    let mut t1 = i1;
    let mut t2 = i2;
    let mut len: usize = 0;
    proof {
        lemma_unit_run_bound(c1, c2, i1 as int, i2 as int);
    }
    while t1 < cul1.len() && t2 < cul2.len() && str_eq(cul1[t1].sha1(), cul2[t2].sha1())
        invariant
            c1 == units_model(cul1@),
            c2 == units_model(cul2@),
            i1 <= t1 <= cul1@.len(),
            t1 == i1 + len,
            t2 == i2 + len,
            unit_common_len(c1, c2, i1 as int, i2 as int) == len + unit_common_len(
                c1,
                c2,
                t1 as int,
                t2 as int,
            ),
        decreases cul1@.len() - t1,
    {
        assert(c1[t1 as int] == cul1@[t1 as int]@ && c2[t2 as int] == cul2@[t2 as int]@);
        t1 = t1 + 1;
        t2 = t2 + 1;
        len = len + 1;
    }
    len
}

/// Keeps the first candidate maximising `(content, len)`: a candidate replaces
/// the incumbent only when strictly better.
pub fn consider_candidate(best: &mut Option<(usize, usize, usize, usize)>, cand: (
    usize,
    usize,
    usize,
    usize,
))
    ensures
        *final(best) == match *old(best) {
            None => Some(cand),
            Some(b) => if cand.0 > b.0 || (cand.0 == b.0 && cand.1 > b.1) {
                Some(cand)
            } else {
                Some(b)
            },
        },
{
    let better = match best {
        None => true,
        Some(b) => cand.0 > b.0 || (cand.0 == b.0 && cand.1 > b.1),
    };
    if better {
        *best = Some(cand);
    }
}

pub proof fn lemma_first_longest_unit_unique(c1: Seq<UnitModel>, c2: Seq<UnitModel>, i: int, j: int)
    requires
        is_first_longest_unit_run(c1, c2, i, j),
    ensures
        longest_unit_run_spec(c1, c2) == (i, j, unit_common_len(c1, c2, i, j)),
{
    let (x, y) = choose|x: int, y: int| is_first_longest_unit_run(c1, c2, x, y);
    assert(is_first_longest_unit_run(c1, c2, x, y));
    assert(unit_common_len(c1, c2, x, y) <= unit_common_len(c1, c2, i, j));
    assert(unit_common_len(c1, c2, i, j) <= unit_common_len(c1, c2, x, y));
    if lex_before(x, y, i, j) {
        assert(unit_common_len(c1, c2, x, y) < unit_common_len(c1, c2, i, j));
    }
    if lex_before(i, j, x, y) {
        assert(unit_common_len(c1, c2, i, j) < unit_common_len(c1, c2, x, y));
    }
}

proof fn lemma_no_unit_run(c1: Seq<UnitModel>, c2: Seq<UnitModel>)
    requires
        forall|p: int, q: int|
            0 <= p < c1.len() && 0 <= q < c2.len() ==> #[trigger] unit_common_len(c1, c2, p, q)
                == 0,
    ensures
        longest_unit_run_spec(c1, c2) == (0int, 0int, 0nat),
{
    if exists|i: int, j: int| is_first_longest_unit_run(c1, c2, i, j) {
        let (x, y) = choose|x: int, y: int| is_first_longest_unit_run(c1, c2, x, y);
        assert(unit_common_len(c1, c2, x, y) == 0);
    }
}

/// The first longest common run of unit hashes, as `(start in cul1, start in
/// cul2, length)`; `(0, 0, 0)` when the two sequences share no hash. Ties keep
/// the earliest start in row-major order.
pub fn longest_common_run(cul1: &[ComparisonUnit], cul2: &[ComparisonUnit]) -> (r: (
    usize,
    usize,
    usize,
))
    ensures
        (r.0 as int, r.1 as int, r.2 as nat) == longest_unit_run_spec(
            units_model(cul1@),
            units_model(cul2@),
        ),
{
    let ghost c1 = units_model(cul1@);
    let ghost c2 = units_model(cul2@);
    let mut best: Option<(usize, usize, usize, usize)> = None;
    let mut i1: usize = 0;
    while i1 < cul1.len()
        invariant
            c1 == units_model(cul1@),
            c2 == units_model(cul2@),
            i1 <= cul1@.len(),
            forall|p: int, q: int|
                0 <= p < i1 && 0 <= q < c2.len() ==> #[trigger] unit_common_len(c1, c2, p, q)
                    <= match best {
                    None => 0,
                    Some(b) => b.1 as int,
                },
            match best {
                None => true,
                Some(b) => {
                    &&& b.0 == b.1
                    &&& b.2 < i1
                    &&& b.3 < c2.len()
                    &&& unit_common_len(c1, c2, b.2 as int, b.3 as int) == b.1
                    &&& b.1 > 0
                    &&& forall|p: int, q: int|
                        0 <= p < c1.len() && 0 <= q < c2.len() && lex_before(
                            p,
                            q,
                            b.2 as int,
                            b.3 as int,
                        ) ==> #[trigger] unit_common_len(c1, c2, p, q) < b.1
                },
            },
        decreases cul1@.len() - i1,
    {
        let mut i2: usize = 0;
        while i2 < cul2.len()
            invariant
                c1 == units_model(cul1@),
                c2 == units_model(cul2@),
                i1 < cul1@.len(),
                i2 <= cul2@.len(),
                forall|p: int, q: int|
                    0 <= p < c1.len() && 0 <= q < c2.len() && lex_before(p, q, i1 as int, i2 as int)
                        ==> #[trigger] unit_common_len(c1, c2, p, q) <= match best {
                        None => 0,
                        Some(b) => b.1 as int,
                    },
                match best {
                    None => true,
                    Some(b) => {
                        &&& b.0 == b.1
                        &&& lex_before(b.2 as int, b.3 as int, i1 as int, i2 as int)
                        &&& b.3 < c2.len()
                        &&& unit_common_len(c1, c2, b.2 as int, b.3 as int) == b.1
                        &&& b.1 > 0
                        &&& forall|p: int, q: int|
                            0 <= p < c1.len() && 0 <= q < c2.len() && lex_before(
                                p,
                                q,
                                b.2 as int,
                                b.3 as int,
                            ) ==> #[trigger] unit_common_len(c1, c2, p, q) < b.1
                    },
                },
            decreases cul2@.len() - i2,
        {
            let len = extend_common_run(cul1, cul2, i1, i2);
            if len > 0 {
                consider_candidate(&mut best, (len, len, i1, i2));
            }
            i2 = i2 + 1;
        }
        i1 = i1 + 1;
    }
    match best {
        None => {
            proof {
                lemma_no_unit_run(c1, c2);
            }
            (0, 0, 0)
        },
        Some(b) => {
            proof {
                assert forall|p: int, q: int|
                    0 <= p < c1.len() && 0 <= q < c2.len() implies #[trigger] unit_common_len(
                    c1,
                    c2,
                    p,
                    q,
                ) <= unit_common_len(c1, c2, b.2 as int, b.3 as int) by {}
                lemma_first_longest_unit_unique(c1, c2, b.2 as int, b.3 as int);
            }
            (b.2, b.3, b.1)
        },
    }
}

} // verus!

verus! {

// ── structural helpers ──────────────────────────────────────────────────────

/// Number of groups of type `gt` in `s`.
pub open spec fn count_of_type(s: Seq<UnitModel>, gt: ComparisonUnitGroupType) -> nat
    decreases s.len(),
{
    if s.len() == 0 {
        0
    } else {
        count_of_type(s.drop_last(), gt) + if s.last() is Group && s.last()->Group_group_type
            == gt {
            1nat
        } else {
            0nat
        }
    }
}

/// Number of words in `s`.
pub open spec fn count_of_words(s: Seq<UnitModel>) -> nat
    decreases s.len(),
{
    if s.len() == 0 {
        0
    } else {
        count_of_words(s.drop_last()) + if s.last() is Word {
            1nat
        } else {
            0nat
        }
    }
}

/// Number of groups of type `gt` among `units`.
pub fn count_gt(units: &[ComparisonUnit], gt: ComparisonUnitGroupType) -> (n: usize)
    ensures
        n == count_of_type(units_model(units@), gt),
{
    let ghost s = units_model(units@);
    let mut n: usize = 0;
    let mut i: usize = 0;
    while i < units.len()
        invariant
            s == units_model(units@),
            i <= units@.len(),
            n <= i,
            n == count_of_type(s.take(i as int), gt),
        decreases units@.len() - i,
    {
        assert(s.take(i + 1).drop_last() =~= s.take(i as int));
        assert(s[i as int] == units@[i as int]@);
        match as_group(&units[i]) {
            Some(g) => {
                if g.group_type == gt {
                    n = n + 1;
                }
            },
            None => {},
        }
        i = i + 1;
    }
    assert(s.take(units@.len() as int) =~= s);
    n
}

/// Number of words among `units`.
pub fn count_words(units: &[ComparisonUnit]) -> (n: usize)
    ensures
        n == count_of_words(units_model(units@)),
{
    let ghost s = units_model(units@);
    let mut n: usize = 0;
    let mut i: usize = 0;
    while i < units.len()
        invariant
            s == units_model(units@),
            i <= units@.len(),
            n <= i,
            n == count_of_words(s.take(i as int)),
        decreases units@.len() - i,
    {
        assert(s.take(i + 1).drop_last() =~= s.take(i as int));
        assert(s[i as int] == units@[i as int]@);
        match &units[i] {
            ComparisonUnit::Word(_) => {
                n = n + 1;
            },
            ComparisonUnit::Group(_) => {},
        }
        i = i + 1;
    }
    assert(s.take(units@.len() as int) =~= s);
    n
}

/// A copy of the nested units of a group; empty for a word.
pub fn group_contents(u: &ComparisonUnit) -> (r: Vec<ComparisonUnit>)
    ensures
        units_model(r@) == u@.children(),
{
    match u {
        ComparisonUnit::Group(g) => {
            let r = copy_units(g.contents.as_slice(), 0, g.contents.len());
            assert(g.contents@.subrange(0, g.contents@.len() as int) =~= g.contents@);
            assert(units_model(g.contents@) =~= u@.children());
            r
        },
        ComparisonUnit::Word(_) => {
            let r: Vec<ComparisonUnit> = Vec::new();
            assert(units_model(r@) =~= u@.children());
            r
        },
    }
}

/// Whether any unit of `cu` is a table group.
pub fn has_table_units(cu: &[ComparisonUnit]) -> (r: bool)
    ensures
        r == exists|k: int|
            0 <= k < cu@.len() && (#[trigger] cu@[k])@ is Group && cu@[k]@->Group_group_type
                == ComparisonUnitGroupType::Table,
{
    let mut i: usize = 0;
    while i < cu.len()
        invariant
            i <= cu@.len(),
            forall|k: int|
                0 <= k < i ==> !((#[trigger] cu@[k])@ is Group && cu@[k]@->Group_group_type
                    == ComparisonUnitGroupType::Table),
        decreases cu@.len() - i,
    {
        match as_group(&cu[i]) {
            Some(g) => {
                if g.group_type == ComparisonUnitGroupType::Table {
                    assert(cu@[i as int]@ is Group);
                    return true;
                }
            },
            None => {},
        }
        i = i + 1;
    }
    false
}

/// `s` holds a group.
pub open spec fn any_group(s: Seq<UnitModel>) -> bool {
    exists|k: int| 0 <= k < s.len() && (#[trigger] s[k]) is Group
}

/// The children of every unit of `s`, in order (words contribute nothing).
pub open spec fn children_concat(s: Seq<UnitModel>) -> Seq<UnitModel>
    decreases s.len(),
{
    if s.len() == 0 {
        seq![]
    } else {
        children_concat(s.drop_last()) + s.last().children()
    }
}

/// One level of groups flattened: when `cu` holds a group, the children of
/// every unit in order (words drop out); otherwise `cu` itself.
pub fn flatten_groups_one_level(cu: &[ComparisonUnit]) -> (r: Vec<ComparisonUnit>)
    ensures
        units_model(r@) == if any_group(units_model(cu@)) {
            children_concat(units_model(cu@))
        } else {
            units_model(cu@)
        },
{
    let ghost s = units_model(cu@);
    let mut has_group = false;
    let mut i: usize = 0;
    while i < cu.len()
        invariant
            s == units_model(cu@),
            i <= cu@.len(),
            has_group == exists|k: int| 0 <= k < i && (#[trigger] s[k]) is Group,
        decreases cu@.len() - i,
    {
        assert(s[i as int] == cu@[i as int]@);
        if let ComparisonUnit::Group(_) = &cu[i] {
            has_group = true;
        }
        i = i + 1;
    }
    if !has_group {
        let r = copy_units(cu, 0, cu.len());
        assert(cu@.subrange(0, cu@.len() as int) =~= cu@);
        return r;
    }
    let mut out: Vec<ComparisonUnit> = Vec::new();
    let mut j: usize = 0;
    while j < cu.len()
        invariant
            s == units_model(cu@),
            j <= cu@.len(),
            units_model(out@) == children_concat(s.take(j as int)),
        decreases cu@.len() - j,
    {
        let mut kids = group_contents(&cu[j]);
        let ghost before = out@;
        out.append(&mut kids);
        assert(s.take(j + 1).drop_last() =~= s.take(j as int));
        assert(units_model(out@) =~= units_model(before) + s[j as int].children());
        j = j + 1;
    }
    assert(s.take(cu@.len() as int) =~= s);
    out
}

/// Hashes of the groups of `s`, in order.
pub open spec fn group_hashes(s: Seq<UnitModel>) -> Seq<Seq<char>>
    decreases s.len(),
{
    if s.len() == 0 {
        seq![]
    } else {
        group_hashes(s.drop_last()) + if s.last() is Group {
            seq![s.last().sha1()]
        } else {
            Seq::<Seq<char>>::empty()
        }
    }
}

/// Both sides hold at least four groups and no group hash of one side is a
/// group hash of the other.
pub open spec fn groups_fully_disjoint(c1: Seq<UnitModel>, c2: Seq<UnitModel>) -> bool {
    let g1 = group_hashes(c1);
    let g2 = group_hashes(c2);
    g1.len() > 3 && g2.len() > 3 && forall|i: int, j: int|
        0 <= i < g1.len() && 0 <= j < g2.len() ==> #[trigger] g1[i] != #[trigger] g2[j]
}

fn collect_group_hashes(cu: &[ComparisonUnit]) -> (r: Vec<&str>)
    ensures
        r@.map_values(|h: &str| h@) == group_hashes(units_model(cu@)),
{
    let ghost s = units_model(cu@);
    let mut r: Vec<&str> = Vec::new();
    let mut i: usize = 0;
    while i < cu.len()
        invariant
            s == units_model(cu@),
            i <= cu@.len(),
            r@.map_values(|h: &str| h@) == group_hashes(s.take(i as int)),
        decreases cu@.len() - i,
    {
        assert(s.take(i + 1).drop_last() =~= s.take(i as int));
        assert(s[i as int] == cu@[i as int]@);
        let ghost before = r@;
        if let ComparisonUnit::Group(_) = &cu[i] {
            r.push(cu[i].sha1());
        }
        assert(r@.map_values(|h: &str| h@) =~= group_hashes(s.take(i + 1)));
        i = i + 1;
    }
    assert(s.take(cu@.len() as int) =~= s);
    r
}

/// Whether both sides hold at least four groups whose hashes are pairwise
/// distinct across the sides.
pub fn block_groups_fully_disjoint(cu1: &[ComparisonUnit], cu2: &[ComparisonUnit]) -> (r: bool)
    ensures
        r == groups_fully_disjoint(units_model(cu1@), units_model(cu2@)),
{
    let groups1 = collect_group_hashes(cu1);
    let groups2 = collect_group_hashes(cu2);
    let ghost g1 = group_hashes(units_model(cu1@));
    let ghost g2 = group_hashes(units_model(cu2@));
    assert(groups1@.len() == g1.len());
    assert(groups2@.len() == g2.len());
    if groups1.len() <= 3 || groups2.len() <= 3 {
        return false;
    }
    let mut i: usize = 0;
    while i < groups1.len()
        invariant
            groups1@.map_values(|h: &str| h@) == g1,
            groups2@.map_values(|h: &str| h@) == g2,
            g1 == group_hashes(units_model(cu1@)),
            g2 == group_hashes(units_model(cu2@)),
            groups1@.len() == g1.len(),
            groups2@.len() == g2.len(),
            i <= g1.len(),
            forall|p: int, q: int|
                0 <= p < i && 0 <= q < g2.len() ==> #[trigger] g1[p] != #[trigger] g2[q],
        decreases groups1@.len() - i,
    {
        let mut j: usize = 0;
        while j < groups2.len()
            invariant
                groups1@.map_values(|h: &str| h@) == g1,
                groups2@.map_values(|h: &str| h@) == g2,
                g1 == group_hashes(units_model(cu1@)),
                g2 == group_hashes(units_model(cu2@)),
                groups1@.len() == g1.len(),
                groups2@.len() == g2.len(),
                i < g1.len(),
                j <= g2.len(),
                forall|p: int, q: int|
                    0 <= p < i && 0 <= q < g2.len() ==> #[trigger] g1[p] != #[trigger] g2[q],
                forall|q: int| 0 <= q < j ==> g1[i as int] != #[trigger] g2[q],
            decreases groups2@.len() - j,
        {
            assert(g1[i as int] == groups1@[i as int]@);
            assert(g2[j as int] == groups2@[j as int]@);
            if str_eq(groups1[i], groups2[j]) {
                assert(g1[i as int] == g2[j as int]);
                return false;
            }
            j = j + 1;
        }
        i = i + 1;
    }
    true
}

/// When both sides hold at least four groups and their group hashes are
/// disjoint, the documents are unrelated: everything of `cu1` is deleted and
/// everything of `cu2` inserted. Otherwise `None`.
pub fn detect_unrelated_sources(cu1: &[ComparisonUnit], cu2: &[ComparisonUnit]) -> (r: Option<
    Vec<CorrelatedSequence>,
>)
    ensures
        match r {
            None => !groups_fully_disjoint(units_model(cu1@), units_model(cu2@)),
            Some(out) => groups_fully_disjoint(units_model(cu1@), units_model(cu2@))
                && sequences_model(out@) == seq![
                SequenceModel {
                    status: CorrelationStatus::Deleted,
                    units1: Some(units_model(cu1@)),
                    units2: None,
                },
                SequenceModel {
                    status: CorrelationStatus::Inserted,
                    units1: None,
                    units2: Some(units_model(cu2@)),
                },
            ],
        },
{
    if !block_groups_fully_disjoint(cu1, cu2) {
        return None;
    }
    let all1 = copy_units(cu1, 0, cu1.len());
    let all2 = copy_units(cu2, 0, cu2.len());
    assert(cu1@.subrange(0, cu1@.len() as int) =~= cu1@);
    assert(cu2@.subrange(0, cu2@.len() as int) =~= cu2@);
    let mut out: Vec<CorrelatedSequence> = Vec::new();
    out.push(CorrelatedSequence::deleted(all1));
    out.push(CorrelatedSequence::inserted(all2));
    assert(sequences_model(out@) =~= seq![out@[0]@, out@[1]@]);
    Some(out)
}

/// Number of units of `small` whose hash occurs in `large`.
pub open spec fn hash_hits(small: Seq<UnitModel>, large: Seq<UnitModel>) -> nat
    decreases small.len(),
{
    if small.len() == 0 {
        0
    } else {
        hash_hits(small.drop_last(), large) + if exists|k: int|
            0 <= k < large.len() && (#[trigger] large[k]).sha1() == small.last().sha1() {
            1nat
        } else {
            0nat
        }
    }
}

/// Window relatedness: at least a fifth of the units of the shorter side
/// (the first on equal lengths) have a hash that occurs on the other side.
pub open spec fn windows_related_spec(c1: Seq<UnitModel>, c2: Seq<UnitModel>) -> bool {
    if c1.len() <= c2.len() {
        hash_hits(c1, c2) * 5 >= c1.len()
    } else {
        hash_hits(c2, c1) * 5 >= c2.len()
    }
}

fn hits_in(small: &[ComparisonUnit], large: &[ComparisonUnit]) -> (n: usize)
    ensures
        n == hash_hits(units_model(small@), units_model(large@)),
        n <= small@.len(),
{
    let ghost s = units_model(small@);
    let ghost l = units_model(large@);
    let mut n: usize = 0;
    let mut i: usize = 0;
    while i < small.len()
        invariant
            s == units_model(small@),
            l == units_model(large@),
            i <= small@.len(),
            n <= i,
            n == hash_hits(s.take(i as int), l),
        decreases small@.len() - i,
    {
        assert(s.take(i + 1).drop_last() =~= s.take(i as int));
        assert(s[i as int] == small@[i as int]@);
        let mut found = false;
        let mut j: usize = 0;
        while j < large.len()
            invariant
                s == units_model(small@),
                l == units_model(large@),
                i < small@.len(),
                j <= large@.len(),
                found == exists|k: int| 0 <= k < j && (#[trigger] l[k]).sha1() == s[i as int].sha1(),
            decreases large@.len() - j,
        {
            assert(l[j as int] == large@[j as int]@);
            if str_eq(large[j].sha1(), small[i].sha1()) {
                found = true;
            }
            j = j + 1;
        }
        if found {
            n = n + 1;
        }
        i = i + 1;
    }
    assert(s.take(small@.len() as int) =~= s);
    n
}

/// Whether at least a fifth of the shorter side's units have a hash match on
/// the other side.
pub fn windows_related(cul1: &[ComparisonUnit], cul2: &[ComparisonUnit]) -> (r: bool)
    ensures
        r == windows_related_spec(units_model(cul1@), units_model(cul2@)),
{
    let (small, large) = if cul1.len() <= cul2.len() {
        (cul1, cul2)
    } else {
        (cul2, cul1)
    };
    let hits = hits_in(small, large);
    let n = small.len();
    hits >= n / 5 + if n % 5 == 0 {
        0
    } else {
        1
    }
}

/// The first direct atom of a word; `None` for a group.
pub fn first_direct_atom(u: &ComparisonUnit) -> (r: Option<&ComparisonUnitAtom>)
    ensures
        match r {
            Some(a) => u is Word && u->Word_0.contents@.len() > 0 && *a == u->Word_0.contents@[0],
            None => u is Group || u->Word_0.contents@.len() == 0,
        },
{
    match u {
        ComparisonUnit::Word(w) => {
            if w.contents.len() > 0 {
                Some(&w.contents[0])
            } else {
                None
            }
        },
        ComparisonUnit::Group(_) => None,
    }
}


// ── paragraph marks ─────────────────────────────────────────────────────────

/// The atom stands for a paragraph mark (its content element is a `w:pPr`).
pub open spec fn is_ppr(d: Seq<crate::xml::NodeView>, a: AtomModel) -> bool {
    has_name(d, a.content_element.0 as int, w_name("pPr"@))
}

/// The atom stands for a paragraph mark.
pub fn atom_is_ppr(dom: &Dom, a: &ComparisonUnitAtom) -> (r: bool)
    ensures
        r == is_ppr(dom@, a@),
{
    dom.is_named(a.content_element, &W::p_pr())
}

/// The unit is a word of exactly one atom, a paragraph mark.
pub open spec fn single_ppr(d: Seq<crate::xml::NodeView>, u: UnitModel) -> bool {
    match u {
        UnitModel::Word { atoms, .. } => atoms.len() == 1 && is_ppr(d, atoms[0]),
        UnitModel::Group { .. } => false,
    }
}

/// The unit is a bare paragraph mark: a word of exactly one `w:pPr` atom.
pub fn unit_is_single_atom_ppr(dom: &Dom, u: &ComparisonUnit) -> (r: bool)
    ensures
        r == single_ppr(dom@, u@),
{
    match u {
        ComparisonUnit::Word(w) => {
            assert(atoms_model(w.contents@).len() == w.contents@.len());
            if w.contents.len() == 1 {
                assert(atoms_model(w.contents@)[0] == w.contents@[0]@);
                atom_is_ppr(dom, &w.contents[0])
            } else {
                false
            }
        },
        ComparisonUnit::Group(_) => false,
    }
}

/// The first atom under the unit is a paragraph mark.
pub open spec fn first_atom_ppr(d: Seq<crate::xml::NodeView>, u: UnitModel) -> bool {
    model_atoms(u).len() > 0 && is_ppr(d, model_atoms(u)[0])
}

/// The last atom under the unit is a paragraph mark.
pub open spec fn last_atom_ppr(d: Seq<crate::xml::NodeView>, u: UnitModel) -> bool {
    model_atoms(u).len() > 0 && is_ppr(d, model_atoms(u).last())
}

/// Whether the first atom under the unit is a paragraph mark.
pub fn unit_first_atom_is_ppr(dom: &Dom, u: &ComparisonUnit) -> (r: bool)
    ensures
        r == first_atom_ppr(dom@, u@),
{
    let atoms = u.descendant_atoms();
    if atoms.len() == 0 {
        false
    } else {
        assert(atoms_model(atoms@)[0] == atoms@[0]@);
        atom_is_ppr(dom, &atoms[0])
    }
}

/// Whether the last atom under the unit is a paragraph mark.
pub fn unit_last_atom_is_ppr(dom: &Dom, u: &ComparisonUnit) -> (r: bool)
    ensures
        r == last_atom_ppr(dom@, u@),
{
    let atoms = u.descendant_atoms();
    if atoms.len() == 0 {
        false
    } else {
        assert(atoms_model(atoms@).last() == atoms@[atoms@.len() - 1]@);
        atom_is_ppr(dom, &atoms[atoms.len() - 1])
    }
}

/// A word whose first atom is not a paragraph mark (a word with no atoms
/// counts); never a group.
pub open spec fn word_starts_without_ppr(d: Seq<crate::xml::NodeView>, u: UnitModel) -> bool {
    match u {
        UnitModel::Word { atoms, .. } => atoms.len() == 0 || !is_ppr(d, atoms[0]),
        UnitModel::Group { .. } => false,
    }
}

/// Whether the unit is a word whose first atom is not a paragraph mark.
pub fn word_first_not_ppr(dom: &Dom, u: &ComparisonUnit) -> (r: bool)
    ensures
        r == word_starts_without_ppr(dom@, u@),
{
    match u {
        ComparisonUnit::Word(w) => {
            assert(atoms_model(w.contents@).len() == w.contents@.len());
            if w.contents.len() == 0 {
                true
            } else {
                assert(atoms_model(w.contents@)[0] == w.contents@[0]@);
                !atom_is_ppr(dom, &w.contents[0])
            }
        },
        ComparisonUnit::Group(_) => false,
    }
}

/// Whether the unit is a word whose first atom is a paragraph mark.
pub fn unit_first_direct_atom_is_ppr(dom: &Dom, u: &ComparisonUnit) -> (r: bool)
    ensures
        r == (u@ is Word && u@->Word_atoms.len() > 0 && is_ppr(dom@, u@->Word_atoms[0])),
{
    match first_direct_atom(u) {
        Some(a) => {
            assert(atoms_model(u->Word_0.contents@)[0] == u->Word_0.contents@[0]@);
            atom_is_ppr(dom, a)
        },
        None => false,
    }
}

/// The index of the first unit whose last atom is a paragraph mark, or the
/// number of units when none is.
pub fn find_index_of_next_para_mark(dom: &Dom, cul: &[ComparisonUnit]) -> (r: usize)
    ensures
        r <= cul@.len(),
        forall|j: int| 0 <= j < r ==> !last_atom_ppr(dom@, #[trigger] cul@[j]@),
        r < cul@.len() ==> last_atom_ppr(dom@, cul@[r as int]@),
{
    let mut i: usize = 0;
    while i < cul.len()
        invariant
            i <= cul@.len(),
            forall|j: int| 0 <= j < i ==> !last_atom_ppr(dom@, #[trigger] cul@[j]@),
        decreases cul@.len() - i,
    {
        if unit_last_atom_is_ppr(dom, &cul[i]) {
            return i;
        }
        i = i + 1;
    }
    i
}

/// The index of the first unit of `cs` whose first atom is a paragraph mark.
pub open spec fn first_para_start(d: Seq<crate::xml::NodeView>, cs: Seq<UnitModel>) -> Option<int>
    decreases cs.len(),
{
    if cs.len() == 0 {
        None
    } else if first_atom_ppr(d, cs[0]) {
        Some(0)
    } else {
        match first_para_start(d, cs.drop_first()) {
            Some(k) => Some(k + 1),
            None => None,
        }
    }
}

proof fn lemma_first_para_start_at(d: Seq<crate::xml::NodeView>, cs: Seq<UnitModel>, k: int)
    requires
        0 <= k <= cs.len(),
        forall|j: int| 0 <= j < k ==> !first_atom_ppr(d, #[trigger] cs[j]),
    ensures
        k < cs.len() && first_atom_ppr(d, cs[k]) ==> first_para_start(d, cs) == Some(k),
        k == cs.len() ==> first_para_start(d, cs) is None,
    decreases k,
{
    if k > 0 {
        assert forall|j: int| 0 <= j < k - 1 implies !first_atom_ppr(d, #[trigger] cs.drop_first()[j]) by {
            assert(cs.drop_first()[j] == cs[j + 1]);
        }
        lemma_first_para_start_at(d, cs.drop_first(), k - 1);
    }
}

/// The split at a paragraph mark rejoins to the whole: its second part starts
/// at the first unit whose first atom is a paragraph mark, and no unit before
/// it has one.
pub proof fn lemma_paragraph_split_rejoins(d: Seq<crate::xml::NodeView>, cs: Seq<UnitModel>)
    ensures
        match first_para_start(d, cs) {
            Some(i) => {
                &&& 0 <= i < cs.len()
                &&& cs.take(i) + cs.skip(i) == cs
                &&& first_atom_ppr(d, cs[i])
                &&& forall|j: int| 0 <= j < i ==> !first_atom_ppr(d, #[trigger] cs[j])
            },
            None => forall|j: int| 0 <= j < cs.len() ==> !first_atom_ppr(d, #[trigger] cs[j]),
        },
    decreases cs.len(),
{
    if cs.len() > 0 {
        lemma_paragraph_split_rejoins(d, cs.drop_first());
        if !first_atom_ppr(d, cs[0]) {
            match first_para_start(d, cs.drop_first()) {
                Some(k) => {
                    assert(cs[k + 1] == cs.drop_first()[k]);
                    assert forall|j: int| 0 <= j < k + 1 implies !first_atom_ppr(d, #[trigger] cs[j]) by {
                        if j > 0 {
                            assert(cs[j] == cs.drop_first()[j - 1]);
                        }
                    }
                },
                None => {
                    assert forall|j: int| 0 <= j < cs.len() implies !first_atom_ppr(d, #[trigger] cs[j]) by {
                        if j > 0 {
                            assert(cs[j] == cs.drop_first()[j - 1]);
                        }
                    }
                },
            }
        }
        match first_para_start(d, cs) {
            Some(i) => {
                assert(cs.take(i) + cs.skip(i) =~= cs);
            },
            None => {},
        }
    }
}

/// Splits the units at the first one whose first atom is a paragraph mark,
/// which heads the second part; one part, all the units, when there is none.
pub fn split_at_paragraph_mark(dom: &Dom, cua: &[ComparisonUnit]) -> (r: Vec<Vec<ComparisonUnit>>)
    ensures
        match first_para_start(dom@, units_model(cua@)) {
            None => r@.len() == 1 && units_model(r@[0]@) == units_model(cua@),
            Some(i) => r@.len() == 2 && units_model(r@[0]@) == units_model(cua@).take(i)
                && units_model(r@[1]@) == units_model(cua@).skip(i),
        },
{
    let ghost cs = units_model(cua@);
    let mut i: usize = 0;
    while i < cua.len()
        invariant
            cs == units_model(cua@),
            i <= cua@.len(),
            forall|j: int| 0 <= j < i ==> !first_atom_ppr(dom@, #[trigger] cs[j]),
        decreases cua@.len() - i,
    {
        if unit_first_atom_is_ppr(dom, &cua[i]) {
            proof {
                lemma_first_para_start_at(dom@, cs, i as int);
            }
            let head = copy_units(cua, 0, i);
            let tail = copy_units(cua, i, cua.len());
            assert(cua@.subrange(0, i as int) =~= cua@.take(i as int));
            assert(units_model(cua@.subrange(0, i as int)) =~= cs.take(i as int));
            assert(units_model(cua@.subrange(i as int, cua@.len() as int)) =~= cs.skip(i as int));
            let mut r: Vec<Vec<ComparisonUnit>> = Vec::new();
            r.push(head);
            r.push(tail);
            return r;
        }
        i = i + 1;
    }
    proof {
        lemma_first_para_start_at(dom@, cs, i as int);
    }
    let all = copy_units(cua, 0, cua.len());
    assert(units_model(cua@.subrange(0, cua@.len() as int)) =~= cs);
    let mut r: Vec<Vec<ComparisonUnit>> = Vec::new();
    r.push(all);
    r
}

/// Whether the last atom across all `units` is a paragraph mark; `None` when
/// the units hold no atom.
pub fn last_atom_overall_is_ppr(dom: &Dom, units: &[ComparisonUnit]) -> (r: Option<bool>)
    ensures
        r == if models_atoms(units_model(units@)).len() == 0 {
            None
        } else {
            Some(is_ppr(dom@, models_atoms(units_model(units@)).last()))
        },
{
    let ghost cs = units_model(units@);
    let mut last: Option<bool> = None;
    let mut i: usize = 0;
    while i < units.len()
        invariant
            cs == units_model(units@),
            i <= units@.len(),
            last == if models_atoms(cs.take(i as int)).len() == 0 {
                None
            } else {
                Some(is_ppr(dom@, models_atoms(cs.take(i as int)).last()))
            },
        decreases units@.len() - i,
    {
        proof {
            lemma_models_atoms_step(cs, i as int);
        }
        let atoms = units[i].descendant_atoms();
        assert(cs[i as int] == units@[i as int]@);
        if atoms.len() > 0 {
            assert(atoms_model(atoms@).last() == atoms@[atoms@.len() - 1]@);
            last = Some(atom_is_ppr(dom, &atoms[atoms.len() - 1]));
        }
        i = i + 1;
    }
    assert(cs.take(units@.len() as int) =~= cs);
    last
}


// ── carrying unids across a matched group ──────────────────────────────────

/// The local name of the element a group type stands for.
pub open spec fn group_local(t: ComparisonUnitGroupType) -> Seq<char> {
    match t {
        ComparisonUnitGroupType::Paragraph => "p"@,
        ComparisonUnitGroupType::Table => "tbl"@,
        ComparisonUnitGroupType::Row => "tr"@,
        ComparisonUnitGroupType::Cell => "tc"@,
        ComparisonUnitGroupType::Textbox => "txbxContent"@,
    }
}

/// The ancestors `anc` up to and including the first one named `stop` (all
/// of them when none is).
pub open spec fn ancestors_thru(d: Seq<NodeView>, anc: Seq<NodeId>, stop: XNameView) -> Seq<NodeId>
    decreases anc.len(),
{
    if anc.len() == 0 {
        seq![]
    } else if has_name(d, anc[0].0 as int, stop) {
        seq![anc[0]]
    } else {
        seq![anc[0]] + ancestors_thru(d, anc.drop_first(), stop)
    }
}

/// The `pt:Unid` values of `ns`, in order, skipping nodes without one.
pub open spec fn unids_of(d: Seq<NodeView>, ns: Seq<NodeId>) -> Seq<Seq<char>>
    decreases ns.len(),
{
    if ns.len() == 0 {
        seq![]
    } else {
        unids_of(d, ns.drop_last()) + match attribute_of(d, ns.last().0 as int, pt_name("Unid"@)) {
            Some(u) => seq![u],
            None => seq![],
        }
    }
}

/// An ancestor whose unid is left alone: a `w:footnotes` or `w:endnotes`, or
/// one without a `pt:Unid`.
pub open spec fn keeps_unid(d: Seq<NodeView>, a: NodeId) -> bool {
    ||| has_name(d, a.0 as int, w_name("footnotes"@))
    ||| has_name(d, a.0 as int, w_name("endnotes"@))
    ||| attribute_of(d, a.0 as int, pt_name("Unid"@)) is None
}

/// The unid assignments for the first `n` ancestors of one atom, position by
/// position against `unids`.
pub open spec fn atom_targets(d: Seq<NodeView>, anc: Seq<NodeId>, unids: Seq<Seq<char>>, n: int) -> Seq<
    (usize, Seq<char>),
>
    decreases n,
{
    if n <= 0 {
        seq![]
    } else {
        atom_targets(d, anc, unids, n - 1) + if keeps_unid(d, anc[n - 1]) {
            seq![]
        } else {
            seq![(anc[n - 1].0, unids[n - 1])]
        }
    }
}

/// The shorter of two lengths.
pub open spec fn min_len(a: nat, b: nat) -> int {
    if a < b {
        a as int
    } else {
        b as int
    }
}

/// The unid assignments for all `atoms`, in order.
pub open spec fn all_targets(d: Seq<NodeView>, atoms: Seq<AtomModel>, unids: Seq<Seq<char>>) -> Seq<
    (usize, Seq<char>),
>
    decreases atoms.len(),
{
    if atoms.len() == 0 {
        seq![]
    } else {
        let anc = atoms.last().ancestor_elements;
        all_targets(d, atoms.drop_last(), unids) + atom_targets(
            d,
            anc,
            unids,
            min_len(anc.len(), unids.len()),
        )
    }
}

/// `d` after setting `pt:Unid` as each assignment of `ts` says, in order.
pub open spec fn apply_unids(d: Seq<NodeView>, ts: Seq<(usize, Seq<char>)>) -> Seq<NodeView>
    decreases ts.len(),
{
    if ts.len() == 0 {
        d
    } else {
        with_attr(
            apply_unids(d, ts.drop_last()),
            ts.last().0 as int,
            pt_name("Unid"@),
            Some(ts.last().1),
        )
    }
}

/// What carrying unids does to `d` for the sequence `m`: when each side is a
/// single group of one type and the original group has an atom, the `pt:Unid`s
/// of that atom's ancestors (up to the group's own element) are copied, in
/// order, onto the corresponding ancestors of each atom of the revised group
/// that already carry one (notes containers excepted).
pub open spec fn after_unids(d: Seq<NodeView>, m: SequenceModel) -> Seq<NodeView> {
    match (m.units1, m.units2) {
        (Some(a1), Some(a2)) => {
            if a1.len() == 1 && a2.len() == 1 && a1[0] is Group && a2[0] is Group
                && a1[0]->Group_group_type == a2[0]->Group_group_type && model_atoms(a1[0]).len()
                > 0 {
                let stop = w_name(group_local(a1[0]->Group_group_type));
                let relevant = ancestors_thru(d, model_atoms(a1[0])[0].ancestor_elements, stop);
                apply_unids(d, all_targets(d, model_atoms(a2[0]), unids_of(d, relevant)))
            } else {
                d
            }
        },
        _ => d,
    }
}

/// The views of a list of unid assignments.
pub open spec fn targets_view(v: Seq<(NodeId, String)>) -> Seq<(usize, Seq<char>)> {
    v.map_values(|x: (NodeId, String)| (x.0.0, x.1@))
}

fn group_stop_name(t: ComparisonUnitGroupType) -> (r: crate::xml::XName)
    ensures
        r@ == w_name(group_local(t)),
{
    match t {
        ComparisonUnitGroupType::Paragraph => W::name("p"),
        ComparisonUnitGroupType::Table => W::name("tbl"),
        ComparisonUnitGroupType::Row => W::name("tr"),
        ComparisonUnitGroupType::Cell => W::name("tc"),
        ComparisonUnitGroupType::Textbox => W::name("txbxContent"),
    }
}

/// When an unresolved pair is a single group against a single group of the
/// same type, copies the original side's ancestor `pt:Unid`s onto the
/// corresponding ancestors of the revised side's atoms.
pub fn set_after_unids(dom: &mut Dom, unknown: &CorrelatedSequence)
    requires
        old(dom).wf(),
    ensures
        final(dom).wf(),
        final(dom)@ == after_unids(old(dom)@, unknown@),
{
    let ghost d = dom@;
    let a1 = match &unknown.com_units_1 {
        Some(v) => v,
        None => {
            return ;
        },
    };
    let a2 = match &unknown.com_units_2 {
        Some(v) => v,
        None => {
            return ;
        },
    };
    let ghost m1 = units_model(a1@);
    let ghost m2 = units_model(a2@);
    if a1.len() != 1 || a2.len() != 1 {
        return ;
    }
    assert(m1[0] == a1@[0]@ && m2[0] == a2@[0]@);
    let g1 = match as_group(&a1[0]) {
        Some(g) => g,
        None => {
            return ;
        },
    };
    let g2 = match as_group(&a2[0]) {
        Some(g) => g,
        None => {
            return ;
        },
    };
    if g1.group_type != g2.group_type {
        return ;
    }
    let stop = group_stop_name(g1.group_type);
    let da1 = a1[0].descendant_atoms();
    let da2 = a2[0].descendant_atoms();
    if da1.len() == 0 {
        return ;
    }
    assert(atoms_model(da1@)[0] == da1@[0]@);
    // The relevant ancestors of the original group's first atom.
    let anc = &da1[0].ancestor_elements;
    let ghost full = ancestors_thru(d, anc@, stop@);
    let mut relevant: Vec<NodeId> = Vec::new();
    let mut k: usize = 0;
    let mut done = false;
    assert(anc@.skip(0) =~= anc@);
    while !done && k < anc.len()
        invariant
            dom@ == d,
            k <= anc@.len(),
            !done ==> full == relevant@ + ancestors_thru(d, anc@.skip(k as int), stop@),
            done ==> full == relevant@,
        decreases anc@.len() - k + if done { 0int } else { 1int },
    {
        let a = anc[k];
        let ghost rest = anc@.skip(k as int);
        assert(rest[0] == a);
        assert(rest.drop_first() =~= anc@.skip(k + 1));
        relevant.push(a);
        if dom.is_named(a, &stop) {
            done = true;
            assert(full =~= relevant@);
        } else {
            assert(full =~= relevant@ + ancestors_thru(d, anc@.skip(k + 1), stop@));
        }
        k = k + 1;
    }
    if !done {
        assert(anc@.skip(k as int) =~= Seq::<NodeId>::empty());
        assert(full =~= relevant@);
    }
    // Their unids.
    let unid = PT::unid();
    let mut unids: Vec<String> = Vec::new();
    let mut k: usize = 0;
    assert(relevant@.take(0) =~= Seq::<NodeId>::empty());
    while k < relevant.len()
        invariant
            dom@ == d,
            unid@ == pt_name("Unid"@),
            k <= relevant@.len(),
            crate::comparer::moves::strings_view(unids@) == unids_of(d, relevant@.take(k as int)),
        decreases relevant@.len() - k,
    {
        assert(relevant@.take(k + 1).drop_last() =~= relevant@.take(k as int));
        let ghost before = crate::comparer::moves::strings_view(unids@);
        match dom.attribute(relevant[k], &unid) {
            Some(u) => {
                unids.push(String::from_str(u));
                assert(crate::comparer::moves::strings_view(unids@) =~= before + seq![u@]);
            },
            None => {
                assert(crate::comparer::moves::strings_view(unids@) =~= before + Seq::<
                    Seq<char>,
                >::empty());
            },
        }
        k = k + 1;
    }
    assert(relevant@.take(relevant@.len() as int) =~= relevant@);
    let ghost uv = crate::comparer::moves::strings_view(unids@);
    // The assignments, collected before any is made.
    let ghost atoms2 = atoms_model(da2@);
    let footnotes = W::name("footnotes");
    let endnotes = W::name("endnotes");
    let mut to_set: Vec<(NodeId, String)> = Vec::new();
    let mut i: usize = 0;
    assert(atoms2.take(0) =~= Seq::<AtomModel>::empty());
    while i < da2.len()
        invariant
            dom@ == d,
            unid@ == pt_name("Unid"@),
            footnotes@ == w_name("footnotes"@),
            endnotes@ == w_name("endnotes"@),
            uv == crate::comparer::moves::strings_view(unids@),
            atoms2 == atoms_model(da2@),
            i <= da2@.len(),
            targets_view(to_set@) == all_targets(d, atoms2.take(i as int), uv),
        decreases da2@.len() - i,
    {
        assert(atoms2.take(i + 1).drop_last() =~= atoms2.take(i as int));
        assert(atoms2[i as int] == da2@[i as int]@);
        let anc2 = &da2[i].ancestor_elements;
        let n = if anc2.len() < unids.len() {
            anc2.len()
        } else {
            unids.len()
        };
        let ghost base = targets_view(to_set@);
        let mut j: usize = 0;
        while j < n
            invariant
                dom@ == d,
                unid@ == pt_name("Unid"@),
                footnotes@ == w_name("footnotes"@),
                endnotes@ == w_name("endnotes"@),
                uv == crate::comparer::moves::strings_view(unids@),
                n <= anc2@.len(),
                n <= unids@.len(),
                j <= n,
                targets_view(to_set@) == base + atom_targets(d, anc2@, uv, j as int),
            decreases n - j,
        {
            let a = anc2[j];
            let skip = dom.is_named(a, &footnotes) || dom.is_named(a, &endnotes) || dom.attribute(
                a,
                &unid,
            ).is_none();
            let ghost prev = targets_view(to_set@);
            if !skip {
                let u = unids[j].clone();
                to_set.push((a, u));
                assert(targets_view(to_set@) =~= prev.push((a.0, uv[j as int])));
                assert(targets_view(to_set@) =~= base + atom_targets(d, anc2@, uv, j + 1));
            } else {
                assert(targets_view(to_set@) =~= base + atom_targets(d, anc2@, uv, j + 1));
            }
            j = j + 1;
        }
        assert(targets_view(to_set@) =~= all_targets(d, atoms2.take(i + 1), uv));
        i = i + 1;
    }
    assert(atoms2.take(da2@.len() as int) =~= atoms2);
    let ghost ts = targets_view(to_set@);
    // Make them.
    let mut t: usize = 0;
    assert(ts.take(0) =~= Seq::<(usize, Seq<char>)>::empty());
    while t < to_set.len()
        invariant
            dom.wf(),
            unid@ == pt_name("Unid"@),
            ts == targets_view(to_set@),
            t <= to_set@.len(),
            dom@ == apply_unids(d, ts.take(t as int)),
        decreases to_set@.len() - t,
    {
        assert(ts.take(t + 1).drop_last() =~= ts.take(t as int));
        let (a, u) = (to_set[t].0, to_set[t].1.as_str());
        dom.set_attribute_value(a, &unid, Some(u));
        t = t + 1;
    }
    assert(ts.take(to_set@.len() as int) =~= ts);
}


// ── common units at the beginning and the end ─────────────────────────────

/// The number of leading positions, from `k` on and up to the shorter side,
/// at which the two sides carry equal unit hashes.
pub open spec fn prefix_from(c1: Seq<UnitModel>, c2: Seq<UnitModel>, k: int) -> int
    decreases c1.len() - k,
{
    if 0 <= k < c1.len() && k < c2.len() && c1[k].sha1() == c2[k].sha1() {
        prefix_from(c1, c2, k + 1)
    } else {
        k
    }
}

/// Length of the common prefix of unit hashes.
pub fn common_prefix_len(cul1: &[ComparisonUnit], cul2: &[ComparisonUnit]) -> (r: usize)
    ensures
        r == prefix_from(units_model(cul1@), units_model(cul2@), 0),
        r <= cul1@.len() && r <= cul2@.len(),
{
    let ghost c1 = units_model(cul1@);
    let ghost c2 = units_model(cul2@);
    let mut k: usize = 0;
    while k < cul1.len() && k < cul2.len() && str_eq(cul1[k].sha1(), cul2[k].sha1())
        invariant
            c1 == units_model(cul1@),
            c2 == units_model(cul2@),
            k <= cul1@.len() && k <= cul2@.len(),
            prefix_from(c1, c2, 0) == prefix_from(c1, c2, k as int),
        decreases cul1@.len() - k,
    {
        assert(c1[k as int] == cul1@[k as int]@ && c2[k as int] == cul2@[k as int]@);
        k = k + 1;
    }
    proof {
        if k < cul1@.len() && k < cul2@.len() {
            assert(c1[k as int] == cul1@[k as int]@ && c2[k as int] == cul2@[k as int]@);
        }
    }
    k
}

/// The number of trailing positions, from `k` on and up to the shorter side,
/// at which the two sides carry equal unit hashes.
pub open spec fn suffix_from(c1: Seq<UnitModel>, c2: Seq<UnitModel>, k: int) -> int
    decreases c1.len() - k,
{
    if 0 <= k < c1.len() && k < c2.len() && c1[c1.len() - 1 - k].sha1() == c2[c2.len() - 1
        - k].sha1() {
        suffix_from(c1, c2, k + 1)
    } else {
        k
    }
}

/// A common tail of length `n` shortened while it would start with a bare
/// paragraph mark (never below one unit).
pub open spec fn trim_leading_marks(d: Seq<NodeView>, c1: Seq<UnitModel>, n: int) -> int
    decreases n,
{
    if n > 1 && single_ppr(d, c1[c1.len() - n]) {
        trim_leading_marks(d, c1, n - 1)
    } else {
        n
    }
}

/// The common tail of unit hashes, trimmed so that it does not start with a
/// bare paragraph mark, and whether that tail is only the final paragraph
/// mark.
pub open spec fn common_tail(d: Seq<NodeView>, c1: Seq<UnitModel>, c2: Seq<UnitModel>) -> (int, bool) {
    let n = trim_leading_marks(d, c1, suffix_from(c1, c2, 0));
    (n, (n == 1 || n == 2) && single_ppr(d, c1[c1.len() - 1]))
}

proof fn lemma_suffix_bound(c1: Seq<UnitModel>, c2: Seq<UnitModel>, k: int)
    requires
        0 <= k <= c1.len(),
        k <= c2.len(),
    ensures
        k <= suffix_from(c1, c2, k) <= c1.len(),
        suffix_from(c1, c2, k) <= c2.len(),
        forall|j: int| k <= j < suffix_from(c1, c2, k) ==> #[trigger] c1[c1.len() - 1 - j].sha1()
            == c2[c2.len() - 1 - j].sha1(),
    decreases c1.len() - k,
{
    if 0 <= k < c1.len() && k < c2.len() && c1[c1.len() - 1 - k].sha1() == c2[c2.len() - 1
        - k].sha1() {
        lemma_suffix_bound(c1, c2, k + 1);
    }
}

proof fn lemma_trim_bound(d: Seq<NodeView>, c1: Seq<UnitModel>, n: int)
    requires
        0 <= n <= c1.len(),
    ensures
        0 <= trim_leading_marks(d, c1, n) <= n,
        n > 0 ==> trim_leading_marks(d, c1, n) > 0,
    decreases n,
{
    if n > 1 && single_ppr(d, c1[c1.len() - n]) {
        lemma_trim_bound(d, c1, n - 1);
    }
}

/// The common tail of the two sides, as [`common_tail`] states.
pub fn common_suffix_len(dom: &Dom, cul1: &[ComparisonUnit], cul2: &[ComparisonUnit]) -> (r: (
    usize,
    bool,
))
    ensures
        (r.0 as int, r.1) == common_tail(dom@, units_model(cul1@), units_model(cul2@)),
        r.0 <= cul1@.len() && r.0 <= cul2@.len(),
{
    let ghost c1 = units_model(cul1@);
    let ghost c2 = units_model(cul2@);
    let n1 = cul1.len();
    let n2 = cul2.len();
    let mut k: usize = 0;
    while k < n1 && k < n2 && str_eq(cul1[n1 - 1 - k].sha1(), cul2[n2 - 1 - k].sha1())
        invariant
            c1 == units_model(cul1@),
            c2 == units_model(cul2@),
            n1 == cul1@.len(),
            n2 == cul2@.len(),
            k <= n1 && k <= n2,
            suffix_from(c1, c2, 0) == suffix_from(c1, c2, k as int),
        decreases n1 - k,
    {
        assert(c1[n1 - 1 - k] == cul1@[n1 - 1 - k]@ && c2[n2 - 1 - k] == cul2@[n2 - 1 - k]@);
        k = k + 1;
    }
    proof {
        if k < n1 && k < n2 {
            assert(c1[n1 - 1 - k] == cul1@[n1 - 1 - k]@ && c2[n2 - 1 - k] == cul2@[n2 - 1 - k]@);
        }
    }
    let mut cce = k;
    while cce > 1
        invariant
            c1 == units_model(cul1@),
            n1 == cul1@.len(),
            cce <= n1,
            cce <= k,
            k <= n2,
            trim_leading_marks(dom@, c1, k as int) == trim_leading_marks(dom@, c1, cce as int),
        ensures
            cce <= n1,
            cce <= n2,
            trim_leading_marks(dom@, c1, k as int) == cce,
        decreases cce,
    {
        assert(c1[n1 - cce] == cul1@[n1 - cce]@);
        if !unit_is_single_atom_ppr(dom, &cul1[n1 - cce]) {
            break;
        }
        cce = cce - 1;
    }
    let only_mark = (cce == 1 || cce == 2) && unit_is_single_atom_ppr(dom, &cul1[n1 - 1]);
    proof {
        if cce == 1 || cce == 2 {
            assert(c1[n1 - 1] == cul1@[n1 - 1]@);
        }
    }
    (cce, only_mark)
}

/// The units of `part` are all bare paragraph marks, and there is one.
pub open spec fn only_marks(d: Seq<NodeView>, part: Seq<UnitModel>) -> bool {
    part.len() > 0 && forall|j: int| 0 <= j < part.len() ==> single_ppr(d, #[trigger] part[j])
}

/// An `Unknown` pair.
pub open spec fn unknown_pair(l: Seq<UnitModel>, r: Seq<UnitModel>) -> SequenceModel {
    SequenceModel { status: CorrelationStatus::Unknown, units1: Some(l), units2: Some(r) }
}

/// What follows a common prefix of `ccb` units when both sides go on: the two
/// rests as one `Unknown`, or, when both sides are words whose last common
/// unit starts with a non-mark atom and both rests split at a paragraph mark
/// with tails of the same kind (only marks, or not), the two paragraphs
/// paired separately.
pub open spec fn front_rest(d: Seq<NodeView>, c1: Seq<UnitModel>, c2: Seq<UnitModel>, ccb: int) -> Seq<
    SequenceModel,
> {
    let t1 = c1.skip(ccb);
    let t2 = c2.skip(ccb);
    let whole = seq![unknown_pair(t1, t2)];
    let b1 = model_atoms(c1[ccb - 1]);
    let b2 = model_atoms(c2[ccb - 1]);
    if c1[0] is Word && c2[0] is Word && b1.len() > 0 && b2.len() > 0 && !is_ppr(d, b1[0]) && !is_ppr(
        d,
        b2[0],
    ) {
        match (first_para_start(d, t1), first_para_start(d, t2)) {
            (Some(i), Some(j)) => if only_marks(d, t1.skip(i)) == only_marks(d, t2.skip(j)) {
                seq![unknown_pair(t1.take(i), t2.take(j)), unknown_pair(t1.skip(i), t2.skip(j))]
            } else {
                whole
            },
            _ => whole,
        }
    } else {
        whole
    }
}

/// The split around a common prefix of `ccb` units: the prefix as `Equal`,
/// then what remains of one side as `Deleted` or `Inserted`, or the rests of
/// both as [`front_rest`] states.
pub open spec fn front_split(d: Seq<NodeView>, c1: Seq<UnitModel>, c2: Seq<UnitModel>, ccb: int) -> Seq<
    SequenceModel,
> {
    let eq = SequenceModel {
        status: CorrelationStatus::Equal,
        units1: Some(c1.take(ccb)),
        units2: Some(c2.take(ccb)),
    };
    let rl = c1.len() - ccb;
    let rr = c2.len() - ccb;
    if rl != 0 && rr == 0 {
        seq![eq, SequenceModel { status: CorrelationStatus::Deleted, units1: Some(c1.skip(ccb)), units2: None }]
    } else if rl == 0 && rr != 0 {
        seq![eq, SequenceModel { status: CorrelationStatus::Inserted, units1: None, units2: Some(c2.skip(ccb)) }]
    } else if rl == 0 && rr == 0 {
        seq![eq]
    } else {
        seq![eq] + front_rest(d, c1, c2, ccb)
    }
}

fn all_single_marks(dom: &Dom, part: &[ComparisonUnit]) -> (r: bool)
    ensures
        r == only_marks(dom@, units_model(part@)),
{
    if part.len() == 0 {
        return false;
    }
    let ghost m = units_model(part@);
    let mut i: usize = 0;
    while i < part.len()
        invariant
            m == units_model(part@),
            i <= part@.len(),
            forall|j: int| 0 <= j < i ==> single_ppr(dom@, #[trigger] m[j]),
        decreases part@.len() - i,
    {
        assert(m[i as int] == part@[i as int]@);
        if !unit_is_single_atom_ppr(dom, &part[i]) {
            return false;
        }
        i = i + 1;
    }
    true
}

fn first_atom_not_ppr(dom: &Dom, u: &ComparisonUnit) -> (r: bool)
    ensures
        r == (model_atoms(u@).len() > 0 && !is_ppr(dom@, model_atoms(u@)[0])),
{
    let atoms = u.descendant_atoms();
    if atoms.len() == 0 {
        return false;
    }
    assert(atoms_model(atoms@)[0] == atoms@[0]@);
    !atom_is_ppr(dom, &atoms[0])
}

/// Splits an unresolved pair around its common prefix of `ccb` units, as
/// [`front_split`] states.
pub fn split_common_front(
    dom: &Dom,
    cul1: &[ComparisonUnit],
    cul2: &[ComparisonUnit],
    ccb: usize,
) -> (r: Vec<CorrelatedSequence>)
    requires
        0 < ccb <= cul1@.len(),
        ccb <= cul2@.len(),
    ensures
        sequences_model(r@) == front_split(dom@, units_model(cul1@), units_model(cul2@), ccb as int),
{
    let ghost c1 = units_model(cul1@);
    let ghost c2 = units_model(cul2@);
    let n1 = cul1.len();
    let n2 = cul2.len();
    let mut out: Vec<CorrelatedSequence> = Vec::new();
    let head1 = copy_units(cul1, 0, ccb);
    let head2 = copy_units(cul2, 0, ccb);
    assert(units_model(cul1@.subrange(0, ccb as int)) =~= c1.take(ccb as int));
    assert(units_model(cul2@.subrange(0, ccb as int)) =~= c2.take(ccb as int));
    out.push(CorrelatedSequence::paired(CorrelationStatus::Equal, head1, head2));
    let ghost eq = sequences_model(out@)[0];
    assert(sequences_model(out@) =~= seq![eq]);
    let rem_l = n1 - ccb;
    let rem_r = n2 - ccb;
    let tail1 = copy_units(cul1, ccb, n1);
    let tail2 = copy_units(cul2, ccb, n2);
    assert(units_model(cul1@.subrange(ccb as int, n1 as int)) =~= c1.skip(ccb as int));
    assert(units_model(cul2@.subrange(ccb as int, n2 as int)) =~= c2.skip(ccb as int));
    if rem_l != 0 && rem_r == 0 {
        out.push(CorrelatedSequence::deleted(tail1));
        assert(sequences_model(out@) =~= front_split(dom@, c1, c2, ccb as int));
        return out;
    } else if rem_l == 0 && rem_r != 0 {
        out.push(CorrelatedSequence::inserted(tail2));
        assert(sequences_model(out@) =~= front_split(dom@, c1, c2, ccb as int));
        return out;
    } else if rem_l == 0 && rem_r == 0 {
        return out;
    }
    let ghost t1 = c1.skip(ccb as int);
    let ghost t2 = c2.skip(ccb as int);
    assert(c1[0] == cul1@[0]@ && c2[0] == cul2@[0]@);
    assert(c1[ccb - 1] == cul1@[ccb - 1]@ && c2[ccb - 1] == cul2@[ccb - 1]@);
    let both_words = match (&cul1[0], &cul2[0]) {
        (ComparisonUnit::Word(_), ComparisonUnit::Word(_)) => true,
        _ => false,
    };
    if both_words && first_atom_not_ppr(dom, &cul1[ccb - 1]) && first_atom_not_ppr(
        dom,
        &cul2[ccb - 1],
    ) {
        let mut s1 = split_at_paragraph_mark(dom, &tail1);
        let mut s2 = split_at_paragraph_mark(dom, &tail2);
        if s1.len() == 1 && s2.len() == 1 {
            let a = s1.pop().unwrap();
            let b = s2.pop().unwrap();
            out.push(CorrelatedSequence::paired(CorrelationStatus::Unknown, a, b));
            assert(sequences_model(out@) =~= front_split(dom@, c1, c2, ccb as int));
            return out;
        } else if s1.len() == 2 && s2.len() == 2 {
            let ghost i = first_para_start(dom@, t1)->0;
            let ghost j = first_para_start(dom@, t2)->0;
            let m1 = all_single_marks(dom, &s1[1]);
            let m2 = all_single_marks(dom, &s2[1]);
            if m1 == m2 {
                let b1 = s1.pop().unwrap();
                let a1 = s1.pop().unwrap();
                let b2 = s2.pop().unwrap();
                let a2 = s2.pop().unwrap();
                out.push(CorrelatedSequence::paired(CorrelationStatus::Unknown, a1, a2));
                out.push(CorrelatedSequence::paired(CorrelationStatus::Unknown, b1, b2));
                assert(sequences_model(out@) =~= front_split(dom@, c1, c2, ccb as int));
                return out;
            }
        }
    }
    out.push(CorrelatedSequence::paired(CorrelationStatus::Unknown, tail1, tail2));
    assert(sequences_model(out@) =~= front_split(dom@, c1, c2, ccb as int));
    out
}

/// The number of trailing units of `s` that are words not starting with a
/// paragraph mark.
pub open spec fn trailing_plain_words(d: Seq<NodeView>, s: Seq<UnitModel>) -> int
    decreases s.len(),
{
    if s.len() > 0 && word_starts_without_ppr(d, s.last()) {
        trailing_plain_words(d, s.drop_last()) + 1
    } else {
        0
    }
}

proof fn lemma_trailing_bound(d: Seq<NodeView>, s: Seq<UnitModel>)
    ensures
        0 <= trailing_plain_words(d, s) <= s.len(),
    decreases s.len(),
{
    if s.len() > 0 && word_starts_without_ppr(d, s.last()) {
        lemma_trailing_bound(d, s.drop_last());
    }
}

/// The common tail holds a word first and some unit that is a word starting
/// with a paragraph mark.
pub open spec fn tail_peels(d: Seq<NodeView>, tail: Seq<UnitModel>) -> bool {
    tail.len() > 0 && tail[0] is Word && exists|j: int|
        0 <= j < tail.len() && (#[trigger] tail[j]) is Word && tail[j]->Word_atoms.len() > 0
            && is_ppr(d, tail[j]->Word_atoms[0])
}

/// The split before a common tail of `cce` units: what precedes the partial
/// paragraphs that lead into the tail, then those partial paragraphs (when
/// the tail holds a paragraph mark), each cascaded, then the tail as `Equal`.
pub open spec fn back_split(d: Seq<NodeView>, c1: Seq<UnitModel>, c2: Seq<UnitModel>, cce: int) -> Seq<
    SequenceModel,
> {
    let n1 = c1.len() as int;
    let n2 = c2.len() as int;
    let peel = tail_peels(d, c1.skip(n1 - cce));
    let rl = if peel {
        trailing_plain_words(d, c1.take(n1 - cce))
    } else {
        0
    };
    let rr = if peel {
        trailing_plain_words(d, c2.take(n2 - cce))
    } else {
        0
    };
    let bl = n1 - rl - cce;
    let br = n2 - rr - cce;
    cascade_spec(c1.take(bl), c2.take(br)) + cascade_spec(c1.subrange(bl, bl + rl), c2.subrange(br, br + rr))
        + seq![
        SequenceModel {
            status: CorrelationStatus::Equal,
            units1: Some(c1.skip(n1 - cce)),
            units2: Some(c2.skip(n2 - cce)),
        },
    ]
}

fn count_trailing_plain_words(dom: &Dom, s: &[ComparisonUnit], end: usize) -> (r: usize)
    requires
        end <= s@.len(),
    ensures
        r == trailing_plain_words(dom@, units_model(s@).take(end as int)),
{
    let ghost m = units_model(s@);
    let mut k = end;
    let mut n: usize = 0;
    proof {
        lemma_trailing_bound(dom@, m.take(end as int));
    }
    while k > 0
        invariant
            m == units_model(s@),
            k <= end <= s@.len(),
            n == end - k,
            trailing_plain_words(dom@, m.take(end as int)) == n + trailing_plain_words(
                dom@,
                m.take(k as int),
            ),
        ensures
            trailing_plain_words(dom@, m.take(end as int)) == n,
        decreases k,
    {
        assert(m.take(k as int).drop_last() =~= m.take(k - 1));
        assert(m.take(k as int).last() == s@[k - 1]@);
        if !word_first_not_ppr(dom, &s[k - 1]) {
            break;
        }
        k = k - 1;
        n = n + 1;
        assert(k == 0 ==> m.take(k as int).len() == 0);
    }
    n
}

fn tail_peels_exec(dom: &Dom, cul1: &[ComparisonUnit], from: usize) -> (r: bool)
    requires
        from <= cul1@.len(),
    ensures
        r == tail_peels(dom@, units_model(cul1@).skip(from as int)),
{
    let ghost t = units_model(cul1@).skip(from as int);
    if from >= cul1.len() {
        return false;
    }
    assert(t[0] == cul1@[from as int]@);
    match &cul1[from] {
        ComparisonUnit::Word(_) => {},
        ComparisonUnit::Group(_) => {
            return false;
        },
    }
    let mut j = from;
    while j < cul1.len()
        invariant
            t == units_model(cul1@).skip(from as int),
            t.len() == cul1@.len() - from,
            t.len() > 0 && t[0] is Word,
            from <= j <= cul1@.len(),
            forall|q: int|
                0 <= q < j - from ==> !((#[trigger] t[q]) is Word && t[q]->Word_atoms.len() > 0
                    && is_ppr(dom@, t[q]->Word_atoms[0])),
        decreases cul1@.len() - j,
    {
        assert(t[j - from] == cul1@[j as int]@);
        if unit_first_direct_atom_is_ppr(dom, &cul1[j]) {
            assert(t[j - from] is Word && t[j - from]->Word_atoms.len() > 0 && is_ppr(
                dom@,
                t[j - from]->Word_atoms[0],
            ));
            return true;
        }
        j = j + 1;
    }
    false
}

/// Splits an unresolved pair before its common tail of `cce` units, as
/// [`back_split`] states.
pub fn split_common_back(
    dom: &Dom,
    cul1: &[ComparisonUnit],
    cul2: &[ComparisonUnit],
    cce: usize,
) -> (r: Vec<CorrelatedSequence>)
    requires
        0 < cce <= cul1@.len(),
        cce <= cul2@.len(),
    ensures
        sequences_model(r@) == back_split(dom@, units_model(cul1@), units_model(cul2@), cce as int),
{
    let ghost c1 = units_model(cul1@);
    let ghost c2 = units_model(cul2@);
    let n1 = cul1.len();
    let n2 = cul2.len();
    let peel = tail_peels_exec(dom, cul1, n1 - cce);
    let rem_lp = if peel {
        count_trailing_plain_words(dom, cul1, n1 - cce)
    } else {
        0
    };
    let rem_rp = if peel {
        count_trailing_plain_words(dom, cul2, n2 - cce)
    } else {
        0
    };
    proof {
        lemma_trailing_bound(dom@, c1.take(n1 - cce));
        lemma_trailing_bound(dom@, c2.take(n2 - cce));
    }
    let before_l = n1 - rem_lp - cce;
    let before_r = n2 - rem_rp - cce;
    let mut out: Vec<CorrelatedSequence> = Vec::new();
    let l0 = copy_units(cul1, 0, before_l);
    let r0 = copy_units(cul2, 0, before_r);
    assert(units_model(cul1@.subrange(0, before_l as int)) =~= c1.take(before_l as int));
    assert(units_model(cul2@.subrange(0, before_r as int)) =~= c2.take(before_r as int));
    cascade(l0, r0, &mut out);
    let l1 = copy_units(cul1, before_l, before_l + rem_lp);
    let r1 = copy_units(cul2, before_r, before_r + rem_rp);
    assert(units_model(cul1@.subrange(before_l as int, before_l + rem_lp)) =~= c1.subrange(
        before_l as int,
        before_l + rem_lp,
    ));
    assert(units_model(cul2@.subrange(before_r as int, before_r + rem_rp)) =~= c2.subrange(
        before_r as int,
        before_r + rem_rp,
    ));
    cascade(l1, r1, &mut out);
    let t1 = copy_units(cul1, n1 - cce, n1);
    let t2 = copy_units(cul2, n2 - cce, n2);
    assert(units_model(cul1@.subrange(n1 - cce, n1 as int)) =~= c1.skip(n1 - cce));
    assert(units_model(cul2@.subrange(n2 - cce, n2 as int)) =~= c2.skip(n2 - cce));
    let ghost before = sequences_model(out@);
    out.push(CorrelatedSequence::paired(CorrelationStatus::Equal, t1, t2));
    assert(sequences_model(out@) =~= before.push(sequences_model(out@).last()));
    assert(sequences_model(out@) =~= back_split(dom@, c1, c2, cce as int));
    out
}


proof fn lemma_sides_one(m: SequenceModel)
    ensures
        left_units(seq![m]) == match m.units1 {
            Some(u) => u,
            None => Seq::<UnitModel>::empty(),
        },
        right_units(seq![m]) == match m.units2 {
            Some(u) => u,
            None => Seq::<UnitModel>::empty(),
        },
{
    assert(seq![m].drop_last() =~= Seq::<SequenceModel>::empty());
    assert(left_units(Seq::<SequenceModel>::empty()) =~= Seq::<UnitModel>::empty());
    assert(right_units(Seq::<SequenceModel>::empty()) =~= Seq::<UnitModel>::empty());
    assert(left_units(seq![m]) =~= Seq::<UnitModel>::empty() + match m.units1 {
        Some(u) => u,
        None => Seq::<UnitModel>::empty(),
    });
    assert(right_units(seq![m]) =~= Seq::<UnitModel>::empty() + match m.units2 {
        Some(u) => u,
        None => Seq::<UnitModel>::empty(),
    });
}

proof fn lemma_sides_two(a: SequenceModel, b: SequenceModel)
    ensures
        left_units(seq![a, b]) == left_units(seq![a]) + left_units(seq![b]),
        right_units(seq![a, b]) == right_units(seq![a]) + right_units(seq![b]),
{
    assert(seq![a, b] =~= seq![a] + seq![b]);
    lemma_sides_concat(seq![a], seq![b]);
}

/// Splitting around a common prefix keeps every unit of both sides, in
/// order.
pub proof fn lemma_front_split_keeps_units(
    d: Seq<NodeView>,
    c1: Seq<UnitModel>,
    c2: Seq<UnitModel>,
    ccb: int,
)
    requires
        0 < ccb <= c1.len(),
        ccb <= c2.len(),
    ensures
        left_units(front_split(d, c1, c2, ccb)) == c1,
        right_units(front_split(d, c1, c2, ccb)) == c2,
{
    let eq = SequenceModel {
        status: CorrelationStatus::Equal,
        units1: Some(c1.take(ccb)),
        units2: Some(c2.take(ccb)),
    };
    let t1 = c1.skip(ccb);
    let t2 = c2.skip(ccb);
    lemma_sides_one(eq);
    assert(c1.take(ccb) + t1 =~= c1);
    assert(c2.take(ccb) + t2 =~= c2);
    let rl = c1.len() - ccb;
    let rr = c2.len() - ccb;
    if rl != 0 && rr == 0 {
        let del = SequenceModel { status: CorrelationStatus::Deleted, units1: Some(t1), units2: None };
        lemma_sides_one(del);
        lemma_sides_two(eq, del);
        assert(c2.take(ccb) =~= c2);
        assert(c2.take(ccb) + Seq::<UnitModel>::empty() =~= c2);
    } else if rl == 0 && rr != 0 {
        let ins = SequenceModel { status: CorrelationStatus::Inserted, units1: None, units2: Some(t2) };
        lemma_sides_one(ins);
        lemma_sides_two(eq, ins);
        assert(c1.take(ccb) =~= c1);
        assert(c1.take(ccb) + Seq::<UnitModel>::empty() =~= c1);
    } else if rl == 0 && rr == 0 {
        assert(c1.take(ccb) =~= c1);
        assert(c2.take(ccb) =~= c2);
    } else {
        let rest = front_rest(d, c1, c2, ccb);
        lemma_sides_concat(seq![eq], rest);
        lemma_paragraph_split_rejoins(d, t1);
        lemma_paragraph_split_rejoins(d, t2);
        let whole = unknown_pair(t1, t2);
        lemma_sides_one(whole);
        if rest.len() == 2 {
            let i = first_para_start(d, t1)->0;
            let j = first_para_start(d, t2)->0;
            let a = unknown_pair(t1.take(i), t2.take(j));
            let b = unknown_pair(t1.skip(i), t2.skip(j));
            assert(rest == seq![a, b]);
            lemma_sides_one(a);
            lemma_sides_one(b);
            lemma_sides_two(a, b);
        }
    }
}

/// Splitting before a common tail keeps every unit of both sides, in order.
pub proof fn lemma_back_split_keeps_units(
    d: Seq<NodeView>,
    c1: Seq<UnitModel>,
    c2: Seq<UnitModel>,
    cce: int,
)
    requires
        0 < cce <= c1.len(),
        cce <= c2.len(),
    ensures
        left_units(back_split(d, c1, c2, cce)) == c1,
        right_units(back_split(d, c1, c2, cce)) == c2,
{
    let n1 = c1.len() as int;
    let n2 = c2.len() as int;
    lemma_trailing_bound(d, c1.take(n1 - cce));
    lemma_trailing_bound(d, c2.take(n2 - cce));
    let peel = tail_peels(d, c1.skip(n1 - cce));
    let rl = if peel {
        trailing_plain_words(d, c1.take(n1 - cce))
    } else {
        0
    };
    let rr = if peel {
        trailing_plain_words(d, c2.take(n2 - cce))
    } else {
        0
    };
    let bl = n1 - rl - cce;
    let br = n2 - rr - cce;
    let x = cascade_spec(c1.take(bl), c2.take(br));
    let y = cascade_spec(c1.subrange(bl, bl + rl), c2.subrange(br, br + rr));
    let eq = SequenceModel {
        status: CorrelationStatus::Equal,
        units1: Some(c1.skip(n1 - cce)),
        units2: Some(c2.skip(n2 - cce)),
    };
    lemma_cascade_sides(c1.take(bl), c2.take(br));
    lemma_cascade_sides(c1.subrange(bl, bl + rl), c2.subrange(br, br + rr));
    lemma_sides_one(eq);
    lemma_sides_concat(x, y);
    lemma_sides_concat(x + y, seq![eq]);
    assert(c1.take(bl) + c1.subrange(bl, bl + rl) + c1.skip(n1 - cce) =~= c1);
    assert(c2.take(br) + c2.subrange(br, br + rr) + c2.skip(n2 - cce) =~= c2);
}

// ── common units at the ends of an unresolved pair ─────────────────────────

/// A common run of `n` units is below the detail threshold of `ppm`
/// millionths of the shorter side's `len` units.
pub open spec fn below_detail(n: int, len: int, ppm: int) -> bool {
    n * 1_000_000 < ppm * len
}

/// The units of one side, none when the side is absent.
pub open spec fn side_model(o: Option<Seq<UnitModel>>) -> Seq<UnitModel> {
    match o {
        Some(u) => u,
        None => seq![],
    }
}

/// How an unresolved pair resolves around the units common to both sides:
/// around a common beginning that reaches the detail threshold, else around a
/// common end that reaches it and is more than the paragraph mark; none
/// when neither does.
pub open spec fn common_ends(d: Seq<NodeView>, s: SequenceModel, ppm: int) -> Option<Seq<SequenceModel>> {
    let c1 = side_model(s.units1);
    let c2 = side_model(s.units2);
    let len = if c1.len() < c2.len() { c1.len() as int } else { c2.len() as int };
    let ccb = prefix_from(c1, c2, 0);
    if ccb != 0 && !below_detail(ccb, len, ppm) {
        Some(front_split(d, c1, c2, ccb))
    } else {
        let (cce, only_mark) = common_tail(d, c1, c2);
        if only_mark || cce == 0 || below_detail(cce, len, ppm) {
            None
        } else {
            Some(back_split(d, c1, c2, cce))
        }
    }
}

fn side_slice(o: &Option<Vec<ComparisonUnit>>) -> (r: &[ComparisonUnit])
    ensures
        units_model(r@) == side_model(crate::comparer::atoms::opt_units_model(*o)),
{
    match o {
        Some(v) => v.as_slice(),
        None => {
            let e: &[ComparisonUnit] = &[];
            assert(units_model(e@) =~= Seq::<UnitModel>::empty());
            e
        },
    }
}

fn below_detail_exec(n: usize, len: usize, ppm: u32) -> (r: bool)
    ensures
        r == below_detail(n as int, len as int, ppm as int),
{
    let a: u128 = (n as u128) * 1_000_000u128;
    assert(ppm as int * len as int <= 0xffff_ffff * 0xffff_ffff_ffff_ffff) by (nonlinear_arith)
        requires
            ppm <= 0xffff_ffff,
            len <= 0xffff_ffff_ffff_ffff,
    ;
    let b: u128 = (ppm as u128) * (len as u128);
    a < b
}

/// Resolves an unresolved pair around its common units at the beginning, or
/// else at the end, when the common run reaches the detail threshold
/// (`detail_threshold_ppm` millionths of the shorter side); `None` when
/// neither qualifies.
pub fn find_common_at_beginning_and_end(dom: &Dom, unknown: &CorrelatedSequence, detail_threshold_ppm: u32) -> (r: Option<
    Vec<CorrelatedSequence>,
>)
    ensures
        match r {
            Some(v) => common_ends(dom@, unknown@, detail_threshold_ppm as int) == Some(sequences_model(v@)),
            None => common_ends(dom@, unknown@, detail_threshold_ppm as int) is None,
        },
{
    let cul1 = side_slice(&unknown.com_units_1);
    let cul2 = side_slice(&unknown.com_units_2);
    let len = if cul1.len() < cul2.len() {
        cul1.len()
    } else {
        cul2.len()
    };
    proof {
        assert(units_model(cul1@).len() == cul1@.len());
        assert(units_model(cul2@).len() == cul2@.len());
    }
    let ccb = common_prefix_len(cul1, cul2);
    if ccb != 0 && !below_detail_exec(ccb, len, detail_threshold_ppm) {
        return Some(split_common_front(dom, cul1, cul2, ccb));
    }
    let (cce, only_mark) = common_suffix_len(dom, cul1, cul2);
    if only_mark || cce == 0 || below_detail_exec(cce, len, detail_threshold_ppm) {
        return None;
    }
    Some(split_common_back(dom, cul1, cul2, cce))
}

/// Resolving an owned sequence agrees with resolving a borrowed one: the
/// owned form succeeds exactly when the borrowed form does, with the same
/// sequences, and on a decline hands back the sequence unchanged.
pub proof fn lemma_owned_resolution_agrees(
    unknown: CorrelatedSequence,
    borrowed: Option<Vec<CorrelatedSequence>>,
    owned: Result<Vec<CorrelatedSequence>, CorrelatedSequence>,
)
    requires
        match borrowed {
            None => correlated_resolution(unknown) is None,
            Some(out) => correlated_resolution(unknown) == Some(sequences_model(out@)),
        },
        match owned {
            Err(back) => correlated_resolution(unknown) is None && back == unknown,
            Ok(out) => correlated_resolution(unknown) == Some(sequences_model(out@)),
        },
    ensures
        (owned is Ok) == (borrowed is Some),
        owned matches Ok(o) ==> borrowed matches Some(b) && sequences_model(o@) == sequences_model(b@),
        owned matches Err(back) ==> back == unknown,
{
}


/// Two documents that share any paragraph, table or row group, at whatever
/// positions, are not unrelated: a group hash of one side that is a group
/// hash of the other rules out replacing them whole.
pub proof fn lemma_shared_group_means_related(c1: Seq<UnitModel>, c2: Seq<UnitModel>, i: int, j: int)
    requires
        0 <= i < group_hashes(c1).len(),
        0 <= j < group_hashes(c2).len(),
        group_hashes(c1)[i] == group_hashes(c2)[j],
    ensures
        !groups_fully_disjoint(c1, c2),
{
}

/// Two documents with at least four groups each, no group hash of one being
/// a group hash of the other, are unrelated; whether they are does not
/// depend on which side is which.
pub proof fn lemma_no_shared_group_means_unrelated(c1: Seq<UnitModel>, c2: Seq<UnitModel>)
    requires
        group_hashes(c1).len() > 3,
        group_hashes(c2).len() > 3,
        forall|i: int, j: int|
            0 <= i < group_hashes(c1).len() && 0 <= j < group_hashes(c2).len() ==> group_hashes(c1)[i]
                != group_hashes(c2)[j],
    ensures
        groups_fully_disjoint(c1, c2),
        groups_fully_disjoint(c2, c1),
{
}

} // verus!
