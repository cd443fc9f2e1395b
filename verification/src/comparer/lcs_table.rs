//! Table-row alignment: the classic dynamic-programming LCS over rows keyed
//! on their content hash, and the positional row pairings.

use vstd::prelude::*;

use super::atoms::{
    ComparisonUnit, ComparisonUnitAtom, ComparisonUnitGroup, CorrelatedSequence, SequenceModel,
    UnitModel, atoms_model, copy_units, lemma_models_atoms_step, model_atoms, models_atoms,
    sequences_model, units_model,
};
use super::lcs::{as_group, left_units, right_units};
use crate::namespaces::{w_name, W};
use crate::xml::{
    attached, descendants_of, detached, has_name, with_attr, Dom, KindView, NodeId, NodeView, XName,
    XNameView,
};
use super::grid::fresh_element;
use super::lists::child_named;
use crate::text::{decimal, u64_to_decimal};
use super::ComparisonUnitGroupType;
use crate::text::str_eq;
use super::CorrelationStatus;

verus! {

/// Length of the longest common subsequence of the hashes of `a[..i]` and
/// `b[..j]`, by the standard recurrence.
pub open spec fn lcs_len(a: Seq<UnitModel>, b: Seq<UnitModel>, i: int, j: int) -> nat
    decreases (if i < 0 { 0 } else { i }) + (if j < 0 { 0 } else { j }),
{
    if i <= 0 || j <= 0 {
        0
    } else if a[i - 1].sha1() == b[j - 1].sha1() {
        lcs_len(a, b, i - 1, j - 1) + 1
    } else {
        let x = lcs_len(a, b, i - 1, j);
        let y = lcs_len(a, b, i, j - 1);
        if x >= y {
            x
        } else {
            y
        }
    }
}

/// The matched row pairs of the LCS, walked back from `(i, j)`: equal hashes
/// match; otherwise the walk steps left in `b` (an insertion) when that keeps
/// the LCS length at least as long, else up in `a` (a deletion). Pairs come
/// out in ascending order.
pub open spec fn trace_matches(a: Seq<UnitModel>, b: Seq<UnitModel>, i: int, j: int) -> Seq<
    (int, int),
>
    decreases (if i < 0 { 0 } else { i }) + (if j < 0 { 0 } else { j }),
{
    if i <= 0 && j <= 0 {
        seq![]
    } else if i > 0 && j > 0 && a[i - 1].sha1() == b[j - 1].sha1() {
        trace_matches(a, b, i - 1, j - 1).push((i - 1, j - 1))
    } else if j > 0 && (i <= 0 || lcs_len(a, b, i, j - 1) >= lcs_len(a, b, i - 1, j)) {
        trace_matches(a, b, i, j - 1)
    } else {
        trace_matches(a, b, i - 1, j)
    }
}

/// One `Deleted` sequence per row of `a[lo..hi]`.
pub open spec fn deleted_rows(a: Seq<UnitModel>, lo: int, hi: int) -> Seq<SequenceModel> {
    Seq::new(
        (hi - lo) as nat,
        |k: int|
            SequenceModel {
                status: CorrelationStatus::Deleted,
                units1: Some(seq![a[lo + k]]),
                units2: None,
            },
    )
}

/// One `Inserted` sequence per row of `b[lo..hi]`.
pub open spec fn inserted_rows(b: Seq<UnitModel>, lo: int, hi: int) -> Seq<SequenceModel> {
    Seq::new(
        (hi - lo) as nat,
        |k: int|
            SequenceModel {
                status: CorrelationStatus::Inserted,
                units1: None,
                units2: Some(seq![b[lo + k]]),
            },
    )
}

/// An `Unknown` pair of one row from each side.
pub open spec fn paired_rows(a: Seq<UnitModel>, b: Seq<UnitModel>, x: int, y: int) -> SequenceModel {
    SequenceModel {
        status: CorrelationStatus::Unknown,
        units1: Some(seq![a[x]]),
        units2: Some(seq![b[y]]),
    }
}

/// Where the gap after the first `k` matches starts.
pub open spec fn gap_start(ms: Seq<(int, int)>, k: int) -> (int, int) {
    if k <= 0 {
        (0, 0)
    } else {
        (ms[k - 1].0 + 1, ms[k - 1].1 + 1)
    }
}

/// The script up to and including the `k`-th match: for each match, the rows
/// of the gap before it deleted, then inserted, then the pair itself.
pub open spec fn script_prefix(a: Seq<UnitModel>, b: Seq<UnitModel>, ms: Seq<(int, int)>, k: int) -> Seq<
    SequenceModel,
>
    decreases k,
{
    if k <= 0 {
        seq![]
    } else {
        let (pi, pj) = gap_start(ms, k - 1);
        script_prefix(a, b, ms, k - 1) + deleted_rows(a, pi, ms[k - 1].0) + inserted_rows(
            b,
            pj,
            ms[k - 1].1,
        ) + seq![paired_rows(a, b, ms[k - 1].0, ms[k - 1].1)]
    }
}

/// The row script for the matched pairs `ms`: every gap's deletions before its
/// insertions, each gap followed by its pair, and the tail gap last.
pub open spec fn table_script(a: Seq<UnitModel>, b: Seq<UnitModel>, ms: Seq<(int, int)>) -> Seq<
    SequenceModel,
> {
    let (pi, pj) = gap_start(ms, ms.len() as int);
    script_prefix(a, b, ms, ms.len() as int) + deleted_rows(a, pi, a.len() as int) + inserted_rows(
        b,
        pj,
        b.len() as int,
    )
}

/// `ms` is a strictly increasing list of row pairs inside `a` and `b` whose
/// rows carry equal hashes.
pub open spec fn valid_matches(a: Seq<UnitModel>, b: Seq<UnitModel>, ms: Seq<(int, int)>) -> bool {
    &&& forall|k: int|
        0 <= k < ms.len() ==> 0 <= (#[trigger] ms[k]).0 < a.len() && 0 <= ms[k].1 < b.len()
            && a[ms[k].0].sha1() == b[ms[k].1].sha1()
    &&& forall|k: int|
        0 < k < ms.len() ==> (#[trigger] ms[k]).0 > ms[k - 1].0 && ms[k].1 > ms[k - 1].1
}

proof fn lemma_trace_valid(a: Seq<UnitModel>, b: Seq<UnitModel>, i: int, j: int)
    requires
        0 <= i <= a.len(),
        0 <= j <= b.len(),
    ensures
        valid_matches(a, b, trace_matches(a, b, i, j)),
        trace_matches(a, b, i, j).len() == lcs_len(a, b, i, j),
        forall|k: int|
            0 <= k < trace_matches(a, b, i, j).len() ==> (#[trigger] trace_matches(a, b, i, j)[k]).0
                < i && trace_matches(a, b, i, j)[k].1 < j,
    decreases i + j,
{
    if i <= 0 && j <= 0 {
    } else if i > 0 && j > 0 && a[i - 1].sha1() == b[j - 1].sha1() {
        lemma_trace_valid(a, b, i - 1, j - 1);
    } else if j > 0 && (i <= 0 || lcs_len(a, b, i, j - 1) >= lcs_len(a, b, i - 1, j)) {
        lemma_trace_valid(a, b, i, j - 1);
    } else {
        lemma_trace_valid(a, b, i - 1, j);
    }
}

/// The hash-equal rows that the standard LCS walk matches.
fn trace_back(rows1: &[ComparisonUnit], rows2: &[ComparisonUnit], table: &Vec<usize>, w: usize) -> (r:
    Vec<(usize, usize)>)
    requires
        w == rows2@.len() + 1,
        (rows1@.len() + 1) * w == table@.len(),
        forall|p: int, q: int|
            0 <= p <= rows1@.len() && 0 <= q <= rows2@.len() ==> #[trigger] table@[p * w + q]
                == lcs_len(units_model(rows1@), units_model(rows2@), p, q),
    ensures
        r@.map_values(|x: (usize, usize)| (x.0 as int, x.1 as int)) == trace_matches(
            units_model(rows1@),
            units_model(rows2@),
            rows1@.len() as int,
            rows2@.len() as int,
        ),
{
    let ghost a = units_model(rows1@);
    let ghost b = units_model(rows2@);
    let m = rows1.len();
    let n = rows2.len();
    let tl = table.len();
    let mut ii = m;
    let mut jj = n;
    let mut rev: Vec<(usize, usize)> = Vec::new();
    proof {
        lemma_trace_valid(a, b, m as int, n as int);
    }
    while ii > 0 || jj > 0
        invariant
            a == units_model(rows1@),
            b == units_model(rows2@),
            m == rows1@.len(),
            n == rows2@.len(),
            w == n + 1,
            (m + 1) * w == table@.len(),
            tl == table@.len(),
            forall|p: int, q: int|
                0 <= p <= m && 0 <= q <= n ==> #[trigger] table@[p * w + q] == lcs_len(a, b, p, q),
            ii <= m,
            jj <= n,
            trace_matches(a, b, m as int, n as int) == trace_matches(
                a,
                b,
                ii as int,
                jj as int,
            ) + rev@.reverse().map_values(|x: (usize, usize)| (x.0 as int, x.1 as int)),
        decreases ii + jj,
    {
        let ghost before = rev@;
        if ii > 0 && jj > 0 && str_eq(rows1[ii - 1].sha1(), rows2[jj - 1].sha1()) {
            assert(a[ii - 1] == rows1@[ii - 1]@ && b[jj - 1] == rows2@[jj - 1]@);
            rev.push((ii - 1, jj - 1));
            proof {
                assert(rev@.reverse() =~= seq![((ii - 1) as usize, (jj - 1) as usize)] + before.reverse());
                assert(rev@.reverse().map_values(|x: (usize, usize)| (x.0 as int, x.1 as int))
                    =~= seq![((ii - 1) as int, (jj - 1) as int)] + before.reverse().map_values(
                    |x: (usize, usize)| (x.0 as int, x.1 as int),
                ));
            }
            ii = ii - 1;
            jj = jj - 1;
        } else {
            proof {
                if ii > 0 && jj > 0 {
                    assert(a[ii - 1] == rows1@[ii - 1]@ && b[jj - 1] == rows2@[jj - 1]@);
                }
            }
            let take_insert = if jj > 0 {
                if ii == 0 {
                    true
                } else {
                    proof {
                        lemma_cell_index(ii as int, (jj - 1) as int, w as int, m as int);
                        lemma_cell_index((ii - 1) as int, jj as int, w as int, m as int);
                    }
                    let left = table[ii * w + (jj - 1)];
                    let up = table[(ii - 1) * w + jj];
                    left >= up
                }
            } else {
                false
            };
            if take_insert {
                jj = jj - 1;
            } else {
                ii = ii - 1;
            }
        }
    }
    let mut r: Vec<(usize, usize)> = Vec::new();
    let mut k: usize = rev.len();
    while k > 0
        invariant
            k <= rev@.len(),
            r@ == rev@.reverse().take((rev@.len() - k) as int),
        decreases k,
    {
        k = k - 1;
        r.push(rev[k]);
        assert(rev@.reverse().take((rev@.len() - k) as int) =~= rev@.reverse().take(
            (rev@.len() - k - 1) as int,
        ).push(rev@[k as int]));
    }
    assert(rev@.reverse().take(rev@.len() as int) =~= rev@.reverse());
    assert(trace_matches(a, b, 0, 0) =~= seq![]);
    assert(trace_matches(a, b, m as int, n as int) =~= r@.map_values(
        |x: (usize, usize)| (x.0 as int, x.1 as int),
    ));
    r
}

proof fn lemma_cell_index(p: int, q: int, w: int, m: int)
    requires
        0 <= p <= m,
        0 <= q < w,
    ensures
        0 <= p * w,
        p * w <= p * w + q,
        p * w + q < (m + 1) * w,
{
    assert(0 <= p * w) by (nonlinear_arith)
        requires
            0 <= p,
            0 <= q < w,
    ;
    assert(p * w + q < (m + 1) * w) by (nonlinear_arith)
        requires
            0 <= p <= m,
            0 <= q < w,
    ;
}

proof fn lemma_cell_index_injective(p1: int, q1: int, p2: int, q2: int, w: int)
    requires
        0 <= p1,
        0 <= p2,
        0 <= q1 < w,
        0 <= q2 < w,
        p1 * w + q1 == p2 * w + q2,
    ensures
        p1 == p2,
        q1 == q2,
{
    assert(p1 == p2) by (nonlinear_arith)
        requires
            0 <= p1,
            0 <= p2,
            0 <= q1 < w,
            0 <= q2 < w,
            p1 * w + q1 == p2 * w + q2,
    ;
}

/// The LCS-length table of the row hashes, row-major with width `n + 1`.
fn lcs_length_table(rows1: &[ComparisonUnit], rows2: &[ComparisonUnit]) -> (table: Vec<usize>)
    requires
        (rows1@.len() + 1) * (rows2@.len() + 1) <= usize::MAX,
    ensures
        (rows1@.len() + 1) * (rows2@.len() + 1) == table@.len(),
        forall|p: int, q: int|
            0 <= p <= rows1@.len() && 0 <= q <= rows2@.len() ==> #[trigger] table@[p * (
            rows2@.len() + 1) + q] == lcs_len(units_model(rows1@), units_model(rows2@), p, q),
{
    let ghost a = units_model(rows1@);
    let ghost b = units_model(rows2@);
    let m = rows1.len();
    let n = rows2.len();
    proof {
        assert((rows2@.len() + 1) <= (rows1@.len() + 1) * (rows2@.len() + 1)) by (nonlinear_arith)
            requires
                rows1@.len() >= 0,
                rows2@.len() >= 0,
        ;
        assert((rows1@.len() + 1) <= (rows1@.len() + 1) * (rows2@.len() + 1)) by (nonlinear_arith)
            requires
                rows1@.len() >= 0,
                rows2@.len() >= 0,
        ;
    }
    let w = n + 1;
    let size = (m + 1) * w;
    let mut table: Vec<usize> = Vec::new();
    while table.len() < size
        invariant
            table@.len() <= size,
            forall|k: int| 0 <= k < table@.len() ==> #[trigger] table@[k] == 0,
        decreases size - table@.len(),
    {
        table.push(0);
    }
    proof {
        assert forall|p: int, q: int|
            0 <= p <= m && 0 <= q <= n && (p == 0 || q == 0 || p < 1) implies #[trigger] table@[p
                * w + q] == lcs_len(a, b, p, q) by {
            lemma_cell_index(p, q, w as int, m as int);
        }
    }
    let mut i: usize = 1;
    while i <= m
        invariant
            a == units_model(rows1@),
            b == units_model(rows2@),
            m == rows1@.len(),
            n == rows2@.len(),
            w == n + 1,
            size == (m + 1) * w,
            m + 1 <= size,
            table@.len() == size,
            1 <= i <= m + 1,
            forall|p: int, q: int|
                0 <= p <= m && 0 <= q <= n && (p == 0 || q == 0 || p < i) ==> #[trigger] table@[p
                    * w + q] == lcs_len(a, b, p, q),
        decreases m + 1 - i,
    {
        let mut j: usize = 1;
        while j <= n
            invariant
                a == units_model(rows1@),
                b == units_model(rows2@),
                m == rows1@.len(),
                n == rows2@.len(),
                w == n + 1,
                size == (m + 1) * w,
                table@.len() == size,
                1 <= i <= m,
                1 <= j <= n + 1,
                forall|p: int, q: int|
                    0 <= p <= m && 0 <= q <= n && (p == 0 || q == 0 || p < i || (p == i && q < j))
                        ==> #[trigger] table@[p * w + q] == lcs_len(a, b, p, q),
            decreases n + 1 - j,
        {
            proof {
                lemma_cell_index(i as int, j as int, w as int, m as int);
                lemma_cell_index((i - 1) as int, (j - 1) as int, w as int, m as int);
                lemma_cell_index((i - 1) as int, j as int, w as int, m as int);
                lemma_cell_index(i as int, (j - 1) as int, w as int, m as int);
            }
            let v = if str_eq(rows1[i - 1].sha1(), rows2[j - 1].sha1()) {
                assert(a[i - 1] == rows1@[i - 1]@ && b[j - 1] == rows2@[j - 1]@);
                let d = table[(i - 1) * w + (j - 1)];
                proof {
                    assert(d == lcs_len(a, b, i - 1, j - 1));
                    assert(lcs_len(a, b, i - 1, j - 1) <= i - 1) by {
                        lemma_lcs_len_bound(a, b, i - 1, j - 1);
                    }
                }
                d + 1
            } else {
                assert(a[i - 1] == rows1@[i - 1]@ && b[j - 1] == rows2@[j - 1]@);
                let x = table[(i - 1) * w + j];
                let y = table[i * w + (j - 1)];
                if x >= y {
                    x
                } else {
                    y
                }
            };
            let ghost old_table = table@;
            table.set(i * w + j, v);
            proof {
                assert forall|p: int, q: int|
                    0 <= p <= m && 0 <= q <= n && (p == 0 || q == 0 || p < i || (p == i && q < j
                        + 1)) implies #[trigger] table@[p * w + q] == lcs_len(a, b, p, q) by {
                    lemma_cell_index(p, q, w as int, m as int);
                    if p * w + q == i * w + j {
                        lemma_cell_index_injective(p, q, i as int, j as int, w as int);
                    } else {
                        assert(table@[p * w + q] == old_table[p * w + q]);
                        if p == i && q == j {
                        }
                    }
                }
            }
            j = j + 1;
        }
        i = i + 1;
    }
    table
}

proof fn lemma_lcs_len_bound(a: Seq<UnitModel>, b: Seq<UnitModel>, i: int, j: int)
    ensures
        lcs_len(a, b, i, j) <= if i < 0 { 0 } else { i },
    decreases i + j,
{
    if i <= 0 || j <= 0 {
    } else if a[i - 1].sha1() == b[j - 1].sha1() {
        lemma_lcs_len_bound(a, b, i - 1, j - 1);
    } else {
        lemma_lcs_len_bound(a, b, i - 1, j);
        lemma_lcs_len_bound(a, b, i, j - 1);
    }
}

} // verus!

verus! {

fn one_unit(u: &ComparisonUnit) -> (r: Vec<ComparisonUnit>)
    ensures
        units_model(r@) == seq![u@],
{
    let mut v: Vec<ComparisonUnit> = Vec::new();
    v.push(u.clone());
    assert(units_model(v@) =~= seq![u@]);
    v
}

/// Pushes the script of `ms` for the two row lists.
fn emit_table_script(
    rows1: &[ComparisonUnit],
    rows2: &[ComparisonUnit],
    ms: &Vec<(usize, usize)>,
    out: &mut Vec<CorrelatedSequence>,
)
    requires
        valid_matches(
            units_model(rows1@),
            units_model(rows2@),
            ms@.map_values(|x: (usize, usize)| (x.0 as int, x.1 as int)),
        ),
        old(out)@.len() == 0,
    ensures
        sequences_model(final(out)@) == table_script(
            units_model(rows1@),
            units_model(rows2@),
            ms@.map_values(|x: (usize, usize)| (x.0 as int, x.1 as int)),
        ),
{
    let ghost a = units_model(rows1@);
    let ghost b = units_model(rows2@);
    let ghost mv = ms@.map_values(|x: (usize, usize)| (x.0 as int, x.1 as int));
    let mut pi: usize = 0;
    let mut pj: usize = 0;
    let mut k: usize = 0;
    while k < ms.len()
        invariant
            a == units_model(rows1@),
            b == units_model(rows2@),
            mv == ms@.map_values(|x: (usize, usize)| (x.0 as int, x.1 as int)),
            valid_matches(a, b, mv),
            k <= ms@.len(),
            (pi as int, pj as int) == gap_start(mv, k as int),
            pi <= rows1@.len(),
            pj <= rows2@.len(),
            sequences_model(out@) == script_prefix(a, b, mv, k as int),
        decreases ms@.len() - k,
    {
        let (x, y) = ms[k];
        assert(mv[k as int] == (x as int, y as int));
        let ghost base = sequences_model(out@);
        while pi < x
            invariant
                a == units_model(rows1@),
                b == units_model(rows2@),
                x < rows1@.len(),
                pi <= x,
                gap_start(mv, k as int).0 <= pi,
                sequences_model(out@) == base + deleted_rows(a, gap_start(mv, k as int).0, pi as int),
            decreases x - pi,
        {
            let ghost before = out@;
            out.push(CorrelatedSequence::deleted(one_unit(&rows1[pi])));
            assert(a[pi as int] == rows1@[pi as int]@);
            assert(sequences_model(out@) =~= sequences_model(before).push(out@.last()@));
            assert(deleted_rows(a, gap_start(mv, k as int).0, pi + 1) =~= deleted_rows(
                a,
                gap_start(mv, k as int).0,
                pi as int,
            ).push(
                SequenceModel {
                    status: CorrelationStatus::Deleted,
                    units1: Some(seq![a[pi as int]]),
                    units2: None,
                },
            ));
            pi = pi + 1;
        }
        let ghost base2 = sequences_model(out@);
        while pj < y
            invariant
                a == units_model(rows1@),
                b == units_model(rows2@),
                y < rows2@.len(),
                pj <= y,
                gap_start(mv, k as int).1 <= pj,
                sequences_model(out@) == base2 + inserted_rows(b, gap_start(mv, k as int).1, pj as int),
            decreases y - pj,
        {
            let ghost before = out@;
            out.push(CorrelatedSequence::inserted(one_unit(&rows2[pj])));
            assert(b[pj as int] == rows2@[pj as int]@);
            assert(sequences_model(out@) =~= sequences_model(before).push(out@.last()@));
            assert(inserted_rows(b, gap_start(mv, k as int).1, pj + 1) =~= inserted_rows(
                b,
                gap_start(mv, k as int).1,
                pj as int,
            ).push(
                SequenceModel {
                    status: CorrelationStatus::Inserted,
                    units1: None,
                    units2: Some(seq![b[pj as int]]),
                },
            ));
            pj = pj + 1;
        }
        let ghost before = out@;
        out.push(
            CorrelatedSequence::paired(
                CorrelationStatus::Unknown,
                one_unit(&rows1[x]),
                one_unit(&rows2[y]),
            ),
        );
        assert(a[x as int] == rows1@[x as int]@ && b[y as int] == rows2@[y as int]@);
        assert(sequences_model(out@) =~= sequences_model(before).push(out@.last()@));
        assert(sequences_model(out@) =~= script_prefix(a, b, mv, k + 1));
        pi = x + 1;
        pj = y + 1;
        k = k + 1;
    }
    let ghost base = sequences_model(out@);
    let n1 = rows1.len();
    let n2 = rows2.len();
    while pi < n1
        invariant
            a == units_model(rows1@),
            n1 == rows1@.len(),
            pi <= n1,
            gap_start(mv, mv.len() as int).0 <= pi,
            sequences_model(out@) == base + deleted_rows(a, gap_start(mv, mv.len() as int).0, pi as int),
        decreases n1 - pi,
    {
        let ghost before = out@;
        out.push(CorrelatedSequence::deleted(one_unit(&rows1[pi])));
        assert(a[pi as int] == rows1@[pi as int]@);
        assert(sequences_model(out@) =~= sequences_model(before).push(out@.last()@));
        assert(deleted_rows(a, gap_start(mv, mv.len() as int).0, pi + 1) =~= deleted_rows(
            a,
            gap_start(mv, mv.len() as int).0,
            pi as int,
        ).push(
            SequenceModel {
                status: CorrelationStatus::Deleted,
                units1: Some(seq![a[pi as int]]),
                units2: None,
            },
        ));
        pi = pi + 1;
    }
    let ghost base2 = sequences_model(out@);
    while pj < n2
        invariant
            b == units_model(rows2@),
            n2 == rows2@.len(),
            pj <= n2,
            gap_start(mv, mv.len() as int).1 <= pj,
            sequences_model(out@) == base2 + inserted_rows(b, gap_start(mv, mv.len() as int).1, pj as int),
        decreases n2 - pj,
    {
        let ghost before = out@;
        out.push(CorrelatedSequence::inserted(one_unit(&rows2[pj])));
        assert(b[pj as int] == rows2@[pj as int]@);
        assert(sequences_model(out@) =~= sequences_model(before).push(out@.last()@));
        assert(inserted_rows(b, gap_start(mv, mv.len() as int).1, pj + 1) =~= inserted_rows(
            b,
            gap_start(mv, mv.len() as int).1,
            pj as int,
        ).push(
            SequenceModel {
                status: CorrelationStatus::Inserted,
                units1: None,
                units2: Some(seq![b[pj as int]]),
            },
        ));
        pj = pj + 1;
    }
}

/// The row alignment of two tables: the standard LCS of the row hashes,
/// walked back with insertions preferred on ties. Between consecutive matched
/// rows the unmatched original rows come first as `Deleted`, then the
/// unmatched revised rows as `Inserted`; each matched pair is an `Unknown`
/// sequence of one row per side.
pub fn apply_lcs_to_table_rows(rows1: &[ComparisonUnit], rows2: &[ComparisonUnit]) -> (r: Vec<
    CorrelatedSequence,
>)
    requires
        (rows1@.len() + 1) * (rows2@.len() + 1) <= usize::MAX,
    ensures
        sequences_model(r@) == table_script(
            units_model(rows1@),
            units_model(rows2@),
            trace_matches(
                units_model(rows1@),
                units_model(rows2@),
                rows1@.len() as int,
                rows2@.len() as int,
            ),
        ),
{
    let table = lcs_length_table(rows1, rows2);
    proof {
        assert((rows2@.len() + 1) <= (rows1@.len() + 1) * (rows2@.len() + 1)) by (nonlinear_arith)
            requires
                rows1@.len() >= 0,
                rows2@.len() >= 0,
        ;
    }
    let w = rows2.len() + 1;
    let ms = trace_back(rows1, rows2, &table, w);
    proof {
        lemma_trace_valid(
            units_model(rows1@),
            units_model(rows2@),
            rows1@.len() as int,
            rows2@.len() as int,
        );
    }
    let mut result: Vec<CorrelatedSequence> = Vec::new();
    if rows1.len() == 0 && rows2.len() == 0 {
        assert(sequences_model(result@) =~= table_script(
            units_model(rows1@),
            units_model(rows2@),
            trace_matches(units_model(rows1@), units_model(rows2@), 0, 0),
        ));
        return result;
    }
    emit_table_script(rows1, rows2, &ms, &mut result);
    result
}

} // verus!

verus! {

/// Number of `Unknown` sequences in `s`.
pub open spec fn count_unknown(s: Seq<SequenceModel>) -> nat
    decreases s.len(),
{
    if s.len() == 0 {
        0
    } else {
        count_unknown(s.drop_last()) + if s.last().status == CorrelationStatus::Unknown {
            1nat
        } else {
            0nat
        }
    }
}

/// Every `Unknown` sequence of `s` pairs one row per side, both with the
/// same hash.
pub open spec fn unknowns_pair_equal_rows(s: Seq<SequenceModel>) -> bool {
    forall|k: int|
        0 <= k < s.len() && (#[trigger] s[k]).status == CorrelationStatus::Unknown ==> {
            &&& s[k].units1 is Some
            &&& s[k].units2 is Some
            &&& s[k].units1.unwrap().len() == 1
            &&& s[k].units2.unwrap().len() == 1
            &&& s[k].units1.unwrap()[0].sha1() == s[k].units2.unwrap()[0].sha1()
        }
}

proof fn lemma_count_unknown_concat(x: Seq<SequenceModel>, y: Seq<SequenceModel>)
    ensures
        count_unknown(x + y) == count_unknown(x) + count_unknown(y),
    decreases y.len(),
{
    if y.len() == 0 {
        assert(x + y =~= x);
    } else {
        lemma_count_unknown_concat(x, y.drop_last());
        assert((x + y).drop_last() =~= x + y.drop_last());
    }
}

proof fn lemma_rows_read(a: Seq<UnitModel>, b: Seq<UnitModel>, lo: int, hi: int)
    requires
        0 <= lo <= hi,
    ensures
        hi <= a.len() ==> left_units(deleted_rows(a, lo, hi)) == a.subrange(lo, hi),
        right_units(deleted_rows(a, lo, hi)) == Seq::<UnitModel>::empty(),
        count_unknown(deleted_rows(a, lo, hi)) == 0,
        unknowns_pair_equal_rows(deleted_rows(a, lo, hi)),
        hi <= b.len() ==> right_units(inserted_rows(b, lo, hi)) == b.subrange(lo, hi),
        left_units(inserted_rows(b, lo, hi)) == Seq::<UnitModel>::empty(),
        count_unknown(inserted_rows(b, lo, hi)) == 0,
        unknowns_pair_equal_rows(inserted_rows(b, lo, hi)),
    decreases hi - lo,
{
    if hi > lo {
        lemma_rows_read(a, b, lo, hi - 1);
        assert(deleted_rows(a, lo, hi).drop_last() =~= deleted_rows(a, lo, hi - 1));
        assert(inserted_rows(b, lo, hi).drop_last() =~= inserted_rows(b, lo, hi - 1));
        if hi <= a.len() {
            assert(a.subrange(lo, hi - 1) + seq![a[hi - 1]] =~= a.subrange(lo, hi));
        }
        if hi <= b.len() {
            assert(b.subrange(lo, hi - 1) + seq![b[hi - 1]] =~= b.subrange(lo, hi));
        }
        assert(Seq::<UnitModel>::empty() + Seq::<UnitModel>::empty() =~= Seq::<UnitModel>::empty());
    } else {
        assert(deleted_rows(a, lo, hi) =~= Seq::<SequenceModel>::empty());
        assert(inserted_rows(b, lo, hi) =~= Seq::<SequenceModel>::empty());
        if hi <= a.len() {
            assert(a.subrange(lo, hi) =~= Seq::<UnitModel>::empty());
        }
        if hi <= b.len() {
            assert(b.subrange(lo, hi) =~= Seq::<UnitModel>::empty());
        }
    }
}

proof fn lemma_pair_concat(x: Seq<SequenceModel>, y: Seq<SequenceModel>)
    requires
        unknowns_pair_equal_rows(x),
        unknowns_pair_equal_rows(y),
    ensures
        unknowns_pair_equal_rows(x + y),
{
    assert forall|k: int|
        0 <= k < (x + y).len() && (#[trigger] (x + y)[k]).status
            == CorrelationStatus::Unknown implies {
        &&& (x + y)[k].units1 is Some
        &&& (x + y)[k].units2 is Some
        &&& (x + y)[k].units1.unwrap().len() == 1
        &&& (x + y)[k].units2.unwrap().len() == 1
        &&& (x + y)[k].units1.unwrap()[0].sha1() == (x + y)[k].units2.unwrap()[0].sha1()
    } by {
        if k < x.len() {
            assert((x + y)[k] == x[k]);
        } else {
            assert((x + y)[k] == y[k - x.len()]);
        }
    }
}

proof fn lemma_gap_bounds(a: Seq<UnitModel>, b: Seq<UnitModel>, ms: Seq<(int, int)>, k: int)
    requires
        valid_matches(a, b, ms),
        0 <= k <= ms.len(),
    ensures
        0 <= gap_start(ms, k).0 <= a.len(),
        0 <= gap_start(ms, k).1 <= b.len(),
        k < ms.len() ==> gap_start(ms, k).0 <= ms[k].0 && gap_start(ms, k).1 <= ms[k].1,
{
    if k > 0 && k < ms.len() {
        assert(ms[k].0 > ms[k - 1].0);
    }
}

#[verifier::spinoff_prover]
proof fn lemma_script_prefix_sides(a: Seq<UnitModel>, b: Seq<UnitModel>, ms: Seq<(int, int)>, k: int)
    requires
        valid_matches(a, b, ms),
        0 <= k <= ms.len(),
    ensures
        left_units(script_prefix(a, b, ms, k)) == a.take(gap_start(ms, k).0),
        right_units(script_prefix(a, b, ms, k)) == b.take(gap_start(ms, k).1),
    decreases k,
{
    if k == 0 {
        assert(a.take(0) =~= Seq::<UnitModel>::empty());
        assert(b.take(0) =~= Seq::<UnitModel>::empty());
        assert(left_units(Seq::<SequenceModel>::empty()) =~= Seq::<UnitModel>::empty());
        assert(right_units(Seq::<SequenceModel>::empty()) =~= Seq::<UnitModel>::empty());
    } else {
        lemma_script_prefix_sides(a, b, ms, k - 1);
        lemma_gap_bounds(a, b, ms, k - 1);
        let (pi, pj) = gap_start(ms, k - 1);
        let (x, y) = ms[k - 1];
        let p = script_prefix(a, b, ms, k - 1);
        let d = deleted_rows(a, pi, x);
        let i = inserted_rows(b, pj, y);
        let u = seq![paired_rows(a, b, x, y)];
        lemma_rows_read(a, b, pi, x);
        lemma_rows_read(a, b, pj, y);
        lemma_sides(p, d);
        lemma_sides(p + d, i);
        lemma_sides(p + d + i, u);
        assert(u.drop_last() =~= Seq::<SequenceModel>::empty());
        assert(left_units(Seq::<SequenceModel>::empty()) =~= Seq::<UnitModel>::empty());
        assert(right_units(Seq::<SequenceModel>::empty()) =~= Seq::<UnitModel>::empty());
        assert(left_units(u) =~= seq![a[x]]);
        assert(right_units(u) =~= seq![b[y]]);
        assert(a.take(pi) + a.subrange(pi, x) + Seq::<UnitModel>::empty() + seq![a[x]] =~= a.take(x + 1));
        assert(b.take(pj) + Seq::<UnitModel>::empty() + b.subrange(pj, y) + seq![b[y]] =~= b.take(y + 1));
    }
}

proof fn lemma_script_prefix_counts(a: Seq<UnitModel>, b: Seq<UnitModel>, ms: Seq<(int, int)>, k: int)
    requires
        valid_matches(a, b, ms),
        0 <= k <= ms.len(),
    ensures
        count_unknown(script_prefix(a, b, ms, k)) == k,
        unknowns_pair_equal_rows(script_prefix(a, b, ms, k)),
    decreases k,
{
    if k > 0 {
        lemma_script_prefix_counts(a, b, ms, k - 1);
        lemma_gap_bounds(a, b, ms, k - 1);
        let (pi, pj) = gap_start(ms, k - 1);
        let (x, y) = ms[k - 1];
        let p = script_prefix(a, b, ms, k - 1);
        let d = deleted_rows(a, pi, x);
        let i = inserted_rows(b, pj, y);
        let u = seq![paired_rows(a, b, x, y)];
        lemma_rows_read(a, b, pi, x);
        lemma_rows_read(a, b, pj, y);
        lemma_count_unknown_concat(p, d);
        lemma_count_unknown_concat(p + d, i);
        lemma_count_unknown_concat(p + d + i, u);
        assert(u.drop_last() =~= Seq::<SequenceModel>::empty());
        assert(count_unknown(Seq::<SequenceModel>::empty()) == 0);
        assert(count_unknown(u) == 1);
        lemma_pair_concat(p, d);
        lemma_pair_concat(p + d, i);
        assert(unknowns_pair_equal_rows(u));
        lemma_pair_concat(p + d + i, u);
    }
}

proof fn lemma_script_prefix(a: Seq<UnitModel>, b: Seq<UnitModel>, ms: Seq<(int, int)>, k: int)
    requires
        valid_matches(a, b, ms),
        0 <= k <= ms.len(),
    ensures
        left_units(script_prefix(a, b, ms, k)) == a.take(gap_start(ms, k).0),
        right_units(script_prefix(a, b, ms, k)) == b.take(gap_start(ms, k).1),
        count_unknown(script_prefix(a, b, ms, k)) == k,
        unknowns_pair_equal_rows(script_prefix(a, b, ms, k)),
        0 <= gap_start(ms, k).0 <= a.len(),
        0 <= gap_start(ms, k).1 <= b.len(),
{
    lemma_script_prefix_sides(a, b, ms, k);
    lemma_script_prefix_counts(a, b, ms, k);
    lemma_gap_bounds(a, b, ms, k);
}

proof fn lemma_sides(x: Seq<SequenceModel>, y: Seq<SequenceModel>)
    ensures
        left_units(x + y) == left_units(x) + left_units(y),
        right_units(x + y) == right_units(x) + right_units(y),
    decreases y.len(),
{
    if y.len() == 0 {
        assert(x + y =~= x);
        assert(left_units(x) + left_units(y) =~= left_units(x));
        assert(right_units(x) + right_units(y) =~= right_units(x));
    } else {
        lemma_sides(x, y.drop_last());
        assert((x + y).drop_last() =~= x + y.drop_last());
        let el = match y.last().units1 {
            Some(u) => u,
            None => Seq::<UnitModel>::empty(),
        };
        let er = match y.last().units2 {
            Some(u) => u,
            None => Seq::<UnitModel>::empty(),
        };
        assert(left_units(x) + left_units(y.drop_last()) + el =~= left_units(x) + (left_units(
            y.drop_last(),
        ) + el));
        assert(right_units(x) + right_units(y.drop_last()) + er =~= right_units(x) + (
        right_units(y.drop_last()) + er));
    }
}

/// The row alignment keeps both tables whole and pairs as many rows as an
/// LCS: its original-side rows read back as `rows1`, its revised-side rows as
/// `rows2`, every `Unknown` pair joins two rows of equal hash, and there are
/// exactly `lcs_len` such pairs.
#[verifier::spinoff_prover]
pub proof fn lemma_table_alignment(a: Seq<UnitModel>, b: Seq<UnitModel>)
    ensures
        ({
            let s = table_script(a, b, trace_matches(a, b, a.len() as int, b.len() as int));
            &&& left_units(s) == a
            &&& right_units(s) == b
            &&& unknowns_pair_equal_rows(s)
            &&& count_unknown(s) == lcs_len(a, b, a.len() as int, b.len() as int)
        }),
{
    let ms = trace_matches(a, b, a.len() as int, b.len() as int);
    lemma_trace_valid(a, b, a.len() as int, b.len() as int);
    let k = ms.len() as int;
    lemma_script_prefix(a, b, ms, k);
    let (pi, pj) = gap_start(ms, k);
    let p = script_prefix(a, b, ms, k);
    let d = deleted_rows(a, pi, a.len() as int);
    let i = inserted_rows(b, pj, b.len() as int);
    lemma_rows_read(a, b, pi, a.len() as int);
    lemma_rows_read(a, b, pj, b.len() as int);
    lemma_sides(p, d);
    lemma_sides(p + d, i);
    lemma_count_unknown_concat(p, d);
    lemma_count_unknown_concat(p + d, i);
    lemma_pair_concat(p, d);
    lemma_pair_concat(p + d, i);
    assert(a.take(pi) + a.subrange(pi, a.len() as int) =~= a);
    assert(b.take(pj) + b.subrange(pj, b.len() as int) =~= b);
    assert(a + Seq::<UnitModel>::empty() =~= a);
    assert(Seq::<UnitModel>::empty() + Seq::<UnitModel>::empty() =~= Seq::<UnitModel>::empty());
}

} // verus!

verus! {

/// Rows paired by position: one `Unknown` pair per index below the shorter length.
pub open spec fn positional_pairs(a: Seq<UnitModel>, b: Seq<UnitModel>) -> Seq<SequenceModel> {
    Seq::new(
        if a.len() <= b.len() {
            a.len()
        } else {
            b.len()
        },
        |k: int| paired_rows(a, b, k, k),
    )
}

fn push_positional_pairs(rows1: &[ComparisonUnit], rows2: &[ComparisonUnit], out: &mut Vec<
    CorrelatedSequence,
>)
    ensures
        sequences_model(final(out)@) == sequences_model(old(out)@) + positional_pairs(
            units_model(rows1@),
            units_model(rows2@),
        ),
{
    let ghost a = units_model(rows1@);
    let ghost b = units_model(rows2@);
    let ghost base = sequences_model(out@);
    let n = if rows1.len() <= rows2.len() {
        rows1.len()
    } else {
        rows2.len()
    };
    let mut i: usize = 0;
    while i < n
        invariant
            a == units_model(rows1@),
            b == units_model(rows2@),
            n <= rows1@.len(),
            n <= rows2@.len(),
            i <= n,
            sequences_model(out@) == base + Seq::new(i as nat, |k: int| paired_rows(a, b, k, k)),
        decreases n - i,
    {
        let ghost before = out@;
        out.push(
            CorrelatedSequence::paired(
                CorrelationStatus::Unknown,
                one_unit(&rows1[i]),
                one_unit(&rows2[i]),
            ),
        );
        assert(a[i as int] == rows1@[i as int]@ && b[i as int] == rows2@[i as int]@);
        assert(sequences_model(out@) =~= sequences_model(before).push(out@.last()@));
        assert(Seq::new((i + 1) as nat, |k: int| paired_rows(a, b, k, k)) =~= Seq::new(
            i as nat,
            |k: int| paired_rows(a, b, k, k),
        ).push(paired_rows(a, b, i as int, i as int)));
        i = i + 1;
    }
    assert(Seq::new(n as nat, |k: int| paired_rows(a, b, k, k)) =~= positional_pairs(a, b));
}

/// Rows paired by position, as `Unknown` pairs, up to the shorter table.
pub fn positional_rows(rows1: &[ComparisonUnit], rows2: &[ComparisonUnit]) -> (r: Vec<
    CorrelatedSequence,
>)
    ensures
        sequences_model(r@) == positional_pairs(units_model(rows1@), units_model(rows2@)),
{
    let mut out: Vec<CorrelatedSequence> = Vec::new();
    push_positional_pairs(rows1, rows2, &mut out);
    assert(sequences_model(out@) =~= positional_pairs(units_model(rows1@), units_model(rows2@)));
    out
}

/// Rows paired by position up to the shorter table, then the longer table's
/// remaining rows one by one as `Deleted` (original) or `Inserted` (revised).
pub fn positional_rows_with_remainder(rows1: &[ComparisonUnit], rows2: &[ComparisonUnit]) -> (r:
    Vec<CorrelatedSequence>)
    ensures
        ({
            let a = units_model(rows1@);
            let b = units_model(rows2@);
            let n = if a.len() <= b.len() {
                a.len()
            } else {
                b.len()
            };
            sequences_model(r@) == positional_pairs(a, b) + deleted_rows(a, n as int, a.len() as int)
                + inserted_rows(b, n as int, b.len() as int)
        }),
{
    let ghost a = units_model(rows1@);
    let ghost b = units_model(rows2@);
    let n = if rows1.len() <= rows2.len() {
        rows1.len()
    } else {
        rows2.len()
    };
    let mut out: Vec<CorrelatedSequence> = Vec::new();
    push_positional_pairs(rows1, rows2, &mut out);
    let ghost base = sequences_model(out@);
    assert(base =~= positional_pairs(a, b));
    let mut i = n;
    let n1 = rows1.len();
    while i < n1
        invariant
            a == units_model(rows1@),
            n1 == rows1@.len(),
            n <= i <= n1,
            sequences_model(out@) == base + deleted_rows(a, n as int, i as int),
        decreases n1 - i,
    {
        let ghost before = out@;
        out.push(CorrelatedSequence::deleted(one_unit(&rows1[i])));
        assert(a[i as int] == rows1@[i as int]@);
        assert(sequences_model(out@) =~= sequences_model(before).push(out@.last()@));
        assert(deleted_rows(a, n as int, i + 1) =~= deleted_rows(a, n as int, i as int).push(
            SequenceModel {
                status: CorrelationStatus::Deleted,
                units1: Some(seq![a[i as int]]),
                units2: None,
            },
        ));
        i = i + 1;
    }
    let ghost base2 = sequences_model(out@);
    let mut j = n;
    let n2 = rows2.len();
    while j < n2
        invariant
            b == units_model(rows2@),
            n2 == rows2@.len(),
            n <= j <= n2,
            sequences_model(out@) == base2 + inserted_rows(b, n as int, j as int),
        decreases n2 - j,
    {
        let ghost before = out@;
        out.push(CorrelatedSequence::inserted(one_unit(&rows2[j])));
        assert(b[j as int] == rows2@[j as int]@);
        assert(sequences_model(out@) =~= sequences_model(before).push(out@.last()@));
        assert(inserted_rows(b, n as int, j + 1) =~= inserted_rows(b, n as int, j as int).push(
            SequenceModel {
                status: CorrelationStatus::Inserted,
                units1: None,
                units2: Some(seq![b[j as int]]),
            },
        ));
        j = j + 1;
    }
    out
}


// ── tables with merged cells ────────────────────────────────────────────────

/// The last of the ancestors `anc` named `nm`.
pub open spec fn last_named(d: Seq<NodeView>, anc: Seq<NodeId>, nm: XNameView) -> Option<NodeId>
    decreases anc.len(),
{
    if anc.len() == 0 {
        None
    } else if has_name(d, anc.last().0 as int, nm) {
        Some(anc.last())
    } else {
        last_named(d, anc.drop_last(), nm)
    }
}

/// The innermost ancestor named `nm` of the unit's first atom.
pub open spec fn ancestor_named_spec(d: Seq<NodeView>, u: UnitModel, nm: XNameView) -> Option<NodeId> {
    if model_atoms(u).len() == 0 {
        None
    } else {
        last_named(d, model_atoms(u)[0].ancestor_elements, nm)
    }
}

fn group_atoms(g: &ComparisonUnitGroup) -> (r: Vec<ComparisonUnitAtom>)
    ensures
        atoms_model(r@) == model_atoms(ComparisonUnit::Group(*g)@),
{
    let ghost cs = units_model(g.contents@);
    assert(cs =~= ComparisonUnit::Group(*g)@.children());
    let mut r: Vec<ComparisonUnitAtom> = Vec::new();
    let mut i: usize = 0;
    assert(atoms_model(r@) =~= models_atoms(cs.take(0)));
    while i < g.contents.len()
        invariant
            cs == units_model(g.contents@),
            i <= g.contents@.len(),
            atoms_model(r@) == models_atoms(cs.take(i as int)),
        decreases g.contents@.len() - i,
    {
        proof {
            lemma_models_atoms_step(cs, i as int);
        }
        let mut sub = g.contents[i].descendant_atoms();
        let ghost before = r@;
        r.append(&mut sub);
        assert(atoms_model(r@) =~= atoms_model(before) + model_atoms(cs[i as int]));
        i = i + 1;
    }
    assert(cs.take(cs.len() as int) =~= cs);
    r
}

/// The innermost ancestor named `name` of the group's first atom.
pub fn ancestor_named(dom: &Dom, g: &ComparisonUnitGroup, name: &XName) -> (r: Option<NodeId>)
    ensures
        r == ancestor_named_spec(dom@, ComparisonUnit::Group(*g)@, name@),
{
    let atoms = group_atoms(g);
    if atoms.len() == 0 {
        return None;
    }
    assert(atoms_model(atoms@)[0] == atoms@[0]@);
    let anc = &atoms[0].ancestor_elements;
    let ghost a = anc@;
    let mut k = anc.len();
    assert(a.take(k as int) =~= a);
    assert(ancestor_named_spec(dom@, ComparisonUnit::Group(*g)@, name@) == last_named(dom@, a, name@));
    while k > 0
        invariant
            a == anc@,
            ancestor_named_spec(dom@, ComparisonUnit::Group(*g)@, name@) == last_named(dom@, a, name@),
            k <= a.len(),
            last_named(dom@, a, name@) == last_named(dom@, a.take(k as int), name@),
        decreases k,
    {
        assert(a.take(k as int).drop_last() =~= a.take(k - 1));
        assert(a.take(k as int).last() == a[k - 1]);
        if dom.is_named(anc[k - 1], name) {
            return Some(anc[k - 1]);
        }
        k = k - 1;
    }
    None
}

/// The table holds merged cells (`w:vMerge` or `w:gridSpan`).
pub open spec fn has_merged(d: Seq<NodeView>, tbl: int) -> bool {
    descendants_of(d, tbl, Some(w_name("vMerge"@))).len() > 0 || descendants_of(
        d,
        tbl,
        Some(w_name("gridSpan"@)),
    ).len() > 0
}

/// Whether the table holds merged cells.
pub fn contains_merged(dom: &Dom, tbl: NodeId) -> (r: bool)
    requires
        dom.wf(),
    ensures
        r == has_merged(dom@, tbl.0 as int),
{
    dom.descendants(tbl, Some(&W::name("vMerge"))).len() > 0 || dom.descendants(
        tbl,
        Some(&W::name("gridSpan")),
    ).len() > 0
}

/// Every row pair carries the same projection hash.
pub open spec fn rows_collapse(r1: Seq<UnitModel>, r2: Seq<UnitModel>) -> bool {
    forall|i: int| 0 <= i < r1.len() ==> (#[trigger] r1[i]).correlated() == r2[i].correlated()
}

/// Number of row pairs whose content hashes differ.
pub open spec fn hash_diff(r1: Seq<UnitModel>, r2: Seq<UnitModel>, n: int) -> nat
    decreases n,
{
    if n <= 0 {
        0
    } else {
        hash_diff(r1, r2, n - 1) + if r1[n - 1].sha1() != r2[n - 1].sha1() {
            1nat
        } else {
            0nat
        }
    }
}

/// The unit's table lies in a table with merged cells.
pub open spec fn in_merged_table(d: Seq<NodeView>, u: UnitModel) -> bool {
    match ancestor_named_spec(d, u, w_name("tbl"@)) {
        Some(t) => has_merged(d, t.0 as int),
        None => false,
    }
}

/// How two tables, the first units of `c1` and `c2`, are aligned row by row:
/// tables of equal row count whose rows pair up by projection hash are paired
/// by position, or by a row LCS when at least seven rows, more than one but
/// not all of them and more than a third change; tables with merged cells are
/// paired by position when their structures match, else by position with the
/// remainder unpaired (`merge_replaced`), else replaced whole; otherwise no
/// alignment.
pub open spec fn table_alignment(
    d: Seq<NodeView>,
    c1: Seq<UnitModel>,
    c2: Seq<UnitModel>,
    merge_replaced: bool,
) -> Option<Seq<SequenceModel>> {
    if c1.len() == 0 || c2.len() == 0 || !(c1[0] is Group) || !(c2[0] is Group) {
        None
    } else {
        let r1 = c1[0].children();
        let r2 = c2[0].children();
        let total = r1.len();
        let collapse = r1.len() == r2.len() && rows_collapse(r1, r2);
        let hd = hash_diff(r1, r2, total as int);
        let use_content = hd > 1 && hd < total && hd > total / 3;
        let script = table_script(r1, r2, trace_matches(r1, r2, r1.len() as int, r2.len() as int));
        if collapse && use_content && total >= 7 && script.len() > 0 {
            Some(script)
        } else if collapse {
            Some(positional_pairs(r1, r2))
        } else if in_merged_table(d, c1[0]) || in_merged_table(d, c2[0]) {
            if c1[0].structure() is Some && c1[0].structure() == c2[0].structure() {
                Some(positional_pairs(r1, r2))
            } else if merge_replaced {
                let n = if r1.len() <= r2.len() {
                    r1.len()
                } else {
                    r2.len()
                };
                Some(
                    positional_pairs(r1, r2) + deleted_rows(r1, n as int, r1.len() as int)
                        + inserted_rows(r2, n as int, r2.len() as int),
                )
            } else {
                Some(
                    seq![
                        SequenceModel {
                            status: CorrelationStatus::Deleted,
                            units1: Some(r1),
                            units2: None,
                        },
                        SequenceModel {
                            status: CorrelationStatus::Inserted,
                            units1: None,
                            units2: Some(r2),
                        },
                    ],
                )
            }
        } else {
            None
        }
    }
}

fn opt_str_eq(a: Option<&str>, b: Option<&str>) -> (r: bool)
    ensures
        r == (match a {
            Some(x) => Some(x@),
            None => None,
        } == match b {
            Some(y) => Some(y@),
            None => None,
        }),
{
    match (a, b) {
        (None, None) => true,
        (Some(x), Some(y)) => str_eq(x, y),
        _ => false,
    }
}

/// Row-level alignment of two tables (the first units of `cul1` and
/// `cul2`), as [`table_alignment`] states; `None` when it does not apply.
pub fn do_lcs_algorithm_for_table(
    dom: &Dom,
    cul1: &[ComparisonUnit],
    cul2: &[ComparisonUnit],
    merge_replaced_paragraphs: bool,
) -> (r: Option<Vec<CorrelatedSequence>>)
    requires
        dom.wf(),
        cul1@.len() > 0 && cul1@[0] is Group ==> (cul1@[0]->Group_0.contents@.len() + 1) * (
        cul1@[0]->Group_0.contents@.len() + 1) <= usize::MAX,
    ensures
        match r {
            Some(v) => table_alignment(dom@, units_model(cul1@), units_model(cul2@), merge_replaced_paragraphs)
                == Some(sequences_model(v@)),
            None => table_alignment(dom@, units_model(cul1@), units_model(cul2@), merge_replaced_paragraphs)
                is None,
        },
{
    let ghost c1 = units_model(cul1@);
    let ghost c2 = units_model(cul2@);
    if cul1.len() == 0 || cul2.len() == 0 {
        return None;
    }
    let g1 = match as_group(&cul1[0]) {
        Some(g) => g,
        None => {
            return None;
        },
    };
    let g2 = match as_group(&cul2[0]) {
        Some(g) => g,
        None => {
            return None;
        },
    };
    assert(c1[0] == cul1@[0]@ && c2[0] == cul2@[0]@);
    let rows1 = g1.contents.as_slice();
    let rows2 = g2.contents.as_slice();
    let ghost r1 = c1[0].children();
    let ghost r2 = c2[0].children();
    assert(units_model(rows1@) =~= r1);
    assert(units_model(rows2@) =~= r2);
    if rows1.len() == rows2.len() {
        let total = rows1.len();
        let mut can_collapse = true;
        let mut diff: usize = 0;
        let mut i: usize = 0;
        while i < total
            invariant
                total == rows1@.len(),
                total == rows2@.len(),
                r1 == units_model(rows1@),
                r2 == units_model(rows2@),
                i <= total,
                diff <= i,
                diff == hash_diff(r1, r2, i as int),
                can_collapse == forall|k: int| 0 <= k < i ==> (#[trigger] r1[k]).correlated()
                    == r2[k].correlated(),
            decreases total - i,
        {
            assert(r1[i as int] == rows1@[i as int]@ && r2[i as int] == rows2@[i as int]@);
            let same_corr = opt_str_eq(rows1[i].correlated_sha1(), rows2[i].correlated_sha1());
            assert(same_corr == (r1[i as int].correlated() == r2[i as int].correlated()));
            can_collapse = can_collapse && same_corr;
            if !str_eq(rows1[i].sha1(), rows2[i].sha1()) {
                diff = diff + 1;
            }
            i = i + 1;
        }
        let use_content_lcs = diff > 1 && diff < total && diff > total / 3;
        if can_collapse && use_content_lcs && total >= 7 {
            let r = apply_lcs_to_table_rows(rows1, rows2);
            if r.len() > 0 {
                return Some(r);
            }
        }
        if can_collapse {
            return Some(positional_rows(rows1, rows2));
        }
    }
    let tbl_name = W::name("tbl");
    let left_merged = match ancestor_named(dom, g1, &tbl_name) {
        Some(t) => contains_merged(dom, t),
        None => false,
    };
    let right_merged = match ancestor_named(dom, g2, &tbl_name) {
        Some(t) => contains_merged(dom, t),
        None => false,
    };
    if left_merged || right_merged {
        let same_structure = match (&g1.structure_sha1_hash, &g2.structure_sha1_hash) {
            (Some(s1), Some(s2)) => str_eq(s1.as_str(), s2.as_str()),
            _ => false,
        };
        if same_structure {
            return Some(positional_rows(rows1, rows2));
        }
        if merge_replaced_paragraphs {
            return Some(positional_rows_with_remainder(rows1, rows2));
        }
        let mut out: Vec<CorrelatedSequence> = Vec::new();
        out.push(CorrelatedSequence::deleted(copy_units(rows1, 0, rows1.len())));
        out.push(CorrelatedSequence::inserted(copy_units(rows2, 0, rows2.len())));
        assert(rows1@.subrange(0, rows1@.len() as int) =~= rows1@);
        assert(rows2@.subrange(0, rows2@.len() as int) =~= rows2@);
        assert(sequences_model(out@) =~= table_alignment(dom@, c1, c2, merge_replaced_paragraphs)->0);
        return Some(out);
    }
    None
}


// ── row revisions ───────────────────────────────────────────────────────────

/// `d` after a row revision element named `rev`, with author, id and date,
/// is added last to the properties of row `tr`, which are made its first
/// child when the row has none.
pub open spec fn mark_row(d: Seq<NodeView>, tr: int, rev: XNameView, id: nat, author: Seq<char>, date: Seq<char>) -> Seq<NodeView> {
    let (d1, trpr) = match child_named(d, tr, w_name("trPr"@)) {
        Some(p) => (d, p as int),
        None => {
            let c = d.len() as int;
            let d0 = d.push(fresh_element("trPr"@));
            (attached(detached(d0, c), tr, 0, c), c)
        },
    };
    let r = d1.len() as int;
    let d2 = d1.push(NodeView { kind: KindView::Element { name: rev, attrs: seq![] }, parent: None, children: seq![] });
    let d3 = with_attr(
        with_attr(with_attr(d2, r, w_name("author"@), Some(author)), r, w_name("id"@), Some(decimal(id))),
        r,
        w_name("date"@),
        Some(date),
    );
    let d4 = detached(d3, r);
    attached(d4, trpr, d4[trpr].children.len() as int, r)
}

/// A row group.
pub open spec fn is_row_group(u: UnitModel) -> bool {
    u is Group && u->Group_group_type == ComparisonUnitGroupType::Row
}

/// `d` and the next id after each row group among `us` whose first atom
/// lies in a row is marked with a revision element named `rev`.
pub open spec fn mark_row_units(d: Seq<NodeView>, us: Seq<UnitModel>, rev: XNameView, id: nat, author: Seq<char>, date: Seq<char>) -> (Seq<NodeView>, nat)
    decreases us.len(),
{
    if us.len() == 0 {
        (d, id)
    } else {
        let (d1, id1) = mark_row_units(d, us.drop_last(), rev, id, author, date);
        let u = us.last();
        if is_row_group(u) {
            match ancestor_named_spec(d1, u, w_name("tr"@)) {
                Some(tr) => (mark_row(d1, tr.0 as int, rev, id1, author, date), id1 + 1),
                None => (d1, id1),
            }
        } else {
            (d1, id1)
        }
    }
}

/// The units of a sequence whose rows get revision elements, and the name
/// of those: the original side of a deletion (`w:del`), the revised side
/// of an insertion (`w:ins`).
pub open spec fn row_revision_side(s: SequenceModel) -> Option<(Seq<UnitModel>, XNameView)> {
    match s.status {
        CorrelationStatus::Deleted => match s.units1 {
            Some(us) => Some((us, w_name("del"@))),
            None => None,
        },
        CorrelationStatus::Inserted => match s.units2 {
            Some(us) => Some((us, w_name("ins"@))),
            None => None,
        },
        _ => None,
    }
}

/// `d` and the next id after the rows of every deleted and inserted
/// sequence among `ss` are marked.
pub open spec fn mark_rows(d: Seq<NodeView>, ss: Seq<SequenceModel>, id: nat, author: Seq<char>, date: Seq<char>) -> (Seq<NodeView>, nat)
    decreases ss.len(),
{
    if ss.len() == 0 {
        (d, id)
    } else {
        let (d1, id1) = mark_rows(d, ss.drop_last(), id, author, date);
        match row_revision_side(ss.last()) {
            Some((us, rev)) => mark_row_units(d1, us, rev, id1, author, date),
            None => (d1, id1),
        }
    }
}

/// The row groups among `us`.
pub open spec fn row_count(us: Seq<UnitModel>) -> nat
    decreases us.len(),
{
    if us.len() == 0 {
        0
    } else {
        row_count(us.drop_last()) + if is_row_group(us.last()) {
            1nat
        } else {
            0nat
        }
    }
}

/// The row groups that can get revision elements among `ss`.
pub open spec fn revision_row_count(ss: Seq<SequenceModel>) -> nat
    decreases ss.len(),
{
    if ss.len() == 0 {
        0
    } else {
        revision_row_count(ss.drop_last()) + match row_revision_side(ss.last()) {
            Some((us, _)) => row_count(us),
            None => 0,
        }
    }
}

proof fn lemma_mark_row_units_ids(d: Seq<NodeView>, us: Seq<UnitModel>, rev: XNameView, id: nat, author: Seq<char>, date: Seq<char>)
    ensures
        id <= mark_row_units(d, us, rev, id, author, date).1 <= id + row_count(us),
    decreases us.len(),
{
    if us.len() > 0 {
        lemma_mark_row_units_ids(d, us.drop_last(), rev, id, author, date);
    }
}

/// Adds a row revision element named `rev` to row `tr` (see `mark_row`).
fn mark_one_row(dom: &mut Dom, tr: NodeId, rev: &XName, author: &str, date: &str, id: u32)
    requires
        old(dom).wf(),
        tr.0 < old(dom)@.len(),
    ensures
        final(dom).wf(),
        final(dom)@ == mark_row(old(dom)@, tr.0 as int, rev@, id as nat, author@, date@),
{
    let trpr = match dom.element(tr, &W::name("trPr")) {
        Some(p) => {
            proof {
                crate::xml::lemma_select_below_selects(dom@, dom@[tr.0 as int].children, 0, Some(w_name("trPr"@)));
            }
            assert(crate::xml::selects(dom@, p.0 as int, Some(w_name("trPr"@))));
            p
        },
        None => {
            let p = dom.new_element(W::name("trPr"));
            dom.add_first(tr, p);
            p
        },
    };
    let r = dom.new_element(rev.clone());
    dom.set_attribute_value(r, &W::name("author"), Some(author));
    let id_text = u64_to_decimal(id as u64);
    dom.set_attribute_value(r, &W::name("id"), Some(id_text.as_str()));
    dom.set_attribute_value(r, &W::name("date"), Some(date));
    dom.add(trpr, r);
}

/// Marks the rows of deleted and inserted sequences: each row group of the
/// original side of a deletion gets a `w:del`, and of the revised side of
/// an insertion a `w:ins`, with `author`, the next id of `next_id` and
/// `date`, added last to the properties of the row its first atom lies in
/// (made first in the row when missing). Groups of other kinds, and groups
/// outside any row, are left alone.
pub fn mark_rows_as_deleted_or_inserted(
    dom: &mut Dom,
    author: &str,
    date: &str,
    sequences: &[CorrelatedSequence],
    next_id: &mut u32,
)
    requires
        old(dom).wf(),
        *old(next_id) + revision_row_count(sequences_model(sequences@)) <= u32::MAX,
    ensures
        final(dom).wf(),
        final(dom)@ == mark_rows(old(dom)@, sequences_model(sequences@), *old(next_id) as nat, author@, date@).0,
        *final(next_id) as nat == mark_rows(old(dom)@, sequences_model(sequences@), *old(next_id) as nat, author@, date@).1,
{
    let ghost ss = sequences_model(sequences@);
    let ghost d0 = dom@;
    let ghost id0 = *next_id as nat;
    let tr_name = W::name("tr");
    let mut i: usize = 0;
    assert(ss.take(0) =~= Seq::<SequenceModel>::empty());
    while i < sequences.len()
        invariant
            dom.wf(),
            ss == sequences_model(sequences@),
            tr_name@ == w_name("tr"@),
            i <= sequences@.len(),
            (dom@, *next_id as nat) == mark_rows(d0, ss.take(i as int), id0, author@, date@),
            id0 + revision_row_count(ss) <= u32::MAX,
            *next_id as nat <= id0 + revision_row_count(ss.take(i as int)),
        decreases sequences@.len() - i,
    {
        let cs = &sequences[i];
        assert(ss.take(i + 1).drop_last() =~= ss.take(i as int));
        assert(ss.take(i + 1).last() == cs@);
        proof {
            lemma_revision_rows_prefix(ss, i as int);
        }
        let side = match cs.correlation_status {
            CorrelationStatus::Deleted => match &cs.com_units_1 {
                Some(u) => Some((u, W::name("del"))),
                None => None,
            },
            CorrelationStatus::Inserted => match &cs.com_units_2 {
                Some(u) => Some((u, W::name("ins"))),
                None => None,
            },
            _ => None,
        };
        match side {
            Some((units, rev_name)) => {
                let ghost us = units_model(units@);
                assert(row_revision_side(cs@) == Some((us, rev_name@)));
                let ghost d1 = dom@;
                let ghost id1 = *next_id as nat;
                let mut j: usize = 0;
                assert(us.take(0) =~= Seq::<UnitModel>::empty());
                while j < units.len()
                    invariant
                        dom.wf(),
                        us == units_model(units@),
                        tr_name@ == w_name("tr"@),
                        j <= units@.len(),
                        (dom@, *next_id as nat) == mark_row_units(d1, us.take(j as int), rev_name@, id1, author@, date@),
                        id1 + row_count(us) <= u32::MAX,
                        *next_id as nat <= id1 + row_count(us.take(j as int)),
                    decreases units@.len() - j,
                {
                    assert(us.take(j + 1).drop_last() =~= us.take(j as int));
                    assert(us.take(j + 1).last() == units@[j as int]@);
                    proof {
                        lemma_row_count_prefix(us, j as int);
                    }
                    match as_group(&units[j]) {
                        Some(g) => {
                            if g.group_type == ComparisonUnitGroupType::Row {
                                match ancestor_named(dom, g, &tr_name) {
                                    Some(tr) => {
                                        proof {
                                            lemma_last_named_is_named(dom@, model_atoms(ComparisonUnit::Group(*g)@)[0].ancestor_elements, w_name("tr"@));
                                        }
                                        assert(tr.0 < dom@.len());
                                        mark_one_row(dom, tr, &rev_name, author, date, *next_id);
                                        *next_id = *next_id + 1;
                                    },
                                    None => {},
                                }
                            }
                        },
                        None => {},
                    }
                    j = j + 1;
                }
                assert(us.take(units@.len() as int) =~= us);
            },
            None => {},
        }
        i = i + 1;
    }
    assert(ss.take(sequences@.len() as int) =~= ss);
}

proof fn lemma_last_named_is_named(d: Seq<NodeView>, anc: Seq<NodeId>, nm: XNameView)
    ensures
        last_named(d, anc, nm) matches Some(x) ==> has_name(d, x.0 as int, nm),
    decreases anc.len(),
{
    if anc.len() > 0 {
        lemma_last_named_is_named(d, anc.drop_last(), nm);
    }
}

proof fn lemma_row_count_prefix(us: Seq<UnitModel>, j: int)
    requires
        0 <= j < us.len(),
    ensures
        row_count(us.take(j + 1)) == row_count(us.take(j)) + if is_row_group(us[j]) { 1nat } else { 0nat },
        row_count(us.take(j + 1)) <= row_count(us),
{
    assert(us.take(j + 1).drop_last() =~= us.take(j));
    lemma_row_count_concat(us.take(j + 1), us.skip(j + 1));
    assert(us.take(j + 1) + us.skip(j + 1) =~= us);
}

proof fn lemma_row_count_concat(a: Seq<UnitModel>, b: Seq<UnitModel>)
    ensures
        row_count(a + b) == row_count(a) + row_count(b),
    decreases b.len(),
{
    if b.len() == 0 {
        assert(a + b =~= a);
    } else {
        lemma_row_count_concat(a, b.drop_last());
        assert((a + b).drop_last() =~= a + b.drop_last());
        assert((a + b).last() == b.last());
    }
}

proof fn lemma_revision_rows_prefix(ss: Seq<SequenceModel>, i: int)
    requires
        0 <= i < ss.len(),
    ensures
        revision_row_count(ss.take(i + 1)) <= revision_row_count(ss),
        revision_row_count(ss.take(i + 1)) == revision_row_count(ss.take(i)) + match row_revision_side(ss[i]) {
            Some((us, _)) => row_count(us),
            None => 0,
        },
{
    assert(ss.take(i + 1).drop_last() =~= ss.take(i));
    lemma_revision_rows_concat(ss.take(i + 1), ss.skip(i + 1));
    assert(ss.take(i + 1) + ss.skip(i + 1) =~= ss);
}

proof fn lemma_revision_rows_concat(a: Seq<SequenceModel>, b: Seq<SequenceModel>)
    ensures
        revision_row_count(a + b) == revision_row_count(a) + revision_row_count(b),
    decreases b.len(),
{
    if b.len() == 0 {
        assert(a + b =~= a);
    } else {
        lemma_revision_rows_concat(a, b.drop_last());
        assert((a + b).drop_last() =~= a + b.drop_last());
        assert((a + b).last() == b.last());
    }
}

} // verus!
