//! Word-mode ranking of common runs: a run is worth the characters of its
//! text that are neither word separators nor whitespace, so a run of glue
//! spaces does not win over a run of content of the same length.

use vstd::prelude::*;

use super::atoms::{
    atoms_model, lemma_models_atoms_concat, lemma_models_atoms_step, model_atoms, models_atoms,
    units_model, AtomModel, ComparisonUnit, ComparisonUnitAtom, UnitModel,
};
use super::lcs::{
    consider_candidate, extend_common_run, is_first_longest_unit_run, lemma_first_longest_unit_unique,
    lemma_unit_run_bound, lex_before, longest_unit_run_spec, unit_common_len,
};
use crate::namespaces::{w_name, W};
use crate::text::{chars_of, is_white_space, is_whitespace_char};
use crate::xml::{has_name, value_of, Dom, NodeView};

verus! {

// ── content ─────────────────────────────────────────────────────────────────

/// A character that counts toward a run's content: neither a word
/// separator nor whitespace.
pub open spec fn counts_as_content(c: char, seps: Seq<char>) -> bool {
    !seps.contains(c) && !is_white_space(c)
}

/// The number of characters of `t` that count toward content.
pub open spec fn content_chars(t: Seq<char>, seps: Seq<char>) -> nat
    decreases t.len(),
{
    if t.len() == 0 {
        0
    } else {
        content_chars(t.drop_last(), seps) + if counts_as_content(t.last(), seps) {
            1nat
        } else {
            0nat
        }
    }
}

/// The content of an atom: that of its text for a `w:t` atom, nothing
/// otherwise.
pub open spec fn atom_content(d: Seq<NodeView>, a: AtomModel, seps: Seq<char>) -> nat {
    if has_name(d, a.content_element.0 as int, w_name("t"@)) {
        content_chars(value_of(d, a.content_element.0 as int), seps)
    } else {
        0
    }
}

/// The content of a sequence of atoms, summed.
pub open spec fn atoms_content(d: Seq<NodeView>, atoms: Seq<AtomModel>, seps: Seq<char>) -> nat
    decreases atoms.len(),
{
    if atoms.len() == 0 {
        0
    } else {
        atoms_content(d, atoms.drop_last(), seps) + atom_content(d, atoms.last(), seps)
    }
}

/// The content of a sequence of units: that of all their atoms.
pub open spec fn units_content(d: Seq<NodeView>, us: Seq<UnitModel>, seps: Seq<char>) -> nat {
    atoms_content(d, models_atoms(us), seps)
}

/// Content adds up over concatenation.
pub proof fn lemma_atoms_content_concat(d: Seq<NodeView>, a: Seq<AtomModel>, b: Seq<AtomModel>, seps: Seq<char>)
    ensures
        atoms_content(d, a + b, seps) == atoms_content(d, a, seps) + atoms_content(d, b, seps),
    decreases b.len(),
{
    if b.len() == 0 {
        assert(a + b =~= a);
    } else {
        lemma_atoms_content_concat(d, a, b.drop_last(), seps);
        assert((a + b).drop_last() =~= a + b.drop_last());
        assert((a + b).last() == b.last());
    }
}

/// The content of units adds up over concatenation.
pub proof fn lemma_units_content_concat(d: Seq<NodeView>, a: Seq<UnitModel>, b: Seq<UnitModel>, seps: Seq<char>)
    ensures
        units_content(d, a + b, seps) == units_content(d, a, seps) + units_content(d, b, seps),
{
    lemma_models_atoms_concat(a, b);
    lemma_atoms_content_concat(d, models_atoms(a), models_atoms(b), seps);
}

// ── ranking ─────────────────────────────────────────────────────────────────

/// How runs are ranked: by content in `d` with separators `seps` when
/// `by_content`, else by length alone.
pub struct RunScoring {
    pub by_content: bool,
    pub d: Seq<NodeView>,
    pub seps: Seq<char>,
}

/// The score of the `l` units of `c1` from `i` on.
pub open spec fn run_score(sc: RunScoring, c1: Seq<UnitModel>, i: int, l: int) -> int {
    if sc.by_content {
        units_content(sc.d, c1.subrange(i, i + l), sc.seps) as int
    } else {
        l
    }
}

/// The rank of the common run starting at `(i, j)`: its score, then its
/// length.
pub open spec fn run_key(sc: RunScoring, c1: Seq<UnitModel>, c2: Seq<UnitModel>, i: int, j: int) -> (
    int,
    int,
) {
    let l = unit_common_len(c1, c2, i, j) as int;
    (run_score(sc, c1, i, l), l)
}

/// Rank `a` is below rank `b`.
pub open spec fn key_lt(a: (int, int), b: (int, int)) -> bool {
    a.0 < b.0 || (a.0 == b.0 && a.1 < b.1)
}

/// `(i, j)` starts a common run of the best rank, and every run before it
/// in row-major order ranks below it.
pub open spec fn is_first_best_run(sc: RunScoring, c1: Seq<UnitModel>, c2: Seq<UnitModel>, i: int, j: int) -> bool {
    &&& 0 <= i < c1.len()
    &&& 0 <= j < c2.len()
    &&& unit_common_len(c1, c2, i, j) > 0
    &&& forall|p: int, q: int|
        0 <= p < c1.len() && 0 <= q < c2.len() && #[trigger] unit_common_len(c1, c2, p, q) > 0
            ==> !key_lt(run_key(sc, c1, c2, i, j), run_key(sc, c1, c2, p, q))
    &&& forall|p: int, q: int|
        0 <= p < c1.len() && 0 <= q < c2.len() && #[trigger] unit_common_len(c1, c2, p, q) > 0
            && lex_before(p, q, i, j) ==> key_lt(run_key(sc, c1, c2, p, q), run_key(sc, c1, c2, i, j))
}

/// The first common run of the best rank, as `(start in c1, start in c2,
/// length)`, or `(0, 0, 0)` when the two share no hash.
pub open spec fn best_run_spec(sc: RunScoring, c1: Seq<UnitModel>, c2: Seq<UnitModel>) -> (int, int, nat) {
    if exists|i: int, j: int| is_first_best_run(sc, c1, c2, i, j) {
        let (i, j) = choose|i: int, j: int| is_first_best_run(sc, c1, c2, i, j);
        (i, j, unit_common_len(c1, c2, i, j))
    } else {
        (0, 0, 0)
    }
}

/// The scoring that `dom` and `seps` ask for: by content when both are
/// given.
pub open spec fn scoring_of(dom: Option<&Dom>, seps: Option<&[char]>) -> RunScoring {
    match (dom, seps) {
        (Some(d), Some(s)) => RunScoring { by_content: true, d: d@, seps: s@ },
        _ => RunScoring { by_content: false, d: seq![], seps: seq![] },
    }
}

proof fn lemma_first_best_unique(sc: RunScoring, c1: Seq<UnitModel>, c2: Seq<UnitModel>, i: int, j: int)
    requires
        is_first_best_run(sc, c1, c2, i, j),
    ensures
        best_run_spec(sc, c1, c2) == (i, j, unit_common_len(c1, c2, i, j)),
{
    let (x, y) = choose|x: int, y: int| is_first_best_run(sc, c1, c2, x, y);
    assert(is_first_best_run(sc, c1, c2, x, y));
    assert(unit_common_len(c1, c2, x, y) > 0);
    assert(unit_common_len(c1, c2, i, j) > 0);
    if lex_before(x, y, i, j) {
        assert(key_lt(run_key(sc, c1, c2, x, y), run_key(sc, c1, c2, i, j)));
        assert(!key_lt(run_key(sc, c1, c2, x, y), run_key(sc, c1, c2, i, j)));
    }
    if lex_before(i, j, x, y) {
        assert(key_lt(run_key(sc, c1, c2, i, j), run_key(sc, c1, c2, x, y)));
        assert(!key_lt(run_key(sc, c1, c2, i, j), run_key(sc, c1, c2, x, y)));
    }
}

proof fn lemma_no_best_run(sc: RunScoring, c1: Seq<UnitModel>, c2: Seq<UnitModel>)
    requires
        forall|p: int, q: int|
            0 <= p < c1.len() && 0 <= q < c2.len() ==> #[trigger] unit_common_len(c1, c2, p, q) == 0,
    ensures
        best_run_spec(sc, c1, c2) == (0int, 0int, 0nat),
{
    if exists|i: int, j: int| is_first_best_run(sc, c1, c2, i, j) {
        let (x, y) = choose|x: int, y: int| is_first_best_run(sc, c1, c2, x, y);
        assert(unit_common_len(c1, c2, x, y) == 0);
    }
}

// ── execution ───────────────────────────────────────────────────────────────

/// Whether `c` is one of `seps`.
fn is_separator(c: char, seps: &[char]) -> (r: bool)
    ensures
        r == seps@.contains(c),
{
    let mut i: usize = 0;
    while i < seps.len()
        invariant
            i <= seps@.len(),
            forall|j: int| 0 <= j < i ==> seps@[j] != c,
        decreases seps@.len() - i,
    {
        if seps[i] == c {
            return true;
        }
        i = i + 1;
    }
    false
}

/// The number of characters of `s` that count toward content.
fn text_content_len(s: &str, seps: &[char]) -> (r: usize)
    ensures
        r == content_chars(s@, seps@),
{
    let cs = chars_of(s);
    let mut n: usize = 0;
    let mut i: usize = 0;
    assert(cs@.take(0) =~= Seq::<char>::empty());
    while i < cs.len()
        invariant
            cs@ == s@,
            i <= cs@.len(),
            n == content_chars(cs@.take(i as int), seps@),
            n <= i,
        decreases cs@.len() - i,
    {
        assert(cs@.take(i + 1).drop_last() =~= cs@.take(i as int));
        assert(cs@.take(i + 1).last() == cs@[i as int]);
        if !is_separator(cs[i], seps) && !is_whitespace_char(cs[i]) {
            n = n + 1;
        }
        i = i + 1;
    }
    assert(cs@.take(cs@.len() as int) =~= cs@);
    n
}

/// The content of one atom.
fn atom_content_len(dom: &Dom, a: &ComparisonUnitAtom, seps: &[char]) -> (r: usize)
    requires
        dom.wf(),
    ensures
        r == atom_content(dom@, a@, seps@),
{
    if dom.is_named(a.content_element, &W::t()) {
        text_content_len(dom.value_str(a.content_element).as_str(), seps)
    } else {
        0
    }
}

/// The content of a sequence of atoms.
fn atoms_content_len(dom: &Dom, atoms: &Vec<ComparisonUnitAtom>, seps: &[char]) -> (r: usize)
    requires
        dom.wf(),
        atoms_content(dom@, atoms_model(atoms@), seps@) <= usize::MAX,
    ensures
        r == atoms_content(dom@, atoms_model(atoms@), seps@),
{
    let ghost am = atoms_model(atoms@);
    let mut total: usize = 0;
    let mut j: usize = 0;
    assert(am.take(0) =~= Seq::<AtomModel>::empty());
    while j < atoms.len()
        invariant
            dom.wf(),
            am == atoms_model(atoms@),
            atoms_content(dom@, am, seps@) <= usize::MAX,
            j <= atoms@.len(),
            total == atoms_content(dom@, am.take(j as int), seps@),
        decreases atoms@.len() - j,
    {
        assert(am.take(j + 1).drop_last() =~= am.take(j as int));
        assert(am.take(j + 1).last() == atoms@[j as int]@);
        proof {
            lemma_atoms_content_concat(dom@, am.take(j + 1), am.skip(j + 1), seps@);
            assert(am.take(j + 1) + am.skip(j + 1) =~= am);
        }
        let w = atom_content_len(dom, &atoms[j], seps);
        total = total + w;
        j = j + 1;
    }
    assert(am.take(atoms@.len() as int) =~= am);
    total
}

/// The non-separator content of a unit: the characters of its `w:t` text
/// that are neither word separators nor whitespace.
pub fn unit_non_separator_text_len(dom: &Dom, unit: &ComparisonUnit, word_separators: &[char]) -> (r: usize)
    requires
        dom.wf(),
        atoms_content(dom@, model_atoms(unit@), word_separators@) <= usize::MAX,
    ensures
        r == atoms_content(dom@, model_atoms(unit@), word_separators@),
{
    let atoms = unit.descendant_atoms();
    atoms_content_len(dom, &atoms, word_separators)
}

/// The non-separator content of a run of units.
pub fn run_non_separator_text_len(dom: &Dom, run: &[ComparisonUnit], word_separators: &[char]) -> (r: usize)
    requires
        dom.wf(),
        units_content(dom@, units_model(run@), word_separators@) <= usize::MAX,
    ensures
        r == units_content(dom@, units_model(run@), word_separators@),
{
    let ghost us = units_model(run@);
    let ghost seps = word_separators@;
    let mut total: usize = 0;
    let mut i: usize = 0;
    assert(us.take(0) =~= Seq::<UnitModel>::empty());
    while i < run.len()
        invariant
            dom.wf(),
            us == units_model(run@),
            seps == word_separators@,
            units_content(dom@, us, seps) <= usize::MAX,
            i <= run@.len(),
            total == units_content(dom@, us.take(i as int), seps),
        decreases run@.len() - i,
    {
        proof {
            lemma_models_atoms_step(us, i as int);
            lemma_atoms_content_concat(dom@, models_atoms(us.take(i as int)), model_atoms(us[i as int]), seps);
            lemma_units_content_concat(dom@, us.take(i + 1), us.skip(i + 1), seps);
            assert(us.take(i + 1) + us.skip(i + 1) =~= us);
            assert(us[i as int] == run@[i as int]@);
        }
        let w = unit_non_separator_text_len(dom, &run[i], word_separators);
        total = total + w;
        i = i + 1;
    }
    assert(us.take(run@.len() as int) =~= us);
    total
}

/// Prefix sums of the units' non-separator content: entry `k` is the
/// content of the first `k` units.
pub fn non_separator_prefix_sums(dom: &Dom, cul: &[ComparisonUnit], word_separators: &[char]) -> (r: Vec<usize>)
    requires
        dom.wf(),
        units_content(dom@, units_model(cul@), word_separators@) <= usize::MAX,
    ensures
        r@.len() == cul@.len() + 1,
        forall|k: int| 0 <= k <= cul@.len() ==> #[trigger] r@[k] == units_content(dom@, units_model(cul@).take(k), word_separators@),
{
    let ghost us = units_model(cul@);
    let ghost seps = word_separators@;
    let mut prefix: Vec<usize> = Vec::new();
    prefix.push(0);
    assert(us.take(0) =~= Seq::<UnitModel>::empty());
    let mut i: usize = 0;
    while i < cul.len()
        invariant
            dom.wf(),
            us == units_model(cul@),
            seps == word_separators@,
            units_content(dom@, us, seps) <= usize::MAX,
            i <= cul@.len(),
            prefix@.len() == i + 1,
            forall|k: int| 0 <= k <= i ==> #[trigger] prefix@[k] == units_content(dom@, us.take(k), seps),
        decreases cul@.len() - i,
    {
        proof {
            lemma_models_atoms_step(us, i as int);
            lemma_atoms_content_concat(dom@, models_atoms(us.take(i as int)), model_atoms(us[i as int]), seps);
            lemma_units_content_concat(dom@, us.take(i + 1), us.skip(i + 1), seps);
            assert(us.take(i + 1) + us.skip(i + 1) =~= us);
            assert(us[i as int] == cul@[i as int]@);
        }
        let s = unit_non_separator_text_len(dom, &cul[i], word_separators);
        let last = prefix[i];
        prefix.push(last + s);
        i = i + 1;
    }
    prefix
}

/// The score of the run `cul1[i1..i1 + len]`: its non-separator content in
/// Word mode (`dom` and separators given), else its length. Prefix sums,
/// when given, answer without walking the run.
pub fn common_run_content_score(
    dom: Option<&Dom>,
    cul1: &[ComparisonUnit],
    i1: usize,
    len: usize,
    word_separators: Option<&[char]>,
    prefix: Option<&[usize]>,
) -> (r: usize)
    requires
        i1 + len <= cul1@.len(),
        dom matches Some(d) ==> d.wf(),
        scoring_of(dom, word_separators).by_content ==> units_content(
            scoring_of(dom, word_separators).d,
            units_model(cul1@).subrange(i1 as int, i1 + len),
            scoring_of(dom, word_separators).seps,
        ) <= usize::MAX,
        prefix matches Some(p) ==> {
            &&& scoring_of(dom, word_separators).by_content
            &&& p@.len() == cul1@.len() + 1
            &&& forall|k: int| 0 <= k <= cul1@.len() ==> #[trigger] p@[k] == units_content(
                scoring_of(dom, word_separators).d,
                units_model(cul1@).take(k),
                scoring_of(dom, word_separators).seps,
            )
        },
    ensures
        r == run_score(scoring_of(dom, word_separators), units_model(cul1@), i1 as int, len as int),
{
    let ghost sc = scoring_of(dom, word_separators);
    let ghost us = units_model(cul1@);
    let n = cul1.len();
    assert(i1 + len <= n);
    if let Some(p) = prefix {
        proof {
            lemma_units_content_concat(sc.d, us.take(i1 as int), us.subrange(i1 as int, i1 + len), sc.seps);
            assert(us.take(i1 as int) + us.subrange(i1 as int, i1 + len) =~= us.take(i1 + len));
        }
        return p[i1 + len] - p[i1];
    }
    match (dom, word_separators) {
        (Some(d), Some(s)) => {
            let run = vstd::slice::slice_subrange(cul1, i1, i1 + len);
            assert(units_model(run@) =~= us.subrange(i1 as int, i1 + len));
            run_non_separator_text_len(d, run, s)
        },
        _ => len,
    }
}

/// The content of part of a run is at most that of the run.
proof fn lemma_units_content_sub(d: Seq<NodeView>, us: Seq<UnitModel>, i: int, j: int, seps: Seq<char>)
    requires
        0 <= i <= j <= us.len(),
    ensures
        units_content(d, us.subrange(i, j), seps) <= units_content(d, us, seps),
{
    lemma_units_content_concat(d, us.take(i), us.subrange(i, j), seps);
    lemma_units_content_concat(d, us.take(i) + us.subrange(i, j), us.skip(j), seps);
    assert(us.take(i) + us.subrange(i, j) + us.skip(j) =~= us);
}

/// The first common run of the best rank between `cul1` and `cul2`, as
/// `(start in cul1, start in cul2, length)`, or `(0, 0, 0)` when the two
/// share no hash. Every start pair is tried in row-major order; a run
/// replaces the best so far only when it ranks strictly higher, by score
/// (non-separator content in Word mode, length otherwise) and then by
/// length.
pub fn longest_common_run_scan(
    dom: Option<&Dom>,
    cul1: &[ComparisonUnit],
    cul2: &[ComparisonUnit],
    word_separators: Option<&[char]>,
) -> (r: (usize, usize, usize))
    requires
        dom matches Some(d) ==> d.wf(),
        scoring_of(dom, word_separators).by_content ==> units_content(
            scoring_of(dom, word_separators).d,
            units_model(cul1@),
            scoring_of(dom, word_separators).seps,
        ) <= usize::MAX,
    ensures
        (r.0 as int, r.1 as int, r.2 as nat) == best_run_spec(
            scoring_of(dom, word_separators),
            units_model(cul1@),
            units_model(cul2@),
        ),
{
    let ghost sc = scoring_of(dom, word_separators);
    let ghost c1 = units_model(cul1@);
    let ghost c2 = units_model(cul2@);
    let prefix: Option<Vec<usize>> = match (dom, word_separators) {
        (Some(d), Some(s)) => Some(non_separator_prefix_sums(d, cul1, s)),
        _ => None,
    };
    let pref: Option<&[usize]> = match &prefix {
        Some(v) => Some(v.as_slice()),
        None => None,
    };
    let mut best: Option<(usize, usize, usize, usize)> = None;
    let mut i1: usize = 0;
    while i1 < cul1.len()
        invariant
            sc == scoring_of(dom, word_separators),
            c1 == units_model(cul1@),
            c2 == units_model(cul2@),
            dom matches Some(d) ==> d.wf(),
            sc.by_content ==> units_content(sc.d, c1, sc.seps) <= usize::MAX,
            pref matches Some(p) ==> {
                &&& sc.by_content
                &&& p@.len() == cul1@.len() + 1
                &&& forall|k: int| 0 <= k <= cul1@.len() ==> #[trigger] p@[k] == units_content(sc.d, c1.take(k), sc.seps)
            },
            i1 <= cul1@.len(),
            forall|p: int, q: int|
                0 <= p < i1 && 0 <= q < c2.len() && #[trigger] unit_common_len(c1, c2, p, q) > 0 ==> match best {
                    None => false,
                    Some(b) => !key_lt((b.0 as int, b.1 as int), run_key(sc, c1, c2, p, q)),
                },
            match best {
                None => true,
                Some(b) => {
                    &&& (b.0 as int, b.1 as int) == run_key(sc, c1, c2, b.2 as int, b.3 as int)
                    &&& b.2 < i1
                    &&& b.3 < c2.len()
                    &&& b.1 > 0
                    &&& forall|p: int, q: int|
                        0 <= p < c1.len() && 0 <= q < c2.len() && #[trigger] unit_common_len(c1, c2, p, q) > 0
                            && lex_before(p, q, b.2 as int, b.3 as int) ==> key_lt(run_key(sc, c1, c2, p, q), (b.0 as int, b.1 as int))
                },
            },
        decreases cul1@.len() - i1,
    {
        let mut i2: usize = 0;
        while i2 < cul2.len()
            invariant
                sc == scoring_of(dom, word_separators),
                c1 == units_model(cul1@),
                c2 == units_model(cul2@),
                dom matches Some(d) ==> d.wf(),
                sc.by_content ==> units_content(sc.d, c1, sc.seps) <= usize::MAX,
                pref matches Some(p) ==> {
                    &&& sc.by_content
                    &&& p@.len() == cul1@.len() + 1
                    &&& forall|k: int| 0 <= k <= cul1@.len() ==> #[trigger] p@[k] == units_content(sc.d, c1.take(k), sc.seps)
                },
                i1 < cul1@.len(),
                i2 <= cul2@.len(),
                forall|p: int, q: int|
                    0 <= p < c1.len() && 0 <= q < c2.len() && #[trigger] unit_common_len(c1, c2, p, q) > 0
                        && lex_before(p, q, i1 as int, i2 as int) ==> match best {
                        None => false,
                        Some(b) => !key_lt((b.0 as int, b.1 as int), run_key(sc, c1, c2, p, q)),
                    },
                match best {
                    None => true,
                    Some(b) => {
                        &&& (b.0 as int, b.1 as int) == run_key(sc, c1, c2, b.2 as int, b.3 as int)
                        &&& lex_before(b.2 as int, b.3 as int, i1 as int, i2 as int)
                        &&& b.3 < c2.len()
                        &&& b.1 > 0
                        &&& forall|p: int, q: int|
                            0 <= p < c1.len() && 0 <= q < c2.len() && #[trigger] unit_common_len(c1, c2, p, q) > 0
                                && lex_before(p, q, b.2 as int, b.3 as int) ==> key_lt(run_key(sc, c1, c2, p, q), (b.0 as int, b.1 as int))
                    },
                },
            decreases cul2@.len() - i2,
        {
            let len = extend_common_run(cul1, cul2, i1, i2);
            if len > 0 {
                proof {
                    lemma_unit_run_bound(c1, c2, i1 as int, i2 as int);
                    if sc.by_content {
                        lemma_units_content_sub(sc.d, c1, i1 as int, i1 + len, sc.seps);
                    }
                }
                let content = common_run_content_score(dom, cul1, i1, len, word_separators, pref);
                let ghost old_best = best;
                consider_candidate(&mut best, (content, len, i1, i2));
                proof {
                    let ck = run_key(sc, c1, c2, i1 as int, i2 as int);
                    assert(ck == (content as int, len as int));
                    match old_best {
                        None => {},
                        Some(b) => {
                            if key_lt((b.0 as int, b.1 as int), ck) {
                                assert forall|p: int, q: int|
                                    0 <= p < c1.len() && 0 <= q < c2.len() && #[trigger] unit_common_len(c1, c2, p, q) > 0
                                        && lex_before(p, q, i1 as int, i2 as int) implies key_lt(run_key(sc, c1, c2, p, q), ck) by {}
                            }
                        },
                    }
                }
            }
            i2 = i2 + 1;
        }
        i1 = i1 + 1;
    }
    match best {
        None => {
            proof {
                lemma_no_best_run(sc, c1, c2);
            }
            (0, 0, 0)
        },
        Some(b) => {
            proof {
                lemma_first_best_unique(sc, c1, c2, b.2 as int, b.3 as int);
            }
            (b.2, b.3, b.1)
        },
    }
}

/// The first common run of the best rank (see `longest_common_run_scan`):
/// in Word mode, with `dom` and separators given, ties in length are broken
/// by non-separator content so that glue spaces do not win.
pub fn longest_common_run_with_dom(
    dom: Option<&Dom>,
    cul1: &[ComparisonUnit],
    cul2: &[ComparisonUnit],
    word_separators: Option<&[char]>,
) -> (r: (usize, usize, usize))
    requires
        dom matches Some(d) ==> d.wf(),
        scoring_of(dom, word_separators).by_content ==> units_content(
            scoring_of(dom, word_separators).d,
            units_model(cul1@),
            scoring_of(dom, word_separators).seps,
        ) <= usize::MAX,
    ensures
        (r.0 as int, r.1 as int, r.2 as nat) == best_run_spec(
            scoring_of(dom, word_separators),
            units_model(cul1@),
            units_model(cul2@),
        ),
{
    longest_common_run_scan(dom, cul1, cul2, word_separators)
}


/// Ranked by length alone, the best run is the first longest run: what
/// `longest_common_run` finds.
pub proof fn lemma_length_rank_is_first_longest(c1: Seq<UnitModel>, c2: Seq<UnitModel>)
    ensures
        best_run_spec(RunScoring { by_content: false, d: seq![], seps: seq![] }, c1, c2)
            == longest_unit_run_spec(c1, c2),
{
    let sc = RunScoring { by_content: false, d: seq![], seps: seq![] };
    assert forall|i: int, j: int| #[trigger] is_first_best_run(sc, c1, c2, i, j) <==> is_first_longest_unit_run(c1, c2, i, j) by {
        if is_first_best_run(sc, c1, c2, i, j) {
            assert forall|p: int, q: int| 0 <= p < c1.len() && 0 <= q < c2.len() implies #[trigger] unit_common_len(c1, c2, p, q) <= unit_common_len(c1, c2, i, j) by {
                if unit_common_len(c1, c2, p, q) > 0 {
                    assert(!key_lt(run_key(sc, c1, c2, i, j), run_key(sc, c1, c2, p, q)));
                }
            }
            assert forall|p: int, q: int| 0 <= p < c1.len() && 0 <= q < c2.len() && lex_before(p, q, i, j) implies #[trigger] unit_common_len(c1, c2, p, q) < unit_common_len(c1, c2, i, j) by {
                if unit_common_len(c1, c2, p, q) > 0 {
                    assert(key_lt(run_key(sc, c1, c2, p, q), run_key(sc, c1, c2, i, j)));
                }
            }
        }
        if is_first_longest_unit_run(c1, c2, i, j) {
            assert forall|p: int, q: int| 0 <= p < c1.len() && 0 <= q < c2.len() && #[trigger] unit_common_len(c1, c2, p, q) > 0 implies !key_lt(run_key(sc, c1, c2, i, j), run_key(sc, c1, c2, p, q)) by {
                assert(unit_common_len(c1, c2, p, q) <= unit_common_len(c1, c2, i, j));
            }
            assert forall|p: int, q: int| 0 <= p < c1.len() && 0 <= q < c2.len() && #[trigger] unit_common_len(c1, c2, p, q) > 0 && lex_before(p, q, i, j) implies key_lt(run_key(sc, c1, c2, p, q), run_key(sc, c1, c2, i, j)) by {
                assert(unit_common_len(c1, c2, p, q) < unit_common_len(c1, c2, i, j));
            }
        }
    }
    if exists|i: int, j: int| is_first_best_run(sc, c1, c2, i, j) {
        let (i, j) = choose|i: int, j: int| is_first_best_run(sc, c1, c2, i, j);
        lemma_first_best_unique(sc, c1, c2, i, j);
        lemma_first_longest_unit_unique(c1, c2, i, j);
    } else {
        if exists|i: int, j: int| is_first_longest_unit_run(c1, c2, i, j) {
            let (i, j) = choose|i: int, j: int| is_first_longest_unit_run(c1, c2, i, j);
            assert(is_first_best_run(sc, c1, c2, i, j));
        }
    }
}

} // verus!
