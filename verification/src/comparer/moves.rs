//! Move detection support: splitting text into words, runs of atoms with a
//! given status, the text of such a run, and its split at paragraph marks.

use vstd::prelude::*;

use super::atoms::{atoms_model, AtomBlock, AtomModel, ComparisonUnitAtom};
use super::lcs::{atom_is_ppr, is_ppr};
use super::CorrelationStatus;
use crate::text::{chars_of, is_white_space, is_whitespace_char, push_char, to_upper_case, unicode_upper};
use crate::xml::{value_of, Dom, NodeView};

verus! {

// ── splitting text ──────────────────────────────────────────────────────────

/// The segments of `t` between occurrences of separator characters, empty
/// ones included; there is always one segment more than separators.
pub open spec fn split_segments(t: Seq<char>, seps: Seq<char>) -> Seq<Seq<char>>
    decreases t.len(),
{
    if t.len() == 0 {
        seq![seq![]]
    } else {
        let prev = split_segments(t.drop_last(), seps);
        if seps.contains(t.last()) {
            prev.push(seq![])
        } else {
            prev.update(prev.len() - 1, prev.last().push(t.last()))
        }
    }
}

proof fn lemma_split_nonempty(t: Seq<char>, seps: Seq<char>)
    ensures
        split_segments(t, seps).len() >= 1,
    decreases t.len(),
{
    if t.len() > 0 {
        lemma_split_nonempty(t.drop_last(), seps);
    }
}

fn contains_char(seps: &[char], c: char) -> (r: bool)
    ensures
        r == seps@.contains(c),
{
    let mut i: usize = 0;
    while i < seps.len()
        invariant
            i <= seps@.len(),
            forall|j: int| 0 <= j < i ==> seps@[j] != c,
        decreases seps@.len() - i,
    {
        if seps[i] == c {
            return true;
        }
        i = i + 1;
    }
    false
}

/// The views of a sequence of strings.
pub open spec fn strings_view(v: Seq<String>) -> Seq<Seq<char>> {
    v.map_values(|s: String| s@)
}

/// Splits `text` at every separator character, keeping empty segments.
pub fn split_by_chars(text: &str, seps: &[char]) -> (r: Vec<String>)
    ensures
        strings_view(r@) == split_segments(text@, seps@),
{
    let t = chars_of(text);
    let mut out: Vec<String> = Vec::new();
    let mut cur = String::new();
    let mut i: usize = 0;
    assert(t@.take(0) =~= Seq::<char>::empty());
    assert(strings_view(out@).push(cur@) =~= split_segments(t@.take(0), seps@));
    while i < t.len()
        invariant
            t@ == text@,
            i <= t@.len(),
            strings_view(out@).push(cur@) == split_segments(t@.take(i as int), seps@),
        decreases t@.len() - i,
    {
        let c = t[i];
        assert(t@.take(i + 1).drop_last() =~= t@.take(i as int));
        proof {
            lemma_split_nonempty(t@.take(i as int), seps@);
        }
        if contains_char(seps, c) {
            let done = cur;
            cur = String::new();
            let ghost prev = strings_view(out@);
            out.push(done);
            assert(strings_view(out@) =~= prev.push(done@));
        } else {
            push_char(&mut cur, c);
        }
        assert(strings_view(out@).push(cur@) =~= split_segments(t@.take(i + 1), seps@));
        i = i + 1;
    }
    let ghost prev = strings_view(out@);
    out.push(cur);
    assert(strings_view(out@) =~= prev.push(out@.last()@));
    assert(t@.take(t@.len() as int) =~= t@);
    out
}

/// Number of non-empty segments of `segs`.
pub open spec fn nonempty_count(segs: Seq<Seq<char>>) -> nat
    decreases segs.len(),
{
    if segs.len() == 0 {
        0
    } else {
        nonempty_count(segs.drop_last()) + if segs.last().len() > 0 {
            1nat
        } else {
            0nat
        }
    }
}

/// The number of non-empty words of `text` between separator characters.
pub fn count_words(text: &str, seps: &[char]) -> (n: usize)
    ensures
        n == nonempty_count(split_segments(text@, seps@)),
{
    let segs = split_by_chars(text, seps);
    let ghost sv = strings_view(segs@);
    let mut n: usize = 0;
    let mut i: usize = 0;
    while i < segs.len()
        invariant
            sv == strings_view(segs@),
            i <= segs@.len(),
            n <= i,
            n == nonempty_count(sv.take(i as int)),
        decreases segs@.len() - i,
    {
        assert(sv.take(i + 1).drop_last() =~= sv.take(i as int));
        if segs[i].unicode_len() > 0 {
            n = n + 1;
        }
        i = i + 1;
    }
    assert(sv.take(segs@.len() as int) =~= sv);
    n
}

// ── collapsing whitespace ───────────────────────────────────────────────────

/// The maximal runs of non-whitespace characters of `t`, in order.
pub open spec fn ws_words(t: Seq<char>) -> Seq<Seq<char>>
    decreases t.len(),
{
    if t.len() == 0 {
        seq![]
    } else {
        let prev = ws_words(t.drop_last());
        let c = t.last();
        if is_white_space(c) {
            prev
        } else if t.len() >= 2 && !is_white_space(t[t.len() - 2]) {
            prev.update(prev.len() - 1, prev.last().push(c))
        } else {
            prev.push(seq![c])
        }
    }
}

/// `ws` joined with single spaces.
pub open spec fn join_spaced(ws: Seq<Seq<char>>) -> Seq<char>
    decreases ws.len(),
{
    if ws.len() == 0 {
        seq![]
    } else if ws.len() == 1 {
        ws[0]
    } else {
        join_spaced(ws.drop_last()) + seq![' '] + ws.last()
    }
}

proof fn lemma_join_extend(ws: Seq<Seq<char>>, c: char)
    requires
        ws.len() > 0,
    ensures
        join_spaced(ws.update(ws.len() - 1, ws.last().push(c))) == join_spaced(ws).push(c),
{
    let w2 = ws.update(ws.len() - 1, ws.last().push(c));
    if ws.len() > 1 {
        assert(w2.drop_last() =~= ws.drop_last());
    }
}

proof fn lemma_join_push(ws: Seq<Seq<char>>, c: char)
    ensures
        join_spaced(ws.push(seq![c])) == if ws.len() == 0 {
            seq![c]
        } else {
            join_spaced(ws).push(' ').push(c)
        },
{
    assert(ws.push(seq![c]).drop_last() =~= ws);
}

/// `text` with its whitespace-separated words joined by single spaces.
pub fn collapse_ws(text: &str) -> (r: String)
    ensures
        r@ == join_spaced(ws_words(text@)),
{
    let t = chars_of(text);
    let mut out = String::new();
    let mut in_word = false;
    let mut has_word = false;
    let mut i: usize = 0;
    assert(t@.take(0) =~= Seq::<char>::empty());
    while i < t.len()
        invariant
            t@ == text@,
            i <= t@.len(),
            out@ == join_spaced(ws_words(t@.take(i as int))),
            in_word == (i > 0 && !is_white_space(t@[i - 1])),
            has_word == (ws_words(t@.take(i as int)).len() > 0),
            in_word ==> has_word,
        decreases t@.len() - i,
    {
        let c = t[i];
        let ghost pre = t@.take(i as int);
        let ghost cur = t@.take(i + 1);
        assert(cur.drop_last() =~= pre);
        assert(cur.last() == c);
        if is_whitespace_char(c) {
            in_word = false;
        } else {
            if in_word {
                assert(cur[cur.len() - 2] == t@[i - 1]);
                proof {
                    lemma_join_extend(ws_words(pre), c);
                }
                push_char(&mut out, c);
            } else {
                proof {
                    lemma_join_push(ws_words(pre), c);
                    if i > 0 {
                        assert(cur[cur.len() - 2] == t@[i - 1]);
                    }
                }
                if has_word {
                    push_char(&mut out, ' ');
                }
                push_char(&mut out, c);
                assert(out@ =~= join_spaced(ws_words(cur)));
            }
            in_word = true;
            has_word = true;
        }
        i = i + 1;
    }
    assert(t@.take(t@.len() as int) =~= t@);
    out
}

// ── runs of atoms ───────────────────────────────────────────────────────────

/// What an [`AtomBlock`] holds: its atom indices and its start index.
pub open spec fn blocks_view(v: Seq<AtomBlock>) -> Seq<(Seq<usize>, usize)> {
    v.map_values(|b: AtomBlock| (b.atoms@, b.start_index))
}

/// The maximal runs of consecutive positions of `st` holding `s`, each with
/// the position it starts at.
pub open spec fn status_runs(st: Seq<CorrelationStatus>, s: CorrelationStatus) -> Seq<
    (Seq<usize>, usize),
>
    decreases st.len(),
{
    if st.len() == 0 {
        seq![]
    } else {
        let prev = status_runs(st.drop_last(), s);
        let i = (st.len() - 1) as usize;
        if st.last() != s {
            prev
        } else if st.len() >= 2 && st[st.len() - 2] == s {
            prev.update(prev.len() - 1, (prev.last().0.push(i), prev.last().1))
        } else {
            prev.push((seq![i], i))
        }
    }
}

/// The statuses of a sequence of atoms.
pub open spec fn statuses(a: Seq<AtomModel>) -> Seq<CorrelationStatus> {
    a.map_values(|x: AtomModel| x.correlation_status)
}

/// The maximal runs of consecutive atoms whose status is `status`.
pub fn group_consecutive_atoms_by_status(atoms: &[ComparisonUnitAtom], status: CorrelationStatus) -> (r:
    Vec<AtomBlock>)
    ensures
        blocks_view(r@) == status_runs(statuses(atoms_model(atoms@)), status),
{
    let ghost st = statuses(atoms_model(atoms@));
    let mut blocks: Vec<AtomBlock> = Vec::new();
    let mut cur: Vec<usize> = Vec::new();
    let mut start: usize = 0;
    let mut open = false;
    let mut i: usize = 0;
    assert(st.take(0) =~= Seq::<CorrelationStatus>::empty());
    assert(blocks_view(blocks@) =~= Seq::<(Seq<usize>, usize)>::empty());
    while i < atoms.len()
        invariant
            st == statuses(atoms_model(atoms@)),
            st.len() == atoms@.len(),
            i <= atoms@.len(),
            open == (i > 0 && st[i - 1] == status),
            blocks_view(blocks@) + (if open {
                seq![(cur@, start)]
            } else {
                seq![]
            }) == status_runs(st.take(i as int), status),
        decreases atoms@.len() - i,
    {
        let ghost pre = st.take(i as int);
        assert(st.take(i + 1).drop_last() =~= pre);
        assert(st[i as int] == atoms@[i as int].correlation_status);
        let ghost bv = blocks_view(blocks@);
        if atoms[i].correlation_status == status {
            if open {
                assert(st.take(i + 1)[i - 1] == st[i - 1]);
                cur.push(i);
                assert(bv + seq![(cur@, start)] =~= status_runs(st.take(i + 1), status));
            } else {
                cur = Vec::new();
                cur.push(i);
                start = i;
                assert(cur@ =~= seq![i]);
                if i > 0 {
                    assert(st.take(i + 1)[i - 1] == st[i - 1]);
                }
                assert(bv + seq![(cur@, start)] =~= status_runs(st.take(i + 1), status));
            }
            open = true;
        } else {
            if open {
                let b = AtomBlock { atoms: cur, start_index: start };
                blocks.push(b);
                cur = Vec::new();
                assert(blocks_view(blocks@) =~= bv.push((b.atoms@, b.start_index)));
            }
            open = false;
            assert(blocks_view(blocks@) + seq![] =~= status_runs(st.take(i + 1), status));
        }
        i = i + 1;
    }
    if open {
        let b = AtomBlock { atoms: cur, start_index: start };
        let ghost bv = blocks_view(blocks@);
        blocks.push(b);
        assert(blocks_view(blocks@) =~= bv.push((b.atoms@, b.start_index)));
    }
    assert(st.take(atoms@.len() as int) =~= st);
    assert(blocks_view(blocks@) =~= status_runs(st, status));
    blocks
}

/// The text of the atoms at `idx`: a newline for a paragraph mark, else the
/// string value of the atom's content element.
pub open spec fn block_text(d: Seq<NodeView>, am: Seq<AtomModel>, idx: Seq<usize>) -> Seq<char>
    decreases idx.len(),
{
    if idx.len() == 0 {
        seq![]
    } else {
        let a = am[idx.last() as int];
        block_text(d, am, idx.drop_last()) + if is_ppr(d, a) {
            seq!['\n']
        } else {
            value_of(d, a.content_element.0 as int)
        }
    }
}

/// The text of a block of atoms: each paragraph mark gives a newline, each
/// other atom the text of its content element, with no separator.
pub fn extract_text_from_atom_block(dom: &Dom, atoms: &[ComparisonUnitAtom], block: &AtomBlock) -> (r:
    String)
    requires
        dom.wf(),
        forall|k: int| 0 <= k < block.atoms@.len() ==> block.atoms@[k] < atoms@.len(),
    ensures
        r@ == block_text(dom@, atoms_model(atoms@), block.atoms@),
{
    let ghost am = atoms_model(atoms@);
    let ghost idx = block.atoms@;
    let mut s = String::new();
    let mut k: usize = 0;
    assert(idx.take(0) =~= Seq::<usize>::empty());
    while k < block.atoms.len()
        invariant
            dom.wf(),
            am == atoms_model(atoms@),
            idx == block.atoms@,
            forall|k: int| 0 <= k < block.atoms@.len() ==> block.atoms@[k] < atoms@.len(),
            k <= idx.len(),
            s@ == block_text(dom@, am, idx.take(k as int)),
        decreases idx.len() - k,
    {
        let i = block.atoms[k];
        assert(idx.take(k + 1).drop_last() =~= idx.take(k as int));
        assert(am[i as int] == atoms@[i as int]@);
        if atom_is_ppr(dom, &atoms[i]) {
            push_char(&mut s, '\n');
        } else {
            let v = dom.value_str(atoms[i].content_element);
            s.append(v.as_str());
        }
        k = k + 1;
    }
    assert(idx.take(idx.len() as int) =~= idx);
    s
}

/// The indices `idx` cut just after each paragraph mark, without empty pieces.
pub open spec fn para_pieces(d: Seq<NodeView>, am: Seq<AtomModel>, idx: Seq<usize>) -> Seq<
    Seq<usize>,
>
    decreases idx.len(),
{
    if idx.len() == 0 {
        seq![]
    } else {
        let prev = para_pieces(d, am, idx.drop_last());
        let i = idx.last();
        if idx.len() >= 2 && !is_ppr(d, am[idx[idx.len() - 2] as int]) {
            prev.update(prev.len() - 1, prev.last().push(i))
        } else {
            prev.push(seq![i])
        }
    }
}

proof fn lemma_pieces_shape(d: Seq<NodeView>, am: Seq<AtomModel>, idx: Seq<usize>)
    ensures
        forall|j: int| 0 <= j < para_pieces(d, am, idx).len() ==> #[trigger] para_pieces(d, am, idx)[j].len() > 0,
        idx.len() > 0 ==> para_pieces(d, am, idx).len() > 0,
    decreases idx.len(),
{
    if idx.len() > 0 {
        lemma_pieces_shape(d, am, idx.drop_last());
        let prev = para_pieces(d, am, idx.drop_last());
        let cur = para_pieces(d, am, idx);
        assert forall|j: int| 0 <= j < cur.len() implies #[trigger] cur[j].len() > 0 by {
            if j < prev.len() && j != prev.len() - 1 {
                assert(cur[j] == prev[j]);
            }
        }
    }
}

/// Each piece with the index it starts at.
pub open spec fn pieces_blocks(p: Seq<Seq<usize>>) -> Seq<(Seq<usize>, usize)> {
    p.map_values(|x: Seq<usize>| (x, x[0]))
}

/// The block split into paragraphs: a piece ends after each paragraph mark,
/// and starts at its first atom; a block without atoms comes back as it is.
pub fn split_block_on_paragraphs(dom: &Dom, atoms: &[ComparisonUnitAtom], block: &AtomBlock) -> (r:
    Vec<AtomBlock>)
    requires
        forall|k: int| 0 <= k < block.atoms@.len() ==> block.atoms@[k] < atoms@.len(),
    ensures
        blocks_view(r@) == if block.atoms@.len() == 0 {
            seq![(block.atoms@, block.start_index)]
        } else {
            pieces_blocks(para_pieces(dom@, atoms_model(atoms@), block.atoms@))
        },
{
    let ghost am = atoms_model(atoms@);
    let ghost idx = block.atoms@;
    let mut out: Vec<AtomBlock> = Vec::new();
    let mut cur: Vec<usize> = Vec::new();
    let mut start: usize = block.start_index;
    let mut k: usize = 0;
    assert(idx.take(0) =~= Seq::<usize>::empty());
    assert(blocks_view(out@) =~= Seq::<(Seq<usize>, usize)>::empty());
    while k < block.atoms.len()
        invariant
            am == atoms_model(atoms@),
            idx == block.atoms@,
            forall|k: int| 0 <= k < block.atoms@.len() ==> block.atoms@[k] < atoms@.len(),
            k <= idx.len(),
            cur@.len() > 0 ==> start == cur@[0],
            (cur@.len() > 0) == (k > 0 && !is_ppr(dom@, am[idx[k - 1] as int])),
            blocks_view(out@) + (if cur@.len() > 0 {
                seq![(cur@, start)]
            } else {
                seq![]
            }) == pieces_blocks(para_pieces(dom@, am, idx.take(k as int))),
        decreases idx.len() - k,
    {
        let i = block.atoms[k];
        let ghost pre = idx.take(k as int);
        let ghost now = idx.take(k + 1);
        assert(now.drop_last() =~= pre);
        assert(now.last() == i);
        if k > 0 {
            assert(now[now.len() - 2] == idx[k - 1]);
        }
        proof {
            lemma_pieces_shape(dom@, am, pre);
        }
        assert(am[i as int] == atoms@[i as int]@);
        let ppr = atom_is_ppr(dom, &atoms[i]);
        let ghost ov = blocks_view(out@);
        let ghost was_open = cur@.len() > 0;
        let ghost old_cur = cur@;
        if cur.len() == 0 {
            start = i;
        }
        cur.push(i);
        proof {
            let pp = para_pieces(dom@, am, pre);
            if was_open {
                assert(pp.len() > 0);
                let pb = pieces_blocks(pp);
                assert(pb == ov + seq![(old_cur, start)]);
                assert(pb.last() == (old_cur, start));
                assert(pb[pb.len() - 1] == (pp[pp.len() - 1], pp[pp.len() - 1][0]));
                assert(pp.last() == old_cur);
                assert(para_pieces(dom@, am, now) == pp.update(pp.len() - 1, old_cur.push(i)));
                assert(cur@ == old_cur.push(i));
                assert(cur@[0] == old_cur[0]);
                assert(start == old_cur[0]);
                let np = para_pieces(dom@, am, now);
                assert forall|j: int| 0 <= j < pp.len() - 1 implies #[trigger] pieces_blocks(np)[j] == ov[j] by {
                    assert(np[j] == pp[j]);
                    assert(pb[j] == (pp[j], pp[j][0]));
                    assert(pb[j] == ov[j]);
                }
                assert(pieces_blocks(np) =~= ov + seq![(cur@, start)]);
            } else {
                assert(cur@ =~= seq![i]);
                assert(pieces_blocks(para_pieces(dom@, am, now)) =~= ov + seq![(cur@, start)]);
            }
        }
        if ppr {
            let b = AtomBlock { atoms: cur, start_index: start };
            out.push(b);
            cur = Vec::new();
            assert(blocks_view(out@) =~= ov.push((b.atoms@, b.start_index)));
            assert(blocks_view(out@) + seq![] =~= pieces_blocks(para_pieces(dom@, am, now)));
        }
        k = k + 1;
    }
    if cur.len() > 0 {
        let b = AtomBlock { atoms: cur, start_index: start };
        let ghost ov = blocks_view(out@);
        out.push(b);
        assert(blocks_view(out@) =~= ov.push((b.atoms@, b.start_index)));
    }
    assert(idx.take(idx.len() as int) =~= idx);
    assert(blocks_view(out@) =~= pieces_blocks(para_pieces(dom@, am, idx)));
    if out.len() == 0 {
        proof {
            lemma_pieces_shape(dom@, am, idx);
        }
        let b = AtomBlock {
            atoms: vstd::slice::slice_to_vec(block.atoms.as_slice()),
            start_index: block.start_index,
        };
        out.push(b);
        assert(blocks_view(out@) =~= seq![(block.atoms@, block.start_index)]);
    }
    out
}

// ── laws ────────────────────────────────────────────────────────────────────

/// Number of separator characters in `t`.
pub open spec fn sep_count(t: Seq<char>, seps: Seq<char>) -> nat
    decreases t.len(),
{
    if t.len() == 0 {
        0
    } else {
        sep_count(t.drop_last(), seps) + if seps.contains(t.last()) {
            1nat
        } else {
            0nat
        }
    }
}

/// Splitting gives one segment more than there are separators, and no
/// segment holds a separator.
pub proof fn lemma_split_segments(t: Seq<char>, seps: Seq<char>)
    ensures
        split_segments(t, seps).len() == sep_count(t, seps) + 1,
        forall|i: int, j: int|
            0 <= i < split_segments(t, seps).len() && 0 <= j < split_segments(t, seps)[i].len()
                ==> !seps.contains(#[trigger] split_segments(t, seps)[i][j]),
    decreases t.len(),
{
    if t.len() > 0 {
        lemma_split_segments(t.drop_last(), seps);
        let prev = split_segments(t.drop_last(), seps);
        let cur = split_segments(t, seps);
        assert forall|i: int, j: int|
            0 <= i < cur.len() && 0 <= j < cur[i].len() implies !seps.contains(#[trigger] cur[i][j]) by {
            if seps.contains(t.last()) {
                if i < prev.len() {
                    assert(cur[i] == prev[i]);
                }
            } else {
                if i < prev.len() - 1 {
                    assert(cur[i] == prev[i]);
                } else {
                    assert(cur[i] == prev.last().push(t.last()));
                    if j < prev.last().len() {
                        assert(cur[i][j] == prev[prev.len() - 1][j]);
                    }
                }
            }
        }
    }
}

/// The positions of `st` that hold `s`, in order.
pub open spec fn positions_with(st: Seq<CorrelationStatus>, s: CorrelationStatus) -> Seq<usize>
    decreases st.len(),
{
    if st.len() == 0 {
        seq![]
    } else {
        positions_with(st.drop_last(), s) + if st.last() == s {
            seq![(st.len() - 1) as usize]
        } else {
            seq![]
        }
    }
}

/// The indices of all runs, one run after another.
pub open spec fn run_indices(runs: Seq<(Seq<usize>, usize)>) -> Seq<usize>
    decreases runs.len(),
{
    if runs.len() == 0 {
        seq![]
    } else {
        run_indices(runs.drop_last()) + runs.last().0
    }
}

/// The runs of a status cover exactly the positions holding it, in order;
/// each run is non-empty and starts at its first position.
pub proof fn lemma_status_runs_cover(st: Seq<CorrelationStatus>, s: CorrelationStatus)
    ensures
        run_indices(status_runs(st, s)) == positions_with(st, s),
        forall|k: int|
            0 <= k < status_runs(st, s).len() ==> (#[trigger] status_runs(st, s)[k]).0.len() > 0
                && status_runs(st, s)[k].1 == status_runs(st, s)[k].0[0],
    decreases st.len(),
{
    if st.len() > 0 {
        lemma_status_runs_cover(st.drop_last(), s);
        let prev = status_runs(st.drop_last(), s);
        let cur = status_runs(st, s);
        let i = (st.len() - 1) as usize;
        if st.last() != s {
            assert(positions_with(st, s) =~= positions_with(st.drop_last(), s));
        } else if st.len() >= 2 && st[st.len() - 2] == s {
            let sd = st.drop_last();
            assert(sd.len() >= 1 && sd.last() == s);
            assert(prev.len() > 0) by {
                if prev.len() == 0 {
                    lemma_runs_last(sd, s);
                }
            }
            let x = prev.last();
            assert(cur.drop_last() =~= prev.drop_last());
            assert(cur.last() == (x.0.push(i), x.1));
            assert(run_indices(cur) =~= run_indices(prev).push(i));
            assert forall|k: int| 0 <= k < cur.len() implies (#[trigger] cur[k]).0.len() > 0 && cur[k].1
                == cur[k].0[0] by {
                if k < cur.len() - 1 {
                    assert(cur[k] == prev[k]);
                } else {
                    assert(prev[k].0.len() > 0);
                }
            }
        } else {
            assert(cur.drop_last() =~= prev);
            assert(run_indices(cur) =~= run_indices(prev) + seq![i]);
            assert forall|k: int| 0 <= k < cur.len() implies (#[trigger] cur[k]).0.len() > 0 && cur[k].1
                == cur[k].0[0] by {
                if k < cur.len() - 1 {
                    assert(cur[k] == prev[k]);
                }
            }
        }
    }
}

proof fn lemma_runs_last(st: Seq<CorrelationStatus>, s: CorrelationStatus)
    requires
        st.len() >= 1,
        st.last() == s,
    ensures
        status_runs(st, s).len() > 0,
    decreases st.len(),
{
    if st.len() >= 2 && st[st.len() - 2] == s {
        lemma_runs_last(st.drop_last(), s);
    }
}


/// The non-empty segments among `segs`, upper-cased when
/// `case_insensitive`.
pub open spec fn word_forms(segs: Seq<Seq<char>>, case_insensitive: bool) -> Seq<Seq<char>>
    decreases segs.len(),
{
    if segs.len() == 0 {
        seq![]
    } else {
        let s = segs.last();
        word_forms(segs.drop_last(), case_insensitive) + if s.len() == 0 {
            seq![]
        } else if case_insensitive {
            seq![unicode_upper(s)]
        } else {
            seq![s]
        }
    }
}

/// The distinct words of `text` between separators, upper-cased when
/// `case_insensitive`, in order of first occurrence.
pub fn tokenize(text: &str, word_separators: &[char], case_insensitive: bool) -> (r: Vec<String>)
    ensures
        strings_view(r@) == crate::comparer::residuals::distinct(
            word_forms(split_segments(text@, word_separators@), case_insensitive),
        ),
{
    let segs = split_by_chars(text, word_separators);
    let ghost sv = strings_view(segs@);
    let mut words: Vec<String> = Vec::new();
    let mut i: usize = 0;
    assert(sv.take(0) =~= Seq::<Seq<char>>::empty());
    assert(strings_view(words@) =~= Seq::<Seq<char>>::empty());
    while i < segs.len()
        invariant
            sv == strings_view(segs@),
            i <= segs@.len(),
            strings_view(words@) == word_forms(sv.take(i as int), case_insensitive),
        decreases segs@.len() - i,
    {
        assert(sv.take(i + 1).drop_last() =~= sv.take(i as int));
        assert(sv.take(i + 1).last() == segs@[i as int]@);
        let ghost before = strings_view(words@);
        if segs[i].as_str().unicode_len() > 0 {
            let w = if case_insensitive {
                to_upper_case(segs[i].as_str())
            } else {
                segs[i].clone()
            };
            words.push(w);
            assert(strings_view(words@) =~= before.push(w@));
        } else {
            assert(segs@[i as int]@.len() == 0) by {
                assert(segs@[i as int]@.len() == segs[i as int]@.len());
            }
            assert(word_forms(sv.take(i + 1), case_insensitive) =~= before);
        }
        i = i + 1;
    }
    assert(sv.take(segs@.len() as int) =~= sv);
    crate::comparer::residuals::distinct_tokens(&words)
}

// ── matching deleted and inserted paragraphs as moves ──────────────────────

/// What move matching reads of a block: whether its collapsed text is empty,
/// its word count, its distinct words and its length in characters.
pub struct BlockFeat {
    pub collapsed_empty: bool,
    pub words: nat,
    pub tokens: Seq<Seq<char>>,
    pub chars: nat,
}

/// The features of the block of atoms at `idx`.
pub open spec fn block_feat(d: Seq<NodeView>, am: Seq<AtomModel>, idx: Seq<usize>, seps: Seq<char>, ci: bool) -> BlockFeat {
    let text = block_text(d, am, idx);
    let collapsed = join_spaced(ws_words(text));
    BlockFeat {
        collapsed_empty: collapsed.len() == 0,
        words: nonempty_count(split_segments(collapsed, seps)),
        tokens: crate::comparer::residuals::distinct(word_forms(split_segments(collapsed, seps), ci)),
        chars: text.len(),
    }
}

/// The features of the blocks `bs`.
pub open spec fn blocks_feat(d: Seq<NodeView>, am: Seq<AtomModel>, bs: Seq<Seq<usize>>, seps: Seq<char>, ci: bool) -> Seq<BlockFeat> {
    bs.map_values(|b: Seq<usize>| block_feat(d, am, b, seps, ci))
}

/// How many words of `a` occur in `b`.
pub open spec fn shared_count(a: Seq<Seq<char>>, b: Seq<Seq<char>>) -> nat
    decreases a.len(),
{
    if a.len() == 0 {
        0
    } else {
        shared_count(a.drop_last(), b) + if b.contains(a.last()) {
            1nat
        } else {
            0nat
        }
    }
}

/// The word-set similarity of two blocks as a fraction: shared words over
/// all words; nothing in common when either side has no words.
pub open spec fn jaccard_frac(a: BlockFeat, b: BlockFeat) -> (nat, nat) {
    if a.collapsed_empty || b.collapsed_empty || a.tokens.len() == 0 || b.tokens.len() == 0 {
        (0, 1)
    } else {
        let s = shared_count(a.tokens, b.tokens);
        (s, (a.tokens.len() + b.tokens.len() - s) as nat)
    }
}

proof fn lemma_shared_le(a: Seq<Seq<char>>, b: Seq<Seq<char>>)
    ensures
        shared_count(a, b) <= a.len(),
    decreases a.len(),
{
    if a.len() > 0 {
        lemma_shared_le(a.drop_last(), b);
    }
}

/// Exec features of a block.
pub struct BlockInfo {
    pub collapsed_empty: bool,
    pub words: usize,
    pub tokens: Vec<String>,
    pub chars: usize,
}

/// The view of exec features.
pub open spec fn info_view(b: BlockInfo) -> BlockFeat {
    BlockFeat {
        collapsed_empty: b.collapsed_empty,
        words: b.words as nat,
        tokens: strings_view(b.tokens@),
        chars: b.chars as nat,
    }
}

/// The views of exec features.
pub open spec fn infos_view(v: Seq<BlockInfo>) -> Seq<BlockFeat> {
    v.map_values(|b: BlockInfo| info_view(b))
}

fn precompute_block(dom: &Dom, atoms: &[ComparisonUnitAtom], block: &AtomBlock, seps: &[char], ci: bool) -> (r: BlockInfo)
    requires
        dom.wf(),
        forall|k: int| 0 <= k < block.atoms@.len() ==> block.atoms@[k] < atoms@.len(),
    ensures
        info_view(r) == block_feat(dom@, atoms_model(atoms@), block.atoms@, seps@, ci),
{
    let text = extract_text_from_atom_block(dom, atoms, block);
    let collapsed = collapse_ws(text.as_str());
    let words = count_words(collapsed.as_str(), seps);
    let tokens = tokenize(collapsed.as_str(), seps, ci);
    let chars = text.unicode_len();
    BlockInfo { collapsed_empty: collapsed.unicode_len() == 0, words, tokens, chars }
}

fn str_in(v: &Vec<String>, s: &String) -> (r: bool)
    ensures
        r == strings_view(v@).contains(s@),
{
    let mut i: usize = 0;
    while i < v.len()
        invariant
            i <= v@.len(),
            forall|j: int| 0 <= j < i ==> strings_view(v@)[j] != s@,
        decreases v@.len() - i,
    {
        if crate::text::str_eq(v[i].as_str(), s.as_str()) {
            assert(strings_view(v@)[i as int] == s@);
            return true;
        }
        i = i + 1;
    }
    false
}

/// The similarity fraction of two blocks.
fn jaccard_exec(a: &BlockInfo, b: &BlockInfo) -> (r: (u128, u128))
    ensures
        (r.0 as nat, r.1 as nat) == jaccard_frac(info_view(*a), info_view(*b)),
{
    if a.collapsed_empty || b.collapsed_empty || a.tokens.len() == 0 || b.tokens.len() == 0 {
        return (0, 1);
    }
    let ghost ta = strings_view(a.tokens@);
    let ghost tb = strings_view(b.tokens@);
    let mut s: u128 = 0;
    let mut i: usize = 0;
    assert(ta.take(0) =~= Seq::<Seq<char>>::empty());
    while i < a.tokens.len()
        invariant
            ta == strings_view(a.tokens@),
            tb == strings_view(b.tokens@),
            i <= a.tokens@.len(),
            s == shared_count(ta.take(i as int), tb),
            s <= i,
        decreases a.tokens@.len() - i,
    {
        assert(ta.take(i + 1).drop_last() =~= ta.take(i as int));
        assert(ta.take(i + 1).last() == a.tokens@[i as int]@);
        if str_in(&b.tokens, &a.tokens[i]) {
            s = s + 1;
        }
        i = i + 1;
    }
    assert(ta.take(a.tokens@.len() as int) =~= ta);
    (s, (a.tokens.len() as u128 + b.tokens.len() as u128) - s)
}

/// Two word counts are close enough in length for a move: the shorter is at
/// least nine tenths of the longer.
pub open spec fn length_close(dw: nat, iw: nat) -> bool {
    let longer = if dw < iw { iw } else { dw };
    let shorter = if dw < iw { dw } else { iw };
    !(longer > 0 && shorter * 10 < longer * 9)
}

/// The fraction `f` reaches `ppm` millionths.
pub open spec fn frac_reaches(f: (nat, nat), ppm: nat) -> bool {
    f.0 * 1_000_000 >= ppm * f.1
}

/// The fraction `f` is larger than `g`.
pub open spec fn frac_above(f: (nat, nat), g: (nat, nat)) -> bool {
    f.0 * g.1 > g.0 * f.1
}

/// The best unmatched inserted block among the first `k` for deleted block
/// `fd`: long enough, close in length, similar enough, and strictly more
/// similar than every earlier candidate; with its similarity.
pub open spec fn best_match(
    fd: BlockFeat,
    fis: Seq<BlockFeat>,
    matched: Seq<bool>,
    k: int,
    minw: nat,
    thr: nat,
) -> Option<(int, (nat, nat))>
    decreases k,
{
    if k <= 0 {
        None
    } else {
        let prev = best_match(fd, fis, matched, k - 1, minw, thr);
        let fi = fis[k - 1];
        let sim = jaccard_frac(fd, fi);
        let prev_sim = match prev {
            Some(b) => b.1,
            None => (0nat, 1nat),
        };
        if !matched[k - 1] && fi.words >= minw && length_close(fd.words, fi.words) && frac_reaches(sim, thr)
            && frac_above(sim, prev_sim) {
            Some((k - 1, sim))
        } else {
            prev
        }
    }
}

/// The matches of the first `k` deleted blocks, in order, each taking the
/// best inserted block not yet taken; with the taken inserted blocks.
pub open spec fn greedy_matches(fds: Seq<BlockFeat>, fis: Seq<BlockFeat>, k: int, minw: nat, thr: nat) -> (
    Seq<(int, int, (nat, nat))>,
    Seq<bool>,
)
    decreases k,
{
    if k <= 0 {
        (seq![], Seq::new(fis.len(), |i: int| false))
    } else {
        let (pend, m) = greedy_matches(fds, fis, k - 1, minw, thr);
        let fd = fds[k - 1];
        if fd.words < minw {
            (pend, m)
        } else {
            match best_match(fd, fis, m, fis.len() as int, minw, thr) {
                Some(b) => (pend.push((k - 1, b.0, b.1)), m.update(b.0, true)),
                None => (pend, m),
            }
        }
    }
}

proof fn lemma_best_match_range(fd: BlockFeat, fis: Seq<BlockFeat>, matched: Seq<bool>, k: int, minw: nat, thr: nat)
    requires
        k <= fis.len(),
        matched.len() == fis.len(),
    ensures
        best_match(fd, fis, matched, k, minw, thr) matches Some(b) ==> 0 <= b.0 < k && !matched[b.0],
    decreases k,
{
    if k > 0 {
        lemma_best_match_range(fd, fis, matched, k - 1, minw, thr);
    }
}

proof fn lemma_greedy_shape(fds: Seq<BlockFeat>, fis: Seq<BlockFeat>, k: int, minw: nat, thr: nat)
    requires
        k <= fds.len(),
    ensures
        greedy_matches(fds, fis, k, minw, thr).1.len() == fis.len(),
        greedy_matches(fds, fis, k, minw, thr).0.len() <= if k < 0 { 0 } else { k },
        forall|j: int|
            0 <= j < greedy_matches(fds, fis, k, minw, thr).0.len() ==> {
                let e = #[trigger] greedy_matches(fds, fis, k, minw, thr).0[j];
                &&& 0 <= e.0 < fds.len()
                &&& 0 <= e.1 < fis.len()
            },
    decreases k,
{
    if k > 0 {
        lemma_greedy_shape(fds, fis, k - 1, minw, thr);
        let (pend, m) = greedy_matches(fds, fis, k - 1, minw, thr);
        lemma_best_match_range(fds[k - 1], fis, m, fis.len() as int, minw, thr);
        let r = greedy_matches(fds, fis, k, minw, thr).0;
        assert forall|j: int| 0 <= j < r.len() implies {
            let e = #[trigger] r[j];
            &&& 0 <= e.0 < fds.len()
            &&& 0 <= e.1 < fis.len()
        } by {
            if j < pend.len() {
                assert(r[j] == pend[j]);
            }
        }
    }
}

fn length_close_exec(dw: usize, iw: usize) -> (r: bool)
    ensures
        r == length_close(dw as nat, iw as nat),
{
    let longer: u128 = if dw < iw { iw as u128 } else { dw as u128 };
    let shorter: u128 = if dw < iw { dw as u128 } else { iw as u128 };
    !(longer > 0 && shorter * 10 < longer * 9)
}

fn frac_reaches_exec(f: (u128, u128), ppm: u32) -> (r: bool)
    requires
        f.0 <= u64::MAX,
        f.1 <= u64::MAX,
    ensures
        r == frac_reaches((f.0 as nat, f.1 as nat), ppm as nat),
{
    assert((ppm as u128) * f.1 <= 0xffff_ffff * 0xffff_ffff_ffff_ffff) by (nonlinear_arith)
        requires
            ppm <= 0xffff_ffff,
            f.1 <= 0xffff_ffff_ffff_ffff,
    ;
    f.0 * 1_000_000 >= (ppm as u128) * f.1
}

fn frac_above_exec(f: (u128, u128), g: (u128, u128)) -> (r: bool)
    requires
        f.0 <= u64::MAX,
        f.1 <= u64::MAX,
        g.0 <= u64::MAX,
        g.1 <= u64::MAX,
    ensures
        r == frac_above((f.0 as nat, f.1 as nat), (g.0 as nat, g.1 as nat)),
{
    assert(f.0 * g.1 <= u64::MAX * u64::MAX) by (nonlinear_arith)
        requires
            f.0 <= u64::MAX,
            g.1 <= u64::MAX,
    ;
    assert(g.0 * f.1 <= u64::MAX * u64::MAX) by (nonlinear_arith)
        requires
            g.0 <= u64::MAX,
            f.1 <= u64::MAX,
    ;
    f.0 * g.1 > g.0 * f.1
}

/// No block has more words than arithmetic on fractions of word counts can
/// hold.
pub open spec fn feats_fit(fs: Seq<BlockFeat>) -> bool {
    forall|i: int| 0 <= i < fs.len() ==> (#[trigger] fs[i]).tokens.len() <= 0x4000_0000_0000_0000
}

/// The view of exec matches.
pub open spec fn pend_view(v: Seq<(usize, usize, u128, u128)>) -> Seq<(int, int, (nat, nat))> {
    v.map_values(|e: (usize, usize, u128, u128)| (e.0 as int, e.1 as int, (e.2 as nat, e.3 as nat)))
}

proof fn lemma_jaccard_fits(a: BlockFeat, b: BlockFeat)
    requires
        a.tokens.len() <= 0x4000_0000_0000_0000,
        b.tokens.len() <= 0x4000_0000_0000_0000,
    ensures
        jaccard_frac(a, b).0 <= 0x4000_0000_0000_0000,
        1 <= jaccard_frac(a, b).1 <= 0x8000_0000_0000_0000,
{
    lemma_shared_le(a.tokens, b.tokens);
}

/// For each deleted block long enough, the best inserted block not yet
/// taken (see `greedy_matches`).
fn greedy_exec(dels: &Vec<BlockInfo>, inss: &Vec<BlockInfo>, minw: usize, thr: u32) -> (r: Vec<(usize, usize, u128, u128)>)
    requires
        feats_fit(infos_view(dels@)),
        feats_fit(infos_view(inss@)),
    ensures
        pend_view(r@) == greedy_matches(infos_view(dels@), infos_view(inss@), dels@.len() as int, minw as nat, thr as nat).0,
        forall|j: int| 0 <= j < r@.len() ==> (#[trigger] r@[j]).2 <= 0x4000_0000_0000_0000 && r@[j].3 <= 0x8000_0000_0000_0000,
{
    let ghost fds = infos_view(dels@);
    let ghost fis = infos_view(inss@);
    let mut matched: Vec<bool> = Vec::new();
    let mut q: usize = 0;
    while q < inss.len()
        invariant
            q <= inss@.len(),
            matched@ == Seq::new(q as nat, |i: int| false),
        decreases inss@.len() - q,
    {
        matched.push(false);
        q = q + 1;
        assert(matched@ =~= Seq::new(q as nat, |i: int| false));
    }
    let mut pending: Vec<(usize, usize, u128, u128)> = Vec::new();
    let mut di: usize = 0;
    proof {
        assert(pend_view(pending@) =~= Seq::<(int, int, (nat, nat))>::empty());
    }
    while di < dels.len()
        invariant
            fds == infos_view(dels@),
            fis == infos_view(inss@),
            feats_fit(fds),
            feats_fit(fis),
            di <= dels@.len(),
            matched@.len() == inss@.len(),
            (pend_view(pending@), matched@) == greedy_matches(fds, fis, di as int, minw as nat, thr as nat),
            forall|j: int| 0 <= j < pending@.len() ==> (#[trigger] pending@[j]).2 <= 0x4000_0000_0000_0000 && pending@[j].3 <= 0x8000_0000_0000_0000,
        decreases dels@.len() - di,
    {
        let dinfo = &dels[di];
        assert(fds[di as int] == info_view(*dinfo));
        if dinfo.words < minw {
            di = di + 1;
            continue;
        }
        let mut best: Option<(usize, u128, u128)> = None;
        let mut ii: usize = 0;
        while ii < inss.len()
            invariant
                fds == infos_view(dels@),
                fis == infos_view(inss@),
                feats_fit(fds),
                feats_fit(fis),
                di < dels@.len(),
                fds[di as int] == info_view(*dinfo),
                ii <= inss@.len(),
                matched@.len() == inss@.len(),
                match best {
                    Some(b) => best_match(fds[di as int], fis, matched@, ii as int, minw as nat, thr as nat)
                        == Some((b.0 as int, (b.1 as nat, b.2 as nat))) && b.1 <= 0x4000_0000_0000_0000 && b.2
                        <= 0x8000_0000_0000_0000,
                    None => best_match(fds[di as int], fis, matched@, ii as int, minw as nat, thr as nat) is None,
                },
            decreases inss@.len() - ii,
        {
            let iinfo = &inss[ii];
            assert(fis[ii as int] == info_view(*iinfo));
            if !matched[ii] && iinfo.words >= minw && length_close_exec(dinfo.words, iinfo.words) {
                let sim = jaccard_exec(dinfo, iinfo);
                proof {
                    lemma_jaccard_fits(fds[di as int], fis[ii as int]);
                }
                let prev: (u128, u128) = match best {
                    Some(b) => (b.1, b.2),
                    None => (0, 1),
                };
                if frac_reaches_exec(sim, thr) && frac_above_exec(sim, prev) {
                    best = Some((ii, sim.0, sim.1));
                }
            }
            ii = ii + 1;
        }
        let ghost gm = greedy_matches(fds, fis, di as int, minw as nat, thr as nat);
        match best {
            Some(b) => {
                proof {
                    lemma_best_match_range(fds[di as int], fis, matched@, inss@.len() as int, minw as nat, thr as nat);
                }
                let ghost pb = pending@;
                pending.push((di, b.0, b.1, b.2));
                matched.set(b.0, true);
                proof {
                    assert(pend_view(pending@) =~= pend_view(pb).push((di as int, b.0 as int, (b.1 as nat, b.2 as nat))));
                    assert forall|j: int| 0 <= j < pending@.len() implies (#[trigger] pending@[j]).2 <= 0x4000_0000_0000_0000
                        && pending@[j].3 <= 0x8000_0000_0000_0000 by {
                        if j < pb.len() {
                            assert(pending@[j] == pb[j]);
                        }
                    }
                }
            },
            None => {},
        }
        di = di + 1;
    }
    pending
}

/// The runs `runs` split at paragraph marks, one run after another.
pub open spec fn flat_blocks(d: Seq<NodeView>, am: Seq<AtomModel>, runs: Seq<(Seq<usize>, usize)>) -> Seq<
    (Seq<usize>, usize),
>
    decreases runs.len(),
{
    if runs.len() == 0 {
        seq![]
    } else {
        let r = runs.last();
        flat_blocks(d, am, runs.drop_last()) + if r.0.len() == 0 {
            seq![r]
        } else {
            pieces_blocks(para_pieces(d, am, r.0))
        }
    }
}

/// The atom positions of each block.
pub open spec fn block_atoms(bs: Seq<(Seq<usize>, usize)>) -> Seq<Seq<usize>> {
    bs.map_values(|b: (Seq<usize>, usize)| b.0)
}

/// `am` with the atoms at `idx` marked as moved with status `st`, group `id`
/// and name `name`.
pub open spec fn tag_move(am: Seq<AtomModel>, idx: Seq<usize>, st: CorrelationStatus, id: u32, name: Seq<char>) -> Seq<
    AtomModel,
>
    decreases idx.len(),
{
    if idx.len() == 0 {
        am
    } else {
        let p = tag_move(am, idx.drop_last(), st, id, name);
        let i = idx.last() as int;
        if i < p.len() {
            p.update(
                i,
                AtomModel { correlation_status: st, move_group_id: Some(id), move_name: Some(name), ..p[i] },
            )
        } else {
            p
        }
    }
}

/// `am` with the matches `pairs` applied in order: the `k`-th pair (from
/// one) marks its deleted block as the move source and its inserted block
/// as the move destination of group `k`, named `move` and `k`.
pub open spec fn apply_moves(
    am: Seq<AtomModel>,
    dels: Seq<Seq<usize>>,
    inss: Seq<Seq<usize>>,
    pairs: Seq<(int, int, (nat, nat))>,
) -> Seq<AtomModel>
    decreases pairs.len(),
{
    if pairs.len() == 0 {
        am
    } else {
        let p = apply_moves(am, dels, inss, pairs.drop_last());
        let k = pairs.len();
        let name = "move"@ + crate::text::decimal(k);
        let e = pairs.last();
        tag_move(
            tag_move(p, dels[e.0], CorrelationStatus::MovedSource, k as u32, name),
            inss[e.1],
            CorrelationStatus::MovedDestination,
            k as u32,
            name,
        )
    }
}

/// How many matches are near-exact: at least 999 in a thousand.
pub open spec fn near_exact_count(pend: Seq<(int, int, (nat, nat))>) -> nat
    decreases pend.len(),
{
    if pend.len() == 0 {
        0
    } else {
        near_exact_count(pend.drop_last()) + if pend.last().2.0 * 1000 >= 999 * pend.last().2.1 {
            1nat
        } else {
            0nat
        }
    }
}

/// The characters of all blocks.
pub open spec fn chars_total(fs: Seq<BlockFeat>) -> nat
    decreases fs.len(),
{
    if fs.len() == 0 {
        0
    } else {
        chars_total(fs.drop_last()) + fs.last().chars
    }
}

/// Many near-exact matches between blocks of very different total size are
/// an expansion, not moves: at least twelve matches, eight near-exact, and
/// one side at least twice the other.
pub open spec fn expansion_thrash(pend: Seq<(int, int, (nat, nat))>, fds: Seq<BlockFeat>, fis: Seq<BlockFeat>) -> bool {
    let dc = chars_total(fds);
    let ic = chars_total(fis);
    let shorter = if dc < ic { dc } else { ic };
    let longer = if dc < ic { ic } else { dc };
    let shorter1 = if shorter < 1 { 1 } else { shorter };
    &&& pend.len() >= 12
    &&& near_exact_count(pend) >= 8
    &&& longer >= 2 * shorter1
}

/// The effective similarity threshold: never below 97 in a hundred.
pub open spec fn move_threshold(ppm: nat) -> nat {
    if ppm < 970_000 {
        970_000
    } else {
        ppm
    }
}

/// The deleted and inserted blocks move detection compares.
pub open spec fn moves_blocks(d: Seq<NodeView>, am: Seq<AtomModel>, st: CorrelationStatus) -> Seq<Seq<usize>> {
    block_atoms(flat_blocks(d, am, status_runs(statuses(am), st)))
}

/// The matches move detection keeps.
pub open spec fn move_pairs(d: Seq<NodeView>, am: Seq<AtomModel>, minw: nat, ppm: nat, seps: Seq<char>, ci: bool) -> Seq<
    (int, int, (nat, nat)),
> {
    let dels = moves_blocks(d, am, CorrelationStatus::Deleted);
    let inss = moves_blocks(d, am, CorrelationStatus::Inserted);
    let fds = blocks_feat(d, am, dels, seps, ci);
    let fis = blocks_feat(d, am, inss, seps, ci);
    let pend = greedy_matches(fds, fis, fds.len() as int, minw, move_threshold(ppm)).0;
    if expansion_thrash(pend, fds, fis) {
        seq![]
    } else {
        pend
    }
}

/// The atoms after move detection: unchanged when it is off or when there
/// are no deleted or no inserted atoms; else with the kept matches applied.
pub open spec fn moved_atoms(
    d: Seq<NodeView>,
    am: Seq<AtomModel>,
    detect: bool,
    minw: nat,
    ppm: nat,
    seps: Seq<char>,
    ci: bool,
) -> Seq<AtomModel> {
    if !detect || status_runs(statuses(am), CorrelationStatus::Deleted).len() == 0 || status_runs(
        statuses(am),
        CorrelationStatus::Inserted,
    ).len() == 0 {
        am
    } else {
        apply_moves(
            am,
            moves_blocks(d, am, CorrelationStatus::Deleted),
            moves_blocks(d, am, CorrelationStatus::Inserted),
            move_pairs(d, am, minw, ppm, seps, ci),
        )
    }
}

proof fn lemma_runs_nonempty(st: Seq<CorrelationStatus>, s: CorrelationStatus)
    requires
        st.len() > 0,
        st.last() == s,
    ensures
        status_runs(st, s).len() > 0,
    decreases st.len(),
{
    if st.len() >= 2 && st[st.len() - 2] == s {
        assert(st.drop_last().last() == s);
        lemma_runs_nonempty(st.drop_last(), s);
    }
}

proof fn lemma_runs_bound(st: Seq<CorrelationStatus>, s: CorrelationStatus)
    requires
        st.len() <= usize::MAX,
    ensures
        forall|k: int, j: int|
            0 <= k < status_runs(st, s).len() && 0 <= j < status_runs(st, s)[k].0.len() ==> #[trigger] status_runs(
                st,
                s,
            )[k].0[j] < st.len(),
    decreases st.len(),
{
    if st.len() > 0 {
        lemma_runs_bound(st.drop_last(), s);
        let prev = status_runs(st.drop_last(), s);
        let cur = status_runs(st, s);
        let i = (st.len() - 1) as usize;
        assert forall|k: int, j: int| 0 <= k < cur.len() && 0 <= j < cur[k].0.len() implies #[trigger] cur[k].0[j] < st.len() by {
            if st.last() != s {
                assert(cur[k] == prev[k]);
            } else if st.len() >= 2 && st[st.len() - 2] == s {
                assert(st.drop_last().last() == s);
                lemma_runs_nonempty(st.drop_last(), s);
                if k < prev.len() - 1 {
                    assert(cur[k] == prev[k]);
                } else if j < prev.last().0.len() {
                    assert(cur[k].0[j] == prev.last().0[j]);
                } else {
                    assert(cur[k].0[j] == i);
                }
            } else {
                if k < prev.len() {
                    assert(cur[k] == prev[k]);
                } else {
                    assert(cur[k].0[j] == i);
                }
            }
        }
    }
}

proof fn lemma_pieces_bound(d: Seq<NodeView>, am: Seq<AtomModel>, idx: Seq<usize>, n: int)
    requires
        forall|j: int| 0 <= j < idx.len() ==> #[trigger] idx[j] < n,
    ensures
        forall|k: int, j: int|
            0 <= k < para_pieces(d, am, idx).len() && 0 <= j < para_pieces(d, am, idx)[k].len() ==> #[trigger] para_pieces(
                d,
                am,
                idx,
            )[k][j] < n,
    decreases idx.len(),
{
    if idx.len() > 0 {
        assert forall|j: int| 0 <= j < idx.drop_last().len() implies #[trigger] idx.drop_last()[j] < n by {
            assert(idx.drop_last()[j] == idx[j]);
        }
        lemma_pieces_bound(d, am, idx.drop_last(), n);
        lemma_pieces_shape(d, am, idx.drop_last());
        let prev = para_pieces(d, am, idx.drop_last());
        let cur = para_pieces(d, am, idx);
        assert forall|k: int, j: int| 0 <= k < cur.len() && 0 <= j < cur[k].len() implies #[trigger] cur[k][j] < n by {
            if idx.len() >= 2 && !is_ppr(d, am[idx[idx.len() - 2] as int]) {
                if k == prev.len() - 1 {
                    if j < prev[k].len() {
                        assert(cur[k][j] == prev[k][j]);
                    } else {
                        assert(cur[k][j] == idx.last());
                    }
                } else {
                    assert(cur[k] == prev[k]);
                }
            } else {
                if k < prev.len() {
                    assert(cur[k] == prev[k]);
                } else {
                    assert(cur[k][j] == idx.last());
                }
            }
        }
    }
}

/// The blocks of status `st`, split at paragraph marks.
fn moves_blocks_exec(dom: &Dom, atoms: &[ComparisonUnitAtom], st: CorrelationStatus) -> (r: Vec<AtomBlock>)
    ensures
        blocks_view(r@) == flat_blocks(dom@, atoms_model(atoms@), status_runs(statuses(atoms_model(atoms@)), st)),
        forall|k: int, j: int| 0 <= k < r@.len() && 0 <= j < r@[k].atoms@.len() ==> #[trigger] r@[k].atoms@[j] < atoms@.len(),
{
    let ghost am = atoms_model(atoms@);
    let runs = group_consecutive_atoms_by_status(atoms, st);
    let ghost rv = blocks_view(runs@);
    let n = atoms.len();
    proof {
        assert(statuses(am).len() == n);
        lemma_runs_bound(statuses(am), st);
    }
    let mut out: Vec<AtomBlock> = Vec::new();
    let mut k: usize = 0;
    assert(rv.take(0) =~= Seq::<(Seq<usize>, usize)>::empty());
    assert(blocks_view(out@) =~= Seq::<(Seq<usize>, usize)>::empty());
    while k < runs.len()
        invariant
            am == atoms_model(atoms@),
            rv == blocks_view(runs@),
            rv == status_runs(statuses(am), st),
            forall|k2: int, j: int| 0 <= k2 < rv.len() && 0 <= j < rv[k2].0.len() ==> #[trigger] rv[k2].0[j] < statuses(am).len(),
            statuses(am).len() == atoms@.len(),
            k <= runs@.len(),
            blocks_view(out@) == flat_blocks(dom@, am, rv.take(k as int)),
            forall|k2: int, j: int| 0 <= k2 < out@.len() && 0 <= j < out@[k2].atoms@.len() ==> #[trigger] out@[k2].atoms@[j] < atoms@.len(),
        decreases runs@.len() - k,
    {
        assert(rv[k as int] == (runs@[k as int].atoms@, runs@[k as int].start_index));
        assert forall|j: int| 0 <= j < runs@[k as int].atoms@.len() implies #[trigger] runs@[k as int].atoms@[j] < atoms@.len() by {
            assert(rv[k as int].0[j] == runs@[k as int].atoms@[j]);
        }
        let mut pieces = split_block_on_paragraphs(dom, atoms, &runs[k]);
        proof {
            lemma_pieces_bound(dom@, am, runs@[k as int].atoms@, atoms@.len() as int);
            let pv = blocks_view(pieces@);
            let pp = para_pieces(dom@, am, runs@[k as int].atoms@);
            assert forall|m: int, j: int| 0 <= m < pieces@.len() && 0 <= j < pieces@[m].atoms@.len() implies #[trigger] pieces@[m].atoms@[j] < atoms@.len() by {
                assert(pv[m] == (pieces@[m].atoms@, pieces@[m].start_index));
                if runs@[k as int].atoms@.len() != 0 {
                    assert(pv == pieces_blocks(pp));
                    assert(pv.len() == pp.len());
                    assert(pv[m] == (pp[m], pp[m][0]));
                    assert(pieces@[m].atoms@[j] == pp[m][j]);
                } else {
                    assert(pieces@[m].atoms@ == runs@[k as int].atoms@);
                }
            }
            assert(rv.take(k + 1).drop_last() =~= rv.take(k as int));
            assert(rv.take(k + 1).last() == rv[k as int]);
        }
        let ghost ob = out@;
        let ghost pb = pieces@;
        out.append(&mut pieces);
        proof {
            assert(blocks_view(out@) =~= blocks_view(ob) + blocks_view(pb));
            assert forall|k2: int, j: int| 0 <= k2 < out@.len() && 0 <= j < out@[k2].atoms@.len() implies #[trigger] out@[k2].atoms@[j] < atoms@.len() by {
                if k2 < ob.len() {
                    assert(out@[k2] == ob[k2]);
                } else {
                    assert(out@[k2] == pb[k2 - ob.len()]);
                }
            }
        }
        k = k + 1;
    }
    assert(rv.take(runs@.len() as int) =~= rv);
    out
}

/// The features of each block.
fn blocks_info(dom: &Dom, atoms: &[ComparisonUnitAtom], bs: &Vec<AtomBlock>, seps: &[char], ci: bool) -> (r: Vec<BlockInfo>)
    requires
        dom.wf(),
        forall|k: int, j: int| 0 <= k < bs@.len() && 0 <= j < bs@[k].atoms@.len() ==> #[trigger] bs@[k].atoms@[j] < atoms@.len(),
    ensures
        infos_view(r@) == blocks_feat(dom@, atoms_model(atoms@), block_atoms(blocks_view(bs@)), seps@, ci),
{
    let mut out: Vec<BlockInfo> = Vec::new();
    let mut k: usize = 0;
    while k < bs.len()
        invariant
            dom.wf(),
            forall|k2: int, j: int| 0 <= k2 < bs@.len() && 0 <= j < bs@[k2].atoms@.len() ==> #[trigger] bs@[k2].atoms@[j] < atoms@.len(),
            k <= bs@.len(),
            infos_view(out@) == blocks_feat(dom@, atoms_model(atoms@), block_atoms(blocks_view(bs@)).take(k as int), seps@, ci),
        decreases bs@.len() - k,
    {
        assert forall|j: int| 0 <= j < bs@[k as int].atoms@.len() implies bs@[k as int].atoms@[j] < atoms@.len() by {}
        let f = precompute_block(dom, atoms, &bs[k], seps, ci);
        let ghost ob = out@;
        out.push(f);
        proof {
            let ba = block_atoms(blocks_view(bs@));
            assert(ba[k as int] == bs@[k as int].atoms@);
            assert(ba.take(k + 1) =~= ba.take(k as int).push(ba[k as int]));
            assert(infos_view(out@) =~= infos_view(ob).push(info_view(f)));
            assert(blocks_feat(dom@, atoms_model(atoms@), ba.take(k + 1), seps@, ci) =~= blocks_feat(
                dom@,
                atoms_model(atoms@),
                ba.take(k as int),
                seps@,
                ci,
            ).push(block_feat(dom@, atoms_model(atoms@), ba[k as int], seps@, ci)));
        }
        k = k + 1;
    }
    assert(block_atoms(blocks_view(bs@)).take(bs@.len() as int) =~= block_atoms(blocks_view(bs@)));
    out
}

fn near_exact_exec(pend: &Vec<(usize, usize, u128, u128)>) -> (r: usize)
    requires
        forall|j: int| 0 <= j < pend@.len() ==> (#[trigger] pend@[j]).2 <= 0x4000_0000_0000_0000 && pend@[j].3 <= 0x8000_0000_0000_0000,
    ensures
        r == near_exact_count(pend_view(pend@)),
{
    let ghost pv = pend_view(pend@);
    let mut n: usize = 0;
    let mut k: usize = 0;
    assert(pv.take(0) =~= Seq::<(int, int, (nat, nat))>::empty());
    while k < pend.len()
        invariant
            pv == pend_view(pend@),
            k <= pend@.len(),
            n <= k,
            n == near_exact_count(pv.take(k as int)),
            forall|j: int| 0 <= j < pend@.len() ==> (#[trigger] pend@[j]).2 <= 0x4000_0000_0000_0000 && pend@[j].3 <= 0x8000_0000_0000_0000,
        decreases pend@.len() - k,
    {
        assert(pv.take(k + 1).drop_last() =~= pv.take(k as int));
        assert(pv.take(k + 1).last() == pv[k as int]);
        let e = pend[k];
        if e.2 * 1000 >= 999 * e.3 {
            n = n + 1;
        }
        k = k + 1;
    }
    assert(pv.take(pend@.len() as int) =~= pv);
    n
}

fn chars_total_exec(fs: &Vec<BlockInfo>) -> (r: u128)
    ensures
        r == chars_total(infos_view(fs@)),
{
    let ghost fv = infos_view(fs@);
    let mut t: u128 = 0;
    let mut k: usize = 0;
    assert(fv.take(0) =~= Seq::<BlockFeat>::empty());
    while k < fs.len()
        invariant
            fv == infos_view(fs@),
            k <= fs@.len(),
            t == chars_total(fv.take(k as int)),
            t <= k * 0xffff_ffff_ffff_ffff,
        decreases fs@.len() - k,
    {
        assert(fv.take(k + 1).drop_last() =~= fv.take(k as int));
        assert(fv.take(k + 1).last() == fv[k as int]);
        assert(k * 0xffff_ffff_ffff_ffff + 0xffff_ffff_ffff_ffff == (k + 1) * 0xffff_ffff_ffff_ffff) by (nonlinear_arith);
        assert((k + 1) * 0xffff_ffff_ffff_ffff <= 0xffff_ffff_ffff_ffff * 0xffff_ffff_ffff_ffff) by (nonlinear_arith)
            requires
                k < 0xffff_ffff_ffff_ffff,
        ;
        t = t + fs[k].chars as u128;
        k = k + 1;
    }
    assert(fv.take(fs@.len() as int) =~= fv);
    t
}

/// Marks the atoms at `idxs` as moved with status `st`, group `id` and
/// name `name`.
fn tag_block(atoms: &mut Vec<ComparisonUnitAtom>, idxs: &Vec<usize>, st: CorrelationStatus, id: u32, name: &String)
    ensures
        atoms_model(final(atoms)@) == tag_move(atoms_model(old(atoms)@), idxs@, st, id, name@),
{
    let mut k: usize = 0;
    assert(idxs@.take(0) =~= Seq::<usize>::empty());
    while k < idxs.len()
        invariant
            k <= idxs@.len(),
            atoms_model(atoms@) == tag_move(atoms_model(old(atoms)@), idxs@.take(k as int), st, id, name@),
        decreases idxs@.len() - k,
    {
        assert(idxs@.take(k + 1).drop_last() =~= idxs@.take(k as int));
        assert(idxs@.take(k + 1).last() == idxs@[k as int]);
        let ai = idxs[k];
        let ghost before = atoms@;
        if ai < atoms.len() {
            let mut a = atoms.remove(ai);
            a.correlation_status = st;
            a.move_group_id = Some(id);
            a.move_name = Some(String::from_str(name.as_str()));
            atoms.insert(ai, a);
            proof {
                assert(atoms@ =~= before.update(ai as int, a));
                assert(atoms_model(atoms@) =~= atoms_model(before).update(
                    ai as int,
                    AtomModel {
                        correlation_status: st,
                        move_group_id: Some(id),
                        move_name: Some(name@),
                        ..atoms_model(before)[ai as int]
                    },
                ));
            }
        }
        k = k + 1;
    }
    assert(idxs@.take(idxs@.len() as int) =~= idxs@);
}

/// Applies the matches `pairs` in order (see `apply_moves`).
fn apply_moves_exec(
    atoms: &mut Vec<ComparisonUnitAtom>,
    dels: &Vec<AtomBlock>,
    inss: &Vec<AtomBlock>,
    pairs: &Vec<(usize, usize, u128, u128)>,
)
    requires
        pairs@.len() < 0xffff_ffff,
        forall|j: int| 0 <= j < pairs@.len() ==> (#[trigger] pairs@[j]).0 < dels@.len() && pairs@[j].1 < inss@.len(),
    ensures
        atoms_model(final(atoms)@) == apply_moves(
            atoms_model(old(atoms)@),
            block_atoms(blocks_view(dels@)),
            block_atoms(blocks_view(inss@)),
            pend_view(pairs@),
        ),
{
    let ghost dv = block_atoms(blocks_view(dels@));
    let ghost iv = block_atoms(blocks_view(inss@));
    let ghost pv = pend_view(pairs@);
    let mut k: usize = 0;
    assert(pv.take(0) =~= Seq::<(int, int, (nat, nat))>::empty());
    while k < pairs.len()
        invariant
            dv == block_atoms(blocks_view(dels@)),
            iv == block_atoms(blocks_view(inss@)),
            pv == pend_view(pairs@),
            pairs@.len() < 0xffff_ffff,
            forall|j: int| 0 <= j < pairs@.len() ==> (#[trigger] pairs@[j]).0 < dels@.len() && pairs@[j].1 < inss@.len(),
            k <= pairs@.len(),
            atoms_model(atoms@) == apply_moves(atoms_model(old(atoms)@), dv, iv, pv.take(k as int)),
        decreases pairs@.len() - k,
    {
        assert(pv.take(k + 1).drop_last() =~= pv.take(k as int));
        assert(pv.take(k + 1).last() == pv[k as int]);
        let e = pairs[k];
        let id: u32 = (k + 1) as u32;
        let mut name = String::from_str("move");
        let num = crate::text::u64_to_decimal(id as u64);
        name.append(num.as_str());
        proof {
            reveal_strlit("move");
            assert(dv[e.0 as int] == dels@[e.0 as int].atoms@);
            assert(iv[e.1 as int] == inss@[e.1 as int].atoms@);
            assert(pv.take(k + 1).len() == k + 1);
        }
        tag_block(atoms, &dels[e.0].atoms, CorrelationStatus::MovedSource, id, &name);
        tag_block(atoms, &inss[e.1].atoms, CorrelationStatus::MovedDestination, id, &name);
        k = k + 1;
    }
    assert(pv.take(pairs@.len() as int) =~= pv);
}

/// Move detection over an atom list: deleted and inserted atoms are cut into
/// blocks (runs of one status, split at paragraph marks); each deleted block
/// of at least `min_words` words takes, in order, the inserted block not yet
/// taken that is long enough, within nine tenths of its length in words,
/// at least as similar in words as the threshold (`threshold_ppm` millionths,
/// never below 97 in a hundred) and the most similar, the first of equals;
/// the matches are dropped as an expansion when at least twelve of them, eight
/// near-exact, join sides of very different size; each kept match marks its
/// blocks as the source and destination of a numbered move.
pub fn detect_moves_memoized(
    dom: &Dom,
    atoms: &mut Vec<ComparisonUnitAtom>,
    detect: bool,
    min_words: usize,
    threshold_ppm: u32,
    seps: &[char],
    case_insensitive: bool,
)
    requires
        dom.wf(),
        feats_fit(
            blocks_feat(
                dom@,
                atoms_model(old(atoms)@),
                moves_blocks(dom@, atoms_model(old(atoms)@), CorrelationStatus::Deleted),
                seps@,
                case_insensitive,
            ),
        ),
        feats_fit(
            blocks_feat(
                dom@,
                atoms_model(old(atoms)@),
                moves_blocks(dom@, atoms_model(old(atoms)@), CorrelationStatus::Inserted),
                seps@,
                case_insensitive,
            ),
        ),
        move_pairs(dom@, atoms_model(old(atoms)@), min_words as nat, threshold_ppm as nat, seps@, case_insensitive).len()
            < 0xffff_ffff,
    ensures
        atoms_model(final(atoms)@) == moved_atoms(
            dom@,
            atoms_model(old(atoms)@),
            detect,
            min_words as nat,
            threshold_ppm as nat,
            seps@,
            case_insensitive,
        ),
{
    if !detect {
        return;
    }
    let ghost am = atoms_model(atoms@);
    let druns = group_consecutive_atoms_by_status(atoms.as_slice(), CorrelationStatus::Deleted);
    let iruns = group_consecutive_atoms_by_status(atoms.as_slice(), CorrelationStatus::Inserted);
    if druns.len() == 0 || iruns.len() == 0 {
        return;
    }
    let deleted = moves_blocks_exec(dom, atoms.as_slice(), CorrelationStatus::Deleted);
    let inserted = moves_blocks_exec(dom, atoms.as_slice(), CorrelationStatus::Inserted);
    let del_info = blocks_info(dom, atoms.as_slice(), &deleted, seps, case_insensitive);
    let ins_info = blocks_info(dom, atoms.as_slice(), &inserted, seps, case_insensitive);
    let thr: u32 = if threshold_ppm < 970_000 { 970_000 } else { threshold_ppm };
    let ghost fds = infos_view(del_info@);
    let ghost fis = infos_view(ins_info@);
    let mut pending = greedy_exec(&del_info, &ins_info, min_words, thr);
    proof {
        lemma_greedy_shape(fds, fis, fds.len() as int, min_words as nat, thr as nat);
    }
    let near = near_exact_exec(&pending);
    let dc = chars_total_exec(&del_info);
    let ic = chars_total_exec(&ins_info);
    let shorter0 = if dc < ic { dc } else { ic };
    let longer = if dc < ic { ic } else { dc };
    let shorter = if shorter0 < 1 { 1 } else { shorter0 };
    if pending.len() >= 12 && near >= 8 && longer / 2 >= shorter {
        pending.clear();
    }
    proof {
        assert((longer / 2 >= shorter) == (longer >= 2 * shorter));
        if pending@.len() > 0 {
            assert forall|j: int| 0 <= j < pending@.len() implies (#[trigger] pending@[j]).0 < deleted@.len()
                && pending@[j].1 < inserted@.len() by {
                let gp = greedy_matches(fds, fis, fds.len() as int, min_words as nat, thr as nat).0;
                assert(pend_view(pending@)[j] == gp[j]);
            }
        }
    }
    apply_moves_exec(atoms, &deleted, &inserted, &pending);
}

/// Move detection over an atom list (see `detect_moves_memoized`).
pub fn detect_moves_in_atom_list(
    dom: &Dom,
    atoms: &mut Vec<ComparisonUnitAtom>,
    detect: bool,
    min_words: usize,
    threshold_ppm: u32,
    seps: &[char],
    case_insensitive: bool,
)
    requires
        dom.wf(),
        feats_fit(
            blocks_feat(
                dom@,
                atoms_model(old(atoms)@),
                moves_blocks(dom@, atoms_model(old(atoms)@), CorrelationStatus::Deleted),
                seps@,
                case_insensitive,
            ),
        ),
        feats_fit(
            blocks_feat(
                dom@,
                atoms_model(old(atoms)@),
                moves_blocks(dom@, atoms_model(old(atoms)@), CorrelationStatus::Inserted),
                seps@,
                case_insensitive,
            ),
        ),
        move_pairs(dom@, atoms_model(old(atoms)@), min_words as nat, threshold_ppm as nat, seps@, case_insensitive).len()
            < 0xffff_ffff,
    ensures
        atoms_model(final(atoms)@) == moved_atoms(
            dom@,
            atoms_model(old(atoms)@),
            detect,
            min_words as nat,
            threshold_ppm as nat,
            seps@,
            case_insensitive,
        ),
{
    detect_moves_memoized(dom, atoms, detect, min_words, threshold_ppm, seps, case_insensitive);
}


/// What marking the atoms at `idx` as moved does to atom `x`: an atom among
/// `idx` takes the status, group and name, keeping the rest; any other is
/// left as it was.
pub proof fn lemma_tag_move_at(am: Seq<AtomModel>, idx: Seq<usize>, st: CorrelationStatus, id: u32, name: Seq<char>, x: int)
    requires
        0 <= x < am.len(),
        x <= usize::MAX,
    ensures
        tag_move(am, idx, st, id, name).len() == am.len(),
        tag_move(am, idx, st, id, name)[x] == if idx.contains(x as usize) {
            AtomModel { correlation_status: st, move_group_id: Some(id), move_name: Some(name), ..am[x] }
        } else {
            am[x]
        },
    decreases idx.len(),
{
    if idx.len() > 0 {
        lemma_tag_move_at(am, idx.drop_last(), st, id, name, x);
        let i = idx.last();
        if idx.contains(x as usize) && !idx.drop_last().contains(x as usize) {
            let j = choose|j: int| 0 <= j < idx.len() && idx[j] == x as usize;
            if j < idx.len() - 1 {
                assert(idx.drop_last()[j] == idx[j]);
            }
        }
        if idx.drop_last().contains(x as usize) {
            let j = choose|j: int| 0 <= j < idx.drop_last().len() && idx.drop_last()[j] == x as usize;
            assert(idx[j] == x as usize);
        }
        if i as int == x {
            assert(idx[idx.len() - 1] == x as usize);
        } else if idx.contains(x as usize) {
            let j = choose|j: int| 0 <= j < idx.len() && idx[j] == x as usize;
            assert(j != idx.len() - 1);
            assert(idx.drop_last()[j] == idx[j]);
        }
    } else {
        assert(!idx.contains(x as usize));
    }
}

/// The atoms a match touches: those of its deleted and inserted blocks.
pub open spec fn touched(dels: Seq<Seq<usize>>, inss: Seq<Seq<usize>>, e: (int, int, (nat, nat)), x: usize) -> bool {
    dels[e.0].contains(x) || inss[e.1].contains(x)
}

/// Matches whose blocks do not overlap: no atom is in both blocks of one
/// match, nor in blocks of two matches.
pub open spec fn matches_apart(dels: Seq<Seq<usize>>, inss: Seq<Seq<usize>>, pairs: Seq<(int, int, (nat, nat))>) -> bool {
    &&& forall|k: int| 0 <= k < pairs.len() ==> 0 <= (#[trigger] pairs[k]).0 < dels.len() && 0 <= pairs[k].1 < inss.len()
    &&& forall|k: int, x: usize| 0 <= k < pairs.len() && #[trigger] dels[pairs[k].0].contains(x) ==> !inss[pairs[k].1].contains(x)
    &&& forall|k1: int, k2: int, x: usize|
        0 <= k1 < pairs.len() && 0 <= k2 < pairs.len() && k1 != k2 && #[trigger] touched(dels, inss, pairs[k1], x)
            ==> !#[trigger] touched(dels, inss, pairs[k2], x)
}

/// Applying matches numbers them from one in order: the atoms of the
/// deleted block of the `k`-th match (from zero) become its move source and
/// those of its inserted block its move destination, both in group `k + 1`
/// named `move` followed by `k + 1`, so distinct matches get distinct
/// groups; an atom no match touches is left as it was.
pub proof fn lemma_moves_numbered(
    am: Seq<AtomModel>,
    dels: Seq<Seq<usize>>,
    inss: Seq<Seq<usize>>,
    pairs: Seq<(int, int, (nat, nat))>,
    x: int,
)
    requires
        matches_apart(dels, inss, pairs),
        pairs.len() < 0xffff_ffff,
        0 <= x < am.len(),
        x <= usize::MAX,
    ensures
        apply_moves(am, dels, inss, pairs).len() == am.len(),
        forall|k: int|
            0 <= k < pairs.len() && #[trigger] dels[pairs[k].0].contains(x as usize) ==> {
                let a = apply_moves(am, dels, inss, pairs)[x];
                &&& a.correlation_status == CorrelationStatus::MovedSource
                &&& a.move_group_id == Some((k + 1) as u32)
                &&& a.move_name == Some("move"@ + crate::text::decimal((k + 1) as nat))
            },
        forall|k: int|
            0 <= k < pairs.len() && #[trigger] inss[pairs[k].1].contains(x as usize) ==> {
                let a = apply_moves(am, dels, inss, pairs)[x];
                &&& a.correlation_status == CorrelationStatus::MovedDestination
                &&& a.move_group_id == Some((k + 1) as u32)
                &&& a.move_name == Some("move"@ + crate::text::decimal((k + 1) as nat))
            },
        (forall|k: int| 0 <= k < pairs.len() ==> !#[trigger] touched(dels, inss, pairs[k], x as usize))
            ==> apply_moves(am, dels, inss, pairs)[x] == am[x],
    decreases pairs.len(),
{
    if pairs.len() > 0 {
        let pre = pairs.drop_last();
        assert(matches_apart(dels, inss, pre)) by {
            assert forall|k: int| 0 <= k < pre.len() implies 0 <= (#[trigger] pre[k]).0 < dels.len() && 0 <= pre[k].1 < inss.len() by {
                assert(pre[k] == pairs[k]);
            }
            assert forall|k: int, y: usize| 0 <= k < pre.len() && #[trigger] dels[pre[k].0].contains(y) implies !inss[pre[k].1].contains(y) by {
                assert(pre[k] == pairs[k]);
            }
            assert forall|k1: int, k2: int, y: usize|
                0 <= k1 < pre.len() && 0 <= k2 < pre.len() && k1 != k2 && #[trigger] touched(dels, inss, pre[k1], y)
                implies !#[trigger] touched(dels, inss, pre[k2], y) by {
                assert(pre[k1] == pairs[k1]);
                assert(pre[k2] == pairs[k2]);
            }
        }
        lemma_moves_numbered(am, dels, inss, pre, x);
        let p = apply_moves(am, dels, inss, pre);
        let n = pairs.len();
        let e = pairs.last();
        let name = "move"@ + crate::text::decimal(n);
        let t1 = tag_move(p, dels[e.0], CorrelationStatus::MovedSource, n as u32, name);
        lemma_tag_move_at(p, dels[e.0], CorrelationStatus::MovedSource, n as u32, name, x);
        lemma_tag_move_at(t1, inss[e.1], CorrelationStatus::MovedDestination, n as u32, name, x);
        assert(e == pairs[n - 1]);
        assert forall|k: int|
            0 <= k < pairs.len() && #[trigger] dels[pairs[k].0].contains(x as usize) implies {
                let a = apply_moves(am, dels, inss, pairs)[x];
                &&& a.correlation_status == CorrelationStatus::MovedSource
                &&& a.move_group_id == Some((k + 1) as u32)
                &&& a.move_name == Some("move"@ + crate::text::decimal((k + 1) as nat))
            } by {
            assert(touched(dels, inss, pairs[k], x as usize));
            if k == n - 1 {
                assert(!inss[e.1].contains(x as usize));
            } else {
                assert(pre[k] == pairs[k]);
                assert(!touched(dels, inss, pairs[n - 1], x as usize));
            }
        }
        assert forall|k: int|
            0 <= k < pairs.len() && #[trigger] inss[pairs[k].1].contains(x as usize) implies {
                let a = apply_moves(am, dels, inss, pairs)[x];
                &&& a.correlation_status == CorrelationStatus::MovedDestination
                &&& a.move_group_id == Some((k + 1) as u32)
                &&& a.move_name == Some("move"@ + crate::text::decimal((k + 1) as nat))
            } by {
            assert(touched(dels, inss, pairs[k], x as usize));
            if k == n - 1 {
            } else {
                assert(pre[k] == pairs[k]);
                assert(!touched(dels, inss, pairs[n - 1], x as usize));
            }
        }
        if forall|k: int| 0 <= k < pairs.len() ==> !#[trigger] touched(dels, inss, pairs[k], x as usize) {
            assert(!touched(dels, inss, pairs[n - 1], x as usize));
            assert forall|k: int| 0 <= k < pre.len() implies !#[trigger] touched(dels, inss, pre[k], x as usize) by {
                assert(pre[k] == pairs[k]);
            }
        }
    }
}

} // verus!
