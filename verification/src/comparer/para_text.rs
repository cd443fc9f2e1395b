//! The text of comparison units and the fingerprints read off it: the
//! lower-cased alphanumeric tokens of a paragraph, and the document shapes
//! (short lists, memos, annotation notes) the alignment treats specially.

use vstd::prelude::*;

use super::atoms::{
    atoms_model, lemma_models_atoms_concat, lemma_models_atoms_step, model_atoms, models_atoms,
    AtomModel, ComparisonUnit, ComparisonUnitAtom, UnitModel, units_model,
};
use super::lcs::as_group;
use super::moves::{join_spaced, strings_view};
use crate::namespaces::{w_name, W};
use crate::text::{
    ascii_lower, ascii_lower_char, chars_of, find, find_from, is_alphanumeric_char, lower_seq, matches_at, occurs_at,
    is_white_space, is_whitespace_char, skip_white, skip_whitespace, string_from_chars, str_eq,
    push_char, unicode_alphanumeric,
};
use crate::xml::{has_name, name_of, value_of, Dom, NodeView, XNameView};

verus! {

// ── the text of a unit ──────────────────────────────────────────────────────

/// The text of the `w:t` atoms among `atoms`, in order.
pub open spec fn t_text(d: Seq<NodeView>, atoms: Seq<AtomModel>) -> Seq<char>
    decreases atoms.len(),
{
    if atoms.len() == 0 {
        seq![]
    } else {
        t_text(d, atoms.drop_last()) + if has_name(
            d,
            atoms.last().content_element.0 as int,
            w_name("t"@),
        ) {
            value_of(d, atoms.last().content_element.0 as int)
        } else {
            seq![]
        }
    }
}

/// The text of the unit's `w:t` atoms, in order.
pub fn unit_t_text(dom: &Dom, u: &ComparisonUnit) -> (r: Vec<char>)
    requires
        dom.wf(),
    ensures
        r@ == t_text(dom@, model_atoms(u@)),
{
    let atoms = u.descendant_atoms();
    let ghost am = atoms_model(atoms@);
    let t = W::t();
    let mut out: Vec<char> = Vec::new();
    let mut i: usize = 0;
    assert(am.take(0) =~= Seq::<AtomModel>::empty());
    while i < atoms.len()
        invariant
            dom.wf(),
            am == atoms_model(atoms@),
            t@ == w_name("t"@),
            i <= atoms@.len(),
            out@ == t_text(dom@, am.take(i as int)),
        decreases atoms@.len() - i,
    {
        assert(am.take(i + 1).drop_last() =~= am.take(i as int));
        assert(am[i as int] == atoms@[i as int]@);
        let ghost before = out@;
        if dom.is_named(atoms[i].content_element, &t) {
            let v = chars_of(dom.value_str(atoms[i].content_element).as_str());
            let mut k: usize = 0;
            while k < v.len()
                invariant
                    k <= v@.len(),
                    out@ == before + v@.take(k as int),
                decreases v@.len() - k,
            {
                out.push(v[k]);
                assert(v@.take(k + 1) =~= v@.take(k as int).push(v@[k as int]));
                k = k + 1;
            }
            assert(v@.take(v@.len() as int) =~= v@);
        } else {
            assert(out@ =~= before + Seq::<char>::empty());
        }
        i = i + 1;
    }
    assert(am.take(atoms@.len() as int) =~= am);
    out
}

// ── tokens ──────────────────────────────────────────────────────────────────

/// The maximal runs of characters of `t` whose flag in `m` is set.
pub open spec fn flagged_runs(t: Seq<char>, m: Seq<bool>) -> Seq<Seq<char>>
    decreases t.len(),
{
    if t.len() == 0 {
        seq![]
    } else {
        let prev = flagged_runs(t.drop_last(), m);
        let k = t.len() - 1;
        if !m[k] {
            prev
        } else if k >= 1 && m[k - 1] {
            prev.update(prev.len() - 1, prev.last().push(t.last()))
        } else {
            prev.push(seq![t.last()])
        }
    }
}

/// The flagged runs of `t`, lower-cased.
pub open spec fn tokens_of(t: Seq<char>, m: Seq<bool>) -> Seq<Seq<char>> {
    flagged_runs(t, m).map_values(|w: Seq<char>| lower_seq(w))
}

/// Which characters of `t` are alphanumeric.
pub open spec fn alnum_mask(t: Seq<char>) -> Seq<bool> {
    t.map_values(|c: char| unicode_alphanumeric(c))
}

/// The lower-cased alphanumeric tokens of the unit's text.
pub open spec fn para_tokens(d: Seq<NodeView>, u: UnitModel) -> Seq<Seq<char>> {
    let t = t_text(d, model_atoms(u));
    tokens_of(t, alnum_mask(t))
}

proof fn lemma_runs_open(t: Seq<char>, m: Seq<bool>)
    requires
        t.len() > 0,
        t.len() <= m.len(),
        m[t.len() - 1],
    ensures
        flagged_runs(t, m).len() > 0,
    decreases t.len(),
{
    let k = t.len() - 1;
    if k >= 1 && m[k - 1] {
        lemma_runs_open(t.drop_last(), m);
    }
}

/// The runs of `text` whose flag in `flags` is set, each lower-cased: the
/// tokens of a text given which of its characters belong to tokens.
pub fn split_tokens(text: &[char], flags: &[bool]) -> (r: Vec<String>)
    requires
        flags@.len() == text@.len(),
    ensures
        strings_view(r@) == tokens_of(text@, flags@),
{
    let mut out: Vec<String> = Vec::new();
    let mut cur = String::new();
    let mut open = false;
    let mut i: usize = 0;
    assert(text@.take(0) =~= Seq::<char>::empty());
    assert(strings_view(out@) =~= tokens_of(text@.take(0), flags@));
    while i < text.len()
        invariant
            flags@.len() == text@.len(),
            i <= text@.len(),
            open == (i > 0 && flags@[i - 1]),
            strings_view(out@) + (if open {
                seq![cur@]
            } else {
                seq![]
            }) == tokens_of(text@.take(i as int), flags@),
        decreases text@.len() - i,
    {
        let ghost pre = text@.take(i as int);
        let ghost now = text@.take(i + 1);
        assert(now.drop_last() =~= pre);
        assert(now.last() == text@[i as int]);
        let ghost sv = strings_view(out@);
        let ghost pr = flagged_runs(pre, flags@);
        if flags[i] {
            if open {
                proof {
                    lemma_runs_open(pre, flags@);
                }
                let ghost old_cur = cur@;
                push_char(&mut cur, ascii_lower_char(text[i]));
                assert(tokens_of(pre, flags@) == sv + seq![old_cur]);
                assert(tokens_of(pre, flags@).last() == lower_seq(pr.last()));
                assert(lower_seq(pr.last().push(text@[i as int])) =~= old_cur.push(ascii_lower(text@[i as int])));
                assert(tokens_of(now, flags@) =~= sv + seq![cur@]) by {
                    assert forall|j: int| 0 <= j < sv.len() implies #[trigger] tokens_of(now, flags@)[j]
                        == sv[j] by {
                        assert(tokens_of(pre, flags@)[j] == sv[j]);
                    }
                }
            } else {
                cur = String::new();
                push_char(&mut cur, ascii_lower_char(text[i]));
                assert(lower_seq(seq![text@[i as int]]) =~= cur@);
                assert(tokens_of(now, flags@) =~= sv + seq![cur@]);
            }
            open = true;
        } else {
            if open {
                let done = cur;
                cur = String::new();
                out.push(done);
                assert(strings_view(out@) =~= sv.push(done@));
            }
            open = false;
            assert(strings_view(out@) + seq![] =~= tokens_of(now, flags@));
        }
        i = i + 1;
    }
    if open {
        let ghost sv = strings_view(out@);
        out.push(cur);
        assert(strings_view(out@) =~= sv.push(out@.last()@));
    }
    assert(text@.take(text@.len() as int) =~= text@);
    assert(strings_view(out@) =~= tokens_of(text@, flags@));
    out
}

/// The ordered lower-cased alphanumeric tokens of the unit's `w:t` text.
pub fn para_text_token_list(dom: &Dom, u: &ComparisonUnit) -> (r: Vec<String>)
    requires
        dom.wf(),
    ensures
        strings_view(r@) == para_tokens(dom@, u@),
{
    let text = unit_t_text(dom, u);
    let mut flags: Vec<bool> = Vec::new();
    let mut i: usize = 0;
    while i < text.len()
        invariant
            i <= text@.len(),
            flags@ == alnum_mask(text@).take(i as int),
        decreases text@.len() - i,
    {
        flags.push(is_alphanumeric_char(text[i]));
        assert(alnum_mask(text@).take(i + 1) =~= alnum_mask(text@).take(i as int).push(
            unicode_alphanumeric(text@[i as int]),
        ));
        i = i + 1;
    }
    assert(alnum_mask(text@).take(text@.len() as int) =~= alnum_mask(text@));
    split_tokens(&text, &flags)
}

// ── significant tokens ──────────────────────────────────────────────────────

/// The last of `ts` at least four characters long.
pub open spec fn last_sig(ts: Seq<Seq<char>>) -> Option<Seq<char>>
    decreases ts.len(),
{
    if ts.len() == 0 {
        None
    } else if ts.last().len() >= 4 {
        Some(ts.last())
    } else {
        last_sig(ts.drop_last())
    }
}

/// The last token at least four characters long.
pub fn last_significant_token(ordered: &[String]) -> (r: Option<&str>)
    ensures
        match r {
            Some(s) => last_sig(strings_view(ordered@)) == Some(s@),
            None => last_sig(strings_view(ordered@)) is None,
        },
{
    let ghost sv = strings_view(ordered@);
    let mut k = ordered.len();
    assert(sv.take(k as int) =~= sv);
    while k > 0
        invariant
            sv == strings_view(ordered@),
            k <= ordered@.len(),
            last_sig(sv) == last_sig(sv.take(k as int)),
        decreases k,
    {
        assert(sv.take(k as int).drop_last() =~= sv.take(k - 1));
        assert(sv.take(k as int).last() == ordered@[k - 1]@);
        if ordered[k - 1].unicode_len() >= 4 {
            return Some(ordered[k - 1].as_str());
        }
        k = k - 1;
    }
    None
}

/// The tokens of `ts` at least four characters long, in order.
pub open spec fn sig_only(ts: Seq<Seq<char>>) -> Seq<Seq<char>>
    decreases ts.len(),
{
    if ts.len() == 0 {
        seq![]
    } else {
        sig_only(ts.drop_last()) + if ts.last().len() >= 4 {
            seq![ts.last()]
        } else {
            seq![]
        }
    }
}

/// The number of leading positions at which `a` and `b` agree ignoring
/// ASCII case.
pub open spec fn agreeing_prefix(a: Seq<Seq<char>>, b: Seq<Seq<char>>, k: int) -> int
    decreases a.len() - k,
{
    if 0 <= k < a.len() && k < b.len() && lower_seq(a[k]) == lower_seq(b[k]) {
        agreeing_prefix(a, b, k + 1)
    } else {
        k
    }
}

/// Whether the two strings are equal ignoring ASCII case.
pub fn eq_ignore_ascii_case(a: &str, b: &str) -> (r: bool)
    ensures
        r == (lower_seq(a@) == lower_seq(b@)),
{
    let x = chars_of(a);
    let y = chars_of(b);
    if x.len() != y.len() {
        assert(lower_seq(a@).len() != lower_seq(b@).len());
        return false;
    }
    let mut i: usize = 0;
    while i < x.len()
        invariant
            x@ == a@,
            y@ == b@,
            x@.len() == y@.len(),
            i <= x@.len(),
            forall|j: int| 0 <= j < i ==> ascii_lower(#[trigger] x@[j]) == ascii_lower(y@[j]),
        decreases x@.len() - i,
    {
        if ascii_lower_char(x[i]) != ascii_lower_char(y[i]) {
            assert(lower_seq(a@)[i as int] != lower_seq(b@)[i as int]);
            return false;
        }
        i = i + 1;
    }
    assert(lower_seq(a@) =~= lower_seq(b@));
    true
}

fn significant(v: &[String]) -> (r: Vec<&str>)
    ensures
        r@.map_values(|s: &str| s@) == sig_only(strings_view(v@)),
{
    let ghost sv = strings_view(v@);
    let mut out: Vec<&str> = Vec::new();
    let mut i: usize = 0;
    assert(sv.take(0) =~= Seq::<Seq<char>>::empty());
    assert(out@.map_values(|s: &str| s@) =~= Seq::<Seq<char>>::empty());
    while i < v.len()
        invariant
            sv == strings_view(v@),
            i <= v@.len(),
            out@.map_values(|s: &str| s@) == sig_only(sv.take(i as int)),
        decreases v@.len() - i,
    {
        let ghost prev = out@.map_values(|s: &str| s@);
        assert(sv.take(i + 1).drop_last() =~= sv.take(i as int));
        assert(sv.take(i + 1).last() == v@[i as int]@);
        if v[i].unicode_len() >= 4 {
            out.push(v[i].as_str());
            assert(out@.map_values(|s: &str| s@) =~= prev + seq![sv[i as int]]);
        } else {
            assert(out@.map_values(|s: &str| s@) =~= prev + Seq::<Seq<char>>::empty());
        }
        i = i + 1;
    }
    assert(sv.take(v@.len() as int) =~= sv);
    out
}

/// The number of leading tokens at least four characters long that the two
/// token lists share, in order, ignoring ASCII case.
pub fn ordered_shared_prefix_sig(left: &[String], right: &[String]) -> (r: usize)
    ensures
        r == agreeing_prefix(sig_only(strings_view(left@)), sig_only(strings_view(right@)), 0),
{
    let li = significant(left);
    let rj = significant(right);
    let ghost a = li@.map_values(|s: &str| s@);
    let ghost b = rj@.map_values(|s: &str| s@);
    let mut n: usize = 0;
    while n < li.len() && n < rj.len() && eq_ignore_ascii_case(li[n], rj[n])
        invariant
            a == li@.map_values(|s: &str| s@),
            b == rj@.map_values(|s: &str| s@),
            n <= li@.len(),
            agreeing_prefix(a, b, 0) == agreeing_prefix(a, b, n as int),
        decreases li@.len() - n,
    {
        n = n + 1;
    }
    n
}

// ── document fingerprints ───────────────────────────────────────────────────

/// The token lists of the units, in order.
pub open spec fn token_lists(d: Seq<NodeView>, us: Seq<UnitModel>) -> Seq<Seq<Seq<char>>> {
    us.map_values(|u: UnitModel| para_tokens(d, u))
}

/// The paragraphs with content: the non-empty token lists, in order.
pub open spec fn contentful(tl: Seq<Seq<Seq<char>>>) -> Seq<Seq<Seq<char>>> {
    tl.filter(|t: Seq<Seq<char>>| t.len() > 0)
}

/// At most `n` tokens, none longer than `w` characters.
pub open spec fn short_tokens(t: Seq<Seq<char>>, n: int, w: int) -> bool {
    t.len() <= n && forall|j: int| 0 <= j < t.len() ==> #[trigger] t[j].len() <= w
}

/// Every token list of `c` is short.
pub open spec fn all_short(c: Seq<Seq<Seq<char>>>, n: int, w: int) -> bool {
    forall|i: int| 0 <= i < c.len() ==> #[trigger] short_tokens(c[i], n, w)
}

/// One token of at most five characters.
pub open spec fn single_short(t: Seq<Seq<char>>) -> bool {
    t.len() == 1 && t[0].len() <= 5
}

/// The token lists of `c` made of one short token.
pub open spec fn singles(c: Seq<Seq<Seq<char>>>) -> Seq<Seq<Seq<char>>> {
    c.filter(|t: Seq<Seq<char>>| single_short(t))
}

/// One to four contentful paragraphs, each of at most two tokens of at most
/// eight characters.
pub open spec fn is_short_alpha_list(tl: Seq<Seq<Seq<char>>>) -> bool {
    let c = contentful(tl);
    1 <= c.len() <= 4 && all_short(c, 2, 8)
}

/// Five to twenty contentful paragraphs, each of at most two tokens of at most
/// twelve characters, at least half of them a single token of at most five.
pub open spec fn is_short_alpha_list_cluster(tl: Seq<Seq<Seq<char>>>) -> bool {
    let c = contentful(tl);
    5 <= c.len() <= 20 && all_short(c, 2, 12) && 2 * singles(c).len() >= c.len()
}

/// The tokens joined by single spaces, lower-cased.
pub open spec fn joined(t: Seq<Seq<char>>) -> Seq<char> {
    lower_seq(join_spaced(t))
}

/// `pat` occurs somewhere in `s`.
pub open spec fn mentions(s: Seq<char>, pat: Seq<char>) -> bool {
    find_from(s, pat, 0) is Some
}

/// One of the first twenty paragraphs mentions "html input type".
pub open spec fn is_fields_html(tl: Seq<Seq<Seq<char>>>) -> bool {
    exists|i: int| 0 <= i < tl.len() && i < 20 && mentions(#[trigger] joined(tl[i]), "html input type"@)
}

/// The paragraph mentions "suggest", "leave a comment" or "oftentimes".
pub open spec fn annotation_marker(t: Seq<Seq<char>>) -> bool {
    mentions(joined(t), "suggest"@) || mentions(joined(t), "leave a comment"@) || mentions(
        joined(t),
        "oftentimes"@,
    )
}

/// One to six contentful paragraphs, one of which carries an annotation marker.
pub open spec fn is_short_annotation(tl: Seq<Seq<Seq<char>>>) -> bool {
    &&& 1 <= contentful(tl).len() <= 6
    &&& exists|i: int| 0 <= i < tl.len() && tl[i].len() > 0 && #[trigger] annotation_marker(tl[i])
}

/// `t` is `w`, ignoring ASCII case.
pub open spec fn same_word(t: Seq<char>, w: Seq<char>) -> bool {
    lower_seq(t) == lower_seq(w)
}

/// The first token of the list is `w`, ignoring ASCII case.
pub open spec fn opens_with(t: Seq<Seq<char>>, w: Seq<char>) -> bool {
    t.len() > 0 && same_word(t[0], w)
}

/// Among the first twelve paragraphs, one starts "memorandum", or one opens
/// with "to" and one with "from".
pub open spec fn is_memo(tl: Seq<Seq<Seq<char>>>) -> bool {
    ||| exists|i: int|
        0 <= i < tl.len() && i < 12 && occurs_at(#[trigger] joined(tl[i]), "memorandum"@, 0)
    ||| (exists|i: int| 0 <= i < tl.len() && i < 12 && #[trigger] opens_with(tl[i], "to"@)) && (
    exists|i: int| 0 <= i < tl.len() && i < 12 && #[trigger] opens_with(tl[i], "from"@))
}

proof fn lemma_contentful_step(tl: Seq<Seq<Seq<char>>>, i: int)
    requires
        0 <= i < tl.len(),
    ensures
        contentful(tl.take(i + 1)) == if tl[i].len() > 0 {
            contentful(tl.take(i)).push(tl[i])
        } else {
            contentful(tl.take(i))
        },
{
    reveal(Seq::filter);
    assert(tl.take(i + 1).drop_last() =~= tl.take(i));
}

proof fn lemma_singles_push(c: Seq<Seq<Seq<char>>>, t: Seq<Seq<char>>)
    ensures
        singles(c.push(t)) == if single_short(t) {
            singles(c).push(t)
        } else {
            singles(c)
        },
{
    reveal(Seq::filter);
    assert(c.push(t).drop_last() =~= c);
}

proof fn lemma_all_short_push(c: Seq<Seq<Seq<char>>>, t: Seq<Seq<char>>, n: int, w: int)
    ensures
        all_short(c.push(t), n, w) == (all_short(c, n, w) && short_tokens(t, n, w)),
{
    if all_short(c.push(t), n, w) {
        assert forall|i: int| 0 <= i < c.len() implies #[trigger] short_tokens(c[i], n, w) by {
            assert(c.push(t)[i] == c[i]);
        }
        assert(c.push(t)[c.len() as int] == t);
    }
    if all_short(c, n, w) && short_tokens(t, n, w) {
        assert forall|i: int| 0 <= i < c.push(t).len() implies #[trigger] short_tokens(
            c.push(t)[i],
            n,
            w,
        ) by {
            if i < c.len() {
                assert(c.push(t)[i] == c[i]);
            }
        }
    }
}

/// At most `n` tokens, none longer than `w` characters.
fn tokens_within(toks: &[String], n: usize, w: usize) -> (r: bool)
    ensures
        r == short_tokens(strings_view(toks@), n as int, w as int),
{
    let ghost sv = strings_view(toks@);
    if toks.len() > n {
        return false;
    }
    let mut j: usize = 0;
    while j < toks.len()
        invariant
            sv == strings_view(toks@),
            j <= toks@.len(),
            forall|k: int| 0 <= k < j ==> #[trigger] sv[k].len() <= w,
        decreases toks@.len() - j,
    {
        assert(sv[j as int] == toks@[j as int]@);
        if toks[j].unicode_len() > w {
            return false;
        }
        j = j + 1;
    }
    true
}

/// The tokens joined by single spaces, lower-cased.
pub fn joined_lower(toks: &[String]) -> (r: Vec<char>)
    ensures
        r@ == joined(strings_view(toks@)),
{
    let ghost sv = strings_view(toks@);
    let mut out: Vec<char> = Vec::new();
    let mut i: usize = 0;
    assert(sv.take(0) =~= Seq::<Seq<char>>::empty());
    assert(out@ =~= joined(sv.take(0)));
    while i < toks.len()
        invariant
            sv == strings_view(toks@),
            i <= toks@.len(),
            out@ == joined(sv.take(i as int)),
        decreases toks@.len() - i,
    {
        let ghost before = out@;
        let ghost now = sv.take(i + 1);
        assert(now.drop_last() =~= sv.take(i as int));
        assert(now.last() == toks@[i as int]@);
        if i > 0 {
            out.push(' ');
        }
        let cs = chars_of(toks[i].as_str());
        let ghost mid = out@;
        let mut k: usize = 0;
        while k < cs.len()
            invariant
                k <= cs@.len(),
                out@ == mid + lower_seq(cs@.take(k as int)),
            decreases cs@.len() - k,
        {
            out.push(ascii_lower_char(cs[k]));
            assert(lower_seq(cs@.take(k + 1)) =~= lower_seq(cs@.take(k as int)).push(
                ascii_lower(cs@[k as int]),
            ));
            k = k + 1;
        }
        assert(cs@.take(cs@.len() as int) =~= cs@);
        if i == 0 {
            assert(now.len() == 1);
            assert(out@ =~= joined(now));
        } else {
            assert(join_spaced(now) == join_spaced(sv.take(i as int)) + seq![' '] + now.last());
            assert(out@ =~= joined(now));
        }
        i = i + 1;
    }
    assert(sv.take(toks@.len() as int) =~= sv);
    out
}

/// The document is a short alpha list: one to four contentful paragraphs, each
/// of at most two tokens of at most eight characters.
pub fn looks_like_short_alpha_list(dom: &Dom, cu: &[ComparisonUnit]) -> (r: bool)
    requires
        dom.wf(),
    ensures
        r == is_short_alpha_list(token_lists(dom@, units_model(cu@))),
{
    let ghost tl = token_lists(dom@, units_model(cu@));
    let mut count: usize = 0;
    let mut ok = true;
    let mut i: usize = 0;
    assert(tl.take(0) =~= Seq::<Seq<Seq<char>>>::empty());
    while i < cu.len()
        invariant
            dom.wf(),
            tl == token_lists(dom@, units_model(cu@)),
            i <= cu@.len(),
            count <= i,
            count == contentful(tl.take(i as int)).len(),
            ok == all_short(contentful(tl.take(i as int)), 2, 8),
        decreases cu@.len() - i,
    {
        let toks = para_text_token_list(dom, &cu[i]);
        proof {
            lemma_contentful_step(tl, i as int);
            lemma_all_short_push(contentful(tl.take(i as int)), tl[i as int], 2, 8);
        }
        assert(strings_view(toks@) == tl[i as int]);
        if toks.len() > 0 {
            count = count + 1;
            ok = ok && tokens_within(&toks, 2, 8);
        }
        i = i + 1;
    }
    assert(tl.take(cu@.len() as int) =~= tl);
    ok && 1 <= count && count <= 4
}

/// The document is a short alpha-list cluster: five to twenty contentful
/// paragraphs of at most two tokens of at most twelve characters, at least
/// half of them a single token of at most five.
pub fn looks_like_short_alpha_list_cluster(dom: &Dom, cu: &[ComparisonUnit]) -> (r: bool)
    requires
        dom.wf(),
    ensures
        r == is_short_alpha_list_cluster(token_lists(dom@, units_model(cu@))),
{
    let ghost tl = token_lists(dom@, units_model(cu@));
    let mut count: usize = 0;
    let mut single: usize = 0;
    let mut ok = true;
    let mut i: usize = 0;
    assert(tl.take(0) =~= Seq::<Seq<Seq<char>>>::empty());
    while i < cu.len()
        invariant
            dom.wf(),
            tl == token_lists(dom@, units_model(cu@)),
            i <= cu@.len(),
            single <= count <= i,
            count == contentful(tl.take(i as int)).len(),
            single == singles(contentful(tl.take(i as int))).len(),
            ok == all_short(contentful(tl.take(i as int)), 2, 12),
        decreases cu@.len() - i,
    {
        let toks = para_text_token_list(dom, &cu[i]);
        proof {
            lemma_contentful_step(tl, i as int);
            lemma_all_short_push(contentful(tl.take(i as int)), tl[i as int], 2, 12);
            lemma_singles_push(contentful(tl.take(i as int)), tl[i as int]);
        }
        assert(strings_view(toks@) == tl[i as int]);
        if toks.len() > 0 {
            count = count + 1;
            ok = ok && tokens_within(&toks, 2, 12);
            if toks.len() == 1 {
                assert(toks@[0]@ == tl[i as int][0]);
                if toks[0].unicode_len() <= 5 {
                    single = single + 1;
                }
            }
        }
        i = i + 1;
    }
    assert(tl.take(cu@.len() as int) =~= tl);
    ok && 5 <= count && count <= 20 && single * 2 >= count
}

/// One of the first twenty paragraphs mentions "html input type".
pub fn looks_like_fields_html_doc(dom: &Dom, cu: &[ComparisonUnit]) -> (r: bool)
    requires
        dom.wf(),
    ensures
        r == is_fields_html(token_lists(dom@, units_model(cu@))),
{
    let ghost tl = token_lists(dom@, units_model(cu@));
    let pat = chars_of("html input type");
    let n = if cu.len() < 20 {
        cu.len()
    } else {
        20
    };
    let mut i: usize = 0;
    while i < n
        invariant
            dom.wf(),
            tl == token_lists(dom@, units_model(cu@)),
            pat@ == "html input type"@,
            n <= cu@.len(),
            n <= 20,
            n == cu@.len() || n == 20,
            i <= n,
            forall|k: int| 0 <= k < i ==> !mentions(#[trigger] joined(tl[k]), "html input type"@),
        decreases n - i,
    {
        let toks = para_text_token_list(dom, &cu[i]);
        assert(strings_view(toks@) == tl[i as int]);
        let s = joined_lower(&toks);
        if find(&s, &pat, 0).is_some() {
            assert(mentions(joined(tl[i as int]), "html input type"@));
            return true;
        }
        i = i + 1;
    }
    false
}

/// One to six contentful paragraphs, one of which mentions "suggest",
/// "leave a comment" or "oftentimes".
pub fn looks_like_short_annotation_doc(dom: &Dom, cu: &[ComparisonUnit]) -> (r: bool)
    requires
        dom.wf(),
    ensures
        r == is_short_annotation(token_lists(dom@, units_model(cu@))),
{
    let ghost tl = token_lists(dom@, units_model(cu@));
    let p1 = chars_of("suggest");
    let p2 = chars_of("leave a comment");
    let p3 = chars_of("oftentimes");
    let mut count: usize = 0;
    let mut saw = false;
    let mut i: usize = 0;
    assert(tl.take(0) =~= Seq::<Seq<Seq<char>>>::empty());
    while i < cu.len()
        invariant
            dom.wf(),
            tl == token_lists(dom@, units_model(cu@)),
            p1@ == "suggest"@,
            p2@ == "leave a comment"@,
            p3@ == "oftentimes"@,
            i <= cu@.len(),
            count <= i,
            count == contentful(tl.take(i as int)).len(),
            saw == exists|k: int|
                0 <= k < i && tl[k].len() > 0 && #[trigger] annotation_marker(tl[k]),
        decreases cu@.len() - i,
    {
        let toks = para_text_token_list(dom, &cu[i]);
        proof {
            lemma_contentful_step(tl, i as int);
        }
        assert(strings_view(toks@) == tl[i as int]);
        if toks.len() > 0 {
            count = count + 1;
            let s = joined_lower(&toks);
            if find(&s, &p1, 0).is_some() || find(&s, &p2, 0).is_some() || find(&s, &p3, 0).is_some() {
                assert(annotation_marker(tl[i as int]));
                saw = true;
            } else {
                assert(!annotation_marker(tl[i as int]));
            }
        }
        i = i + 1;
    }
    assert(tl.take(cu@.len() as int) =~= tl);
    saw && 1 <= count && count <= 6
}

/// Among the first twelve paragraphs, one starts "memorandum", or one opens
/// with "to" and one with "from".
pub fn looks_like_memo_doc(dom: &Dom, cu: &[ComparisonUnit]) -> (r: bool)
    requires
        dom.wf(),
    ensures
        r == is_memo(token_lists(dom@, units_model(cu@))),
{
    let ghost tl = token_lists(dom@, units_model(cu@));
    let title = chars_of("memorandum");
    let n = if cu.len() < 12 {
        cu.len()
    } else {
        12
    };
    let mut saw_title = false;
    let mut saw_to = false;
    let mut saw_from = false;
    let mut i: usize = 0;
    while i < n
        invariant
            dom.wf(),
            tl == token_lists(dom@, units_model(cu@)),
            title@ == "memorandum"@,
            n <= cu@.len(),
            n == cu@.len() || n == 12,
            i <= n,
            saw_title == exists|k: int|
                0 <= k < i && occurs_at(#[trigger] joined(tl[k]), "memorandum"@, 0),
            saw_to == exists|k: int| 0 <= k < i && #[trigger] opens_with(tl[k], "to"@),
            saw_from == exists|k: int| 0 <= k < i && #[trigger] opens_with(tl[k], "from"@),
        decreases n - i,
    {
        let toks = para_text_token_list(dom, &cu[i]);
        assert(strings_view(toks@) == tl[i as int]);
        let s = joined_lower(&toks);
        if matches_at(&s, &title, 0) {
            saw_title = true;
        }
        if toks.len() > 0 {
            assert(toks@[0]@ == tl[i as int][0]);
            if eq_ignore_ascii_case(toks[0].as_str(), "to") {
                assert(opens_with(tl[i as int], "to"@));
                saw_to = true;
            } else {
                assert(!opens_with(tl[i as int], "to"@));
            }
            if eq_ignore_ascii_case(toks[0].as_str(), "from") {
                assert(opens_with(tl[i as int], "from"@));
                saw_from = true;
            } else {
                assert(!opens_with(tl[i as int], "from"@));
            }
        } else {
            assert(!opens_with(tl[i as int], "to"@));
            assert(!opens_with(tl[i as int], "from"@));
        }
        i = i + 1;
    }
    saw_title || (saw_to && saw_from)
}

/// The first token is a memo header word: "to", "from", "date" or "re".
pub open spec fn header_word(f: Seq<char>) -> bool {
    same_word(f, "to"@) || same_word(f, "from"@) || same_word(f, "date"@) || same_word(f, "re"@)
}

/// Where the memo header block ends, scanning from paragraph `i` with `saw`
/// telling whether a header line was seen before it: just after the first
/// paragraph opening with "dear"; else at the first paragraph of eight or more
/// tokens after a header line that is not itself one; else, if a header line
/// was seen, at the twelfth paragraph or the end.
pub open spec fn memo_cut_from(tl: Seq<Seq<Seq<char>>>, i: int, saw: bool) -> Option<int>
    decreases tl.len() - i,
{
    if i < 0 || i >= tl.len() {
        if saw {
            Some(if tl.len() < 12 { tl.len() as int } else { 12 })
        } else {
            None
        }
    } else if tl[i].len() == 0 {
        memo_cut_from(tl, i + 1, saw)
    } else {
        let f = tl[i][0];
        let seen = saw || header_word(f) || same_word(f, "memorandum"@);
        if same_word(f, "dear"@) {
            Some(i + 1)
        } else if seen && tl[i].len() >= 8 && !header_word(f) {
            Some(i)
        } else {
            memo_cut_from(tl, i + 1, seen)
        }
    }
}

/// Where the memo header block of the document ends, if it has one.
pub fn memo_header_cut(dom: &Dom, cu: &[ComparisonUnit]) -> (r: Option<usize>)
    requires
        dom.wf(),
    ensures
        match r {
            Some(k) => memo_cut_from(token_lists(dom@, units_model(cu@)), 0, false) == Some(
                k as int,
            ),
            None => memo_cut_from(token_lists(dom@, units_model(cu@)), 0, false) is None,
        },
{
    let ghost tl = token_lists(dom@, units_model(cu@));
    let mut saw = false;
    let mut i: usize = 0;
    while i < cu.len()
        invariant
            dom.wf(),
            tl == token_lists(dom@, units_model(cu@)),
            i <= cu@.len(),
            memo_cut_from(tl, 0, false) == memo_cut_from(tl, i as int, saw),
        decreases cu@.len() - i,
    {
        let toks = para_text_token_list(dom, &cu[i]);
        assert(strings_view(toks@) == tl[i as int]);
        if toks.len() > 0 {
            assert(toks@[0]@ == tl[i as int][0]);
            let first = toks[0].as_str();
            let header = eq_ignore_ascii_case(first, "to") || eq_ignore_ascii_case(first, "from")
                || eq_ignore_ascii_case(first, "date") || eq_ignore_ascii_case(first, "re");
            if header || eq_ignore_ascii_case(first, "memorandum") {
                saw = true;
            }
            if eq_ignore_ascii_case(first, "dear") {
                return Some(i + 1);
            }
            if saw && toks.len() >= 8 && !header {
                return Some(i);
            }
        }
        i = i + 1;
    }
    if saw {
        Some(if cu.len() < 12 {
            cu.len()
        } else {
            12
        })
    } else {
        None
    }
}

/// Every unit of a non-empty list has at most twelve tokens.
pub open spec fn all_short_items(tl: Seq<Seq<Seq<char>>>) -> bool {
    tl.len() > 0 && forall|i: int| 0 <= i < tl.len() ==> #[trigger] tl[i].len() <= 12
}

/// The units are short list items: there is one, and none has more than
/// twelve tokens.
pub fn short_item_list_groups(dom: &Dom, xs: &[&ComparisonUnit]) -> (r: bool)
    requires
        dom.wf(),
    ensures
        r == all_short_items(xs@.map_values(|u: &ComparisonUnit| para_tokens(dom@, u@))),
{
    let ghost tl = xs@.map_values(|u: &ComparisonUnit| para_tokens(dom@, u@));
    if xs.len() == 0 {
        return false;
    }
    let mut i: usize = 0;
    while i < xs.len()
        invariant
            dom.wf(),
            tl == xs@.map_values(|u: &ComparisonUnit| para_tokens(dom@, u@)),
            i <= xs@.len(),
            forall|k: int| 0 <= k < i ==> #[trigger] tl[k].len() <= 12,
        decreases xs@.len() - i,
    {
        let toks = para_text_token_list(dom, xs[i]);
        assert(strings_view(toks@) == tl[i as int]);
        if toks.len() > 12 {
            return false;
        }
        i = i + 1;
    }
    true
}

// ── real text ───────────────────────────────────────────────────────────────

/// Where `s` ends before `k` once trailing whitespace is dropped.
pub open spec fn back_white(s: Seq<char>, k: int) -> int
    decreases k,
{
    if 0 < k <= s.len() && is_white_space(s[k - 1]) {
        back_white(s, k - 1)
    } else {
        k
    }
}

/// The number of characters of `s` once leading and trailing whitespace is
/// dropped.
pub open spec fn trimmed_len(s: Seq<char>) -> nat {
    let a = skip_white(s, 0);
    let b = back_white(s, s.len() as int);
    if a < b {
        (b - a) as nat
    } else {
        0
    }
}

/// The number of characters of `s` once leading and trailing whitespace is
/// dropped.
pub fn trimmed_char_count(s: &str) -> (r: usize)
    ensures
        r == trimmed_len(s@),
{
    let cs = chars_of(s);
    let a = skip_whitespace(&cs, 0);
    let mut b = cs.len();
    while b > 0 && is_whitespace_char(cs[b - 1])
        invariant
            cs@ == s@,
            b <= cs@.len(),
            back_white(cs@, cs@.len() as int) == back_white(cs@, b as int),
        decreases b,
    {
        b = b - 1;
    }
    if a < b {
        b - a
    } else {
        0
    }
}

/// The trimmed length of a `w:t` atom's text; nothing for other atoms.
pub open spec fn text_weight(d: Seq<NodeView>, a: AtomModel) -> nat {
    if has_name(d, a.content_element.0 as int, w_name("t"@)) {
        trimmed_len(value_of(d, a.content_element.0 as int))
    } else {
        0
    }
}

/// The trimmed lengths of the `w:t` texts among `atoms`, summed.
pub open spec fn real_text_len(d: Seq<NodeView>, atoms: Seq<AtomModel>) -> nat
    decreases atoms.len(),
{
    if atoms.len() == 0 {
        0
    } else {
        real_text_len(d, atoms.drop_last()) + text_weight(d, atoms.last())
    }
}

proof fn lemma_real_text_concat(d: Seq<NodeView>, a: Seq<AtomModel>, b: Seq<AtomModel>)
    ensures
        real_text_len(d, a + b) == real_text_len(d, a) + real_text_len(d, b),
    decreases b.len(),
{
    if b.len() == 0 {
        assert(a + b =~= a);
    } else {
        lemma_real_text_concat(d, a, b.drop_last());
        assert((a + b).drop_last() =~= a + b.drop_last());
        assert((a + b).last() == b.last());
    }
}

proof fn lemma_real_text_take(d: Seq<NodeView>, a: Seq<AtomModel>, j: int)
    requires
        0 <= j < a.len(),
    ensures
        real_text_len(d, a.take(j + 1)) == real_text_len(d, a.take(j)) + text_weight(d, a[j]),
        real_text_len(d, a.take(j + 1)) <= real_text_len(d, a),
{
    assert(a.take(j + 1).drop_last() =~= a.take(j));
    lemma_real_text_concat(d, a.take(j + 1), a.skip(j + 1));
    assert(a.take(j + 1) + a.skip(j + 1) =~= a);
}

fn atom_text_weight(dom: &Dom, a: &ComparisonUnitAtom) -> (r: usize)
    requires
        dom.wf(),
    ensures
        r == text_weight(dom@, a@),
{
    if dom.is_named(a.content_element, &W::t()) {
        trimmed_char_count(dom.value_str(a.content_element).as_str())
    } else {
        0
    }
}

/// The trimmed lengths of the `w:t` texts of the run's atoms, summed.
pub fn run_real_text_len(dom: &Dom, run: &[ComparisonUnit]) -> (r: usize)
    requires
        dom.wf(),
        real_text_len(dom@, models_atoms(units_model(run@))) <= usize::MAX,
    ensures
        r == real_text_len(dom@, models_atoms(units_model(run@))),
{
    let ghost us = units_model(run@);
    let ghost all = real_text_len(dom@, models_atoms(us));
    let mut total: usize = 0;
    let mut i: usize = 0;
    assert(us.take(0) =~= Seq::<UnitModel>::empty());
    while i < run.len()
        invariant
            dom.wf(),
            us == units_model(run@),
            all == real_text_len(dom@, models_atoms(us)),
            all <= usize::MAX,
            i <= run@.len(),
            total == real_text_len(dom@, models_atoms(us.take(i as int))),
        decreases run@.len() - i,
    {
        let atoms = run[i].descendant_atoms();
        let ghost am = atoms_model(atoms@);
        let ghost base = real_text_len(dom@, models_atoms(us.take(i as int)));
        proof {
            lemma_models_atoms_step(us, i as int);
            lemma_real_text_concat(dom@, models_atoms(us.take(i as int)), am);
            lemma_models_atoms_concat(us.take(i + 1), us.skip(i + 1));
            assert(us.take(i + 1) + us.skip(i + 1) =~= us);
            lemma_real_text_concat(dom@, models_atoms(us.take(i + 1)), models_atoms(us.skip(i + 1)));
        }
        assert(base + real_text_len(dom@, am) <= all);
        let mut j: usize = 0;
        assert(am.take(0) =~= Seq::<AtomModel>::empty());
        while j < atoms.len()
            invariant
                dom.wf(),
                am == atoms_model(atoms@),
                base + real_text_len(dom@, am) <= usize::MAX,
                j <= atoms@.len(),
                total == base + real_text_len(dom@, am.take(j as int)),
            decreases atoms@.len() - j,
        {
            proof {
                lemma_real_text_take(dom@, am, j as int);
            }
            assert(am[j as int] == atoms@[j as int]@);
            let w = atom_text_weight(dom, &atoms[j]);
            total = total + w;
            j = j + 1;
        }
        assert(am.take(atoms@.len() as int) =~= am);
        i = i + 1;
    }
    assert(us.take(run@.len() as int) =~= us);
    total
}

/// Some `w:t` atom of the unit has text beyond whitespace.
pub fn has_real_text(dom: &Dom, u: &ComparisonUnit) -> (r: bool)
    requires
        dom.wf(),
    ensures
        r == (real_text_len(dom@, model_atoms(u@)) > 0),
{
    let atoms = u.descendant_atoms();
    let ghost am = atoms_model(atoms@);
    let mut j: usize = 0;
    assert(am.take(0) =~= Seq::<AtomModel>::empty());
    while j < atoms.len()
        invariant
            dom.wf(),
            am == atoms_model(atoms@),
            am == model_atoms(u@),
            j <= atoms@.len(),
            real_text_len(dom@, am.take(j as int)) == 0,
        decreases atoms@.len() - j,
    {
        proof {
            lemma_real_text_take(dom@, am, j as int);
        }
        assert(am[j as int] == atoms@[j as int]@);
        if atom_text_weight(dom, &atoms[j]) > 0 {
            return true;
        }
        j = j + 1;
    }
    assert(am.take(atoms@.len() as int) =~= am);
    false
}

/// A group with text beyond whitespace.
pub open spec fn contentful_group(d: Seq<NodeView>, u: UnitModel) -> bool {
    u is Group && real_text_len(d, model_atoms(u)) > 0
}

/// The first index at or after `k` of a contentful group.
pub open spec fn first_contentful_from(d: Seq<NodeView>, us: Seq<UnitModel>, k: int) -> Option<int>
    decreases us.len() - k,
{
    if k < 0 || k >= us.len() {
        None
    } else if contentful_group(d, us[k]) {
        Some(k)
    } else {
        first_contentful_from(d, us, k + 1)
    }
}

/// What `first_contentful_from` finds is a contentful group at or after `k`.
pub proof fn lemma_first_contentful_from(d: Seq<NodeView>, us: Seq<UnitModel>, k: int)
    ensures
        first_contentful_from(d, us, k) matches Some(i) ==> k <= i < us.len() && contentful_group(
            d,
            us[i],
        ),
    decreases us.len() - k,
{
    if 0 <= k < us.len() && !contentful_group(d, us[k]) {
        lemma_first_contentful_from(d, us, k + 1);
    }
}

/// The index of the first group with text beyond whitespace.
pub fn first_contentful_group_index(dom: &Dom, cu: &[ComparisonUnit]) -> (r: Option<usize>)
    requires
        dom.wf(),
    ensures
        match r {
            Some(i) => first_contentful_from(dom@, units_model(cu@), 0) == Some(i as int),
            None => first_contentful_from(dom@, units_model(cu@), 0) is None,
        },
{
    let ghost us = units_model(cu@);
    let mut i: usize = 0;
    while i < cu.len()
        invariant
            dom.wf(),
            us == units_model(cu@),
            i <= cu@.len(),
            first_contentful_from(dom@, us, 0) == first_contentful_from(dom@, us, i as int),
        decreases cu@.len() - i,
    {
        assert(us[i as int] == cu@[i as int]@);
        if as_group(&cu[i]).is_some() && has_real_text(dom, &cu[i]) {
            return Some(i);
        }
        i = i + 1;
    }
    None
}

/// The `w:t` text of the first group with text beyond whitespace.
pub fn first_contentful_para_text(dom: &Dom, cu: &[ComparisonUnit]) -> (r: Option<String>)
    requires
        dom.wf(),
    ensures
        match first_contentful_from(dom@, units_model(cu@), 0) {
            Some(i) => r matches Some(s) && s@ == t_text(dom@, model_atoms(units_model(cu@)[i])),
            None => r is None,
        },
{
    proof {
        lemma_first_contentful_from(dom@, units_model(cu@), 0);
    }
    match first_contentful_group_index(dom, cu) {
        Some(i) => {
            assert(units_model(cu@)[i as int] == cu@[i as int]@);
            let t = unit_t_text(dom, &cu[i]);
            Some(string_from_chars(&t, 0, t.len()))
        },
        None => None,
    }
}

// ── drawings ────────────────────────────────────────────────────────────────

/// A drawing, picture or embedded object: `w:drawing`, `w:pict`, `w:object`,
/// or an element of any namespace named `AlternateContent`, `drawing` or
/// `pict`.
pub open spec fn drawing_like(n: Option<XNameView>) -> bool {
    match n {
        Some(x) => x == w_name("drawing"@) || x == w_name("pict"@) || x == w_name("object"@)
            || x.local == "AlternateContent"@ || x.local == "drawing"@ || x.local == "pict"@,
        None => false,
    }
}

/// Some atom's content element is drawing-like.
pub open spec fn has_drawing(d: Seq<NodeView>, atoms: Seq<AtomModel>) -> bool {
    exists|j: int|
        0 <= j < atoms.len() && #[trigger] drawing_like(name_of(d, atoms[j].content_element.0 as int))
}

/// Some atom of the unit is a drawing, picture or embedded object.
pub fn group_has_drawing_or_pict(dom: &Dom, u: &ComparisonUnit) -> (r: bool)
    ensures
        r == has_drawing(dom@, model_atoms(u@)),
{
    let atoms = u.descendant_atoms();
    let ghost am = atoms_model(atoms@);
    let drawing = W::name("drawing");
    let pict = W::name("pict");
    let object = W::name("object");
    let mut j: usize = 0;
    while j < atoms.len()
        invariant
            am == atoms_model(atoms@),
            am == model_atoms(u@),
            drawing@ == w_name("drawing"@),
            pict@ == w_name("pict"@),
            object@ == w_name("object"@),
            j <= atoms@.len(),
            forall|k: int|
                0 <= k < j ==> !#[trigger] drawing_like(
                    name_of(dom@, am[k].content_element.0 as int),
                ),
        decreases atoms@.len() - j,
    {
        assert(am[j as int] == atoms@[j as int]@);
        match dom.name(atoms[j].content_element) {
            Some(n) => {
                let l = n.local_name();
                if n.same(&drawing) || n.same(&pict) || n.same(&object) || str_eq(
                    l,
                    "AlternateContent",
                ) || str_eq(l, "drawing") || str_eq(l, "pict") {
                    assert(drawing_like(name_of(dom@, am[j as int].content_element.0 as int)));
                    return true;
                }
            },
            None => {},
        }
        j = j + 1;
    }
    false
}

/// A group with text beyond whitespace or with a drawing.
pub open spec fn carries_content(d: Seq<NodeView>, u: UnitModel) -> bool {
    u is Group && (real_text_len(d, model_atoms(u)) > 0 || has_drawing(d, model_atoms(u)))
}

/// The hashes of the groups among `us` with text beyond whitespace or with a
/// drawing, in order.
pub open spec fn content_sha1s(d: Seq<NodeView>, us: Seq<UnitModel>) -> Seq<Seq<char>>
    decreases us.len(),
{
    if us.len() == 0 {
        seq![]
    } else {
        content_sha1s(d, us.drop_last()) + if carries_content(d, us.last()) {
            seq![us.last().sha1()]
        } else {
            seq![]
        }
    }
}

/// The hashes of the groups with text beyond whitespace or with a drawing,
/// in order.
pub fn contentful_group_sha1s<'a>(dom: &Dom, cu: &'a [ComparisonUnit]) -> (r: Vec<&'a str>)
    requires
        dom.wf(),
    ensures
        r@.map_values(|s: &str| s@) == content_sha1s(dom@, units_model(cu@)),
{
    let ghost us = units_model(cu@);
    let mut out: Vec<&'a str> = Vec::new();
    let mut i: usize = 0;
    assert(us.take(0) =~= Seq::<UnitModel>::empty());
    assert(out@.map_values(|s: &str| s@) =~= Seq::<Seq<char>>::empty());
    while i < cu.len()
        invariant
            dom.wf(),
            us == units_model(cu@),
            i <= cu@.len(),
            out@.map_values(|s: &str| s@) == content_sha1s(dom@, us.take(i as int)),
        decreases cu@.len() - i,
    {
        let ghost prev = out@.map_values(|s: &str| s@);
        assert(us.take(i + 1).drop_last() =~= us.take(i as int));
        assert(us.take(i + 1).last() == cu@[i as int]@);
        let u = &cu[i];
        if as_group(u).is_some() && (has_real_text(dom, u) || group_has_drawing_or_pict(dom, u)) {
            out.push(u.sha1());
            assert(out@.map_values(|s: &str| s@) =~= prev + seq![us[i as int].sha1()]);
        } else {
            assert(out@.map_values(|s: &str| s@) =~= prev + Seq::<Seq<char>>::empty());
        }
        i = i + 1;
    }
    assert(us.take(cu@.len() as int) =~= us);
    out
}

} // verus!
