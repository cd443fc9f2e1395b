//! Token-level tests on the residual paragraphs left after a stamp is peeled
//! off two documents: which paragraphs open with "this", which significant
//! tokens the two sides share beyond demo boilerplate, and the document
//! families read off their titles.

use vstd::prelude::*;

use super::atoms::{atoms_model, model_atoms, units_model, AtomModel, ComparisonUnit, UnitModel};
use super::lcs::{as_group, atom_is_ppr, is_ppr};
use super::moves::strings_view;
use super::para_text::{
    alnum_mask, contentful_group, eq_ignore_ascii_case, first_contentful_from,
    first_contentful_group_index, last_sig, last_significant_token, lemma_first_contentful_from,
    joined, joined_lower, mentions, opens_with, para_text_token_list, para_tokens, same_word, t_text, tokens_of, unit_t_text,
    split_tokens, trimmed_char_count, trimmed_len,
};
use super::ComparisonUnitGroupType;
use crate::namespaces::w_name;
use crate::text::{
    ascii_lower_char, is_alphanumeric_char, lower_seq, occurs_at, skip_white, skip_whitespace,
    string_from_chars, unicode_alphanumeric,
};
use crate::xml::{has_name, value_of, Dom, NodeView};

verus! {

// ── token lists and sets ────────────────────────────────────────────────────

/// The tokens of each unit, laid end to end.
pub open spec fn units_tokens(d: Seq<NodeView>, us: Seq<UnitModel>) -> Seq<Seq<char>>
    decreases us.len(),
{
    if us.len() == 0 {
        seq![]
    } else {
        units_tokens(d, us.drop_last()) + para_tokens(d, us.last())
    }
}

/// `ts` without repeats, each token kept at its first place.
pub open spec fn distinct(ts: Seq<Seq<char>>) -> Seq<Seq<char>>
    decreases ts.len(),
{
    if ts.len() == 0 {
        seq![]
    } else {
        let p = distinct(ts.drop_last());
        if p.contains(ts.last()) {
            p
        } else {
            p.push(ts.last())
        }
    }
}

/// Whether `v` holds `t`.
fn holds(v: &Vec<String>, t: &str) -> (r: bool)
    ensures
        r == strings_view(v@).contains(t@),
{
    let mut k: usize = 0;
    while k < v.len()
        invariant
            k <= v@.len(),
            forall|j: int| 0 <= j < k ==> v@[j]@ != t@,
        decreases v@.len() - k,
    {
        if crate::text::str_eq(v[k].as_str(), t) {
            assert(strings_view(v@)[k as int] == t@);
            return true;
        }
        k = k + 1;
    }
    assert forall|j: int| 0 <= j < strings_view(v@).len() implies strings_view(v@)[j] != t@ by {
        assert(strings_view(v@)[j] == v@[j]@);
    }
    false
}

/// `ts` without repeats, each token kept at its first place.
pub fn distinct_tokens(ts: &Vec<String>) -> (r: Vec<String>)
    ensures
        strings_view(r@) == distinct(strings_view(ts@)),
{
    let ghost sv = strings_view(ts@);
    let mut out: Vec<String> = Vec::new();
    let mut i: usize = 0;
    assert(sv.take(0) =~= Seq::<Seq<char>>::empty());
    assert(strings_view(out@) =~= Seq::<Seq<char>>::empty());
    while i < ts.len()
        invariant
            sv == strings_view(ts@),
            i <= ts@.len(),
            strings_view(out@) == distinct(sv.take(i as int)),
        decreases ts@.len() - i,
    {
        assert(sv.take(i + 1).drop_last() =~= sv.take(i as int));
        assert(sv.take(i + 1).last() == ts@[i as int]@);
        if !holds(&out, ts[i].as_str()) {
            let ghost ov = strings_view(out@);
            let c = ts[i].clone();
            out.push(c);
            assert(strings_view(out@) =~= ov.push(c@));
        }
        i = i + 1;
    }
    assert(sv.take(ts@.len() as int) =~= sv);
    out
}

/// The tokens of each unit, laid end to end.
fn tokens_of_units(dom: &Dom, us: &[ComparisonUnit]) -> (r: Vec<String>)
    requires
        dom.wf(),
    ensures
        strings_view(r@) == units_tokens(dom@, units_model(us@)),
{
    let ghost m = units_model(us@);
    let mut out: Vec<String> = Vec::new();
    let mut i: usize = 0;
    assert(m.take(0) =~= Seq::<UnitModel>::empty());
    assert(strings_view(out@) =~= Seq::<Seq<char>>::empty());
    while i < us.len()
        invariant
            dom.wf(),
            m == units_model(us@),
            i <= us@.len(),
            strings_view(out@) == units_tokens(dom@, m.take(i as int)),
        decreases us@.len() - i,
    {
        assert(m.take(i + 1).drop_last() =~= m.take(i as int));
        assert(m.take(i + 1).last() == us@[i as int]@);
        let mut toks = para_text_token_list(dom, &us[i]);
        let ghost ov = strings_view(out@);
        let ghost tv = strings_view(toks@);
        out.append(&mut toks);
        assert(strings_view(out@) =~= ov + tv);
        i = i + 1;
    }
    assert(m.take(us@.len() as int) =~= m);
    out
}

/// The tokens at least four characters long.
pub open spec fn sig_tokens(ts: Seq<Seq<char>>) -> Seq<Seq<char>>
    decreases ts.len(),
{
    if ts.len() == 0 {
        seq![]
    } else {
        sig_tokens(ts.drop_last()) + if ts.last().len() >= 4 {
            seq![ts.last()]
        } else {
            seq![]
        }
    }
}

/// The tokens at least four characters long, in order.
pub fn significant_tokens(tokens: &Vec<String>) -> (r: Vec<String>)
    ensures
        strings_view(r@) == sig_tokens(strings_view(tokens@)),
{
    let ghost sv = strings_view(tokens@);
    let mut out: Vec<String> = Vec::new();
    let mut i: usize = 0;
    assert(sv.take(0) =~= Seq::<Seq<char>>::empty());
    assert(strings_view(out@) =~= Seq::<Seq<char>>::empty());
    while i < tokens.len()
        invariant
            sv == strings_view(tokens@),
            i <= tokens@.len(),
            strings_view(out@) == sig_tokens(sv.take(i as int)),
        decreases tokens@.len() - i,
    {
        assert(sv.take(i + 1).drop_last() =~= sv.take(i as int));
        assert(sv.take(i + 1).last() == tokens@[i as int]@);
        let ghost ov = strings_view(out@);
        if tokens[i].unicode_len() >= 4 {
            let c = tokens[i].clone();
            out.push(c);
            assert(strings_view(out@) =~= ov.push(c@));
        } else {
            assert(strings_view(out@) =~= ov + Seq::<Seq<char>>::empty());
        }
        i = i + 1;
    }
    assert(sv.take(tokens@.len() as int) =~= sv);
    out
}

/// Demo boilerplate: tokens too common across demo documents to tie two
/// documents together.
pub open spec fn boilerplate(t: Seq<char>) -> bool {
    same_word(t, "this"@) || same_word(t, "that"@) || same_word(t, "with"@) || same_word(t, "from"@)
        || same_word(t, "have"@) || same_word(t, "been"@) || same_word(t, "will"@) || same_word(
        t,
        "used"@,
    ) || same_word(t, "text"@) || same_word(t, "both"@) || same_word(t, "document"@) || same_word(
        t,
        "documents"@,
    ) || same_word(t, "demonstrates"@) || same_word(t, "demonstrate"@) || same_word(t, "showing"@)
        || same_word(t, "shows"@) || same_word(t, "style"@) || same_word(t, "styles"@) || same_word(
        t,
        "formatting"@,
    ) || same_word(t, "format"@) || same_word(t, "demo"@) || same_word(t, "demos"@) || same_word(
        t,
        "bold"@,
    ) || same_word(t, "italic"@) || same_word(t, "underline"@) || same_word(t, "color"@)
        || same_word(t, "font"@) || same_word(t, "size"@) || same_word(t, "line"@) || same_word(
        t,
        "spacing"@,
    )
}

/// Whether `t` is demo boilerplate.
fn is_boilerplate(t: &str) -> (r: bool)
    ensures
        r == boilerplate(t@),
{
    eq_ignore_ascii_case(t, "this") || eq_ignore_ascii_case(t, "that") || eq_ignore_ascii_case(
        t,
        "with",
    ) || eq_ignore_ascii_case(t, "from") || eq_ignore_ascii_case(t, "have")
        || eq_ignore_ascii_case(t, "been") || eq_ignore_ascii_case(t, "will")
        || eq_ignore_ascii_case(t, "used") || eq_ignore_ascii_case(t, "text")
        || eq_ignore_ascii_case(t, "both") || eq_ignore_ascii_case(t, "document")
        || eq_ignore_ascii_case(t, "documents") || eq_ignore_ascii_case(t, "demonstrates")
        || eq_ignore_ascii_case(t, "demonstrate") || eq_ignore_ascii_case(t, "showing")
        || eq_ignore_ascii_case(t, "shows") || eq_ignore_ascii_case(t, "style")
        || eq_ignore_ascii_case(t, "styles") || eq_ignore_ascii_case(t, "formatting")
        || eq_ignore_ascii_case(t, "format") || eq_ignore_ascii_case(t, "demo")
        || eq_ignore_ascii_case(t, "demos") || eq_ignore_ascii_case(t, "bold")
        || eq_ignore_ascii_case(t, "italic") || eq_ignore_ascii_case(t, "underline")
        || eq_ignore_ascii_case(t, "color") || eq_ignore_ascii_case(t, "font")
        || eq_ignore_ascii_case(t, "size") || eq_ignore_ascii_case(t, "line")
        || eq_ignore_ascii_case(t, "spacing")
}

/// The number of distinct significant tokens of `left` that also occur in
/// `right` and are not boilerplate.
pub open spec fn shared_content_count(left: Seq<Seq<char>>, right: Seq<Seq<char>>) -> nat
    decreases left.len(),
{
    if left.len() == 0 {
        0
    } else {
        shared_content_count(left.drop_last(), right) + if left.last().len() >= 4 && right.contains(
            left.last(),
        ) && !boilerplate(left.last()) {
            1nat
        } else {
            0nat
        }
    }
}

/// The number of distinct significant tokens of `left` also in `right` that
/// are not boilerplate.
fn count_shared_content(left: &Vec<String>, right: &Vec<String>) -> (r: usize)
    ensures
        r == shared_content_count(strings_view(left@), strings_view(right@)),
{
    let ghost lv = strings_view(left@);
    let mut n: usize = 0;
    let mut i: usize = 0;
    assert(lv.take(0) =~= Seq::<Seq<char>>::empty());
    while i < left.len()
        invariant
            lv == strings_view(left@),
            i <= left@.len(),
            n <= i,
            n == shared_content_count(lv.take(i as int), strings_view(right@)),
        decreases left@.len() - i,
    {
        assert(lv.take(i + 1).drop_last() =~= lv.take(i as int));
        assert(lv.take(i + 1).last() == left@[i as int]@);
        let t = left[i].as_str();
        if t.unicode_len() >= 4 && holds(right, t) && !is_boilerplate(t) {
            n = n + 1;
        }
        i = i + 1;
    }
    assert(lv.take(left@.len() as int) =~= lv);
    n
}

// ── residual paragraphs ─────────────────────────────────────────────────────

/// The last significant token of the title is "demo".
pub fn residual_title_ends_demo(dom: &Dom, title: &ComparisonUnit) -> (r: bool)
    requires
        dom.wf(),
    ensures
        r == (last_sig(para_tokens(dom@, title@)) matches Some(t) && same_word(t, "demo"@)),
{
    let toks = para_text_token_list(dom, title);
    match last_significant_token(&toks) {
        Some(t) => eq_ignore_ascii_case(t, "demo"),
        None => false,
    }
}

/// The paragraph opens with "this".
pub fn residual_para_starts_this(dom: &Dom, u: &ComparisonUnit) -> (r: bool)
    requires
        dom.wf(),
    ensures
        r == opens_with(para_tokens(dom@, u@), "this"@),
{
    let toks = para_text_token_list(dom, u);
    if toks.len() > 0 {
        assert(strings_view(toks@)[0] == toks@[0]@);
        eq_ignore_ascii_case(toks[0].as_str(), "this")
    } else {
        false
    }
}

/// The paragraph after the title opens with "this".
pub fn residual_first_body_starts_this(dom: &Dom, rest: &[ComparisonUnit]) -> (r: bool)
    requires
        dom.wf(),
    ensures
        r == (rest@.len() >= 2 && opens_with(para_tokens(dom@, rest@[1]@), "this"@)),
{
    rest.len() >= 2 && residual_para_starts_this(dom, &rest[1])
}

/// The index of the first paragraph after the title that opens with "this".
pub open spec fn first_this_from(d: Seq<NodeView>, us: Seq<UnitModel>, k: int) -> Option<int>
    decreases us.len() - k,
{
    if k < 0 || k >= us.len() {
        None
    } else if opens_with(para_tokens(d, us[k]), "this"@) {
        Some(k)
    } else {
        first_this_from(d, us, k + 1)
    }
}

/// The index of the first paragraph after the title that opens with "this".
pub fn residual_first_this_body_index(dom: &Dom, rest: &[ComparisonUnit]) -> (r: Option<usize>)
    requires
        dom.wf(),
    ensures
        match r {
            Some(i) => first_this_from(dom@, units_model(rest@), 1) == Some(i as int),
            None => first_this_from(dom@, units_model(rest@), 1) is None,
        },
{
    let ghost m = units_model(rest@);
    let mut i: usize = 1;
    while i < rest.len()
        invariant
            dom.wf(),
            m == units_model(rest@),
            1 <= i,
            first_this_from(dom@, m, 1) == first_this_from(dom@, m, i as int),
        decreases rest@.len() - i,
    {
        assert(m[i as int] == rest@[i as int]@);
        if residual_para_starts_this(dom, &rest[i]) {
            return Some(i);
        }
        i = i + 1;
    }
    None
}

/// A paragraph opening with "this" comes after the title, with at least one
/// paragraph between them, the first of which does not open with "this".
pub fn residual_has_this_body_after_non_this(dom: &Dom, rest: &[ComparisonUnit]) -> (r: bool)
    requires
        dom.wf(),
    ensures
        r == (first_this_from(dom@, units_model(rest@), 1) matches Some(i) && i >= 2 && !opens_with(
            para_tokens(dom@, rest@[1]@),
            "this"@,
        )),
{
    match residual_first_this_body_index(dom, rest) {
        Some(i) => i >= 2 && !residual_para_starts_this(dom, &rest[1]),
        None => false,
    }
}

/// The number of distinct significant tokens, not boilerplate, that the two
/// residual sets share.
pub open spec fn residual_shared(d: Seq<NodeView>, a: Seq<UnitModel>, b: Seq<UnitModel>) -> nat {
    shared_content_count(distinct(units_tokens(d, a)), units_tokens(d, b))
}

/// The number of distinct significant tokens, not boilerplate, that the two
/// residual sets share.
pub fn residual_shared_sig_count(dom: &Dom, rest1: &[ComparisonUnit], rest2: &[ComparisonUnit]) -> (r:
    usize)
    requires
        dom.wf(),
    ensures
        r == residual_shared(dom@, units_model(rest1@), units_model(rest2@)),
{
    let left = distinct_tokens(&tokens_of_units(dom, rest1));
    let right = tokens_of_units(dom, rest2);
    count_shared_content(&left, &right)
}

/// The residual sets share a significant token that is not boilerplate.
pub fn residual_sets_share_content_sig(dom: &Dom, rest1: &[ComparisonUnit], rest2: &[ComparisonUnit]) -> (r:
    bool)
    requires
        dom.wf(),
    ensures
        r == (residual_shared(dom@, units_model(rest1@), units_model(rest2@)) >= 1),
{
    residual_shared_sig_count(dom, rest1, rest2) >= 1
}

/// The units whose `w:t` text holds a `:`.
pub open spec fn colon_count(d: Seq<NodeView>, us: Seq<UnitModel>) -> nat
    decreases us.len(),
{
    if us.len() == 0 {
        0
    } else {
        colon_count(d, us.drop_last()) + if t_text(d, model_atoms(us.last())).contains(':') {
            1nat
        } else {
            0nat
        }
    }
}

/// At least half of the residual paragraphs hold a `:`.
pub fn residual_looks_like_colon_list(dom: &Dom, rest: &[ComparisonUnit]) -> (r: bool)
    requires
        dom.wf(),
    ensures
        r == (rest@.len() > 0 && 2 * colon_count(dom@, units_model(rest@)) >= rest@.len()),
{
    let ghost m = units_model(rest@);
    if rest.len() == 0 {
        return false;
    }
    let mut n: usize = 0;
    let mut i: usize = 0;
    assert(m.take(0) =~= Seq::<UnitModel>::empty());
    while i < rest.len()
        invariant
            dom.wf(),
            m == units_model(rest@),
            i <= rest@.len(),
            n <= i,
            n == colon_count(dom@, m.take(i as int)),
        decreases rest@.len() - i,
    {
        assert(m.take(i + 1).drop_last() =~= m.take(i as int));
        assert(m.take(i + 1).last() == rest@[i as int]@);
        let text = unit_t_text(dom, &rest[i]);
        let mut k: usize = 0;
        let mut found = false;
        while k < text.len()
            invariant
                k <= text@.len(),
                found == exists|j: int| 0 <= j < k && text@[j] == ':',
            decreases text@.len() - k,
        {
            if text[k] == ':' {
                found = true;
            }
            k = k + 1;
        }
        assert(found == text@.contains(':'));
        if found {
            n = n + 1;
        }
        i = i + 1;
    }
    assert(m.take(rest@.len() as int) =~= m);
    n >= rest.len() - n
}

/// The two token lists end in the same significant token, ignoring ASCII
/// case.
pub open spec fn share_last_sig(a: Seq<Seq<char>>, b: Seq<Seq<char>>) -> bool {
    match (last_sig(a), last_sig(b)) {
        (Some(x), Some(y)) => same_word(x, y),
        _ => false,
    }
}

/// The first paragraphs of the two sides end in the same significant token.
pub fn first_paras_share_last_sig(dom: &Dom, cul1: &[ComparisonUnit], cul2: &[ComparisonUnit]) -> (r:
    bool)
    requires
        dom.wf(),
    ensures
        r == (cul1@.len() > 0 && cul2@.len() > 0 && share_last_sig(
            para_tokens(dom@, cul1@[0]@),
            para_tokens(dom@, cul2@[0]@),
        )),
{
    if cul1.len() == 0 || cul2.len() == 0 {
        return false;
    }
    let la = para_text_token_list(dom, &cul1[0]);
    let lb = para_text_token_list(dom, &cul2[0]);
    match (last_significant_token(&la), last_significant_token(&lb)) {
        (Some(x), Some(y)) => eq_ignore_ascii_case(x, y),
        _ => false,
    }
}

/// Some unit is a table group.
pub open spec fn has_table(us: Seq<UnitModel>) -> bool {
    exists|i: int|
        0 <= i < us.len() && (#[trigger] us[i] matches UnitModel::Group { group_type, .. }
            && group_type == ComparisonUnitGroupType::Table)
}

/// Some unit is a table group.
pub fn has_table_units(cu: &[ComparisonUnit]) -> (r: bool)
    ensures
        r == has_table(units_model(cu@)),
{
    let ghost m = units_model(cu@);
    let mut i: usize = 0;
    while i < cu.len()
        invariant
            m == units_model(cu@),
            i <= cu@.len(),
            forall|j: int|
                0 <= j < i ==> !(#[trigger] m[j] matches UnitModel::Group { group_type, .. }
                    && group_type == ComparisonUnitGroupType::Table),
        decreases cu@.len() - i,
    {
        assert(m[i as int] == cu@[i as int]@);
        match as_group(&cu[i]) {
            Some(g) => {
                if g.group_type == ComparisonUnitGroupType::Table {
                    return true;
                }
            },
            None => {},
        }
        i = i + 1;
    }
    false
}

/// The first contentful titles of the two sides end in the same significant
/// token, and it names a document family: "document", "tester" or "test".
pub open spec fn titles_share_family(d: Seq<NodeView>, a: Seq<UnitModel>, b: Seq<UnitModel>) -> bool {
    match (first_contentful_from(d, a, 0), first_contentful_from(d, b, 0)) {
        (Some(i1), Some(i2)) => match (last_sig(para_tokens(d, a[i1])), last_sig(
            para_tokens(d, b[i2]),
        )) {
            (Some(x), Some(y)) => same_word(x, y) && x.len() >= 4 && (lower_seq(x) == "document"@
                || lower_seq(x) == "tester"@ || lower_seq(x) == "test"@),
            _ => false,
        },
        _ => false,
    }
}

/// The first contentful titles of the two sides end in the same significant
/// token, and it names a document family: "document", "tester" or "test".
pub fn titles_share_last_sig(dom: &Dom, cu1: &[ComparisonUnit], cu2: &[ComparisonUnit]) -> (r: bool)
    requires
        dom.wf(),
    ensures
        r == titles_share_family(dom@, units_model(cu1@), units_model(cu2@)),
{
    proof {
        lemma_first_contentful_from(dom@, units_model(cu1@), 0);
        lemma_first_contentful_from(dom@, units_model(cu2@), 0);
    }
    let i1 = match first_contentful_group_index(dom, cu1) {
        Some(i) => i,
        None => {
            return false;
        },
    };
    let i2 = match first_contentful_group_index(dom, cu2) {
        Some(i) => i,
        None => {
            return false;
        },
    };
    assert(units_model(cu1@)[i1 as int] == cu1@[i1 as int]@);
    assert(units_model(cu2@)[i2 as int] == cu2@[i2 as int]@);
    let a0 = para_text_token_list(dom, &cu1[i1]);
    let b0 = para_text_token_list(dom, &cu2[i2]);
    match (last_significant_token(&a0), last_significant_token(&b0)) {
        (Some(x), Some(y)) => {
            if eq_ignore_ascii_case(x, y) && x.unicode_len() >= 4 {
                let xl = lowered(x);
                lowered_is(&xl, "document") || lowered_is(&xl, "tester") || lowered_is(&xl, "test")
            } else {
                false
            }
        },
        _ => false,
    }
}

/// `s` with its ASCII capitals made lower case.
fn lowered(s: &str) -> (r: Vec<char>)
    ensures
        r@ == lower_seq(s@),
{
    let cs = crate::text::chars_of(s);
    let mut out: Vec<char> = Vec::new();
    let mut k: usize = 0;
    while k < cs.len()
        invariant
            cs@ == s@,
            k <= cs@.len(),
            out@ == lower_seq(cs@.take(k as int)),
        decreases cs@.len() - k,
    {
        out.push(ascii_lower_char(cs[k]));
        assert(lower_seq(cs@.take(k + 1)) =~= lower_seq(cs@.take(k as int)).push(
            crate::text::ascii_lower(cs@[k as int]),
        ));
        k = k + 1;
    }
    assert(cs@.take(cs@.len() as int) =~= cs@);
    out
}

/// Whether the characters are exactly `w`.
fn lowered_is(cs: &Vec<char>, w: &str) -> (r: bool)
    ensures
        r == (cs@ == w@),
{
    let ws = crate::text::chars_of(w);
    crate::text::chars_eq(cs.as_slice(), ws.as_slice())
}

// ── token sets of whole units ───────────────────────────────────────────────

/// The `w:t` text of `us`, each unit's followed by a space.
pub open spec fn units_text(d: Seq<NodeView>, us: Seq<UnitModel>) -> Seq<char>
    decreases us.len(),
{
    if us.len() == 0 {
        seq![]
    } else {
        units_text(d, us.drop_last()) + t_text(d, model_atoms(us.last())) + seq![' ']
    }
}

/// The distinct lower-cased alphanumeric tokens of the units' text.
pub open spec fn units_token_set(d: Seq<NodeView>, us: Seq<UnitModel>) -> Seq<Seq<char>> {
    let t = units_text(d, us);
    distinct(tokens_of(t, alnum_mask(t)))
}

/// The distinct tokens of the text of `us[lo..]`.
fn token_set_from(dom: &Dom, us: &[ComparisonUnit], lo: usize) -> (r: Vec<String>)
    requires
        dom.wf(),
        lo <= us@.len(),
    ensures
        strings_view(r@) == units_token_set(dom@, units_model(us@).skip(lo as int)),
{
    let ghost m = units_model(us@).skip(lo as int);
    let mut text: Vec<char> = Vec::new();
    let mut i: usize = lo;
    assert(m.take(0) =~= Seq::<UnitModel>::empty());
    while i < us.len()
        invariant
            dom.wf(),
            lo <= i <= us@.len(),
            m == units_model(us@).skip(lo as int),
            text@ == units_text(dom@, m.take(i - lo)),
        decreases us@.len() - i,
    {
        assert(m.take(i + 1 - lo).drop_last() =~= m.take(i - lo));
        assert(m.take(i + 1 - lo).last() == us@[i as int]@);
        let mut t = unit_t_text(dom, &us[i]);
        let ghost before = text@;
        let ghost tv = t@;
        text.append(&mut t);
        text.push(' ');
        assert(text@ =~= before + tv + seq![' ']);
        i = i + 1;
    }
    assert(m.take(us@.len() - lo) =~= m);
    let mut flags: Vec<bool> = Vec::new();
    let mut k: usize = 0;
    while k < text.len()
        invariant
            k <= text@.len(),
            flags@ == alnum_mask(text@).take(k as int),
        decreases text@.len() - k,
    {
        flags.push(is_alphanumeric_char(text[k]));
        assert(alnum_mask(text@).take(k + 1) =~= alnum_mask(text@).take(k as int).push(
            unicode_alphanumeric(text@[k as int]),
        ));
        k = k + 1;
    }
    assert(alnum_mask(text@).take(text@.len() as int) =~= alnum_mask(text@));
    let toks = split_tokens(&text, &flags);
    distinct_tokens(&toks)
}

/// The distinct lower-cased alphanumeric tokens of the units' text.
pub fn para_text_tokens_from_units(dom: &Dom, units: &[ComparisonUnit]) -> (r: Vec<String>)
    requires
        dom.wf(),
    ensures
        strings_view(r@) == units_token_set(dom@, units_model(units@)),
{
    assert(units_model(units@).skip(0) =~= units_model(units@));
    token_set_from(dom, units, 0)
}

/// The distinct lower-cased alphanumeric tokens of the unit's text.
pub fn para_text_tokens(dom: &Dom, u: &ComparisonUnit) -> (r: Vec<String>)
    requires
        dom.wf(),
    ensures
        strings_view(r@) == units_token_set(dom@, seq![u@]),
{
    let t = unit_t_text(dom, u);
    let mut text = t;
    text.push(' ');
    let ghost one: Seq<UnitModel> = seq![u@];
    assert(one.drop_last() =~= Seq::<UnitModel>::empty());
    assert(one.last() == u@);
    assert(units_text(dom@, one.drop_last()) =~= Seq::<char>::empty());
    assert(text@ =~= units_text(dom@, one));
    let mut flags: Vec<bool> = Vec::new();
    let mut k: usize = 0;
    while k < text.len()
        invariant
            k <= text@.len(),
            flags@ == alnum_mask(text@).take(k as int),
        decreases text@.len() - k,
    {
        flags.push(is_alphanumeric_char(text[k]));
        assert(alnum_mask(text@).take(k + 1) =~= alnum_mask(text@).take(k as int).push(
            unicode_alphanumeric(text@[k as int]),
        ));
        k = k + 1;
    }
    assert(alnum_mask(text@).take(text@.len() as int) =~= alnum_mask(text@));
    let toks = split_tokens(&text, &flags);
    distinct_tokens(&toks)
}

/// The distinct tokens of the unit's whole `w:t` text.
pub fn para_text_tokens_joined(dom: &Dom, u: &ComparisonUnit) -> (r: Vec<String>)
    requires
        dom.wf(),
    ensures
        strings_view(r@) == distinct(para_tokens(dom@, u@)),
{
    distinct_tokens(&para_text_token_list(dom, u))
}

/// Body tokens: at least three characters, and not a file-name stamp
/// fragment (`file_…`, `docx`, `doc`).
pub open spec fn body_token(t: Seq<char>) -> bool {
    t.len() >= 3 && !occurs_at(t, "file_"@, 0) && t != "docx"@ && t != "doc"@
}

/// The body tokens of `ts`, in order.
pub open spec fn body_tokens(ts: Seq<Seq<char>>) -> Seq<Seq<char>>
    decreases ts.len(),
{
    if ts.len() == 0 {
        seq![]
    } else {
        body_tokens(ts.drop_last()) + if body_token(ts.last()) {
            seq![ts.last()]
        } else {
            seq![]
        }
    }
}

/// The distinct body tokens of the units' text: at least three characters,
/// not file-name stamp fragments.
pub fn significant_body_tokens(dom: &Dom, cu: &[ComparisonUnit]) -> (r: Vec<String>)
    requires
        dom.wf(),
    ensures
        strings_view(r@) == body_tokens(units_token_set(dom@, units_model(cu@))),
{
    let all = para_text_tokens_from_units(dom, cu);
    let ghost sv = strings_view(all@);
    let stamp = crate::text::chars_of("file_");
    let mut out: Vec<String> = Vec::new();
    let mut i: usize = 0;
    assert(sv.take(0) =~= Seq::<Seq<char>>::empty());
    assert(strings_view(out@) =~= Seq::<Seq<char>>::empty());
    while i < all.len()
        invariant
            sv == strings_view(all@),
            stamp@ == "file_"@,
            i <= all@.len(),
            strings_view(out@) == body_tokens(sv.take(i as int)),
        decreases all@.len() - i,
    {
        assert(sv.take(i + 1).drop_last() =~= sv.take(i as int));
        assert(sv.take(i + 1).last() == all@[i as int]@);
        let t = all[i].as_str();
        let cs = crate::text::chars_of(t);
        let keep = cs.len() >= 3 && !crate::text::matches_at(&cs, &stamp, 0) && !crate::text::str_eq(
            t,
            "docx",
        ) && !crate::text::str_eq(t, "doc");
        let ghost ov = strings_view(out@);
        if keep {
            let c = all[i].clone();
            out.push(c);
            assert(strings_view(out@) =~= ov.push(c@));
        } else {
            assert(strings_view(out@) =~= ov + Seq::<Seq<char>>::empty());
        }
        i = i + 1;
    }
    assert(sv.take(all@.len() as int) =~= sv);
    out
}

/// Both sides have a body after their first paragraph, and the bodies share
/// no significant token beyond boilerplate.
pub fn body_residual_unrelated(dom: &Dom, cul1: &[ComparisonUnit], cul2: &[ComparisonUnit]) -> (r:
    bool)
    requires
        dom.wf(),
    ensures
        r == (cul1@.len() >= 2 && cul2@.len() >= 2 && shared_content_count(
            units_token_set(dom@, units_model(cul1@).skip(1)),
            units_token_set(dom@, units_model(cul2@).skip(1)),
        ) == 0),
{
    if cul1.len() < 2 || cul2.len() < 2 {
        return false;
    }
    let left = token_set_from(dom, cul1, 1);
    let right = token_set_from(dom, cul2, 1);
    count_shared_content(&left, &right) == 0
}

/// The connector tokens peeled as equal across titles.
pub open spec fn connector(t: Seq<char>) -> bool {
    same_word(t, "and"@) || same_word(t, "or"@) || same_word(t, "the"@) || same_word(t, "for"@)
        || same_word(t, "with"@) || same_word(t, "to"@)
}

/// Some token of `ts` is `t`, ignoring ASCII case.
pub open spec fn has_word(ts: Seq<Seq<char>>, t: Seq<char>) -> bool {
    exists|j: int| 0 <= j < ts.len() && #[trigger] same_word(ts[j], t)
}

/// The tokens of `left` of three characters that are connectors and occur in
/// `right`, ignoring ASCII case.
pub open spec fn connector_count(left: Seq<Seq<char>>, right: Seq<Seq<char>>) -> nat
    decreases left.len(),
{
    if left.len() == 0 {
        0
    } else {
        connector_count(left.drop_last(), right) + if left.last().len() == 3 && connector(
            left.last(),
        ) && has_word(right, left.last()) {
            1nat
        } else {
            0nat
        }
    }
}

/// The number of three-letter connector tokens of `left` that `right` also
/// holds, ignoring ASCII case.
pub fn shared_connector_tokens(left: &Vec<String>, right: &Vec<String>) -> (r: usize)
    ensures
        r == connector_count(strings_view(left@), strings_view(right@)),
{
    let ghost lv = strings_view(left@);
    let ghost rv = strings_view(right@);
    let mut n: usize = 0;
    let mut i: usize = 0;
    assert(lv.take(0) =~= Seq::<Seq<char>>::empty());
    while i < left.len()
        invariant
            lv == strings_view(left@),
            rv == strings_view(right@),
            i <= left@.len(),
            n <= i,
            n == connector_count(lv.take(i as int), rv),
        decreases left@.len() - i,
    {
        assert(lv.take(i + 1).drop_last() =~= lv.take(i as int));
        assert(lv.take(i + 1).last() == left@[i as int]@);
        let t = left[i].as_str();
        let conn = t.unicode_len() == 3 && (eq_ignore_ascii_case(t, "and") || eq_ignore_ascii_case(
            t,
            "or",
        ) || eq_ignore_ascii_case(t, "the") || eq_ignore_ascii_case(t, "for")
            || eq_ignore_ascii_case(t, "with") || eq_ignore_ascii_case(t, "to"));
        if conn {
            let mut found = false;
            let mut k: usize = 0;
            while k < right.len()
                invariant
                    rv == strings_view(right@),
                    k <= right@.len(),
                    found == exists|j: int| 0 <= j < k && #[trigger] same_word(rv[j], t@),
                decreases right@.len() - k,
            {
                assert(rv[k as int] == right@[k as int]@);
                if eq_ignore_ascii_case(right[k].as_str(), t) {
                    assert(same_word(rv[k as int], t@));
                    found = true;
                } else {
                    assert(!same_word(rv[k as int], t@));
                }
                k = k + 1;
            }
            if found {
                n = n + 1;
            }
        }
        i = i + 1;
    }
    assert(lv.take(left@.len() as int) =~= lv);
    n
}

// ── document families ───────────────────────────────────────────────────────

/// Whether `pat` occurs in `s`.
fn mentions_str(s: &Vec<char>, pat: &str) -> (r: bool)
    ensures
        r == mentions(s@, pat@),
{
    let p = crate::text::chars_of(pat);
    crate::text::find(s.as_slice(), p.as_slice(), 0).is_some()
}

/// A property-tester marker: the text mentions OOXML, a tester, or a run
/// property by its markup or its description.
pub open spec fn ooxml_marker(s: Seq<char>) -> bool {
    mentions(s, "ooxml"@) || mentions(s, "tester"@) || mentions(s, "st_onoff"@) || mentions(
        s,
        "w:b"@,
    ) || mentions(s, "w:i"@) || mentions(s, "w:sz"@) || mentions(s, "w:color"@) || mentions(
        s,
        "w:strike"@,
    ) || mentions(s, "w:highlight"@) || mentions(s, "w:rfonts"@) || mentions(s, "rfonts"@)
        || mentions(s, "font size"@) || mentions(s, "half-point"@) || mentions(s, "color sample"@)
}

/// The lower-cased `w:t` text of the first group with text beyond whitespace.
pub open spec fn first_title_text(d: Seq<NodeView>, us: Seq<UnitModel>) -> Option<Seq<char>> {
    match first_contentful_from(d, us, 0) {
        Some(i) => Some(lower_seq(t_text(d, model_atoms(us[i])))),
        None => None,
    }
}

/// The lower-cased `w:t` text of the first group with text beyond whitespace.
fn first_title_lower(dom: &Dom, cu: &[ComparisonUnit]) -> (r: Option<Vec<char>>)
    requires
        dom.wf(),
    ensures
        match r {
            Some(t) => first_title_text(dom@, units_model(cu@)) == Some(t@),
            None => first_title_text(dom@, units_model(cu@)) is None,
        },
{
    proof {
        lemma_first_contentful_from(dom@, units_model(cu@), 0);
    }
    match first_contentful_group_index(dom, cu) {
        Some(i) => {
            assert(units_model(cu@)[i as int] == cu@[i as int]@);
            let t = unit_t_text(dom, &cu[i]);
            let mut out: Vec<char> = Vec::new();
            let mut k: usize = 0;
            while k < t.len()
                invariant
                    k <= t@.len(),
                    out@ == lower_seq(t@.take(k as int)),
                decreases t@.len() - k,
            {
                out.push(ascii_lower_char(t[k]));
                assert(lower_seq(t@.take(k + 1)) =~= lower_seq(t@.take(k as int)).push(
                    crate::text::ascii_lower(t@[k as int]),
                ));
                k = k + 1;
            }
            assert(t@.take(t@.len() as int) =~= t@);
            Some(out)
        },
        None => None,
    }
}

/// A short property-tester document: at most fifty units, the first
/// contentful title carrying a property-tester marker.
pub open spec fn is_ooxml_property_demo(d: Seq<NodeView>, us: Seq<UnitModel>) -> bool {
    us.len() <= 50 && match first_title_text(d, us) {
        Some(t) => ooxml_marker(t),
        None => false,
    }
}

/// A short property-tester document: at most fifty units, the first
/// contentful title carrying a property-tester marker.
pub fn short_ooxml_property_demo(dom: &Dom, cu: &[ComparisonUnit]) -> (r: bool)
    requires
        dom.wf(),
    ensures
        r == is_ooxml_property_demo(dom@, units_model(cu@)),
{
    if cu.len() > 50 {
        return false;
    }
    match first_title_lower(dom, cu) {
        Some(l) => mentions_str(&l, "ooxml") || mentions_str(&l, "tester") || mentions_str(
            &l,
            "st_onoff",
        ) || mentions_str(&l, "w:b") || mentions_str(&l, "w:i") || mentions_str(&l, "w:sz")
            || mentions_str(&l, "w:color") || mentions_str(&l, "w:strike") || mentions_str(
            &l,
            "w:highlight",
        ) || mentions_str(&l, "w:rfonts") || mentions_str(&l, "rfonts") || mentions_str(
            &l,
            "font size",
        ) || mentions_str(&l, "half-point") || mentions_str(&l, "color sample"),
        None => false,
    }
}

/// The number of groups with tokens.
pub open spec fn token_group_count(d: Seq<NodeView>, us: Seq<UnitModel>) -> nat
    decreases us.len(),
{
    if us.len() == 0 {
        0
    } else {
        token_group_count(d, us.drop_last()) + if us.last() is Group && para_tokens(
            d,
            us.last(),
        ).len() > 0 {
            1nat
        } else {
            0nat
        }
    }
}

/// The index of the first group with tokens at or after `k`.
pub open spec fn first_token_group_from(d: Seq<NodeView>, us: Seq<UnitModel>, k: int) -> Option<int>
    decreases us.len() - k,
{
    if k < 0 || k >= us.len() {
        None
    } else if us[k] is Group && para_tokens(d, us[k]).len() > 0 {
        Some(k)
    } else {
        first_token_group_from(d, us, k + 1)
    }
}

/// The number of groups with tokens, and the first of them.
fn token_groups(dom: &Dom, cu: &[ComparisonUnit]) -> (r: (usize, Option<usize>))
    requires
        dom.wf(),
    ensures
        r.0 == token_group_count(dom@, units_model(cu@)),
        match r.1 {
            Some(i) => first_token_group_from(dom@, units_model(cu@), 0) == Some(i as int),
            None => first_token_group_from(dom@, units_model(cu@), 0) is None,
        },
{
    let ghost m = units_model(cu@);
    let mut n: usize = 0;
    let mut first: Option<usize> = None;
    let mut i: usize = 0;
    assert(m.take(0) =~= Seq::<UnitModel>::empty());
    while i < cu.len()
        invariant
            dom.wf(),
            m == units_model(cu@),
            i <= cu@.len(),
            n <= i,
            n == token_group_count(dom@, m.take(i as int)),
            match first {
                Some(f) => first_token_group_from(dom@, m, 0) == Some(f as int),
                None => first_token_group_from(dom@, m, 0) == first_token_group_from(
                    dom@,
                    m,
                    i as int,
                ),
            },
        decreases cu@.len() - i,
    {
        assert(m.take(i + 1).drop_last() =~= m.take(i as int));
        assert(m.take(i + 1).last() == cu@[i as int]@);
        assert(m[i as int] == cu@[i as int]@);
        if as_group(&cu[i]).is_some() && para_text_token_list(dom, &cu[i]).len() > 0 {
            n = n + 1;
            if first.is_none() {
                first = Some(i);
            }
        }
        i = i + 1;
    }
    assert(m.take(cu@.len() as int) =~= m);
    (n, first)
}

/// A short table-title document: it has a table, one to eight groups with
/// tokens, and its first contentful title mentions "table" or "rtl".
pub open spec fn is_short_table_title_demo(d: Seq<NodeView>, us: Seq<UnitModel>) -> bool {
    has_table(us) && 1 <= token_group_count(d, us) <= 8 && match first_title_text(d, us) {
        Some(t) => mentions(t, "table"@) || mentions(t, "rtl"@),
        None => false,
    }
}

/// A short table-title document: it has a table, one to eight groups with
/// tokens, and its first contentful title mentions "table" or "rtl".
pub fn short_table_title_demo(dom: &Dom, cu: &[ComparisonUnit]) -> (r: bool)
    requires
        dom.wf(),
    ensures
        r == is_short_table_title_demo(dom@, units_model(cu@)),
{
    if !has_table_units(cu) {
        return false;
    }
    let (n, _) = token_groups(dom, cu);
    if n == 0 || n > 8 {
        return false;
    }
    match first_title_lower(dom, cu) {
        Some(l) => mentions_str(&l, "table") || mentions_str(&l, "rtl"),
        None => false,
    }
}

/// One side is a short property tester, the other a short table-title
/// document.
pub fn ooxml_x_short_table_demo(dom: &Dom, cu1: &[ComparisonUnit], cu2: &[ComparisonUnit]) -> (r:
    bool)
    requires
        dom.wf(),
    ensures
        r == ((is_ooxml_property_demo(dom@, units_model(cu1@)) && is_short_table_title_demo(
            dom@,
            units_model(cu2@),
        )) || (is_ooxml_property_demo(dom@, units_model(cu2@)) && is_short_table_title_demo(
            dom@,
            units_model(cu1@),
        ))),
{
    (short_ooxml_property_demo(dom, cu1) && short_table_title_demo(dom, cu2)) || (
    short_ooxml_property_demo(dom, cu2) && short_table_title_demo(dom, cu1))
}

/// Short prose: no table, one to four contentful paragraphs counted by the
/// caller, one or two groups with tokens, the first not a demo or tester
/// title.
pub open spec fn is_short_prose(d: Seq<NodeView>, us: Seq<UnitModel>, n: nat) -> bool {
    &&& !has_table(us)
    &&& 1 <= n <= 4
    &&& 1 <= token_group_count(d, us) <= 2
    &&& match first_token_group_from(d, us, 0) {
        Some(i) => {
            let title = para_tokens(d, us[i]);
            !(exists|k: int|
                0 <= k < title.len() && (lower_seq(#[trigger] title[k]) == "demo"@ || lower_seq(
                    title[k],
                ) == "tester"@)) && !mentions(joined(title), "demonstrates"@) && !mentions(
                joined(title),
                "document shows"@,
            )
        },
        None => false,
    }
}

/// One side is a short property tester, the other short prose that is not a
/// tester; `n1` and `n2` count the contentful paragraphs of each side.
pub open spec fn is_ooxml_x_short_prose(
    d: Seq<NodeView>,
    a: Seq<UnitModel>,
    b: Seq<UnitModel>,
    n1: nat,
    n2: nat,
) -> bool {
    if is_ooxml_property_demo(d, a) && !is_ooxml_property_demo(d, b) {
        is_short_prose(d, b, n2)
    } else if is_ooxml_property_demo(d, b) && !is_ooxml_property_demo(d, a) {
        is_short_prose(d, a, n1)
    } else {
        false
    }
}

/// Whether the side is short prose.
fn short_prose(dom: &Dom, cu: &[ComparisonUnit], n: usize) -> (r: bool)
    requires
        dom.wf(),
    ensures
        r == is_short_prose(dom@, units_model(cu@), n as nat),
{
    let ghost m = units_model(cu@);
    if has_table_units(cu) || n < 1 || n > 4 {
        return false;
    }
    let (count, first) = token_groups(dom, cu);
    if count < 1 || count > 2 {
        return false;
    }
    proof {
        lemma_first_token_group_from(dom@, m, 0);
    }
    let i = match first {
        Some(i) => i,
        None => {
            return false;
        },
    };
    assert(m[i as int] == cu@[i as int]@);
    let title = para_text_token_list(dom, &cu[i]);
    let ghost tv = strings_view(title@);
    let mut k: usize = 0;
    #[verifier::loop_isolation(false)]
    while k < title.len()
        invariant
            tv == strings_view(title@),
            k <= title@.len(),
            forall|j: int|
                0 <= j < k ==> !(lower_seq(#[trigger] tv[j]) == "demo"@ || lower_seq(tv[j])
                    == "tester"@),
        decreases title@.len() - k,
    {
        assert(tv[k as int] == title@[k as int]@);
        let l = lowered(title[k].as_str());
        if lowered_is(&l, "demo") || lowered_is(&l, "tester") {
            assert(lower_seq(tv[k as int]) == "demo"@ || lower_seq(tv[k as int]) == "tester"@);
            assert(tv == para_tokens(dom@, m[i as int]));
            return false;
        }
        k = k + 1;
    }
    let j = joined_lower(&title);
    !mentions_str(&j, "demonstrates") && !mentions_str(&j, "document shows")
}

/// One side is a short property tester, the other short prose that is not a
/// tester; `n1` and `n2` count the contentful paragraphs of each side.
pub fn ooxml_x_short_prose_demo(
    dom: &Dom,
    cu1: &[ComparisonUnit],
    cu2: &[ComparisonUnit],
    n1: usize,
    n2: usize,
) -> (r: bool)
    requires
        dom.wf(),
    ensures
        r == is_ooxml_x_short_prose(dom@, units_model(cu1@), units_model(cu2@), n1 as nat, n2 as nat),
{
    let a = short_ooxml_property_demo(dom, cu1);
    let b = short_ooxml_property_demo(dom, cu2);
    if a && !b {
        short_prose(dom, cu2, n2)
    } else if b && !a {
        short_prose(dom, cu1, n1)
    } else {
        false
    }
}

/// What `first_token_group_from` finds is a group with tokens.
pub proof fn lemma_first_token_group_from(d: Seq<NodeView>, us: Seq<UnitModel>, k: int)
    ensures
        first_token_group_from(d, us, k) matches Some(i) ==> k <= i < us.len() && us[i] is Group,
    decreases us.len() - k,
{
    if 0 <= k < us.len() && !(us[k] is Group && para_tokens(d, us[k]).len() > 0) {
        lemma_first_token_group_from(d, us, k + 1);
    }
}

// ── lettered sections ───────────────────────────────────────────────────────

/// The number of bytes `c` takes in UTF-8.
pub open spec fn char_utf8_len(c: char) -> nat {
    if (c as u32) < 0x80 {
        1
    } else if (c as u32) < 0x800 {
        2
    } else if (c as u32) < 0x10000 {
        3
    } else {
        4
    }
}

/// The number of bytes `s` takes in UTF-8.
pub open spec fn utf8_len(s: Seq<char>) -> nat
    decreases s.len(),
{
    if s.len() == 0 {
        0
    } else {
        utf8_len(s.drop_last()) + char_utf8_len(s.last())
    }
}

/// Whether `s` takes at least eight bytes in UTF-8.
fn reaches_eight_bytes(s: &Vec<char>) -> (r: bool)
    ensures
        r == (utf8_len(s@) >= 8),
{
    let mut total: usize = 0;
    let mut k: usize = 0;
    assert(s@.take(0) =~= Seq::<char>::empty());
    while k < s.len()
        invariant
            k <= s@.len(),
            total == if utf8_len(s@.take(k as int)) < 8 {
                utf8_len(s@.take(k as int))
            } else {
                8
            },
        decreases s@.len() - k,
    {
        assert(s@.take(k + 1).drop_last() =~= s@.take(k as int));
        let c = s[k];
        let w: usize = if (c as u32) < 0x80 {
            1
        } else if (c as u32) < 0x800 {
            2
        } else if (c as u32) < 0x10000 {
            3
        } else {
            4
        };
        total = if total + w < 8 {
            total + w
        } else {
            8
        };
        k = k + 1;
    }
    assert(s@.take(s@.len() as int) =~= s@);
    total >= 8
}

/// The lead of a paragraph: the `w:t` texts of `atoms[k..]` appended to
/// `acc`, whole, until the text reaches eight bytes.
pub open spec fn lead_text(d: Seq<NodeView>, atoms: Seq<AtomModel>, k: int, acc: Seq<char>) -> Seq<
    char,
>
    decreases atoms.len() - k,
{
    if k < 0 || k >= atoms.len() {
        acc
    } else if has_name(d, atoms[k].content_element.0 as int, w_name("t"@)) {
        let a2 = acc + value_of(d, atoms[k].content_element.0 as int);
        if utf8_len(a2) >= 8 {
            a2
        } else {
            lead_text(d, atoms, k + 1, a2)
        }
    } else {
        lead_text(d, atoms, k + 1, acc)
    }
}

/// The letter of a section label `X)` opening `t` past leading whitespace.
pub open spec fn section_label(t: Seq<char>) -> Option<char> {
    let s = t.skip(skip_white(t, 0));
    if s.len() >= 2 && 'A' <= s[0] <= 'Z' && s[1] == ')' {
        Some(s[0])
    } else {
        None
    }
}

/// The distinct section letters opening the groups with tokens, in order.
pub open spec fn labels_of(d: Seq<NodeView>, us: Seq<UnitModel>) -> Seq<char>
    decreases us.len(),
{
    if us.len() == 0 {
        seq![]
    } else {
        let p = labels_of(d, us.drop_last());
        let u = us.last();
        if u is Group && para_tokens(d, u).len() > 0 {
            match section_label(lead_text(d, model_atoms(u), 0, seq![])) {
                Some(c) => if p.contains(c) {
                    p
                } else {
                    p.push(c)
                },
                None => p,
            }
        } else {
            p
        }
    }
}

/// The lead of the unit's paragraph.
fn unit_lead(dom: &Dom, u: &ComparisonUnit) -> (r: Vec<char>)
    requires
        dom.wf(),
    ensures
        r@ == lead_text(dom@, model_atoms(u@), 0, seq![]),
{
    let atoms = u.descendant_atoms();
    let ghost am = atoms_model(atoms@);
    let t_name = crate::namespaces::W::t();
    let mut lead: Vec<char> = Vec::new();
    let mut k: usize = 0;
    while k < atoms.len()
        invariant
            dom.wf(),
            am == atoms_model(atoms@),
            am == model_atoms(u@),
            t_name@ == w_name("t"@),
            k <= atoms@.len(),
            lead_text(dom@, am, 0, seq![]) == lead_text(dom@, am, k as int, lead@),
        decreases atoms@.len() - k,
    {
        assert(am[k as int] == atoms@[k as int]@);
        if dom.is_named(atoms[k].content_element, &t_name) {
            let v = crate::text::chars_of(dom.value_str(atoms[k].content_element).as_str());
            let ghost before = lead@;
            let mut j: usize = 0;
            while j < v.len()
                invariant
                    j <= v@.len(),
                    lead@ == before + v@.take(j as int),
                decreases v@.len() - j,
            {
                lead.push(v[j]);
                assert(v@.take(j + 1) =~= v@.take(j as int).push(v@[j as int]));
                j = j + 1;
            }
            assert(v@.take(v@.len() as int) =~= v@);
            if reaches_eight_bytes(&lead) {
                return lead;
            }
        }
        k = k + 1;
    }
    lead
}

/// The section letter opening the lead.
fn lead_label(lead: &Vec<char>) -> (r: Option<char>)
    ensures
        r == section_label(lead@),
{
    let a = skip_whitespace(lead.as_slice(), 0);
    let ghost s = lead@.skip(a as int);
    if lead.len() >= 2 && a <= lead.len() - 2 {
        let c = lead[a];
        assert(s[0] == c && s[1] == lead@[a + 1]);
        if 'A' <= c && c <= 'Z' && lead[a + 1] == ')' {
            Some(c)
        } else {
            None
        }
    } else {
        None
    }
}

/// The distinct section letters `A)`, `B)`, … opening the groups with tokens.
pub fn section_letter_labels(dom: &Dom, cu: &[ComparisonUnit]) -> (r: Vec<char>)
    requires
        dom.wf(),
    ensures
        r@ == labels_of(dom@, units_model(cu@)),
{
    let ghost m = units_model(cu@);
    let mut labels: Vec<char> = Vec::new();
    let mut i: usize = 0;
    assert(m.take(0) =~= Seq::<UnitModel>::empty());
    while i < cu.len()
        invariant
            dom.wf(),
            m == units_model(cu@),
            i <= cu@.len(),
            labels@ == labels_of(dom@, m.take(i as int)),
        decreases cu@.len() - i,
    {
        assert(m.take(i + 1).drop_last() =~= m.take(i as int));
        assert(m.take(i + 1).last() == cu@[i as int]@);
        if as_group(&cu[i]).is_some() && para_text_token_list(dom, &cu[i]).len() > 0 {
            let lead = unit_lead(dom, &cu[i]);
            match lead_label(&lead) {
                Some(c) => {
                    let mut seen = false;
                    let mut k: usize = 0;
                    while k < labels.len()
                        invariant
                            k <= labels@.len(),
                            seen == exists|j: int| 0 <= j < k && labels@[j] == c,
                        decreases labels@.len() - k,
                    {
                        if labels[k] == c {
                            seen = true;
                        }
                        k = k + 1;
                    }
                    if !seen {
                        labels.push(c);
                    }
                },
                None => {},
            }
        }
        i = i + 1;
    }
    assert(m.take(cu@.len() as int) =~= m);
    labels
}

/// The letters of `a` that `b` holds too.
pub open spec fn common_count(a: Seq<char>, b: Seq<char>) -> nat
    decreases a.len(),
{
    if a.len() == 0 {
        0
    } else {
        common_count(a.drop_last(), b) + if b.contains(a.last()) {
            1nat
        } else {
            0nat
        }
    }
}

/// Both documents open at least three sections with letters, and share at
/// least three of the letters.
pub fn parallel_sectioned_demos(dom: &Dom, cu1: &[ComparisonUnit], cu2: &[ComparisonUnit]) -> (r:
    bool)
    requires
        dom.wf(),
    ensures
        r == ({
            let l1 = labels_of(dom@, units_model(cu1@));
            let l2 = labels_of(dom@, units_model(cu2@));
            l1.len() >= 3 && l2.len() >= 3 && common_count(l1, l2) >= 3
        }),
{
    let l1 = section_letter_labels(dom, cu1);
    let l2 = section_letter_labels(dom, cu2);
    if l1.len() < 3 || l2.len() < 3 {
        return false;
    }
    let mut n: usize = 0;
    let mut i: usize = 0;
    assert(l1@.take(0) =~= Seq::<char>::empty());
    while i < l1.len()
        invariant
            i <= l1@.len(),
            n <= i,
            n == common_count(l1@.take(i as int), l2@),
        decreases l1@.len() - i,
    {
        assert(l1@.take(i + 1).drop_last() =~= l1@.take(i as int));
        let mut found = false;
        let mut k: usize = 0;
        while k < l2.len()
            invariant
                i < l1@.len(),
                k <= l2@.len(),
                found == exists|j: int| 0 <= j < k && l2@[j] == l1@[i as int],
            decreases l2@.len() - k,
        {
            if l2[k] == l1[i] {
                found = true;
            }
            k = k + 1;
        }
        if found {
            n = n + 1;
        }
        i = i + 1;
    }
    assert(l1@.take(l1@.len() as int) =~= l1@);
    n >= 3
}

// ── duplicated paragraphs ───────────────────────────────────────────────────

/// Every atom, and at least one, is a paragraph mark.
pub open spec fn all_marks(d: Seq<NodeView>, atoms: Seq<AtomModel>) -> bool {
    atoms.len() > 0 && forall|k: int| 0 <= k < atoms.len() ==> #[trigger] is_ppr(d, atoms[k])
}

/// Some atom is a paragraph mark.
pub open spec fn some_mark(d: Seq<NodeView>, atoms: Seq<AtomModel>) -> bool {
    exists|k: int| 0 <= k < atoms.len() && #[trigger] is_ppr(d, atoms[k])
}

/// The paragraph texts built so far and the paragraph holding the unit at
/// the position asked about.
pub struct ParaTexts {
    pub texts: Seq<Seq<char>>,
    pub idx: int,
}

/// One unit into the paragraph texts: a bare paragraph mark closes the
/// current paragraph; a group carrying a mark is a paragraph of its own; any
/// other unit adds its text to the current paragraph.
pub open spec fn para_texts_step(d: Seq<NodeView>, s: ParaTexts, u: UnitModel, at_pos: bool) -> ParaTexts {
    let atoms = model_atoms(u);
    let idx = if at_pos {
        s.texts.len() - 1
    } else {
        s.idx
    };
    if all_marks(d, atoms) {
        ParaTexts { texts: s.texts.push(seq![]), idx }
    } else if u is Group && some_mark(d, atoms) {
        let texts = s.texts.push(t_text(d, atoms)).push(seq![]);
        ParaTexts {
            texts,
            idx: if at_pos {
                texts.len() - 2
            } else {
                idx
            },
        }
    } else {
        ParaTexts {
            texts: s.texts.update(s.texts.len() - 1, s.texts.last() + t_text(d, atoms)),
            idx,
        }
    }
}

/// The paragraph texts of the first `k` units.
pub open spec fn para_texts(d: Seq<NodeView>, us: Seq<UnitModel>, pos: int, k: nat) -> ParaTexts
    decreases k,
{
    if k == 0 || k > us.len() {
        ParaTexts { texts: seq![seq![]], idx: 0 }
    } else {
        para_texts_step(d, para_texts(d, us, pos, (k - 1) as nat), us[k - 1], k - 1 == pos)
    }
}

/// The paragraph holding the unit at `pos` has text beyond whitespace, and
/// another paragraph has exactly the same text.
pub open spec fn paragraph_duplicated(d: Seq<NodeView>, us: Seq<UnitModel>, pos: int) -> bool {
    let s = para_texts(d, us, pos, us.len());
    let target = s.texts[s.idx];
    trimmed_len(target) > 0 && exists|i: int| 0 <= i < s.texts.len() && i != s.idx && #[trigger] s.texts[i] == target
}

proof fn lemma_para_texts(d: Seq<NodeView>, us: Seq<UnitModel>, pos: int, k: nat)
    requires
        k <= us.len(),
    ensures
        para_texts(d, us, pos, k).texts.len() >= 1,
        0 <= para_texts(d, us, pos, k).idx < para_texts(d, us, pos, k).texts.len(),
    decreases k,
{
    if k > 0 {
        lemma_para_texts(d, us, pos, (k - 1) as nat);
    }
}

/// The views of a list of texts.
pub open spec fn texts_view(v: Seq<Vec<char>>) -> Seq<Seq<char>> {
    v.map_values(|t: Vec<char>| t@)
}

/// The paragraph holding the unit at `pos` has text beyond whitespace that
/// another paragraph of the units repeats exactly.
pub fn containing_paragraph_is_duplicated(dom: &Dom, units: &[ComparisonUnit], pos: usize) -> (r:
    bool)
    requires
        dom.wf(),
    ensures
        r == paragraph_duplicated(dom@, units_model(units@), pos as int),
{
    let ghost m = units_model(units@);
    let mut texts: Vec<Vec<char>> = Vec::new();
    texts.push(Vec::new());
    let mut idx: usize = 0;
    let mut i: usize = 0;
    assert(texts_view(texts@) =~= seq![Seq::<char>::empty()]);
    while i < units.len()
        invariant
            dom.wf(),
            m == units_model(units@),
            i <= units@.len(),
            texts@.len() >= 1,
            texts@.len() <= 2 * i + 1,
            texts_view(texts@) == para_texts(dom@, m, pos as int, i as nat).texts,
            idx as int == para_texts(dom@, m, pos as int, i as nat).idx,
        decreases units@.len() - i,
    {
        proof {
            lemma_para_texts(dom@, m, pos as int, i as nat);
        }
        assert(m[i as int] == units@[i as int]@);
        let ghost s = para_texts(dom@, m, pos as int, i as nat);
        let ghost tv = texts_view(texts@);
        if i == pos {
            idx = texts.len() - 1;
        }
        let atoms = units[i].descendant_atoms();
        let ghost am = atoms_model(atoms@);
        let mut all_ppr = atoms.len() > 0;
        let mut any_ppr = false;
        let mut k: usize = 0;
        while k < atoms.len()
            invariant
                am == atoms_model(atoms@),
                k <= atoms@.len(),
                all_ppr == (atoms@.len() > 0 && forall|j: int| 0 <= j < k ==> #[trigger] is_ppr(dom@, am[j])),
                any_ppr == exists|j: int| 0 <= j < k && #[trigger] is_ppr(dom@, am[j]),
            decreases atoms@.len() - k,
        {
            assert(am[k as int] == atoms@[k as int]@);
            if atom_is_ppr(dom, &atoms[k]) {
                any_ppr = true;
            } else {
                all_ppr = false;
            }
            k = k + 1;
        }
        assert(all_ppr == all_marks(dom@, model_atoms(m[i as int])));
        assert(any_ppr == some_mark(dom@, model_atoms(m[i as int])));
        if all_ppr {
            texts.push(Vec::new());
            assert(texts_view(texts@) =~= tv.push(Seq::<char>::empty()));
        } else if as_group(&units[i]).is_some() && any_ppr {
            let t = unit_t_text(dom, &units[i]);
            let ghost t_v = t@;
            texts.push(t);
            texts.push(Vec::new());
            assert(texts_view(texts@) =~= tv.push(t_v).push(Seq::<char>::empty()));
            if i == pos {
                idx = texts.len() - 2;
            }
        } else {
            let t = unit_t_text(dom, &units[i]);
            let mut last = texts.pop().unwrap();
            let ghost lv = last@;
            let mut tt = t;
            last.append(&mut tt);
            texts.push(last);
            assert(texts_view(texts@) =~= tv.update(tv.len() - 1, tv.last() + t_text(
                dom@,
                model_atoms(m[i as int]),
            )));
        }
        i = i + 1;
    }
    proof {
        lemma_para_texts(dom@, m, pos as int, units@.len() as nat);
    }
    let ghost tv = texts_view(texts@);
    assert(tv[idx as int] == texts@[idx as int]@);
    let target = &texts[idx];
    let tstr = string_from_chars(target.as_slice(), 0, target.len());
    assert(target@.subrange(0, target@.len() as int) =~= target@);
    if trimmed_char_count(tstr.as_str()) == 0 {
        return false;
    }
    let mut j: usize = 0;
    #[verifier::loop_isolation(false)]
    while j < texts.len()
        invariant
            tv == texts_view(texts@),
            idx < texts@.len(),
            j <= texts@.len(),
            forall|q: int| 0 <= q < j && q != idx ==> #[trigger] tv[q] != tv[idx as int],
        decreases texts@.len() - j,
    {
        assert(tv[j as int] == texts@[j as int]@);
        if j != idx && crate::text::chars_eq(texts[j].as_slice(), texts[idx].as_slice()) {
            assert(tv[j as int] == tv[idx as int]);
            return true;
        }
        j = j + 1;
    }
    false
}

} // verus!
