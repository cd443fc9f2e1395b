//! Paragraph numbering read off comparison units: whether a unit's paragraph
//! is a list item, its list level, where the first list cluster of a unit
//! sequence ends, and whether a run of paragraphs reads as a list of short
//! items.

use vstd::prelude::*;

use super::atoms::{atoms_model, model_atoms, AtomModel, ComparisonUnit, UnitModel, units_model};
use super::lcs::{as_group, single_ppr, unit_is_single_atom_ppr};
use super::para_text::{para_text_token_list, para_tokens};
use crate::namespaces::{w_name, W};
use crate::text::{
    ascii_lower, ascii_lower_char, chars_eq, chars_of, lower_seq, matches_at, occurs_at, parse_u32,
    parse_u32_str, string_from_chars,
};
use crate::xml::{attribute_of, elements_of, has_name, Dom, NodeId, NodeView, XNameView};

verus! {

/// The first of `ancs` that is a `w:p` element.
pub open spec fn first_para(d: Seq<NodeView>, ancs: Seq<NodeId>) -> Option<usize>
    decreases ancs.len(),
{
    if ancs.len() == 0 {
        None
    } else if has_name(d, ancs[0].0 as int, w_name("p"@)) {
        Some(ancs[0].0)
    } else {
        first_para(d, ancs.drop_first())
    }
}

/// The paragraph of a run of atoms: the first `w:p` ancestor of the first atom
/// that has one.
pub open spec fn atoms_para(d: Seq<NodeView>, atoms: Seq<AtomModel>) -> Option<usize>
    decreases atoms.len(),
{
    if atoms.len() == 0 {
        None
    } else {
        match first_para(d, atoms[0].ancestor_elements) {
            Some(p) => Some(p),
            None => atoms_para(d, atoms.drop_first()),
        }
    }
}

/// The first child element of `n` named `name`.
pub open spec fn child_named(d: Seq<NodeView>, n: int, name: XNameView) -> Option<usize> {
    let es = elements_of(d, n, Some(name));
    if es.len() > 0 {
        Some(es[0])
    } else {
        None
    }
}

/// The `w:pPr/w:numPr` of paragraph `p`, if it has one.
pub open spec fn num_pr_of(d: Seq<NodeView>, p: int) -> Option<usize> {
    match child_named(d, p, w_name("pPr"@)) {
        Some(ppr) => child_named(d, ppr as int, w_name("numPr"@)),
        None => None,
    }
}

/// The unit's paragraph is a list item: its `w:pPr` holds a `w:numPr`.
pub open spec fn para_numbered(d: Seq<NodeView>, u: UnitModel) -> bool {
    match atoms_para(d, model_atoms(u)) {
        Some(p) => num_pr_of(d, p as int) is Some,
        None => false,
    }
}

/// The list level of the unit's paragraph: the `w:val` of `w:numPr/w:ilvl`
/// read as a `u32`, zero when the numbering has no level, nothing when the
/// paragraph is not numbered or the value does not parse.
pub open spec fn para_level(d: Seq<NodeView>, u: UnitModel) -> Option<u32> {
    match atoms_para(d, model_atoms(u)) {
        Some(p) => match num_pr_of(d, p as int) {
            Some(num) => match child_named(d, num as int, w_name("ilvl"@)) {
                Some(il) => match attribute_of(d, il as int, w_name("val"@)) {
                    Some(v) => parse_u32(v),
                    None => None,
                },
                None => Some(0),
            },
            None => None,
        },
        None => None,
    }
}

/// The first `w:p` among `ancs`.
pub fn first_para_of(dom: &Dom, ancs: &Vec<NodeId>) -> (r: Option<NodeId>)
    ensures
        match r {
            Some(p) => first_para(dom@, ancs@) == Some(p.0),
            None => first_para(dom@, ancs@) is None,
        },
{
    let p = W::p();
    let mut k: usize = 0;
    assert(ancs@.skip(0) =~= ancs@);
    while k < ancs.len()
        invariant
            p@ == w_name("p"@),
            k <= ancs@.len(),
            first_para(dom@, ancs@) == first_para(dom@, ancs@.skip(k as int)),
        decreases ancs@.len() - k,
    {
        assert(ancs@.skip(k as int)[0] == ancs@[k as int]);
        assert(ancs@.skip(k as int).drop_first() =~= ancs@.skip(k + 1));
        if dom.is_named(ancs[k], &p) {
            return Some(ancs[k]);
        }
        k = k + 1;
    }
    None
}

/// The unit's paragraph: the first `w:p` ancestor of its first atom that has one.
fn unit_paragraph(u: &ComparisonUnit, dom: &Dom) -> (r: Option<NodeId>)
    ensures
        match r {
            Some(p) => atoms_para(dom@, model_atoms(u@)) == Some(p.0),
            None => atoms_para(dom@, model_atoms(u@)) is None,
        },
{
    let atoms = u.descendant_atoms();
    let ghost am = atoms_model(atoms@);
    let mut j: usize = 0;
    assert(am.skip(0) =~= am);
    while j < atoms.len()
        invariant
            am == atoms_model(atoms@),
            am == model_atoms(u@),
            j <= atoms@.len(),
            atoms_para(dom@, am) == atoms_para(dom@, am.skip(j as int)),
        decreases atoms@.len() - j,
    {
        assert(am.skip(j as int)[0] == atoms@[j as int]@);
        assert(am.skip(j as int).drop_first() =~= am.skip(j + 1));
        match first_para_of(dom, &atoms[j].ancestor_elements) {
            Some(p) => {
                return Some(p);
            },
            None => {},
        }
        j = j + 1;
    }
    None
}

/// The `w:pPr/w:numPr` of paragraph `p`, if it has one.
fn num_pr(dom: &Dom, p: NodeId) -> (r: Option<NodeId>)
    requires
        dom.wf(),
    ensures
        match r {
            Some(n) => num_pr_of(dom@, p.0 as int) == Some(n.0),
            None => num_pr_of(dom@, p.0 as int) is None,
        },
{
    match dom.element(p, &W::p_pr()) {
        Some(ppr) => dom.element(ppr, &W::name("numPr")),
        None => None,
    }
}

/// The unit's paragraph is a list item: its `w:pPr` holds a `w:numPr`.
pub fn unit_para_has_numpr(dom: &Dom, u: &ComparisonUnit) -> (r: bool)
    requires
        dom.wf(),
    ensures
        r == para_numbered(dom@, u@),
{
    match unit_paragraph(u, dom) {
        Some(p) => num_pr(dom, p).is_some(),
        None => false,
    }
}

/// The list level of the unit's paragraph.
pub fn unit_para_ilvl(dom: &Dom, u: &ComparisonUnit) -> (r: Option<u32>)
    requires
        dom.wf(),
    ensures
        r == para_level(dom@, u@),
{
    let p = unit_paragraph(u, dom)?;
    let num = num_pr(dom, p)?;
    match dom.element(num, &W::name("ilvl")) {
        Some(il) => match dom.attribute(il, &W::name("val")) {
            Some(v) => parse_u32_str(v),
            None => None,
        },
        None => Some(0),
    }
}

/// Where the first list cluster of `us` ends, scanning from `i`: past every
/// empty paragraph and list item, up to the first top-level item that follows
/// a nested one (`saw_sub`); `end` is the end so far.
pub open spec fn cluster_end_from(
    d: Seq<NodeView>,
    us: Seq<UnitModel>,
    i: int,
    saw_sub: bool,
    end: int,
) -> int
    decreases us.len() - i,
{
    if i < 0 || i >= us.len() {
        end
    } else if para_tokens(d, us[i]).len() == 0 {
        cluster_end_from(d, us, i + 1, saw_sub, i + 1)
    } else {
        let level = match para_level(d, us[i]) {
            Some(v) => v,
            None => 0,
        };
        if saw_sub && level == 0 {
            end
        } else {
            cluster_end_from(d, us, i + 1, saw_sub || level >= 1, i + 1)
        }
    }
}

/// The exclusive end of the first list cluster: it runs through nested items
/// and stops at the first top-level item after a nested one.
pub fn first_list_cluster_end(dom: &Dom, cul: &[ComparisonUnit]) -> (r: usize)
    requires
        dom.wf(),
    ensures
        r == cluster_end_from(dom@, units_model(cul@), 0, false, 0),
{
    let ghost us = units_model(cul@);
    let mut saw_sub = false;
    let mut end: usize = 0;
    let mut i: usize = 0;
    while i < cul.len()
        invariant
            dom.wf(),
            us == units_model(cul@),
            i <= cul@.len(),
            end <= i,
            cluster_end_from(dom@, us, 0, false, 0) == cluster_end_from(
                dom@,
                us,
                i as int,
                saw_sub,
                end as int,
            ),
        decreases cul@.len() - i,
    {
        assert(us[i as int] == cul@[i as int]@);
        let empty = para_text_token_list(dom, &cul[i]).len() == 0;
        if empty {
            end = i + 1;
        } else {
            let level = match unit_para_ilvl(dom, &cul[i]) {
                Some(v) => v,
                None => 0,
            };
            if saw_sub && level == 0 {
                return end;
            }
            if level >= 1 {
                saw_sub = true;
            }
            end = i + 1;
        }
        i = i + 1;
    }
    end
}

/// The number of units of a paragraph that are not a bare paragraph mark.
pub open spec fn content_units(d: Seq<NodeView>, p: Seq<UnitModel>) -> nat
    decreases p.len(),
{
    if p.len() == 0 {
        0
    } else {
        content_units(d, p.drop_last()) + if single_ppr(d, p.last()) {
            0nat
        } else {
            1nat
        }
    }
}

/// Some unit of the paragraph is a list item.
pub open spec fn para_has_numbering(d: Seq<NodeView>, p: Seq<UnitModel>) -> bool {
    exists|k: int| 0 <= k < p.len() && #[trigger] para_numbered(d, p[k])
}

/// The paragraphs with content, in order.
pub open spec fn content_paras(d: Seq<NodeView>, ps: Seq<Seq<UnitModel>>) -> Seq<Seq<UnitModel>>
    decreases ps.len(),
{
    if ps.len() == 0 {
        seq![]
    } else {
        content_paras(d, ps.drop_last()) + if content_units(d, ps.last()) > 0 {
            seq![ps.last()]
        } else {
            seq![]
        }
    }
}

/// The number of list-item paragraphs among `ps`.
pub open spec fn numbered_count(d: Seq<NodeView>, ps: Seq<Seq<UnitModel>>) -> nat
    decreases ps.len(),
{
    if ps.len() == 0 {
        0
    } else {
        numbered_count(d, ps.drop_last()) + if para_has_numbering(d, ps.last()) {
            1nat
        } else {
            0nat
        }
    }
}

/// The views of a sequence of paragraphs.
pub open spec fn paras_model(v: Seq<Vec<ComparisonUnit>>) -> Seq<Seq<UnitModel>> {
    v.map_values(|p: Vec<ComparisonUnit>| units_model(p@))
}

/// There are paragraphs with content, and at least half of them are list items.
pub open spec fn mostly_numbered(d: Seq<NodeView>, ps: Seq<Seq<UnitModel>>) -> bool {
    let c = content_paras(d, ps);
    c.len() > 0 && 2 * numbered_count(d, c) >= c.len()
}

/// There are paragraphs with content, and none has more than twelve units
/// besides paragraph marks.
pub open spec fn short_items(d: Seq<NodeView>, ps: Seq<Seq<UnitModel>>) -> bool {
    let c = content_paras(d, ps);
    c.len() > 0 && forall|i: int| 0 <= i < c.len() ==> #[trigger] content_units(d, c[i]) <= 12
}

/// The number of units of the paragraph that are not a bare paragraph mark.
fn para_content_units(dom: &Dom, p: &[ComparisonUnit]) -> (r: usize)
    ensures
        r == content_units(dom@, units_model(p@)),
{
    let ghost us = units_model(p@);
    let mut n: usize = 0;
    let mut i: usize = 0;
    assert(us.take(0) =~= Seq::<UnitModel>::empty());
    while i < p.len()
        invariant
            us == units_model(p@),
            i <= p@.len(),
            n <= i,
            n == content_units(dom@, us.take(i as int)),
        decreases p@.len() - i,
    {
        assert(us.take(i + 1).drop_last() =~= us.take(i as int));
        assert(us.take(i + 1).last() == p@[i as int]@);
        if !unit_is_single_atom_ppr(dom, &p[i]) {
            n = n + 1;
        }
        i = i + 1;
    }
    assert(us.take(p@.len() as int) =~= us);
    n
}

/// Some unit of the paragraph is a list item.
fn para_numbered_any(dom: &Dom, p: &[ComparisonUnit]) -> (r: bool)
    requires
        dom.wf(),
    ensures
        r == para_has_numbering(dom@, units_model(p@)),
{
    let ghost us = units_model(p@);
    let mut i: usize = 0;
    while i < p.len()
        invariant
            dom.wf(),
            us == units_model(p@),
            i <= p@.len(),
            forall|k: int| 0 <= k < i ==> !#[trigger] para_numbered(dom@, us[k]),
        decreases p@.len() - i,
    {
        assert(us[i as int] == p@[i as int]@);
        if unit_para_has_numpr(dom, &p[i]) {
            return true;
        }
        i = i + 1;
    }
    false
}

proof fn lemma_content_paras_step(d: Seq<NodeView>, ps: Seq<Seq<UnitModel>>, i: int)
    requires
        0 <= i < ps.len(),
    ensures
        content_paras(d, ps.take(i + 1)) == if content_units(d, ps[i]) > 0 {
            content_paras(d, ps.take(i)).push(ps[i])
        } else {
            content_paras(d, ps.take(i))
        },
{
    assert(ps.take(i + 1).drop_last() =~= ps.take(i));
    assert(content_paras(d, ps.take(i)) + seq![ps[i]] =~= content_paras(d, ps.take(i)).push(ps[i]));
    assert(content_paras(d, ps.take(i)) + Seq::<Seq<UnitModel>>::empty() =~= content_paras(
        d,
        ps.take(i),
    ));
}

proof fn lemma_numbered_push(d: Seq<NodeView>, c: Seq<Seq<UnitModel>>, p: Seq<UnitModel>)
    ensures
        numbered_count(d, c.push(p)) == numbered_count(d, c) + if para_has_numbering(d, p) {
            1nat
        } else {
            0nat
        },
{
    assert(c.push(p).drop_last() =~= c);
}

/// At least half of the paragraphs with content are list items.
pub fn mostly_list_paras(dom: &Dom, paras: &[Vec<ComparisonUnit>]) -> (r: bool)
    requires
        dom.wf(),
    ensures
        r == mostly_numbered(dom@, paras_model(paras@)),
{
    let ghost ps = paras_model(paras@);
    let mut count: usize = 0;
    let mut with_num: usize = 0;
    let mut i: usize = 0;
    assert(ps.take(0) =~= Seq::<Seq<UnitModel>>::empty());
    while i < paras.len()
        invariant
            dom.wf(),
            ps == paras_model(paras@),
            i <= paras@.len(),
            with_num <= count <= i,
            count == content_paras(dom@, ps.take(i as int)).len(),
            with_num == numbered_count(dom@, content_paras(dom@, ps.take(i as int))),
        decreases paras@.len() - i,
    {
        proof {
            lemma_content_paras_step(dom@, ps, i as int);
            lemma_numbered_push(dom@, content_paras(dom@, ps.take(i as int)), ps[i as int]);
        }
        assert(ps[i as int] == units_model(paras@[i as int]@));
        if para_content_units(dom, paras[i].as_slice()) > 0 {
            count = count + 1;
            if para_numbered_any(dom, paras[i].as_slice()) {
                with_num = with_num + 1;
            }
        }
        i = i + 1;
    }
    assert(ps.take(paras@.len() as int) =~= ps);
    count > 0 && with_num >= count - with_num
}

/// There are paragraphs with content, and none has more than twelve units
/// besides paragraph marks.
pub fn short_item_list_paras(dom: &Dom, paras: &[Vec<ComparisonUnit>]) -> (r: bool)
    requires
        dom.wf(),
    ensures
        r == short_items(dom@, paras_model(paras@)),
{
    let ghost ps = paras_model(paras@);
    let mut count: usize = 0;
    let mut ok = true;
    let mut i: usize = 0;
    assert(ps.take(0) =~= Seq::<Seq<UnitModel>>::empty());
    while i < paras.len()
        invariant
            dom.wf(),
            ps == paras_model(paras@),
            i <= paras@.len(),
            count <= i,
            count == content_paras(dom@, ps.take(i as int)).len(),
            ok == forall|k: int|
                0 <= k < count ==> #[trigger] content_units(
                    dom@,
                    content_paras(dom@, ps.take(i as int))[k],
                ) <= 12,
        decreases paras@.len() - i,
    {
        proof {
            lemma_content_paras_step(dom@, ps, i as int);
        }
        let ghost before = content_paras(dom@, ps.take(i as int));
        assert(ps[i as int] == units_model(paras@[i as int]@));
        let n = para_content_units(dom, paras[i].as_slice());
        if n > 0 {
            let ghost after = before.push(ps[i as int]);
            assert forall|k: int| 0 <= k < count implies after[k] == before[k] by {}
            count = count + 1;
            ok = ok && n <= 12;
            assert(ok == forall|k: int| 0 <= k < count ==> #[trigger] content_units(dom@, after[k]) <= 12) by {
                if ok {
                    assert forall|k: int| 0 <= k < count implies #[trigger] content_units(dom@, after[k]) <= 12 by {
                        if k < count - 1 {
                            assert(after[k] == before[k]);
                        }
                    }
                } else {
                    if n <= 12 {
                        let k = choose|k: int| 0 <= k < count - 1 && !(#[trigger] content_units(dom@, before[k]) <= 12);
                        assert(after[k] == before[k]);
                    } else {
                        assert(after[count - 1] == ps[i as int]);
                    }
                }
            }
        }
        i = i + 1;
    }
    assert(ps.take(paras@.len() as int) =~= ps);
    count > 0 && ok
}

// ── section headings ────────────────────────────────────────────────────────

/// The heading level named by paragraph `p`'s style: `HeadingN` gives `N`
/// (1 when `N` does not parse), `Title` gives 0, matched ignoring ASCII case;
/// nothing for other styles or none.
pub open spec fn style_level(d: Seq<NodeView>, p: int) -> Option<u32> {
    match child_named(d, p, w_name("pPr"@)) {
        Some(ppr) => match child_named(d, ppr as int, w_name("pStyle"@)) {
            Some(ps) => {
                let v = lower_seq(
                    match attribute_of(d, ps as int, w_name("val"@)) {
                        Some(x) => x,
                        None => seq![],
                    },
                );
                if occurs_at(v, "heading"@, 0) {
                    match parse_u32(v.skip(7)) {
                        Some(n) => Some(n),
                        None => Some(1),
                    }
                } else if v == "title"@ {
                    Some(0)
                } else {
                    None
                }
            },
            None => None,
        },
        None => None,
    }
}

/// The heading level of a unit, from `atoms[k..]`: the style level of the
/// paragraph of the first atom in one whose style names a level.
pub open spec fn heading_from(d: Seq<NodeView>, atoms: Seq<AtomModel>, k: int) -> Option<u32>
    decreases atoms.len() - k,
{
    if k < 0 || k >= atoms.len() {
        None
    } else {
        match first_para(d, atoms[k].ancestor_elements) {
            Some(p) => match style_level(d, p as int) {
                Some(l) => Some(l),
                None => heading_from(d, atoms, k + 1),
            },
            None => heading_from(d, atoms, k + 1),
        }
    }
}

/// A numbered section title: the first token is digits, possibly followed
/// by `.` or `)`, in a paragraph of at most ten tokens.
pub open spec fn numbered_title(toks: Seq<Seq<char>>) -> bool {
    toks.len() > 0 && toks.len() <= 10 && {
        let first = toks[0];
        let nd = digit_run(first, 0);
        nd > 0 && (nd == first.len() || forall|k: int|
            nd <= k < first.len() ==> #[trigger] first[k] == '.' || first[k] == ')')
    }
}

/// The number of leading ASCII digits of `s` from `k` on.
pub open spec fn digit_run(s: Seq<char>, k: int) -> int
    decreases s.len() - k,
{
    if 0 <= k < s.len() && '0' <= s[k] <= '9' {
        digit_run(s, k + 1)
    } else {
        k
    }
}

/// Where the third section marker (a numbered title or a heading of level
/// two or more) ends, scanning from `i` with `markers` seen before it.
pub open spec fn legal_cut_from(d: Seq<NodeView>, us: Seq<UnitModel>, i: int, markers: nat) -> Option<
    int,
>
    decreases us.len() - i,
{
    if i < 0 || i >= us.len() {
        None
    } else if !(us[i] is Group) || para_tokens(d, us[i]).len() == 0 {
        legal_cut_from(d, us, i + 1, markers)
    } else {
        let is_section = numbered_title(para_tokens(d, us[i])) || match heading_from(
            d,
            model_atoms(us[i]),
            0,
        ) {
            Some(h) => h >= 2,
            None => false,
        };
        if is_section {
            if markers + 1 >= 3 {
                Some(i + 1)
            } else {
                legal_cut_from(d, us, i + 1, markers + 1)
            }
        } else {
            legal_cut_from(d, us, i + 1, markers)
        }
    }
}

/// The style level of paragraph `p`.
fn paragraph_style_level(dom: &Dom, p: NodeId) -> (r: Option<u32>)
    requires
        dom.wf(),
    ensures
        r == style_level(dom@, p.0 as int),
{
    let ppr = match dom.element(p, &W::p_pr()) {
        Some(x) => x,
        None => {
            return None;
        },
    };
    let ps = match dom.element(ppr, &W::name("pStyle")) {
        Some(x) => x,
        None => {
            return None;
        },
    };
    let raw: Vec<char> = match dom.attribute(ps, &W::name("val")) {
        Some(v) => chars_of(v),
        None => Vec::new(),
    };
    let mut v: Vec<char> = Vec::new();
    let mut k: usize = 0;
    while k < raw.len()
        invariant
            k <= raw@.len(),
            v@ == lower_seq(raw@.take(k as int)),
        decreases raw@.len() - k,
    {
        v.push(ascii_lower_char(raw[k]));
        assert(lower_seq(raw@.take(k + 1)) =~= lower_seq(raw@.take(k as int)).push(
            ascii_lower(raw@[k as int]),
        ));
        k = k + 1;
    }
    assert(raw@.take(raw@.len() as int) =~= raw@);
    let heading = chars_of("heading");
    let title = chars_of("title");
    if matches_at(&v, &heading, 0) {
        proof {
            reveal_strlit("heading");
        }
        let rest = string_from_chars(&v, 7, v.len());
        assert(v@.subrange(7, v@.len() as int) =~= v@.skip(7));
        match parse_u32_str(rest.as_str()) {
            Some(n) => Some(n),
            None => Some(1),
        }
    } else if chars_eq(&v, &title) {
        Some(0)
    } else {
        None
    }
}

/// The heading level of the unit.
fn unit_heading_level(dom: &Dom, u: &ComparisonUnit) -> (r: Option<u32>)
    requires
        dom.wf(),
    ensures
        r == heading_from(dom@, model_atoms(u@), 0),
{
    let atoms = u.descendant_atoms();
    let ghost am = atoms_model(atoms@);
    let mut k: usize = 0;
    while k < atoms.len()
        invariant
            dom.wf(),
            am == atoms_model(atoms@),
            am == model_atoms(u@),
            k <= atoms@.len(),
            heading_from(dom@, am, 0) == heading_from(dom@, am, k as int),
        decreases atoms@.len() - k,
    {
        assert(am[k as int] == atoms@[k as int]@);
        match first_para_of(dom, &atoms[k].ancestor_elements) {
            Some(p) => match paragraph_style_level(dom, p) {
                Some(l) => {
                    return Some(l);
                },
                None => {},
            },
            None => {},
        }
        k = k + 1;
    }
    None
}

/// Whether the token list opens a numbered section title.
fn is_numbered_title(toks: &Vec<String>) -> (r: bool)
    ensures
        r == numbered_title(toks@.map_values(|s: String| s@)),
{
    let ghost tv = toks@.map_values(|s: String| s@);
    if toks.len() == 0 || toks.len() > 10 {
        return false;
    }
    assert(tv[0] == toks@[0]@);
    let first = chars_of(toks[0].as_str());
    let mut nd: usize = 0;
    while nd < first.len() && '0' <= first[nd] && first[nd] <= '9'
        invariant
            first@ == tv[0],
            nd <= first@.len(),
            digit_run(first@, 0) == digit_run(first@, nd as int),
        decreases first@.len() - nd,
    {
        nd = nd + 1;
    }
    if nd == 0 {
        return false;
    }
    assert(digit_run(first@, 0) == nd as int);
    let mut k: usize = nd;
    #[verifier::loop_isolation(false)]
    while k < first.len()
        invariant
            nd <= k <= first@.len(),
            forall|j: int| nd <= j < k ==> #[trigger] first@[j] == '.' || first@[j] == ')',
        decreases first@.len() - k,
    {
        if first[k] != '.' && first[k] != ')' {
            assert(!(first@[k as int] == '.' || first@[k as int] == ')'));
            return false;
        }
        k = k + 1;
    }
    true
}

/// Where the third section marker of the document ends: the index just
/// after the third paragraph that is a numbered title or a heading of level
/// two or more.
pub fn legal_mid_splice_cut(dom: &Dom, cu: &[ComparisonUnit]) -> (r: Option<usize>)
    requires
        dom.wf(),
    ensures
        match r {
            Some(k) => legal_cut_from(dom@, units_model(cu@), 0, 0) == Some(k as int),
            None => legal_cut_from(dom@, units_model(cu@), 0, 0) is None,
        },
{
    let ghost m = units_model(cu@);
    let mut markers: usize = 0;
    let mut i: usize = 0;
    while i < cu.len()
        invariant
            dom.wf(),
            m == units_model(cu@),
            i <= cu@.len(),
            markers < 3,
            legal_cut_from(dom@, m, 0, 0) == legal_cut_from(dom@, m, i as int, markers as nat),
        decreases cu@.len() - i,
    {
        assert(m[i as int] == cu@[i as int]@);
        if as_group(&cu[i]).is_some() {
            let toks = para_text_token_list(dom, &cu[i]);
            if toks.len() > 0 {
                let level = unit_heading_level(dom, &cu[i]);
                let is_section = is_numbered_title(&toks) || match level {
                    Some(h) => h >= 2,
                    None => false,
                };
                if is_section {
                    markers = markers + 1;
                    if markers >= 3 {
                        return Some(i + 1);
                    }
                }
            }
        }
        i = i + 1;
    }
    None
}

} // verus!
