//! Building blocks of the comparison-unit list: the hierarchical grouping
//! key of an element, and the character and element classes that break
//! words.

use vstd::prelude::*;

use super::atoms::{
    atoms_model, copy_atoms, lemma_models_atoms_concat, AtomModel, ComparisonUnitAtom, model_atoms, models_atoms, opt_str_view, unit_model, units_model, ComparisonUnit, ComparisonUnitGroup,
    ComparisonUnitWord, UnitModel,
};
use super::{ComparisonUnitGroupType, CorrelationStatus};
use crate::namespaces::{m_uri, pt_name, w_name, w_uri, M, PT, W};
use crate::text::{chars_of, is_alphabetic_char, str_eq, unicode_alphabetic};
use crate::xml::{attribute_of, name_of, value_of, Dom, NodeId, NodeView, XName, XNameView};

verus! {

/// `"{local name}:{pt:Unid}"`, either part empty when absent.
pub open spec fn grouping_key(d: Seq<NodeView>, e: int) -> Seq<char> {
    let local = match name_of(d, e) {
        Some(n) => n.local,
        None => seq![],
    };
    let unid = match attribute_of(d, e, pt_name("Unid"@)) {
        Some(u) => u,
        None => seq![],
    };
    local + seq![':'] + unid
}

/// The key that groups atoms by an ancestor element: its local name and its
/// `pt:Unid`, joined by `:`.
pub fn hierarchical_grouping_key(dom: &Dom, element: NodeId) -> (r: String)
    ensures
        r@ == grouping_key(dom@, element.0 as int),
{
    let mut key = String::new();
    match dom.name(element) {
        Some(n) => {
            key.append(n.local_name());
        },
        None => {},
    }
    key.append(":");
    proof {
        reveal_strlit(":");
    }
    match dom.attribute(element, &PT::unid()) {
        Some(u) => {
            key.append(u);
        },
        None => {},
    }
    assert(key@ =~= grouping_key(dom@, element.0 as int));
    key
}

/// `w:p`, `w:tbl`, `w:tr`, `w:tc` or `w:txbxContent`.
pub open spec fn grouping_element(n: XNameView) -> bool {
    n.namespace == w_uri() && (n.local == "p"@ || n.local == "tbl"@ || n.local == "tr"@ || n.local
        == "tc"@ || n.local == "txbxContent"@)
}

/// Whether the name is one of the elements comparison units are grouped by.
pub fn is_grouping_element(name: &XName) -> (r: bool)
    ensures
        r == grouping_element(name@),
{
    let l = name.local_name();
    str_eq(name.namespace_name(), W::uri()) && (str_eq(l, "p") || str_eq(l, "tbl") || str_eq(
        l,
        "tr",
    ) || str_eq(l, "tc") || str_eq(l, "txbxContent"))
}

/// The WordprocessingML local names of the elements that break words.
pub open spec fn word_break_w_local(l: Seq<char>) -> bool {
    ||| l == "pPr"@
    ||| l == "tab"@
    ||| l == "br"@
    ||| l == "continuationSeparator"@
    ||| l == "cr"@
    ||| l == "dayLong"@
    ||| l == "dayShort"@
    ||| l == "drawing"@
    ||| l == "pict"@
    ||| l == "endnoteRef"@
    ||| l == "footnoteRef"@
    ||| l == "monthLong"@
    ||| l == "monthShort"@
    ||| l == "noBreakHyphen"@
    ||| l == "object"@
    ||| l == "ptab"@
    ||| l == "separator"@
    ||| l == "sym"@
    ||| l == "yearLong"@
    ||| l == "yearShort"@
    ||| l == "footnoteReference"@
    ||| l == "endnoteReference"@
}

/// An element that forces a word boundary: the WordprocessingML ones above,
/// `m:oMath` and `m:oMathPara`.
pub open spec fn word_break_element(n: XNameView) -> bool {
    ||| n.namespace == w_uri() && word_break_w_local(n.local)
    ||| n.namespace == m_uri() && (n.local == "oMath"@ || n.local == "oMathPara"@)
}

fn is_word_break_w_local(l: &str) -> (r: bool)
    ensures
        r == word_break_w_local(l@),
{
    str_eq(l, "pPr") || str_eq(l, "tab") || str_eq(l, "br") || str_eq(l, "continuationSeparator")
        || str_eq(l, "cr") || str_eq(l, "dayLong") || str_eq(l, "dayShort") || str_eq(l, "drawing")
        || str_eq(l, "pict") || str_eq(l, "endnoteRef") || str_eq(l, "footnoteRef") || str_eq(
        l,
        "monthLong",
    ) || str_eq(l, "monthShort") || str_eq(l, "noBreakHyphen") || str_eq(l, "object") || str_eq(
        l,
        "ptab",
    ) || str_eq(l, "separator") || str_eq(l, "sym") || str_eq(l, "yearLong") || str_eq(
        l,
        "yearShort",
    ) || str_eq(l, "footnoteReference") || str_eq(l, "endnoteReference")
}

/// Whether a content element with this name forces a word boundary.
pub fn is_word_break_element(name: &XName) -> (r: bool)
    ensures
        r == word_break_element(name@),
{
    let l = name.local_name();
    (str_eq(name.namespace_name(), W::uri()) && is_word_break_w_local(l)) || (str_eq(
        name.namespace_name(),
        M::uri(),
    ) && (str_eq(l, "oMath") || str_eq(l, "oMathPara")))
}

/// Whether `c` is an ASCII digit.
pub fn is_digit_char(c: char) -> (r: bool)
    ensures
        r == ('0' <= c <= '9'),
{
    '0' <= c && c <= '9'
}

/// Whether `c` is in the CJK Unified Ideographs block (U+4E00 to U+9FFF).
pub fn is_cjk(c: char) -> (r: bool)
    ensures
        r == ('\u{4e00}' <= c <= '\u{9fff}'),
{
    '\u{4e00}' <= c && c <= '\u{9fff}'
}

/// A letter continuing a word: alphabetic, or `_`.
pub open spec fn word_letter(c: char) -> bool {
    unicode_alphabetic(c) || c == '_'
}

/// A letter continuing a word: alphabetic, or `_`.
pub fn is_word_letter(c: char) -> (r: bool)
    ensures
        r == word_letter(c),
{
    is_alphabetic_char(c) || c == '_'
}

// ── words ───────────────────────────────────────────────────────────────────

/// An ASCII decimal digit.
pub open spec fn digit(c: char) -> bool {
    '0' <= c <= '9'
}

/// The first character of a text, if any.
pub open spec fn first_char(s: Seq<char>) -> Option<char> {
    if s.len() > 0 {
        Some(s[0])
    } else {
        None
    }
}

/// The atom at `i` is a `w:t` whose text starts with a character satisfying
/// `p`.
pub open spec fn t_starts_with(d: Seq<NodeView>, atoms: Seq<AtomModel>, i: int, p: spec_fn(char) -> bool) -> bool {
    0 <= i < atoms.len() && name_of(d, atoms[i].content_element.0 as int) == Some(w_name("t"@))
        && match first_char(value_of(d, atoms[i].content_element.0 as int)) {
        Some(c) => p(c),
        None => false,
    }
}

/// The word-keying state: the next word number, the first character of the
/// last text atom, and the keys given so far.
pub struct KeyState {
    pub next: int,
    pub prev: Option<char>,
    pub keys: Seq<int>,
}

/// A break between a digit and a letter, or a letter after a hyphen.
pub open spec fn class_break(prev: Option<char>, c: char) -> bool {
    match prev {
        Some(p) => (digit(p) != digit(c) && (digit(p) || word_letter(p)) && (digit(c) || word_letter(c)))
            || (p == '-' && word_letter(c)),
        None => false,
    }
}

/// The word key of atom `i`, given the state after the atoms before it: a
/// text atom joins the current word unless it is a separator, a CJK
/// ideograph, or (in word mode) a letter/digit boundary; a `.` or `,` stays
/// with an adjacent digit; a word-break element is a word of its own.
pub open spec fn key_step(
    d: Seq<NodeView>,
    atoms: Seq<AtomModel>,
    seps: Seq<char>,
    word_mode: bool,
    i: int,
    s: KeyState,
) -> KeyState {
    let ce = atoms[i].content_element.0 as int;
    let n = s.next;
    match name_of(d, ce) {
        Some(name) => if name == w_name("t"@) {
            let ch = match first_char(value_of(d, ce)) {
                Some(c) => c,
                None => '\0',
            };
            if ch == '.' || ch == ',' {
                let before = t_starts_with(d, atoms, i - 1, |c: char| digit(c));
                let after = t_starts_with(d, atoms, i + 1, |c: char| digit(c));
                let after_letter = t_starts_with(d, atoms, i + 1, |c: char| word_letter(c));
                if before && after {
                    KeyState { next: n, prev: Some(ch), keys: s.keys.push(n) }
                } else if word_mode && before && after_letter {
                    KeyState { next: n + 1, prev: Some(ch), keys: s.keys.push(n + 1) }
                } else if before || after {
                    KeyState { next: n, prev: Some(ch), keys: s.keys.push(n) }
                } else {
                    KeyState { next: n + 2, prev: Some(ch), keys: s.keys.push(n + 1) }
                }
            } else if word_mode && ch == '-' && (s.prev matches Some(p) && word_letter(p)) {
                KeyState { next: n, prev: Some('-'), keys: s.keys.push(n) }
            } else if ('\u{4e00}' <= ch <= '\u{9fff}') || seps.contains(ch) {
                KeyState { next: n + 2, prev: Some(ch), keys: s.keys.push(n + 1) }
            } else if word_mode {
                let m = if class_break(s.prev, ch) {
                    n + 1
                } else {
                    n
                };
                KeyState { next: m, prev: Some(ch), keys: s.keys.push(m) }
            } else {
                KeyState { next: n, prev: Some(ch), keys: s.keys.push(n) }
            }
        } else if word_break_element(name) {
            KeyState { next: n + 2, prev: None, keys: s.keys.push(n + 1) }
        } else {
            KeyState { next: n, prev: s.prev, keys: s.keys.push(n) }
        },
        None => KeyState { next: n, prev: s.prev, keys: s.keys.push(n) },
    }
}

/// The word-keying state after the first `k` atoms.
pub open spec fn key_fold(
    d: Seq<NodeView>,
    atoms: Seq<AtomModel>,
    seps: Seq<char>,
    word_mode: bool,
    k: nat,
) -> KeyState
    decreases k,
{
    if k == 0 {
        KeyState { next: 0, prev: None, keys: seq![] }
    } else {
        key_step(d, atoms, seps, word_mode, k - 1, key_fold(d, atoms, seps, word_mode, (k - 1) as nat))
    }
}

/// Every atom's content node is an element.
pub open spec fn all_elements(d: Seq<NodeView>, atoms: Seq<AtomModel>) -> bool {
    forall|i: int| 0 <= i < atoms.len() ==> #[trigger] name_of(d, atoms[i].content_element.0 as int) is Some
}

proof fn lemma_key_fold_bound(
    d: Seq<NodeView>,
    atoms: Seq<AtomModel>,
    seps: Seq<char>,
    word_mode: bool,
    k: nat,
)
    requires
        k <= atoms.len(),
    ensures
        0 <= key_fold(d, atoms, seps, word_mode, k).next <= 2 * k,
        key_fold(d, atoms, seps, word_mode, k).keys.len() == k,
    decreases k,
{
    if k > 0 {
        lemma_key_fold_bound(d, atoms, seps, word_mode, (k - 1) as nat);
    }
}

/// The first character of the text of the atom's content element, if it is
/// a `w:t` with text.
fn t_first_char(dom: &Dom, a: &ComparisonUnitAtom) -> (r: Option<char>)
    requires
        dom.wf(),
    ensures
        name_of(dom@, a.content_element.0 as int) == Some(w_name("t"@)) ==> r == first_char(
            value_of(dom@, a.content_element.0 as int),
        ),
        name_of(dom@, a.content_element.0 as int) != Some(w_name("t"@)) ==> r is None,
{
    if !dom.is_named(a.content_element, &W::t()) {
        return None;
    }
    let cs = chars_of(dom.value_str(a.content_element).as_str());
    if cs.len() > 0 {
        Some(cs[0])
    } else {
        None
    }
}

/// The word key of each atom: atoms of one word share a key, and the keys of
/// successive words differ.
pub fn word_keys(dom: &Dom, atoms: &[ComparisonUnitAtom], separators: &[char], word_mode: bool) -> (r:
    Vec<i64>)
    requires
        dom.wf(),
        all_elements(dom@, atoms_model(atoms@)),
        2 * atoms@.len() < i64::MAX,
    ensures
        r@.map_values(|k: i64| k as int) == key_fold(
            dom@,
            atoms_model(atoms@),
            separators@,
            word_mode,
            atoms@.len(),
        ).keys,
{
    let ghost am = atoms_model(atoms@);
    let t_name = W::t();
    let mut next: i64 = 0;
    let mut prev: Option<char> = None;
    let mut keys: Vec<i64> = Vec::new();
    let mut i: usize = 0;
    while i < atoms.len()
        invariant
            dom.wf(),
            am == atoms_model(atoms@),
            all_elements(dom@, am),
            2 * atoms@.len() < i64::MAX,
            t_name@ == w_name("t"@),
            i <= atoms@.len(),
            next == key_fold(dom@, am, separators@, word_mode, i as nat).next,
            prev == key_fold(dom@, am, separators@, word_mode, i as nat).prev,
            keys@.map_values(|k: i64| k as int) == key_fold(dom@, am, separators@, word_mode, i as nat).keys,
        decreases atoms@.len() - i,
    {
        proof {
            lemma_key_fold_bound(dom@, am, separators@, word_mode, i as nat);
        }
        assert(am[i as int] == atoms@[i as int]@);
        let ghost s = key_fold(dom@, am, separators@, word_mode, i as nat);
        let a = &atoms[i];
        let key: i64;
        assert(name_of(dom@, am[i as int].content_element.0 as int) is Some);
        let cname = dom.name(a.content_element).unwrap();
        if cname.same(&t_name) {
            let ch = match t_first_char(dom, a) {
                Some(c) => c,
                None => '\0',
            };
            if ch == '.' || ch == ',' {
                let before = if i > 0 {
                    assert(am[i - 1] == atoms@[i - 1]@);
                    match t_first_char(dom, &atoms[i - 1]) {
                        Some(c) => is_digit_char(c),
                        None => false,
                    }
                } else {
                    false
                };
                let (after, after_letter) = if i + 1 < atoms.len() {
                    assert(am[i + 1] == atoms@[i + 1]@);
                    match t_first_char(dom, &atoms[i + 1]) {
                        Some(c) => (is_digit_char(c), is_word_letter(c)),
                        None => (false, false),
                    }
                } else {
                    (false, false)
                };
                assert(before == t_starts_with(dom@, am, i - 1, |c: char| digit(c)));
                assert(after == t_starts_with(dom@, am, i + 1, |c: char| digit(c)));
                assert(after_letter == t_starts_with(dom@, am, i + 1, |c: char| word_letter(c)));
                if before && after {
                    key = next;
                } else if word_mode && before && after_letter {
                    next = next + 1;
                    key = next;
                } else if before || after {
                    key = next;
                } else {
                    next = next + 1;
                    key = next;
                    next = next + 1;
                }
                prev = Some(ch);
            } else if word_mode && ch == '-' && match prev {
                Some(p) => is_word_letter(p),
                None => false,
            } {
                key = next;
                prev = Some('-');
            } else if is_cjk(ch) || separators_contain(separators, ch) {
                next = next + 1;
                key = next;
                next = next + 1;
                prev = Some(ch);
            } else if word_mode {
                let brk = match prev {
                    Some(p) => (is_digit_char(p) != is_digit_char(ch) && (is_digit_char(p)
                        || is_word_letter(p)) && (is_digit_char(ch) || is_word_letter(ch))) || (p
                        == '-' && is_word_letter(ch)),
                    None => false,
                };
                if brk {
                    next = next + 1;
                }
                key = next;
                prev = Some(ch);
            } else {
                key = next;
                prev = Some(ch);
            }
        } else if is_word_break_element(&cname) {
            next = next + 1;
            key = next;
            next = next + 1;
            prev = None;
        } else {
            key = next;
        }
        let ghost kv = keys@.map_values(|k: i64| k as int);
        keys.push(key);
        assert(keys@.map_values(|k: i64| k as int) =~= kv.push(key as int));
        i = i + 1;
    }
    keys
}

/// Whether `c` is one of `seps`.
fn separators_contain(seps: &[char], c: char) -> (r: bool)
    ensures
        r == seps@.contains(c),
{
    let mut k: usize = 0;
    while k < seps.len()
        invariant
            k <= seps@.len(),
            forall|j: int| 0 <= j < k ==> seps@[j] != c,
        decreases seps@.len() - k,
    {
        if seps[k] == c {
            assert(seps@[k as int] == c);
            return true;
        }
        k = k + 1;
    }
    false
}

/// The atoms split into the maximal runs of consecutive atoms with equal keys.
pub open spec fn key_runs(keys: Seq<i64>, atoms: Seq<AtomModel>) -> Seq<Seq<AtomModel>>
    decreases keys.len(),
{
    if keys.len() == 0 {
        seq![]
    } else {
        let prev = key_runs(keys.drop_last(), atoms.drop_last());
        let k = keys.len() - 1;
        if k >= 1 && keys[k - 1] == keys[k] {
            prev.update(prev.len() - 1, prev.last().push(atoms.last()))
        } else {
            prev.push(seq![atoms.last()])
        }
    }
}

proof fn lemma_key_runs_open(keys: Seq<i64>, atoms: Seq<AtomModel>)
    requires
        keys.len() > 0,
    ensures
        key_runs(keys, atoms).len() > 0,
    decreases keys.len(),
{
    let k = keys.len() - 1;
    if k >= 1 && keys[k - 1] == keys[k] {
        lemma_key_runs_open(keys.drop_last(), atoms.drop_last());
    }
}

/// Splitting atoms into runs of equal keys keeps every atom, in order: the
/// runs laid end to end are the atoms.
pub proof fn lemma_key_runs_keep_atoms(keys: Seq<i64>, atoms: Seq<AtomModel>)
    requires
        keys.len() == atoms.len(),
    ensures
        key_runs(keys, atoms).flatten() == atoms,
    decreases keys.len(),
{
    if keys.len() > 0 {
        let pk = keys.drop_last();
        let pa = atoms.drop_last();
        lemma_key_runs_keep_atoms(pk, pa);
        let prev = key_runs(pk, pa);
        let k = keys.len() - 1;
        if k >= 1 && keys[k - 1] == keys[k] {
            lemma_key_runs_open(pk, pa);
            let body = prev.drop_last();
            assert(prev =~= body.push(prev.last()));
            prev.drop_last().lemma_flatten_push(prev.last());
            let upd = prev.update(prev.len() - 1, prev.last().push(atoms.last()));
            assert(upd =~= body.push(prev.last().push(atoms.last())));
            body.lemma_flatten_push(prev.last().push(atoms.last()));
            assert(upd.flatten() =~= body.flatten() + prev.last().push(atoms.last()));
            assert(atoms =~= pa.push(atoms.last()));
        } else {
            prev.lemma_flatten_push(seq![atoms.last()]);
            assert(atoms =~= pa + seq![atoms.last()]);
        }
    }
}

/// The views of a list of atom runs.
pub open spec fn runs_view(v: Seq<Vec<ComparisonUnitAtom>>) -> Seq<Seq<AtomModel>> {
    v.map_values(|r: Vec<ComparisonUnitAtom>| atoms_model(r@))
}

/// The atoms split into the maximal runs of consecutive atoms with equal
/// keys: the atoms of each word.
pub fn group_atoms_by_key(atoms: &[ComparisonUnitAtom], keys: &[i64]) -> (r: Vec<
    Vec<ComparisonUnitAtom>,
>)
    requires
        keys@.len() == atoms@.len(),
    ensures
        runs_view(r@) == key_runs(keys@, atoms_model(atoms@)),
{
    let ghost am = atoms_model(atoms@);
    let mut out: Vec<Vec<ComparisonUnitAtom>> = Vec::new();
    let mut cur: Vec<ComparisonUnitAtom> = Vec::new();
    let mut i: usize = 0;
    assert(keys@.take(0) =~= Seq::<i64>::empty());
    assert(runs_view(out@) =~= Seq::<Seq<AtomModel>>::empty());
    while i < atoms.len()
        invariant
            keys@.len() == atoms@.len(),
            am == atoms_model(atoms@),
            i <= atoms@.len(),
            runs_view(out@) + (if i > 0 {
                seq![atoms_model(cur@)]
            } else {
                seq![]
            }) == key_runs(keys@.take(i as int), am.take(i as int)),
        decreases atoms@.len() - i,
    {
        let ghost pk = keys@.take(i as int);
        let ghost pa = am.take(i as int);
        assert(keys@.take(i + 1).drop_last() =~= pk);
        assert(am.take(i + 1).drop_last() =~= pa);
        assert(am.take(i + 1).last() == atoms@[i as int]@);
        let ghost sv = runs_view(out@);
        let a = atoms[i].clone();
        if i > 0 && keys[i - 1] == keys[i] {
            proof {
                lemma_key_runs_open(pk, pa);
            }
            let ghost old_cur = atoms_model(cur@);
            cur.push(a);
            assert(atoms_model(cur@) =~= old_cur.push(atoms@[i as int]@));
            assert(key_runs(keys@.take(i + 1), am.take(i + 1)) =~= sv + seq![atoms_model(cur@)]);
        } else {
            if i > 0 {
                let done = cur;
                out.push(done);
                assert(runs_view(out@) =~= sv.push(atoms_model(done@)));
            }
            cur = Vec::new();
            cur.push(a);
            assert(atoms_model(cur@) =~= seq![atoms@[i as int]@]);
            assert(key_runs(keys@.take(i + 1), am.take(i + 1)) =~= runs_view(out@) + seq![
                atoms_model(cur@),
            ]);
        }
        i = i + 1;
    }
    if i > 0 {
        let ghost sv = runs_view(out@);
        out.push(cur);
        assert(runs_view(out@) =~= sv.push(out@.last()@.map_values(|a: ComparisonUnitAtom| a@)));
    }
    assert(keys@.take(atoms@.len() as int) =~= keys@);
    assert(am.take(atoms@.len() as int) =~= am);
    assert(runs_view(out@) =~= key_runs(keys@, am));
    out
}

/// The grouping ancestors of an atom (paragraphs, tables, rows, cells and
/// text boxes), outermost first.
pub open spec fn grouping_ancestors(d: Seq<NodeView>, ancs: Seq<NodeId>) -> Seq<NodeId>
    decreases ancs.len(),
{
    if ancs.len() == 0 {
        seq![]
    } else {
        grouping_ancestors(d, ancs.drop_last()) + match name_of(d, ancs.last().0 as int) {
            Some(n) => if grouping_element(n) {
                seq![ancs.last()]
            } else {
                seq![]
            },
            None => seq![],
        }
    }
}

/// The grouping ancestors of an atom, outermost first, with their grouping
/// keys.
pub fn word_grouping_keys(dom: &Dom, first: &ComparisonUnitAtom) -> (r: (Vec<String>, Vec<NodeId>))
    requires
        forall|k: int|
            0 <= k < first.ancestor_elements@.len() ==> #[trigger] name_of(
                dom@,
                first.ancestor_elements@[k].0 as int,
            ) is Some,
    ensures
        r.1@ == grouping_ancestors(dom@, first.ancestor_elements@),
        r.0@.len() == r.1@.len(),
        forall|k: int| 0 <= k < r.1@.len() ==> #[trigger] r.0@[k]@ == grouping_key(dom@, r.1@[k].0 as int),
{
    let ancs = &first.ancestor_elements;
    let mut keys: Vec<String> = Vec::new();
    let mut groups: Vec<NodeId> = Vec::new();
    let mut j: usize = 0;
    assert(ancs@.take(0) =~= Seq::<NodeId>::empty());
    while j < ancs.len()
        invariant
            forall|k: int| 0 <= k < ancs@.len() ==> #[trigger] name_of(dom@, ancs@[k].0 as int) is Some,
            j <= ancs@.len(),
            groups@ == grouping_ancestors(dom@, ancs@.take(j as int)),
            keys@.len() == groups@.len(),
            forall|k: int| 0 <= k < groups@.len() ==> #[trigger] keys@[k]@ == grouping_key(dom@, groups@[k].0 as int),
        decreases ancs@.len() - j,
    {
        assert(ancs@.take(j + 1).drop_last() =~= ancs@.take(j as int));
        assert(ancs@.take(j + 1).last() == ancs@[j as int]);
        assert(name_of(dom@, ancs@[j as int].0 as int) is Some);
        let name = dom.name(ancs[j]).unwrap();
        if is_grouping_element(&name) {
            groups.push(ancs[j]);
            keys.push(hierarchical_grouping_key(dom, ancs[j]));
            assert(groups@ =~= grouping_ancestors(dom@, ancs@.take(j + 1)));
        } else {
            assert(groups@ =~= grouping_ancestors(dom@, ancs@.take(j + 1)));
        }
        j = j + 1;
    }
    assert(ancs@.take(ancs@.len() as int) =~= ancs@);
    (keys, groups)
}

// ── nesting words into groups ───────────────────────────────────────────────

/// A word with the grouping keys of its grouping ancestors (outermost first)
/// and those ancestors.
pub type WordWithKeys = (Vec<String>, Vec<NodeId>, ComparisonUnitWord);

/// What a [`WordWithKeys`] holds.
pub type EntryView = (Seq<Seq<char>>, Seq<NodeId>, UnitModel);

/// The view of a word with its grouping keys.
pub open spec fn entry_view(e: WordWithKeys) -> EntryView {
    (e.0@.map_values(|s: String| s@), e.1@, unit_model(ComparisonUnit::Word(e.2)))
}

/// The views of a list of words with their grouping keys.
pub open spec fn entries_view(v: Seq<WordWithKeys>) -> Seq<EntryView> {
    v.map_values(|e: WordWithKeys| entry_view(e))
}

/// The entry's grouping key at `level`; empty below its outermost grouping
/// ancestor.
pub open spec fn key_at(e: EntryView, level: int) -> Seq<char> {
    if 0 <= level < e.0.len() {
        e.0[level]
    } else {
        seq![]
    }
}

/// Where the run of entries from `j` on with grouping key `key` at `level`
/// ends, at `hi` at the latest.
pub open spec fn run_end(es: Seq<EntryView>, key: Seq<char>, j: int, hi: int, level: int) -> int
    decreases hi - j,
{
    if j < hi && key_at(es[j], level) == key {
        run_end(es, key, j + 1, hi, level)
    } else {
        j
    }
}

/// The group type a grouping key names: its part before the first `:`.
pub open spec fn key_group_type(key: Seq<char>) -> ComparisonUnitGroupType {
    let head = match key_colon(key, 0) {
        Some(k) => key.take(k),
        None => key,
    };
    if head == "p"@ {
        ComparisonUnitGroupType::Paragraph
    } else if head == "tbl"@ {
        ComparisonUnitGroupType::Table
    } else if head == "tr"@ {
        ComparisonUnitGroupType::Row
    } else if head == "tc"@ {
        ComparisonUnitGroupType::Cell
    } else if head == "txbxContent"@ {
        ComparisonUnitGroupType::Textbox
    } else {
        ComparisonUnitGroupType::Paragraph
    }
}

/// The index of the first `:` of `key` at or after `k`.
pub open spec fn key_colon(key: Seq<char>, k: int) -> Option<int>
    decreases key.len() - k,
{
    if k < 0 || k >= key.len() {
        None
    } else if key[k] == ':' {
        Some(k)
    } else {
        key_colon(key, k + 1)
    }
}

/// How far below `level` the keys of entries `lo..hi` reach, summed.
pub open spec fn key_depth(es: Seq<EntryView>, lo: int, hi: int, level: int) -> nat
    decreases hi - lo,
{
    if hi <= lo {
        0
    } else {
        key_depth(es, lo, hi - 1, level) + if es[hi - 1].0.len() > level {
            (es[hi - 1].0.len() - level) as nat
        } else {
            0nat
        }
    }
}

/// The attribute `local` in the `pt` namespace of the group's ancestor at
/// `level` of the first entry, if the entry has one there.
pub open spec fn group_attr(d: Seq<NodeView>, e: EntryView, level: int, local: Seq<char>) -> Option<
    Seq<char>,
> {
    if 0 <= level < e.1.len() {
        attribute_of(d, e.1[level].0 as int, pt_name(local))
    } else {
        None
    }
}

/// The units of entries `lo..hi` at nesting `level`: each run of entries
/// sharing their key at `level` becomes, for an empty key, its bare words,
/// and otherwise one group of the key's type nesting the run at the next
/// level and carrying the hashes stamped on the run's first ancestor there.
pub open spec fn nest(d: Seq<NodeView>, es: Seq<EntryView>, lo: int, hi: int, level: int) -> Seq<
    UnitModel,
>
    decreases key_depth(es, lo, hi, level) + (hi - lo),
{
    if lo < 0 || hi > es.len() || hi <= lo || level < 0 {
        seq![]
    } else {
        let key = key_at(es[lo], level);
        let j = run_end(es, key, lo + 1, hi, level);
        proof {
            lemma_run_end(es, key, lo + 1, hi, level);
            lemma_key_depth_split(es, lo, j, hi, level);
        }
        let first = if key.len() == 0 {
            Seq::new((j - lo) as nat, |k: int| es[lo + k].2)
        } else {
            proof {
                lemma_key_depth_deeper(es, lo, j, level);
            }
            seq![
                UnitModel::Group {
                    status: CorrelationStatus::Nil,
                    group_type: key_group_type(key),
                    contents: nest(d, es, lo, j, level + 1),
                    level: level as usize,
                    sha1: match group_attr(d, es[lo], level, "SHA1Hash"@) {
                        Some(h) => h,
                        None => seq![],
                    },
                    correlated: group_attr(d, es[lo], level, "CorrelatedSHA1Hash"@),
                    structure: group_attr(d, es[lo], level, "StructureSHA1Hash"@),
                },
            ]
        };
        first + nest(d, es, j, hi, level)
    }
}

/// A run ends between its start and `hi`, and every entry in it has the key.
pub proof fn lemma_run_end(es: Seq<EntryView>, key: Seq<char>, j: int, hi: int, level: int)
    requires
        j <= hi,
    ensures
        j <= run_end(es, key, j, hi, level) <= hi,
        forall|k: int| j <= k < run_end(es, key, j, hi, level) ==> key_at(#[trigger] es[k], level) == key,
    decreases hi - j,
{
    if j < hi && key_at(es[j], level) == key {
        lemma_run_end(es, key, j + 1, hi, level);
    }
}

/// The key depth of a range is that of its two parts.
pub proof fn lemma_key_depth_split(es: Seq<EntryView>, lo: int, j: int, hi: int, level: int)
    requires
        lo <= j <= hi,
    ensures
        key_depth(es, lo, hi, level) == key_depth(es, lo, j, level) + key_depth(es, j, hi, level),
    decreases hi - j,
{
    if j < hi {
        lemma_key_depth_split(es, lo, j, hi - 1, level);
    }
}

/// One level down, the key depth of entries that all have a key loses one
/// per entry.
pub proof fn lemma_key_depth_deeper(es: Seq<EntryView>, lo: int, j: int, level: int)
    requires
        lo < j,
        0 <= level,
        forall|k: int| lo <= k < j ==> key_at(#[trigger] es[k], level).len() > 0,
    ensures
        key_depth(es, lo, j, level + 1) + (j - lo) == key_depth(es, lo, j, level),
    decreases j - lo,
{
    assert(key_at(es[j - 1], level).len() > 0);
    assert(es[j - 1].0.len() > level);
    if j - 1 > lo {
        lemma_key_depth_deeper(es, lo, j - 1, level);
    } else {
        assert(key_depth(es, lo, j - 1, level + 1) == 0);
        assert(key_depth(es, lo, j - 1, level) == 0);
    }
    assert(key_depth(es, lo, j, level + 1) == key_depth(es, lo, j - 1, level + 1) + (es[j - 1].0.len()
        - level - 1));
    assert(key_depth(es, lo, j, level) == key_depth(es, lo, j - 1, level) + (es[j - 1].0.len()
        - level));
}

fn copy_word(w: &ComparisonUnitWord) -> (r: ComparisonUnitWord)
    ensures
        unit_model(ComparisonUnit::Word(r)) == unit_model(ComparisonUnit::Word(*w)),
{
    let contents = copy_atoms(w.contents.as_slice(), 0, w.contents.len());
    assert(w.contents@.subrange(0, w.contents@.len() as int) =~= w.contents@);
    ComparisonUnitWord {
        correlation_status: w.correlation_status,
        contents,
        sha1_hash: w.sha1_hash.clone(),
    }
}

/// The entry's grouping key at `level`; empty below its outermost grouping
/// ancestor.
fn entry_key(e: &WordWithKeys, level: usize) -> (r: &str)
    ensures
        r@ == key_at(entry_view(*e), level as int),
{
    if level < e.0.len() {
        e.0[level].as_str()
    } else {
        proof {
            reveal_strlit("");
        }
        ""
    }
}

/// Whether the first `n` characters of `cs` are `w`.
fn head_is(cs: &Vec<char>, n: usize, w: &str) -> (r: bool)
    requires
        n <= cs@.len(),
    ensures
        r == (cs@.take(n as int) == w@),
{
    let ws = chars_of(w);
    if ws.len() != n {
        return false;
    }
    let mut k: usize = 0;
    while k < n
        invariant
            ws@ == w@,
            ws@.len() == n,
            n <= cs@.len(),
            k <= n,
            forall|j: int| 0 <= j < k ==> cs@[j] == ws@[j],
        decreases n - k,
    {
        if cs[k] != ws[k] {
            assert(cs@.take(n as int)[k as int] != w@[k as int]);
            return false;
        }
        k = k + 1;
    }
    assert(cs@.take(n as int) =~= w@);
    true
}

/// The group type a grouping key names: its part before the first `:`.
fn key_type(key: &str) -> (r: ComparisonUnitGroupType)
    ensures
        r == key_group_type(key@),
{
    let cs = chars_of(key);
    let mut k: usize = 0;
    while k < cs.len() && cs[k] != ':'
        invariant
            cs@ == key@,
            k <= cs@.len(),
            key_colon(key@, 0) == key_colon(key@, k as int),
        decreases cs@.len() - k,
    {
        k = k + 1;
    }
    assert(k < cs@.len() ==> key_colon(key@, 0) == Some(k as int));
    assert(k == cs@.len() ==> cs@.take(k as int) =~= key@);
    if head_is(&cs, k, "p") {
        ComparisonUnitGroupType::Paragraph
    } else if head_is(&cs, k, "tbl") {
        ComparisonUnitGroupType::Table
    } else if head_is(&cs, k, "tr") {
        ComparisonUnitGroupType::Row
    } else if head_is(&cs, k, "tc") {
        ComparisonUnitGroupType::Cell
    } else if head_is(&cs, k, "txbxContent") {
        ComparisonUnitGroupType::Textbox
    } else {
        ComparisonUnitGroupType::Paragraph
    }
}

/// The attribute `local` in the `pt` namespace of the entry's grouping
/// ancestor at `level`.
fn entry_group_attr(dom: &Dom, e: &WordWithKeys, level: usize, local: &str) -> (r: Option<String>)
    ensures
        opt_str_view(r) == group_attr(dom@, entry_view(*e), level as int, local@),
{
    if level < e.1.len() {
        match dom.attribute(e.1[level], &PT::name(local)) {
            Some(v) => Some(String::from_str(v)),
            None => None,
        }
    } else {
        None
    }
}

/// The units of entries `lo..hi` at nesting `level`.
fn nest_range(dom: &Dom, es: &Vec<WordWithKeys>, lo: usize, hi: usize, level: usize) -> (r: Vec<
    ComparisonUnit,
>)
    requires
        lo <= hi <= es@.len(),
    ensures
        units_model(r@) == nest(dom@, entries_view(es@), lo as int, hi as int, level as int),
    decreases key_depth(entries_view(es@), lo as int, hi as int, level as int) + (hi - lo),
{
    let ghost ev = entries_view(es@);
    let ghost total = nest(dom@, ev, lo as int, hi as int, level as int);
    let mut out: Vec<ComparisonUnit> = Vec::new();
    let mut i: usize = lo;
    assert(units_model(out@) + total =~= total);
    while i < hi
        invariant
            lo <= i <= hi <= es@.len(),
            ev == entries_view(es@),
            total == nest(dom@, ev, lo as int, hi as int, level as int),
            units_model(out@) + nest(dom@, ev, i as int, hi as int, level as int) == total,
        decreases hi - i,
    {
        assert(ev[i as int] == entry_view(es@[i as int]));
        let key = entry_key(&es[i], level);
        let ghost kv = key@;
        let mut j: usize = i + 1;
        while j < hi && str_eq(entry_key(&es[j], level), key)
            invariant
                i < j <= hi <= es@.len(),
                ev == entries_view(es@),
                kv == key@,
                kv == key_at(ev[i as int], level as int),
                run_end(ev, kv, i + 1, hi as int, level as int) == run_end(ev, kv, j as int, hi as int, level as int),
            decreases hi - j,
        {
            assert(ev[j as int] == entry_view(es@[j as int]));
            j = j + 1;
        }
        proof {
            lemma_run_end(ev, kv, i + 1, hi as int, level as int);
            lemma_key_depth_split(ev, lo as int, i as int, hi as int, level as int);
            lemma_key_depth_split(ev, i as int, j as int, hi as int, level as int);
        }
        assert(j == run_end(ev, kv, i + 1, hi as int, level as int));
        let ghost rest = nest(dom@, ev, j as int, hi as int, level as int);
        let ghost before = units_model(out@);
        if key.unicode_len() == 0 {
            let mut k: usize = i;
            while k < j
                invariant
                    i <= k <= j <= hi <= es@.len(),
                    ev == entries_view(es@),
                    units_model(out@) == before + Seq::new((k - i) as nat, |m: int| ev[i + m].2),
                decreases j - k,
            {
                assert(ev[k as int] == entry_view(es@[k as int]));
                let w = copy_word(&es[k].2);
                let ghost prev = units_model(out@);
                let u = ComparisonUnit::Word(w);
                assert(u@ == ev[k as int].2);
                out.push(u);
                assert(units_model(out@) =~= prev.push(ev[k as int].2));
                assert(units_model(out@) =~= before + Seq::new((k + 1 - i) as nat, |m: int| ev[i + m].2));
                k = k + 1;
            }
            assert(nest(dom@, ev, i as int, hi as int, level as int) == Seq::new(
                (j - i) as nat,
                |m: int| ev[i + m].2,
            ) + rest);
            assert(units_model(out@) + rest =~= before + nest(dom@, ev, i as int, hi as int, level as int));
        } else {
            proof {
                lemma_key_depth_deeper(ev, i as int, j as int, level as int);
            }
            let n_keys = es[i].0.len();
            assert(level < n_keys);
            let contents = nest_range(dom, es, i, j, level + 1);
            let group_type = key_type(key);
            let sha1_hash = match entry_group_attr(dom, &es[i], level, "SHA1Hash") {
                Some(h) => h,
                None => String::new(),
            };
            let correlated_sha1_hash = entry_group_attr(dom, &es[i], level, "CorrelatedSHA1Hash");
            let structure_sha1_hash = entry_group_attr(dom, &es[i], level, "StructureSHA1Hash");
            let g = ComparisonUnitGroup {
                correlation_status: CorrelationStatus::Nil,
                group_type,
                contents,
                level,
                sha1_hash,
                correlated_sha1_hash,
                structure_sha1_hash,
            };
            let u = ComparisonUnit::Group(g);
            assert(u@->Group_contents =~= units_model(g.contents@));
            out.push(u);
            assert(units_model(out@) =~= before.push(u@));
            assert(units_model(out@) + rest =~= before + nest(dom@, ev, i as int, hi as int, level as int));
        }
        i = j;
    }
    assert(nest(dom@, ev, hi as int, hi as int, level as int) =~= Seq::<UnitModel>::empty());
    assert(units_model(out@) =~= total);
    out
}

/// Nests the words into paragraph, table, row, cell and text-box groups by
/// their grouping keys, from nesting `level` down.
pub fn get_hierarchical_comparison_units(dom: &Dom, input: Vec<WordWithKeys>, level: usize) -> (r:
    Vec<ComparisonUnit>)
    ensures
        units_model(r@) == nest(dom@, entries_view(input@), 0, input@.len() as int, level as int),
{
    nest_range(dom, &input, 0, input.len(), level)
}

/// The words of entries `lo..hi`, in order.
pub open spec fn entry_words(es: Seq<EntryView>, lo: int, hi: int) -> Seq<UnitModel> {
    es.subrange(lo, hi).map_values(|e: EntryView| e.2)
}

/// Nesting words into groups keeps every atom of every word, in order: the
/// atoms under the units built are those of the words given.
pub proof fn lemma_nest_keeps_atoms(d: Seq<NodeView>, es: Seq<EntryView>, lo: int, hi: int, level: int)
    requires
        0 <= lo <= hi <= es.len(),
        0 <= level,
    ensures
        models_atoms(nest(d, es, lo, hi, level)) == models_atoms(entry_words(es, lo, hi)),
    decreases key_depth(es, lo, hi, level) + (hi - lo),
{
    if lo == hi {
        assert(entry_words(es, lo, hi) =~= Seq::<UnitModel>::empty());
    } else {
        let key = key_at(es[lo], level);
        let j = run_end(es, key, lo + 1, hi, level);
        lemma_run_end(es, key, lo + 1, hi, level);
        lemma_key_depth_split(es, lo, j, hi, level);
        let rest = nest(d, es, j, hi, level);
        lemma_nest_keeps_atoms(d, es, j, hi, level);
        assert(entry_words(es, lo, hi) =~= entry_words(es, lo, j) + entry_words(es, j, hi));
        lemma_models_atoms_concat(entry_words(es, lo, j), entry_words(es, j, hi));
        if key.len() == 0 {
            let first = Seq::new((j - lo) as nat, |k: int| es[lo + k].2);
            assert(first =~= entry_words(es, lo, j));
            lemma_models_atoms_concat(first, rest);
        } else {
            lemma_key_depth_deeper(es, lo, j, level);
            lemma_nest_keeps_atoms(d, es, lo, j, level + 1);
            let g = nest(d, es, lo, hi, level)[0];
            let first = seq![g];
            assert(nest(d, es, lo, hi, level) == first + rest);
            lemma_models_atoms_concat(first, rest);
            assert(first.drop_last() =~= Seq::<UnitModel>::empty());
            assert(first.last() == g);
            assert(models_atoms(first.drop_last()) =~= Seq::<AtomModel>::empty());
            assert(models_atoms(first) =~= model_atoms(g));
        }
    }
}


/// The grouping key of an element carrying a `pt:Unid` is its local name, a
/// colon and the Unid, whatever the element; so two elements with the same
/// local name get the same key exactly when their Unids are equal.
pub proof fn lemma_grouping_key_separates_unids(d: Seq<NodeView>, e1: int, e2: int)
    requires
        name_of(d, e1) is Some,
        name_of(d, e2) is Some,
        name_of(d, e1).unwrap().local == name_of(d, e2).unwrap().local,
        attribute_of(d, e1, pt_name("Unid"@)) is Some,
        attribute_of(d, e2, pt_name("Unid"@)) is Some,
    ensures
        grouping_key(d, e1) == name_of(d, e1).unwrap().local + seq![':'] + attribute_of(d, e1, pt_name("Unid"@)).unwrap(),
        (grouping_key(d, e1) == grouping_key(d, e2)) == (attribute_of(d, e1, pt_name("Unid"@)) == attribute_of(
            d,
            e2,
            pt_name("Unid"@),
        )),
{
    let l = name_of(d, e1).unwrap().local;
    let u1 = attribute_of(d, e1, pt_name("Unid"@)).unwrap();
    let u2 = attribute_of(d, e2, pt_name("Unid"@)).unwrap();
    let k1 = grouping_key(d, e1);
    let k2 = grouping_key(d, e2);
    if k1 == k2 {
        let n: int = l.len() as int + 1;
        assert(k1.skip(n) =~= u1);
        assert(k2.skip(n) =~= u2);
    }
}

} // verus!
