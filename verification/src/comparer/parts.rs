//! Relationship parsing for related-part relocation: the rows of a `.rels`
//! part, entity decoding of attribute values, and the classification of a
//! relationship as external.

use vstd::prelude::*;

use super::preprocess::{escape_attr_char, escaped};
use crate::namespaces::{w_name, W};
use crate::xml::{ancestors_of, has_name, ids, Dom, NodeId, NodeView};
use crate::text::{
    chars_eq, chars_of, ends_with, ends_with_chars, find, find_from, is_ascii_whitespace_char,
    is_ascii_ws, lemma_find_from, replace_all, replace_chars, skip_white, skip_whitespace, str_eq,
    string_from_chars,
};

verus! {

/// A parsed `<Relationship>` row of a `.rels` part.
#[derive(Clone, Debug, PartialEq, Eq)]
pub struct RelationshipRow {
    /// The `Id` attribute.
    pub id: String,
    /// The `Type` attribute.
    pub rel_type: String,
    /// The `Target` attribute, entity-decoded.
    pub target: String,
    /// Whether the target lies outside the package.
    pub external: bool,
}

/// What a relationship row holds, as character sequences.
pub struct RowView {
    pub id: Seq<char>,
    pub rel_type: Seq<char>,
    pub target: Seq<char>,
    pub external: bool,
}

impl View for RelationshipRow {
    type V = RowView;

    open spec fn view(&self) -> RowView {
        RowView {
            id: self.id@,
            rel_type: self.rel_type@,
            target: self.target@,
            external: self.external,
        }
    }
}

// ── entity decoding ─────────────────────────────────────────────────────────

/// `v` with the entities `&quot;`, `&gt;`, `&lt;` and `&amp;` undone, in that
/// order, each replacement a left-to-right pass without overlaps.
pub open spec fn decode_attribute(v: Seq<char>) -> Seq<char> {
    replace_all(
        replace_all(
            replace_all(replace_all(v, "&quot;"@, "\""@), "&gt;"@, ">"@),
            "&lt;"@,
            "<"@,
        ),
        "&amp;"@,
        "&"@,
    )
}

fn decode_chars(v: &[char]) -> (r: Vec<char>)
    ensures
        r@ == decode_attribute(v@),
{
    proof {
        reveal_strlit("&quot;");
        reveal_strlit("&gt;");
        reveal_strlit("&lt;");
        reveal_strlit("&amp;");
    }
    let a = replace_chars(v, &chars_of("&quot;"), &chars_of("\""));
    let b = replace_chars(&a, &chars_of("&gt;"), &chars_of(">"));
    let c = replace_chars(&b, &chars_of("&lt;"), &chars_of("<"));
    replace_chars(&c, &chars_of("&amp;"), &chars_of("&"))
}

/// Undoes the entity escaping of an attribute value.
pub fn decode_xml_attribute(value: &str) -> (r: String)
    ensures
        r@ == decode_attribute(value@),
{
    let d = decode_chars(&chars_of(value));
    string_from_chars(&d, 0, d.len())
}

// ── decoding undoes escaping ────────────────────────────────────────────────

/// `s` with each character `c` replaced by `f(c)`.
pub open spec fn mapped(s: Seq<char>, f: spec_fn(char) -> Seq<char>) -> Seq<char>
    decreases s.len(),
{
    if s.len() == 0 {
        seq![]
    } else {
        f(s[0]) + mapped(s.drop_first(), f)
    }
}

proof fn lemma_mapped_push(s: Seq<char>, c: char, f: spec_fn(char) -> Seq<char>)
    ensures
        mapped(s.push(c), f) == mapped(s, f) + f(c),
    decreases s.len(),
{
    if s.len() == 0 {
        assert(s.push(c).drop_first() =~= Seq::<char>::empty());
        assert(mapped(Seq::<char>::empty(), f) =~= Seq::<char>::empty());
        assert(s.push(c)[0] == c);
        assert(mapped(s.push(c), f) == f(c) + mapped(Seq::<char>::empty(), f));
        assert(mapped(s.push(c), f) =~= f(c));
    } else {
        lemma_mapped_push(s.drop_first(), c, f);
        assert(s.push(c).drop_first() =~= s.drop_first().push(c));
        assert(mapped(s.push(c), f) =~= mapped(s, f) + f(c));
    }
}

proof fn lemma_escaped_mapped(s: Seq<char>)
    ensures
        escaped(s, true) == mapped(s, |c: char| escape_attr_char(c)),
    decreases s.len(),
{
    if s.len() > 0 {
        lemma_escaped_mapped(s.drop_last());
        lemma_mapped_push(s.drop_last(), s.last(), |c: char| escape_attr_char(c));
        assert(s.drop_last().push(s.last()) =~= s);
    }
}

proof fn lemma_mapped_identity(s: Seq<char>)
    ensures
        mapped(s, |c: char| seq![c]) == s,
    decreases s.len(),
{
    if s.len() > 0 {
        lemma_mapped_identity(s.drop_first());
        assert(seq![s[0]] + s.drop_first() =~= s);
    }
}

/// `x` holds no `&` except, possibly, a first one followed by a character
/// other than `pat`'s second.
pub open spec fn amp_safe(x: Seq<char>, pat: Seq<char>) -> bool {
    forall|k: int|
        0 <= k < x.len() && #[trigger] x[k] == '&' ==> k == 0 && x.len() >= 2 && x[1] != pat[1]
}

proof fn lemma_replace_safe_prefix(x: Seq<char>, y: Seq<char>, pat: Seq<char>, rep: Seq<char>)
    requires
        pat.len() >= 2,
        pat[0] == '&',
        amp_safe(x, pat),
    ensures
        replace_all(x + y, pat, rep) == x + replace_all(y, pat, rep),
    decreases x.len(),
{
    if x.len() == 0 {
        assert(x + y =~= y);
    } else {
        let s = x + y;
        assert(s[0] == x[0]);
        if occurs_at_pat(s, pat) {
            assert(s.subrange(0, pat.len() as int)[0] == pat[0]);
            assert(x[0] == '&');
            assert(s.subrange(0, pat.len() as int)[1] == pat[1]);
            assert(s[1] == x[1]);
        }
        let xs = x.drop_first();
        assert(amp_safe(xs, pat)) by {
            assert forall|k: int| 0 <= k < xs.len() && #[trigger] xs[k] == '&' implies k == 0 && xs.len()
                >= 2 && xs[1] != pat[1] by {
                assert(xs[k] == x[k + 1]);
            }
        }
        lemma_replace_safe_prefix(xs, y, pat, rep);
        assert(s.skip(1) =~= xs + y);
        assert(x + replace_all(y, pat, rep) =~= seq![x[0]] + (xs + replace_all(y, pat, rep)));
    }
}

/// `pat` occurs at the start of `s`.
pub open spec fn occurs_at_pat(s: Seq<char>, pat: Seq<char>) -> bool {
    crate::text::occurs_at(s, pat, 0)
}

proof fn lemma_replace_mapped(
    s: Seq<char>,
    f: spec_fn(char) -> Seq<char>,
    g: spec_fn(char) -> Seq<char>,
    pat: Seq<char>,
    rep: Seq<char>,
)
    requires
        pat.len() >= 2,
        pat[0] == '&',
        forall|c: char| #[trigger] f(c) == pat ==> g(c) == rep,
        forall|c: char| #[trigger] f(c) != pat ==> g(c) == f(c) && amp_safe(f(c), pat),
    ensures
        replace_all(mapped(s, f), pat, rep) == mapped(s, g),
    decreases s.len(),
{
    if s.len() == 0 {
    } else {
        let c = s[0];
        let rest = s.drop_first();
        lemma_replace_mapped(rest, f, g, pat, rep);
        let m = mapped(s, f);
        if f(c) == pat {
            assert(m.subrange(0, pat.len() as int) =~= pat);
            assert(m.skip(pat.len() as int) =~= mapped(rest, f));
        } else {
            lemma_replace_safe_prefix(f(c), mapped(rest, f), pat, rep);
        }
    }
}

/// Decoding an escaped attribute value gives the value back.
pub proof fn lemma_decode_escape_round_trip(s: Seq<char>)
    ensures
        decode_attribute(escaped(s, true)) == s,
{
    reveal_strlit("&quot;");
    reveal_strlit("&gt;");
    reveal_strlit("&lt;");
    reveal_strlit("&amp;");
    reveal_strlit("\"");
    reveal_strlit(">");
    reveal_strlit("<");
    reveal_strlit("&");
    let f0 = |c: char| escape_attr_char(c);
    let f1 = |c: char|
        if c == '"' {
            seq!['"']
        } else {
            escape_attr_char(c)
        };
    let f2 = |c: char|
        if c == '"' || c == '>' {
            seq![c]
        } else {
            escape_attr_char(c)
        };
    let f3 = |c: char|
        if c == '&' {
            "&amp;"@
        } else {
            seq![c]
        };
    let f4 = |c: char| seq![c];
    lemma_escaped_mapped(s);
    assert forall|c: char| #[trigger] f0(c) != "&quot;"@ implies f1(c) == f0(c) && amp_safe(
        f0(c),
        "&quot;"@,
    ) by {}
    assert forall|c: char| #[trigger] f0(c) == "&quot;"@ implies f1(c) == "\""@ by {
        if c == '&' {
            assert(f0(c)[1] != "&quot;"@[1]);
        } else if c == '<' {
            assert(f0(c)[1] != "&quot;"@[1]);
        } else if c == '>' {
            assert(f0(c)[1] != "&quot;"@[1]);
        } else if c != '"' {
            assert(f0(c).len() != "&quot;"@.len());
        }
    }
    lemma_replace_mapped(s, f0, f1, "&quot;"@, "\""@);
    assert forall|c: char| #[trigger] f1(c) != "&gt;"@ implies f2(c) == f1(c) && amp_safe(
        f1(c),
        "&gt;"@,
    ) by {}
    assert forall|c: char| #[trigger] f1(c) == "&gt;"@ implies f2(c) == ">"@ by {
        if c == '&' {
            assert(f1(c)[1] != "&gt;"@[1]);
        } else if c == '<' {
            assert(f1(c)[1] != "&gt;"@[1]);
        } else if c != '>' {
            assert(f1(c).len() != "&gt;"@.len());
        }
    }
    lemma_replace_mapped(s, f1, f2, "&gt;"@, ">"@);
    assert forall|c: char| #[trigger] f2(c) != "&lt;"@ implies f3(c) == f2(c) && amp_safe(
        f2(c),
        "&lt;"@,
    ) by {}
    assert forall|c: char| #[trigger] f2(c) == "&lt;"@ implies f3(c) == "<"@ by {
        if c == '&' {
            assert(f2(c)[1] != "&lt;"@[1]);
        } else if c != '<' {
            assert(f2(c).len() != "&lt;"@.len());
        }
    }
    lemma_replace_mapped(s, f2, f3, "&lt;"@, "<"@);
    assert forall|c: char| #[trigger] f3(c) != "&amp;"@ implies f4(c) == f3(c) && amp_safe(
        f3(c),
        "&amp;"@,
    ) by {}
    assert forall|c: char| #[trigger] f3(c) == "&amp;"@ implies f4(c) == "&"@ by {
        if c != '&' {
            assert(f3(c).len() != "&amp;"@.len());
        }
    }
    lemma_replace_mapped(s, f3, f4, "&amp;"@, "&"@);
    lemma_mapped_identity(s);
}

// ── attributes of a tag ─────────────────────────────────────────────────────

/// The quoted value following an occurrence of an attribute name at `abs`
/// that ends at `after`: the name must start `t` or follow ASCII whitespace,
/// and be followed, across optional whitespace, by `=`, optional whitespace,
/// `"`, the value and a closing `"`.
pub open spec fn quoted_value_at(t: Seq<char>, abs: int, after: int) -> Option<Seq<char>> {
    let eq = skip_white(t, after);
    let q = skip_white(t, eq + 1);
    if (abs == 0 || is_ascii_ws(t[abs - 1])) && eq < t.len() && t[eq] == '=' && q < t.len()
        && t[q] == '"' {
        match find_from(t, seq!['"'], q + 1) {
            Some(e) => Some(t.subrange(q + 1, e)),
            None => None,
        }
    } else {
        None
    }
}

/// The value of attribute `key` in `t`, looking at the occurrences of `key` at
/// or after `from` in turn and taking the first that is well formed.
pub open spec fn attr_value_from(t: Seq<char>, key: Seq<char>, from: int) -> Option<Seq<char>>
    decreases t.len() + 1 - from,
{
    if key.len() == 0 || from < 0 {
        None
    } else {
        match find_from(t, key, from) {
            None => None,
            Some(abs) => {
                proof {
                    lemma_find_from(t, key, from);
                }
                match quoted_value_at(t, abs, abs + key.len()) {
                    Some(v) => Some(v),
                    None => attr_value_from(t, key, abs + key.len()),
                }
            },
        }
    }
}

/// The value of attribute `key` in the tag `t`.
pub open spec fn attr_value(t: Seq<char>, key: Seq<char>) -> Option<Seq<char>> {
    attr_value_from(t, key, 0)
}

/// The characters of an optional character vector.
pub open spec fn opt_chars(v: Option<Vec<char>>) -> Option<Seq<char>> {
    match v {
        Some(c) => Some(c@),
        None => None,
    }
}

fn attr_of(t: &[char], key: &[char]) -> (r: Option<Vec<char>>)
    requires
        key@.len() > 0,
    ensures
        opt_chars(r) == attr_value(t@, key@),
{
    let quote: Vec<char> = vec!['"'];
    assert(quote@ =~= seq!['"']);
    let mut from: usize = 0;
    while from <= t.len()
        invariant
            key@.len() > 0,
            quote@ == seq!['"'],
            from <= t@.len() + 1,
            attr_value(t@, key@) == attr_value_from(t@, key@, from as int),
        decreases t@.len() + 1 - from,
    {
        match find(t, key, from) {
            None => {
                return None;
            },
            Some(abs) => {
                proof {
                    lemma_find_from(t@, key@, from as int);
                }
                let after = abs + key.len();
                let before_ok = abs == 0 || is_ascii_whitespace_char(t[abs - 1]);
                let eq = skip_whitespace(t, after);
                if before_ok && eq < t.len() && t[eq] == '=' {
                    let q = skip_whitespace(t, eq + 1);
                    if q < t.len() && t[q] == '"' {
                        match find(t, &quote, q + 1) {
                            Some(e) => {
                                proof {
                                    lemma_find_from(t@, quote@, q + 1);
                                }
                                let v = vstd::slice::slice_to_vec(
                                    vstd::slice::slice_subrange(t, q + 1, e),
                                );
                                return Some(v);
                            },
                            None => {},
                        }
                    }
                }
                from = after;
            },
        }
    }
    None
}

// ── external relationships ──────────────────────────────────────────────────

/// An ASCII letter.
pub open spec fn is_ascii_alpha(c: char) -> bool {
    ('a' <= c <= 'z') || ('A' <= c <= 'Z')
}

/// A character allowed in a URI scheme: an ASCII letter or digit, `+`, `.` or `-`.
pub open spec fn is_scheme_char(c: char) -> bool {
    is_ascii_alpha(c) || ('0' <= c <= '9') || c == '+' || c == '.' || c == '-'
}

/// `s` is a URI scheme: non-empty, starting with a letter.
pub open spec fn is_uri_scheme(s: Seq<char>) -> bool {
    s.len() > 0 && is_ascii_alpha(s[0]) && forall|j: int| 0 <= j < s.len() ==> is_scheme_char(#[trigger] s[j])
}

/// A relationship is external when its type is a hyperlink, or when its
/// target does not start with `/` and has a URI scheme before its first `:`.
pub open spec fn external_relationship(rel_type: Seq<char>, target: Seq<char>) -> bool {
    ||| ends_with(rel_type, "/hyperlink"@)
    ||| !(target.len() > 0 && target[0] == '/') && match find_from(target, seq![':'], 0) {
        Some(i) => is_uri_scheme(target.take(i)),
        None => false,
    }
}

fn is_uri_scheme_chars(s: &[char], n: usize) -> (r: bool)
    requires
        n <= s@.len(),
    ensures
        r == is_uri_scheme(s@.take(n as int)),
{
    if n == 0 {
        return false;
    }
    let c0 = s[0];
    if !(('a' <= c0 && c0 <= 'z') || ('A' <= c0 && c0 <= 'Z')) {
        return false;
    }
    let mut j: usize = 0;
    while j < n
        invariant
            n <= s@.len(),
            j <= n,
            forall|k: int| 0 <= k < j ==> is_scheme_char(#[trigger] s@[k]),
        decreases n - j,
    {
        let c = s[j];
        if !(('a' <= c && c <= 'z') || ('A' <= c && c <= 'Z') || ('0' <= c && c <= '9') || c == '+'
            || c == '.' || c == '-') {
            assert(!is_scheme_char(s@.take(n as int)[j as int]));
            return false;
        }
        j = j + 1;
    }
    true
}

fn is_external_chars(rel_type: &[char], target: &[char]) -> (r: bool)
    ensures
        r == external_relationship(rel_type@, target@),
{
    if ends_with_chars(rel_type, &chars_of("/hyperlink")) {
        return true;
    }
    if target.len() > 0 && target[0] == '/' {
        return false;
    }
    let colon: Vec<char> = vec![':'];
    assert(colon@ =~= seq![':']);
    match find(target, &colon, 0) {
        Some(i) => {
            proof {
                lemma_find_from(target@, colon@, 0);
            }
            is_uri_scheme_chars(target, i)
        },
        None => false,
    }
}

/// Whether a relationship points outside the package: a hyperlink type, or an
/// absolute-URI target (one with a scheme that does not start with `/`).
pub fn is_external_relationship(rel_type: &str, target: &str) -> (r: bool)
    ensures
        r == external_relationship(rel_type@, target@),
{
    is_external_chars(&chars_of(rel_type), &chars_of(target))
}

// ── rows of a .rels part ────────────────────────────────────────────────────

/// The row a `<Relationship …>` tag describes, when it has an `Id`, a `Type`
/// and a `Target`.
pub open spec fn row_of_tag(tag: Seq<char>) -> Option<RowView> {
    match (attr_value(tag, "Id"@), attr_value(tag, "Type"@), attr_value(tag, "Target"@)) {
        (Some(id), Some(rel_type), Some(raw)) => {
            let target = decode_attribute(raw);
            Some(
                RowView {
                    id,
                    rel_type,
                    target,
                    external: attr_value(tag, "TargetMode"@) == Some("External"@)
                        || external_relationship(rel_type, target),
                },
            )
        },
        _ => None,
    }
}

/// The rows of the `<Relationship` tags of `x` found at or after `from`: an
/// occurrence not followed by ASCII whitespace is skipped; a tag runs to the
/// first `>` after its start, and scanning stops where none follows.
pub open spec fn rows_from(x: Seq<char>, from: int) -> Seq<RowView>
    decreases x.len() + 1 - from,
{
    if from < 0 {
        seq![]
    } else {
        match find_from(x, "<Relationship"@, from) {
            None => seq![],
            Some(abs) => {
                proof {
                    reveal_strlit("<Relationship");
                    lemma_find_from(x, "<Relationship"@, from);
                }
                let k = abs + "<Relationship"@.len();
                if !(k < x.len() && is_ascii_ws(x[k])) {
                    rows_from(x, k)
                } else {
                    match find_from(x, seq!['>'], abs) {
                        None => seq![],
                        Some(e) => {
                            proof {
                                lemma_find_from(x, seq!['>'], abs);
                            }
                            let rest = rows_from(x, e + 1);
                            match row_of_tag(x.subrange(abs, e + 1)) {
                                Some(r) => seq![r] + rest,
                                None => rest,
                            }
                        },
                    }
                }
            },
        }
    }
}

/// The views of a sequence of rows.
pub open spec fn rows_view(rows: Seq<RelationshipRow>) -> Seq<RowView> {
    rows.map_values(|r: RelationshipRow| r@)
}

fn row_of_tag_exec(tag: &[char]) -> (r: Option<RelationshipRow>)
    ensures
        match r {
            Some(row) => row_of_tag(tag@) == Some(row@),
            None => row_of_tag(tag@) is None,
        },
{
    proof {
        reveal_strlit("Id");
        reveal_strlit("Type");
        reveal_strlit("Target");
        reveal_strlit("TargetMode");
    }
    let id = attr_of(tag, &chars_of("Id"));
    let rel_type = attr_of(tag, &chars_of("Type"));
    let raw = attr_of(tag, &chars_of("Target"));
    match (id, rel_type, raw) {
        (Some(id), Some(rel_type), Some(raw)) => {
            let target = decode_chars(&raw);
            let mode = attr_of(tag, &chars_of("TargetMode"));
            let by_mode = match &mode {
                Some(m) => chars_eq(m, &chars_of("External")),
                None => false,
            };
            let external = by_mode || is_external_chars(&rel_type, &target);
            assert(id@.subrange(0, id@.len() as int) =~= id@);
            assert(rel_type@.subrange(0, rel_type@.len() as int) =~= rel_type@);
            assert(target@.subrange(0, target@.len() as int) =~= target@);
            Some(
                RelationshipRow {
                    id: string_from_chars(&id, 0, id.len()),
                    rel_type: string_from_chars(&rel_type, 0, rel_type.len()),
                    target: string_from_chars(&target, 0, target.len()),
                    external,
                },
            )
        },
        _ => None,
    }
}

/// The `<Relationship …>` rows of a `.rels` part, in document order; tags
/// without an `Id`, a `Type` or a `Target` are left out.
pub fn parse_relationship_rows(rels_xml: &str) -> (rows: Vec<RelationshipRow>)
    ensures
        rows_view(rows@) == rows_from(rels_xml@, 0),
{
    let x = chars_of(rels_xml);
    let open = chars_of("<Relationship");
    proof {
        reveal_strlit("<Relationship");
    }
    let gt: Vec<char> = vec!['>'];
    assert(gt@ =~= seq!['>']);
    let mut rows: Vec<RelationshipRow> = Vec::new();
    let mut from: usize = 0;
    while from <= x.len()
        invariant
            x@ == rels_xml@,
            open@ == "<Relationship"@,
            open@.len() > 0,
            gt@ == seq!['>'],
            from <= x@.len() + 1,
            rows_view(rows@) + rows_from(x@, from as int) == rows_from(x@, 0),
        decreases x@.len() + 1 - from,
    {
        match find(&x, &open, from) {
            None => {
                assert(rows_view(rows@) + rows_from(x@, from as int) =~= rows_view(rows@));
                return rows;
            },
            Some(abs) => {
                proof {
                    lemma_find_from(x@, open@, from as int);
                }
                let k = abs + open.len();
                if !(k < x.len() && is_ascii_whitespace_char(x[k])) {
                    from = k;
                } else {
                    match find(&x, &gt, abs) {
                        None => {
                            assert(rows_view(rows@) + rows_from(x@, from as int) =~= rows_view(
                                rows@,
                            ));
                            return rows;
                        },
                        Some(e) => {
                            proof {
                                lemma_find_from(x@, gt@, abs as int);
                            }
                            let tag = vstd::slice::slice_subrange(x.as_slice(), abs, e + 1);
                            let ghost before = rows_view(rows@);
                            let ghost rest = rows_from(x@, e + 1);
                            match row_of_tag_exec(tag) {
                                Some(row) => {
                                    rows.push(row);
                                    assert(rows_view(rows@) =~= before.push(row@));
                                    assert(rows_view(rows@) + rest =~= before + (seq![row@]
                                        + rest));
                                },
                                None => {},
                            }
                            from = e + 1;
                        },
                    }
                }
            },
        }
    }
    rows
}

// ── laws ────────────────────────────────────────────────────────────────────

/// A row is external when marked so, and whatever its mode, when its type is
/// a hyperlink or its target an absolute URI.
pub open spec fn row_external_ok(r: RowView) -> bool {
    external_relationship(r.rel_type, r.target) ==> r.external
}

/// Every parsed relationship row of a hyperlink type, or with an absolute-URI
/// target, is marked external.
pub proof fn lemma_rows_external(x: Seq<char>, from: int)
    ensures
        forall|k: int|
            0 <= k < rows_from(x, from).len() ==> row_external_ok(#[trigger] rows_from(x, from)[k]),
    decreases x.len() + 1 - from,
{
    if from >= 0 {
        match find_from(x, "<Relationship"@, from) {
            None => {},
            Some(abs) => {
                reveal_strlit("<Relationship");
                lemma_find_from(x, "<Relationship"@, from);
                let k = abs + "<Relationship"@.len();
                if !(k < x.len() && is_ascii_ws(x[k])) {
                    lemma_rows_external(x, k);
                    assert(rows_from(x, from) == rows_from(x, k));
                } else {
                    match find_from(x, seq!['>'], abs) {
                        None => {
                            assert(rows_from(x, from) =~= Seq::<RowView>::empty());
                        },
                        Some(e) => {
                            lemma_find_from(x, seq!['>'], abs);
                            lemma_rows_external(x, e + 1);
                            let rest = rows_from(x, e + 1);
                            match row_of_tag(x.subrange(abs, e + 1)) {
                                Some(r) => {
                                    assert(row_external_ok(r));
                                    let all = seq![r] + rest;
                                    assert(rows_from(x, from) == all);
                                    assert forall|j: int| 0 <= j < all.len() implies row_external_ok(
                                        #[trigger] all[j],
                                    ) by {
                                        if j > 0 {
                                            assert(all[j] == rest[j - 1]);
                                        }
                                    }
                                },
                                None => {
                                    assert(rows_from(x, from) == rest);
                                },
                            }
                        },
                    }
                }
            },
        }
    }
}

// ── relationship types ──────────────────────────────────────────────────────

/// The relationship-type suffix that an element's relationship id must
/// resolve to, by the element's local name.
pub open spec fn rel_type_suffix(local_name: Seq<char>) -> Option<Seq<char>> {
    if local_name == "hyperlink"@ || local_name == "hlinkClick"@ {
        Some("/hyperlink"@)
    } else if local_name == "chart"@ {
        Some("/chart"@)
    } else if local_name == "headerReference"@ {
        Some("/header"@)
    } else if local_name == "footerReference"@ {
        Some("/footer"@)
    } else if local_name == "blip"@ || local_name == "imagedata"@ {
        Some("/image"@)
    } else if local_name == "OLEObject"@ {
        Some("/oleObject"@)
    } else {
        None
    }
}

/// The relationship-type suffix an element's relationship id must resolve
/// to, by local name, or `None`.
pub fn required_rel_type_suffix(local_name: &str) -> (r: Option<&'static str>)
    ensures
        match r {
            Some(s) => rel_type_suffix(local_name@) == Some(s@),
            None => rel_type_suffix(local_name@) is None,
        },
{
    if str_eq(local_name, "hyperlink") || str_eq(local_name, "hlinkClick") {
        Some("/hyperlink")
    } else if str_eq(local_name, "chart") {
        Some("/chart")
    } else if str_eq(local_name, "headerReference") {
        Some("/header")
    } else if str_eq(local_name, "footerReference") {
        Some("/footer")
    } else if str_eq(local_name, "blip") || str_eq(local_name, "imagedata") {
        Some("/image")
    } else if str_eq(local_name, "OLEObject") {
        Some("/oleObject")
    } else {
        None
    }
}

/// Node `n` is a `w:ins` or `w:moveTo`.
pub open spec fn insertion_mark(d: Seq<NodeView>, n: int) -> bool {
    has_name(d, n, w_name("ins"@)) || has_name(d, n, w_name("moveTo"@))
}

/// Some ancestor of `n` is a `w:ins` or `w:moveTo`: the reference lies in
/// inserted or moved-in content.
pub open spec fn inside_inserted(d: Seq<NodeView>, n: int) -> bool {
    exists|k: int|
        0 <= k < ancestors_of(d, n).len() && #[trigger] insertion_mark(d, ancestors_of(d, n)[k] as int)
}

/// The element lies in inserted or moved-in content: a `w:ins` or
/// `w:moveTo` encloses it.
pub fn ref_from_inserted_content(dom: &Dom, el: NodeId) -> (r: bool)
    requires
        dom.wf(),
    ensures
        r == inside_inserted(dom@, el.0 as int),
{
    let ancs = dom.ancestors(el);
    let ghost av = ids(ancs@);
    let ins = W::name("ins");
    let move_to = W::name("moveTo");
    let mut k: usize = 0;
    while k < ancs.len()
        invariant
            av == ids(ancs@),
            av == ancestors_of(dom@, el.0 as int),
            ins@ == w_name("ins"@),
            move_to@ == w_name("moveTo"@),
            k <= ancs@.len(),
            forall|j: int| 0 <= j < k ==> !#[trigger] insertion_mark(dom@, av[j] as int),
        decreases ancs@.len() - k,
    {
        assert(av[k as int] == ancs@[k as int].0);
        let hit = dom.is_named(ancs[k], &ins) || dom.is_named(ancs[k], &move_to);
        assert(hit == insertion_mark(dom@, av[k as int] as int));
        if hit {
            return true;
        }
        k = k + 1;
    }
    false
}


/// A relationship tag gives a row exactly when it has `Id`, `Type` and
/// `Target` attributes; the row's id is the `Id` value, its type the `Type`
/// value and its target the decoded `Target` value, and it is external
/// exactly when its `TargetMode` is `External` or its type and target mark
/// it so.
pub proof fn lemma_row_reads_its_attributes(tag: Seq<char>)
    ensures
        (row_of_tag(tag) is Some) == (attr_value(tag, "Id"@) is Some && attr_value(tag, "Type"@) is Some && attr_value(
            tag,
            "Target"@,
        ) is Some),
        row_of_tag(tag) matches Some(row) ==> {
            &&& Some(row.id) == attr_value(tag, "Id"@)
            &&& Some(row.rel_type) == attr_value(tag, "Type"@)
            &&& Some(row.target) == match attr_value(tag, "Target"@) {
                Some(raw) => Some(decode_attribute(raw)),
                None => None,
            }
            &&& row.external == (attr_value(tag, "TargetMode"@) == Some("External"@) || external_relationship(
                row.rel_type,
                row.target,
            ))
        },
{
}

} // verus!
