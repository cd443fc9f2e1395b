//! The copy of block-level content that block hashes are taken over: markup
//! that does not change what a reader sees (bookmarks, property elements,
//! revision-session ids, annotation attributes) is left out, runs of plain
//! text are merged, text is normalised, and relationship ids are replaced by
//! what they resolve to.

use vstd::prelude::*;

use crate::comparer::preprocess::{rsid_attr, volatile_para_attr};
use crate::namespaces::{
    PT, W, a14_uri, a_uri, c_uri, dgm_uri, o_uri, pt_name, pt_uri, r_uri, vml_uri, w_name, wne_uri,
    wp14_uri, wp_uri, xmlns_uri,
};
use crate::comparer::atoms::{copy_opt_string, opt_str_view};
use crate::comparer::preprocess::{is_pt, is_rsid_attr, is_volatile_para_attr, null_rel_resolver};
use crate::text::{chars_of, push_char, str_eq, to_upper_case, unicode_upper};
use crate::tree::{
    built, extends, forest_in, fresh_ok, lemma_accumulate, lemma_built_leaf, lemma_built_nothing,
    lemma_extends_trans, lemma_forest_avoids, lemma_forest_extends, lemma_forest_from_index,
    lemma_forest_index, lemma_forest_push, lemma_forest_widen, lemma_loose_insert, lemma_push_keeps,
    lemma_tree_avoids, lemma_tree_extends, lemma_fresh_join_built, lemma_loose_drop, loose_roots,
    tree_in, TreeView,
};
use crate::xml::{
    attribute_of, attrs_of, attrs_view, elements_of, has_name, links_ok, name_of, select_below,
    selects, set_attr, with_attr, Attr, AttrView, Dom, ids, KindView, NodeId, NodeView, XName, XNameView,
};

verus! {

// ── names ───────────────────────────────────────────────────────────────────

/// The name `local` in namespace `ns`.
pub open spec fn nm(ns: Seq<char>, local: Seq<char>) -> XNameView {
    XNameView { namespace: ns, local }
}

/// The name `local` in no namespace.
pub open spec fn plain_name(local: Seq<char>) -> XNameView {
    nm(seq![], local)
}

/// Elements the hash form leaves out: bookmarks, paragraph and run
/// properties, and Office 2010 drawing extensions.
pub open spec fn hash_dropped(n: XNameView) -> bool {
    ||| n == w_name("bookmarkStart"@)
    ||| n == w_name("bookmarkEnd"@)
    ||| n == w_name("pPr"@)
    ||| n == w_name("rPr"@)
    ||| n.namespace == a14_uri()
}

/// Footnote and endnote references, which the hash form keeps bare.
pub open spec fn note_reference(n: XNameView) -> bool {
    n == w_name("footnoteReference"@) || n == w_name("endnoteReference"@)
}

/// Attributes that vary between saves of the same content.
pub open spec fn trimmed_when_cloning(n: XNameView) -> bool {
    ||| n == nm(wp14_uri(), "anchorId"@)
    ||| n == nm(wp14_uri(), "editId"@)
    ||| n == plain_name("ObjectID"@)
    ||| n == plain_name("ShapeID"@)
    ||| n == plain_name("id"@)
    ||| n == plain_name("type"@)
}

/// Attributes that hold a relationship id.
pub open spec fn relationship_attr(n: XNameView) -> bool {
    &&& n.namespace == r_uri()
    &&& {
        ||| n.local == "embed"@
        ||| n.local == "link"@
        ||| n.local == "id"@
        ||| n.local == "cs"@
        ||| n.local == "dm"@
        ||| n.local == "lo"@
        ||| n.local == "qs"@
        ||| n.local == "href"@
        ||| n.local == "pict"@
    }
}

/// WordprocessingML elements whose relationship ids are resolved.
pub open spec fn w_rel_element(l: Seq<char>) -> bool {
    ||| l == "altChunk"@
    ||| l == "attachedTemplate"@
    ||| l == "control"@
    ||| l == "dataSource"@
    ||| l == "embedBold"@
    ||| l == "embedBoldItalic"@
    ||| l == "embedItalic"@
    ||| l == "embedRegular"@
    ||| l == "footerReference"@
    ||| l == "headerReference"@
    ||| l == "headerSource"@
    ||| l == "hyperlink"@
    ||| l == "printerSettings"@
    ||| l == "recipientData"@
    ||| l == "saveThroughXslt"@
    ||| l == "sourceFileName"@
    ||| l == "src"@
    ||| l == "subDoc"@
}

/// Elements whose relationship ids are resolved.
pub open spec fn element_with_rel_ids(n: XNameView) -> bool {
    ||| n == nm(a_uri(), "blip"@)
    ||| n == nm(a_uri(), "hlinkClick"@)
    ||| n == nm(a_uri(), "relIds"@)
    ||| n == nm(c_uri(), "chart"@)
    ||| n == nm(c_uri(), "externalData"@)
    ||| n == nm(c_uri(), "userShapes"@)
    ||| n == nm(dgm_uri(), "relIds"@)
    ||| n == nm(o_uri(), "OLEObject"@)
    ||| n == nm(vml_uri(), "fill"@)
    ||| n == nm(vml_uri(), "imagedata"@)
    ||| n == nm(vml_uri(), "stroke"@)
    ||| (n.namespace == crate::namespaces::w_uri() && w_rel_element(n.local))
    ||| n == nm(wne_uri(), "toolbarData"@)
}

/// A namespace declaration attribute.
pub open spec fn ns_declaration(n: XNameView) -> bool {
    if n.namespace.len() == 0 {
        n.local == "xmlns"@
    } else {
        n.namespace == xmlns_uri()
    }
}

// ── attributes ──────────────────────────────────────────────────────────────

/// Which attributes a copy leaves out.
#[derive(Clone, Copy)]
pub enum AttrFilter {
    /// Paragraphs: revision-session ids, annotations and volatile ids.
    Para,
    /// VML shapes: annotations and `style`, `id`, `type`.
    Shape,
    /// OLE objects: annotations, `ObjectID` and `r:id`.
    OleObject,
    /// Embedded objects: annotations.
    Object,
    /// Drawing properties: annotations and `id`.
    DocPr,
    /// Anything else: annotations, volatile ids and attributes that vary
    /// between saves.
    Default,
}

/// Whether filter `f` leaves out attribute `a`.
pub open spec fn filter_drops(f: AttrFilter, a: XNameView) -> bool {
    match f {
        AttrFilter::Para => rsid_attr(a) || a.namespace == pt_uri() || volatile_para_attr(a),
        AttrFilter::Shape => a.namespace == pt_uri() || a == plain_name("style"@) || a
            == plain_name("id"@) || a == plain_name("type"@),
        AttrFilter::OleObject => a.namespace == pt_uri() || a == plain_name("ObjectID"@) || a
            == nm(r_uri(), "id"@),
        AttrFilter::Object => a.namespace == pt_uri(),
        AttrFilter::DocPr => a.namespace == pt_uri() || a == plain_name("id"@),
        AttrFilter::Default => a.namespace == pt_uri() || volatile_para_attr(a)
            || trimmed_when_cloning(a),
    }
}

/// `acc` with each attribute of `sets` set on it in order.
pub open spec fn set_all(acc: Seq<AttrView>, sets: Seq<AttrView>) -> Seq<AttrView>
    decreases sets.len(),
{
    if sets.len() == 0 {
        acc
    } else {
        let a = sets.last();
        set_attr(set_all(acc, sets.drop_last()), a.name, Some(a.value))
    }
}

/// The attributes of `src` that `f` keeps, in order.
pub open spec fn kept(src: Seq<AttrView>, f: AttrFilter) -> Seq<AttrView>
    decreases src.len(),
{
    if src.len() == 0 {
        seq![]
    } else {
        kept(src.drop_last(), f) + if filter_drops(f, src.last().name) {
            seq![]
        } else {
            seq![src.last()]
        }
    }
}

/// The attributes a new element gets when those of `src` that `f` keeps are
/// set on it in order.
pub open spec fn copied_attrs(src: Seq<AttrView>, f: AttrFilter) -> Seq<AttrView> {
    set_all(seq![], kept(src, f))
}

/// What a relationship id resolves to: the replacement of the first known
/// entry for it, else `NULL Relationship`.
pub open spec fn rel_lookup(known: Seq<(Seq<char>, Option<Seq<char>>)>, id: Seq<char>) -> Option<
    Seq<char>,
>
    decreases known.len(),
{
    if known.len() == 0 {
        Some("NULL Relationship"@)
    } else if known[0].0 == id {
        known[0].1
    } else {
        rel_lookup(known.drop_first(), id)
    }
}

/// The attributes of an element with relationship ids to set, in order:
/// annotations and attributes that vary between saves left out, each
/// relationship id replaced by what it resolves to (and left out when that
/// is nothing), the rest as they are.
pub open spec fn rel_kept(src: Seq<AttrView>, known: Seq<(Seq<char>, Option<Seq<char>>)>) -> Seq<
    AttrView,
>
    decreases src.len(),
{
    if src.len() == 0 {
        seq![]
    } else {
        let a = src.last();
        rel_kept(src.drop_last(), known) + if a.name.namespace == pt_uri() || trimmed_when_cloning(
            a.name,
        ) {
            seq![]
        } else if relationship_attr(a.name) {
            match rel_lookup(known, a.value) {
                Some(v) => seq![AttrView { name: a.name, value: v }],
                None => seq![],
            }
        } else {
            seq![a]
        }
    }
}

/// The attributes of an element with relationship ids.
pub open spec fn rel_attrs(src: Seq<AttrView>, known: Seq<(Seq<char>, Option<Seq<char>>)>) -> Seq<
    AttrView,
> {
    set_all(seq![], rel_kept(src, known))
}

// ── text ────────────────────────────────────────────────────────────────────

/// How text is normalised before hashing.
#[derive(Clone, Copy)]
pub struct TextTransform {
    /// Compare case-insensitively: text is upper-cased.
    pub case_insensitive: bool,
    /// Treat breaking and non-breaking spaces alike: spaces become
    /// non-breaking.
    pub conflate_breaking_and_nonbreaking_spaces: bool,
}

/// `t` with each space made a non-breaking space.
pub open spec fn nbsp_for_spaces(t: Seq<char>) -> Seq<char> {
    Seq::new(t.len(), |i: int| if t[i] == ' ' { '\u{a0}' } else { t[i] })
}

/// `t` normalised as `tt` asks: upper-cased first, then spaces made
/// non-breaking.
pub open spec fn transformed(t: Seq<char>, tt: TextTransform) -> Seq<char> {
    let u = if tt.case_insensitive {
        unicode_upper(t)
    } else {
        t
    };
    if tt.conflate_breaking_and_nonbreaking_spaces {
        nbsp_for_spaces(u)
    } else {
        u
    }
}

// ── trees ───────────────────────────────────────────────────────────────────

/// The text of a tree: its text nodes' values in document order.
pub open spec fn tree_text(t: TreeView) -> Seq<char>
    decreases t,
{
    match t {
        TreeView::Text { value } => value,
        TreeView::Element { kids, .. } => forest_text(kids),
        TreeView::Document { kids } => forest_text(kids),
    }
}

/// The text of a sequence of trees.
pub open spec fn forest_text(ts: Seq<TreeView>) -> Seq<char>
    decreases ts,
{
    if ts.len() == 0 {
        seq![]
    } else {
        forest_text(ts.subrange(0, ts.len() - 1)) + tree_text(ts[ts.len() - 1])
    }
}

/// The elements among `ts`, in order.
pub open spec fn only_elements(ts: Seq<TreeView>) -> Seq<TreeView>
    decreases ts.len(),
{
    if ts.len() == 0 {
        seq![]
    } else {
        only_elements(ts.drop_last()) + if ts.last() is Element {
            seq![ts.last()]
        } else {
            seq![]
        }
    }
}

/// The name of a tree that is an element.
pub open spec fn tree_name(t: TreeView) -> Option<XNameView> {
    match t {
        TreeView::Element { name, .. } => Some(name),
        _ => None,
    }
}

/// A run whose only child element is a text element.
pub open spec fn single_t_run_tree(t: TreeView) -> bool {
    match t {
        TreeView::Element { name, kids, .. } => {
            &&& name == w_name("r"@)
            &&& only_elements(kids).len() == 1
            &&& tree_name(only_elements(kids)[0]) == Some(w_name("t"@))
        },
        _ => false,
    }
}

/// The salt that marks content of earlier deletions.
pub open spec fn salt_name() -> XNameView {
    pt_name("PreDeleteSalt"@)
}

/// How a paragraph child merges with its neighbours: 0 for one that does
/// not, 1 for a plain-text run, 2 for a salted plain-text run.
pub open spec fn merge_kind(t: TreeView) -> u8 {
    if !single_t_run_tree(t) {
        0
    } else if crate::xml::attr_lookup(t->Element_attrs, salt_name()) is Some {
        2
    } else {
        1
    }
}

/// A merged run of kind `k` holding text `txt`.
pub open spec fn merged_run(k: u8, txt: Seq<char>, tt: TextTransform) -> TreeView {
    TreeView::Element {
        name: w_name("r"@),
        attrs: if k == 2 {
            set_all(seq![], seq![AttrView { name: salt_name(), value: "1"@ }])
        } else {
            seq![]
        },
        kids: seq![
            TreeView::Element {
                name: w_name("t"@),
                attrs: seq![],
                kids: seq![TreeView::Text { value: transformed(txt, tt) }],
            },
        ],
    }
}

/// `em` with the open merged run, if any, closed and appended.
pub open spec fn flushed(em: Seq<TreeView>, open: Option<(u8, Seq<char>)>, tt: TextTransform) -> Seq<
    TreeView,
> {
    match open {
        Some((k, txt)) => em.push(merged_run(k, txt, tt)),
        None => em,
    }
}

/// The paragraph children so far, and the merged run still open, after the
/// element children `ts` in order: adjacent plain-text runs of one kind
/// are merged into one run holding their text; every other element stays.
pub open spec fn merge_runs(ts: Seq<TreeView>, tt: TextTransform) -> (Seq<TreeView>, Option<
    (u8, Seq<char>),
>)
    decreases ts.len(),
{
    if ts.len() == 0 {
        (seq![], None)
    } else {
        let (em, open) = merge_runs(ts.drop_last(), tt);
        let t = ts.last();
        let k = merge_kind(t);
        if k == 0 {
            (flushed(em, open, tt).push(t), None)
        } else {
            match open {
                Some((k2, txt)) => if k2 == k {
                    (em, Some((k, txt + tree_text(t))))
                } else {
                    (flushed(em, open, tt), Some((k, tree_text(t))))
                },
                None => (em, Some((k, tree_text(t)))),
            }
        }
    }
}

/// The children of a paragraph's hash form, from the hash forms `ts` of its
/// children: the elements, with adjacent plain-text runs merged.
pub open spec fn para_kids(ts: Seq<TreeView>, tt: TextTransform) -> Seq<TreeView> {
    let (em, open) = merge_runs(only_elements(ts), tt);
    flushed(em, open, tt)
}

/// `t` with the salt set, when it is an element.
pub open spec fn salted(t: TreeView) -> TreeView {
    match t {
        TreeView::Element { name, attrs, kids } => TreeView::Element {
            name,
            attrs: set_attr(attrs, salt_name(), Some("1"@)),
            kids,
        },
        _ => t,
    }
}

// ── the hash form ───────────────────────────────────────────────────────────

/// What the hash form depends on besides the tree.
pub struct HashOptions {
    /// Resolve relationship ids.
    pub include_related_parts: bool,
    /// Text normalisation.
    pub tt: TextTransform,
    /// Known relationship ids and what they resolve to.
    pub known: Seq<(Seq<char>, Option<Seq<char>>)>,
}

/// A verbatim copy of node `n` down to `f` levels.
pub open spec fn copy_tree(d: Seq<NodeView>, n: int, f: nat) -> TreeView
    decreases f, 0int,
{
    if f == 0 || !(0 <= n < d.len()) {
        TreeView::Document { kids: seq![] }
    } else {
        match d[n].kind {
            KindView::Document => TreeView::Document { kids: copy_forest(d, d[n].children, (f - 1) as nat) },
            KindView::Element { name, attrs } => TreeView::Element {
                name,
                attrs,
                kids: copy_forest(d, d[n].children, (f - 1) as nat),
            },
            KindView::Text { value } => TreeView::Text { value },
        }
    }
}

/// Verbatim copies of the nodes `cs` down to `f` levels.
pub open spec fn copy_forest(d: Seq<NodeView>, cs: Seq<usize>, f: nat) -> Seq<TreeView>
    decreases f, cs.len() + 1,
{
    if cs.len() == 0 {
        seq![]
    } else {
        copy_forest(d, cs.drop_last(), f).push(copy_tree(d, cs.last() as int, f))
    }
}

/// The hash form of node `n` down to `f` levels: the unsalted form, with
/// each element salted when `n` is content of an earlier deletion.
pub open spec fn hash_form(d: Seq<NodeView>, n: int, f: nat, o: HashOptions) -> Seq<TreeView>
    decreases f, 1int,
{
    let out = hash_form_unsalted(d, n, f, o);
    if attribute_of(d, n, pt_name("PreDelete"@)) == Some("orig"@) {
        Seq::new(out.len(), |i: int| salted(out[i]))
    } else {
        out
    }
}

/// The hash forms of the nodes `cs`, one after another.
pub open spec fn hash_forms(d: Seq<NodeView>, cs: Seq<usize>, f: nat, o: HashOptions) -> Seq<TreeView>
    decreases f, cs.len() + 2,
{
    if cs.len() == 0 {
        seq![]
    } else {
        hash_forms(d, cs.drop_last(), f, o) + hash_form(d, cs.last() as int, f, o)
    }
}

/// The hash form of a run: each child element other than the run
/// properties in a run of its own.
pub open spec fn run_pieces(d: Seq<NodeView>, cs: Seq<usize>, f: nat, o: HashOptions) -> Seq<TreeView>
    decreases f, cs.len() + 2,
{
    if cs.len() == 0 {
        seq![]
    } else {
        let prev = run_pieces(d, cs.drop_last(), f, o);
        let c = cs.last() as int;
        if name_of(d, c) is Some && name_of(d, c) != Some(w_name("rPr"@)) {
            prev.push(
                TreeView::Element { name: w_name("r"@), attrs: seq![], kids: hash_form(d, c, f, o) },
            )
        } else {
            prev
        }
    }
}

/// An element named `name` without attributes, over `kids`.
pub open spec fn bare(name: XNameView, kids: Seq<TreeView>) -> TreeView {
    TreeView::Element { name, attrs: seq![], kids }
}

/// The hash form of node `n` down to `f` levels, before salting: nothing at
/// the last level; a text node normalised; other nodes that are not
/// elements copied; dropped elements left out; note references bare; a
/// paragraph with its children's hash forms, plain-text runs merged; a run
/// split into one run per child element; table parts with only their rows,
/// cells and spans; relationship ids resolved when asked; shapes, OLE
/// objects, objects, drawing properties and everything else with their
/// attributes filtered.
pub open spec fn hash_form_unsalted(d: Seq<NodeView>, n: int, f: nat, o: HashOptions) -> Seq<TreeView>
    decreases f, 0int,
{
    if f == 0 || !(0 <= n < d.len()) {
        seq![]
    } else {
        let g = (f - 1) as nat;
        let cs = d[n].children;
        match d[n].kind {
            KindView::Text { value } => seq![TreeView::Text { value: transformed(value, o.tt) }],
            KindView::Document => seq![copy_tree(d, n, f)],
            KindView::Element { name, attrs } => {
                if hash_dropped(name) {
                    seq![]
                } else if note_reference(name) {
                    seq![bare(name, seq![])]
                } else if name == w_name("p"@) {
                    seq![
                        TreeView::Element {
                            name,
                            attrs: copied_attrs(attrs, AttrFilter::Para),
                            kids: para_kids(hash_forms(d, cs, g, o), o.tt),
                        },
                    ]
                } else if name == w_name("r"@) {
                    run_pieces(d, cs, g, o)
                } else if name == w_name("tbl"@) {
                    seq![bare(name, hash_forms(d, elements_of(d, n, Some(w_name("tr"@))), g, o))]
                } else if name == w_name("tr"@) {
                    seq![bare(name, hash_forms(d, elements_of(d, n, Some(w_name("tc"@))), g, o))]
                } else if name == w_name("tc"@) {
                    seq![bare(name, hash_forms(d, elements_of(d, n, None), g, o))]
                } else if name == w_name("tcPr"@) {
                    seq![bare(name, hash_forms(d, elements_of(d, n, Some(w_name("gridSpan"@))), g, o))]
                } else if name == w_name("gridSpan"@) {
                    seq![
                        TreeView::Element {
                            name,
                            attrs: set_all(
                                seq![],
                                seq![
                                    AttrView {
                                        name: plain_name("val"@),
                                        value: match attribute_of(d, n, w_name("val"@)) {
                                            Some(v) => v,
                                            None => seq![],
                                        },
                                    },
                                ],
                            ),
                            kids: seq![],
                        },
                    ]
                } else if name == w_name("txbxContent"@) {
                    seq![bare(name, hash_forms(d, elements_of(d, n, None), g, o))]
                } else if o.include_related_parts && element_with_rel_ids(name) {
                    seq![
                        TreeView::Element {
                            name,
                            attrs: rel_attrs(attrs, o.known),
                            kids: hash_forms(d, cs, g, o),
                        },
                    ]
                } else {
                    let af = if name == nm(vml_uri(), "shape"@) {
                        AttrFilter::Shape
                    } else if name == nm(o_uri(), "OLEObject"@) {
                        AttrFilter::OleObject
                    } else if name == w_name("object"@) {
                        AttrFilter::Object
                    } else if name == nm(wp_uri(), "docPr"@) {
                        AttrFilter::DocPr
                    } else {
                        AttrFilter::Default
                    };
                    seq![
                        TreeView::Element {
                            name,
                            attrs: copied_attrs(attrs, af),
                            kids: hash_forms(d, cs, g, o),
                        },
                    ]
                }
            },
        }
    }
}


// ── relationship ids ────────────────────────────────────────────────────────

/// Relationship ids and what they resolve to: a known id maps to its
/// replacement, or to nothing (the attribute is then left out); any other id
/// resolves as `null_rel_resolver` has it.
pub struct RelHashResolver {
    /// The known ids, the first entry for an id counting.
    pub known: Vec<(String, Option<String>)>,
}

/// The view of known relationship ids.
pub open spec fn known_view(v: Seq<(String, Option<String>)>) -> Seq<(Seq<char>, Option<Seq<char>>)> {
    v.map_values(|e: (String, Option<String>)| (e.0@, opt_str_view(e.1)))
}

impl View for RelHashResolver {
    type V = Seq<(Seq<char>, Option<Seq<char>>)>;

    open spec fn view(&self) -> Self::V {
        known_view(self.known@)
    }
}

impl RelHashResolver {
    /// The resolver that knows no id: every id resolves to
    /// `NULL Relationship`.
    pub fn new() -> (r: Self)
        ensures
            r@ == Seq::<(Seq<char>, Option<Seq<char>>)>::empty(),
    {
        let r = RelHashResolver { known: Vec::new() };
        assert(r@ =~= Seq::<(Seq<char>, Option<Seq<char>>)>::empty());
        r
    }

    /// What relationship id `id` resolves to.
    pub fn resolve(&self, id: &str) -> (r: Option<String>)
        ensures
            opt_str_view(r) == rel_lookup(self@, id@),
    {
        let ghost k = self@;
        let mut i: usize = 0;
        assert(k.skip(0) =~= k);
        while i < self.known.len()
            invariant
                i <= self.known@.len(),
                k == self@,
                k.len() == self.known@.len(),
                rel_lookup(k, id@) == rel_lookup(k.skip(i as int), id@),
            decreases self.known@.len() - i,
        {
            assert(k.skip(i as int)[0] == k[i as int]);
            assert(k[i as int].0 == self.known@[i as int].0@);
            assert(k[i as int].1 == opt_str_view(self.known@[i as int].1));
            if str_eq(self.known[i].0.as_str(), id) {
                return copy_opt_string(&self.known[i].1);
            }
            assert(k.skip(i as int).drop_first() =~= k.skip(i + 1));
            i = i + 1;
        }
        assert(k.skip(i as int) =~= Seq::<(Seq<char>, Option<Seq<char>>)>::empty());
        null_rel_resolver(id)
    }
}

// ── text and names ──────────────────────────────────────────────────────────

/// `text` normalised as `tt` asks: upper-cased first, then spaces made
/// non-breaking.
pub fn apply_text_transform(text: &str, tt: TextTransform) -> (r: String)
    ensures
        r@ == transformed(text@, tt),
{
    let t = if tt.case_insensitive {
        to_upper_case(text)
    } else {
        String::from_str(text)
    };
    if tt.conflate_breaking_and_nonbreaking_spaces {
        let cs = chars_of(t.as_str());
        let mut out = String::new();
        let mut i: usize = 0;
        assert(nbsp_for_spaces(cs@.take(0)) =~= Seq::<char>::empty());
        while i < cs.len()
            invariant
                cs@ == t@,
                i <= cs@.len(),
                out@ == nbsp_for_spaces(cs@.take(i as int)),
            decreases cs@.len() - i,
        {
            let c = if cs[i] == ' ' {
                '\u{a0}'
            } else {
                cs[i]
            };
            push_char(&mut out, c);
            assert(nbsp_for_spaces(cs@.take(i + 1)) =~= nbsp_for_spaces(cs@.take(i as int)).push(c));
            i = i + 1;
        }
        assert(cs@.take(cs@.len() as int) =~= cs@);
        out
    } else {
        t
    }
}

/// Whether `n` is the name `local` in namespace `ns`.
fn name_is(n: &XName, ns: &str, local: &str) -> (r: bool)
    ensures
        r == (n@ == nm(ns@, local@)),
{
    str_eq(n.namespace_name(), ns) && str_eq(n.local_name(), local)
}

/// Whether `n` is the name `local` in no namespace.
fn plain_is(n: &XName, local: &str) -> (r: bool)
    ensures
        r == (n@ == plain_name(local@)),
{
    proof {
        reveal_strlit("");
    }
    assert(""@ =~= Seq::<char>::empty());
    name_is(n, "", local)
}

/// Whether attribute `n` varies between saves of the same content.
fn is_trimmed_when_cloning(n: &XName) -> (r: bool)
    ensures
        r == trimmed_when_cloning(n@),
{
    let wp14 = "http://schemas.microsoft.com/office/word/2010/wordprocessingDrawing";
    name_is(n, wp14, "anchorId") || name_is(n, wp14, "editId") || plain_is(n, "ObjectID")
        || plain_is(n, "ShapeID") || plain_is(n, "id") || plain_is(n, "type")
}

/// Whether attribute `n` holds a relationship id.
fn is_relationship_attr(n: &XName) -> (r: bool)
    ensures
        r == relationship_attr(n@),
{
    let l = n.local_name();
    str_eq(n.namespace_name(), "http://schemas.openxmlformats.org/officeDocument/2006/relationships")
        && (str_eq(l, "embed") || str_eq(l, "link") || str_eq(l, "id") || str_eq(l, "cs")
        || str_eq(l, "dm") || str_eq(l, "lo") || str_eq(l, "qs") || str_eq(l, "href") || str_eq(
        l,
        "pict",
    ))
}

/// Whether element `n` has relationship ids that are resolved.
fn is_element_with_rel_ids(n: &XName) -> (r: bool)
    ensures
        r == element_with_rel_ids(n@),
{
    let a = "http://schemas.openxmlformats.org/drawingml/2006/main";
    let c = "http://schemas.openxmlformats.org/drawingml/2006/chart";
    let v = "urn:schemas-microsoft-com:vml";
    let l = n.local_name();
    let in_w = str_eq(n.namespace_name(), "http://schemas.openxmlformats.org/wordprocessingml/2006/main")
        && (str_eq(l, "altChunk") || str_eq(l, "attachedTemplate") || str_eq(l, "control")
        || str_eq(l, "dataSource") || str_eq(l, "embedBold") || str_eq(l, "embedBoldItalic")
        || str_eq(l, "embedItalic") || str_eq(l, "embedRegular") || str_eq(l, "footerReference")
        || str_eq(l, "headerReference") || str_eq(l, "headerSource") || str_eq(l, "hyperlink")
        || str_eq(l, "printerSettings") || str_eq(l, "recipientData") || str_eq(
        l,
        "saveThroughXslt",
    ) || str_eq(l, "sourceFileName") || str_eq(l, "src") || str_eq(l, "subDoc"));
    name_is(n, a, "blip") || name_is(n, a, "hlinkClick") || name_is(n, a, "relIds") || name_is(
        n,
        c,
        "chart",
    ) || name_is(n, c, "externalData") || name_is(n, c, "userShapes") || name_is(
        n,
        "http://schemas.openxmlformats.org/drawingml/2006/diagram",
        "relIds",
    ) || name_is(n, "urn:schemas-microsoft-com:office:office", "OLEObject") || name_is(
        n,
        v,
        "fill",
    ) || name_is(n, v, "imagedata") || name_is(n, v, "stroke") || in_w || name_is(
        n,
        "http://schemas.microsoft.com/office/word/2006/wordml",
        "toolbarData",
    )
}

/// Whether attribute `n` declares a namespace.
pub fn is_namespace_declaration(n: &XName) -> (r: bool)
    ensures
        r == ns_declaration(n@),
{
    proof {
        reveal_strlit("");
    }
    assert(n@.namespace.len() == 0 ==> n@.namespace =~= ""@);
    if str_eq(n.namespace_name(), "") {
        str_eq(n.local_name(), "xmlns")
    } else {
        str_eq(n.namespace_name(), "http://www.w3.org/2000/xmlns/")
    }
}

/// Whether filter `f` leaves out attribute `a`.
pub fn drops_attr(f: AttrFilter, a: &XName) -> (r: bool)
    ensures
        r == filter_drops(f, a@),
{
    match f {
        AttrFilter::Para => is_rsid_attr(a) || is_pt(a) || is_volatile_para_attr(a),
        AttrFilter::Shape => is_pt(a) || plain_is(a, "style") || plain_is(a, "id") || plain_is(
            a,
            "type",
        ),
        AttrFilter::OleObject => is_pt(a) || plain_is(a, "ObjectID") || name_is(
            a,
            "http://schemas.openxmlformats.org/officeDocument/2006/relationships",
            "id",
        ),
        AttrFilter::Object => is_pt(a),
        AttrFilter::DocPr => is_pt(a) || plain_is(a, "id"),
        AttrFilter::Default => is_pt(a) || is_volatile_para_attr(a) || is_trimmed_when_cloning(a),
    }
}

/// A copy of an attribute.
fn copy_attr(a: &Attr) -> (r: Attr)
    ensures
        r@ == a@,
{
    Attr { name: a.name.clone(), value: a.value.clone() }
}

/// The attributes of `src` that `f` keeps, in order.
fn kept_of(dom: &Dom, src: NodeId, f: AttrFilter) -> (r: Vec<Attr>)
    ensures
        attrs_view(r@) == kept(attrs_of(dom@, src.0 as int), f),
{
    let ghost a = attrs_of(dom@, src.0 as int);
    let n = dom.attr_count(src);
    let mut out: Vec<Attr> = Vec::new();
    let mut i: usize = 0;
    assert(attrs_view(out@) =~= kept(a.take(0), f));
    while i < n
        invariant
            a == attrs_of(dom@, src.0 as int),
            n == a.len(),
            i <= n,
            attrs_view(out@) == kept(a.take(i as int), f),
        decreases n - i,
    {
        assert(a.take(i + 1).drop_last() =~= a.take(i as int));
        match dom.attr_at(src, i) {
            Some(at) => {
                if !drops_attr(f, &at.name) {
                    let c = copy_attr(at);
                    let ghost before = attrs_view(out@);
                    out.push(c);
                    assert(attrs_view(out@) =~= before.push(c@));
                } else {
                    assert(kept(a.take(i + 1), f) =~= kept(a.take(i as int), f));
                }
            },
            None => {},
        }
        i = i + 1;
    }
    assert(a.take(n as int) =~= a);
    out
}

/// The attributes to set on the copy of `src`, an element with relationship
/// ids, in order.
fn rel_kept_of(dom: &Dom, src: NodeId, rels: &RelHashResolver) -> (r: Vec<Attr>)
    ensures
        attrs_view(r@) == rel_kept(attrs_of(dom@, src.0 as int), rels@),
{
    let ghost a = attrs_of(dom@, src.0 as int);
    let n = dom.attr_count(src);
    let mut out: Vec<Attr> = Vec::new();
    let mut i: usize = 0;
    assert(attrs_view(out@) =~= rel_kept(a.take(0), rels@));
    while i < n
        invariant
            a == attrs_of(dom@, src.0 as int),
            n == a.len(),
            i <= n,
            attrs_view(out@) == rel_kept(a.take(i as int), rels@),
        decreases n - i,
    {
        assert(a.take(i + 1).drop_last() =~= a.take(i as int));
        match dom.attr_at(src, i) {
            Some(at) => {
                let ghost before = attrs_view(out@);
                if is_pt(&at.name) || is_trimmed_when_cloning(&at.name) {
                    assert(rel_kept(a.take(i + 1), rels@) =~= before);
                } else if is_relationship_attr(&at.name) {
                    match rels.resolve(at.value.as_str()) {
                        Some(v) => {
                            let c = Attr { name: at.name.clone(), value: v };
                            out.push(c);
                            assert(attrs_view(out@) =~= before.push(c@));
                        },
                        None => {
                            assert(rel_kept(a.take(i + 1), rels@) =~= before);
                        },
                    }
                } else {
                    let c = copy_attr(at);
                    out.push(c);
                    assert(attrs_view(out@) =~= before.push(c@));
                }
            },
            None => {},
        }
        i = i + 1;
    }
    assert(a.take(n as int) =~= a);
    out
}


// ── building trees ──────────────────────────────────────────────────────────

/// A new element named `name` with the attributes `sets` set on it in order,
/// without parent or children.
fn new_leaf_element(dom: &mut Dom, name: XName, sets: &Vec<Attr>) -> (r: NodeId)
    requires
        old(dom).wf(),
    ensures
        final(dom).wf(),
        r.0 == old(dom)@.len(),
        final(dom)@ == old(dom)@.push(
            NodeView {
                kind: KindView::Element { name: name@, attrs: set_all(seq![], attrs_view(sets@)) },
                parent: None,
                children: seq![],
            },
        ),
{
    let ghost nv = name@;
    let ghost sv = attrs_view(sets@);
    let ne = dom.new_element(name);
    let mut i: usize = 0;
    assert(sv.take(0) =~= Seq::<AttrView>::empty());
    while i < sets.len()
        invariant
            dom.wf(),
            ne.0 == old(dom)@.len(),
            sv == attrs_view(sets@),
            i <= sets@.len(),
            dom@ == old(dom)@.push(
                NodeView {
                    kind: KindView::Element { name: nv, attrs: set_all(seq![], sv.take(i as int)) },
                    parent: None,
                    children: seq![],
                },
            ),
        decreases sets@.len() - i,
    {
        assert(sv.take(i + 1).drop_last() =~= sv.take(i as int));
        assert(sv.take(i + 1).last() == sets@[i as int]@);
        dom.set_attribute_value(ne, &sets[i].name, Some(sets[i].value.as_str()));
        i = i + 1;
        assert(dom@ =~= old(dom)@.push(
            NodeView {
                kind: KindView::Element { name: nv, attrs: set_all(seq![], sv.take(i as int)) },
                parent: None,
                children: seq![],
            },
        ));
    }
    assert(sv.take(sets@.len() as int) =~= sv);
    ne
}

/// Makes the parentless trees `kids` the children of the new node `ne`, in
/// order.
pub(crate) fn adopt(dom: &mut Dom, ne: NodeId, kids: &Vec<NodeId>, Ghost(lo): Ghost<int>, Ghost(kts): Ghost<Seq<TreeView>>)
    requires
        old(dom).wf(),
        0 <= lo <= ne.0 < old(dom)@.len(),
        old(dom)@[ne.0 as int].children.len() == 0,
        old(dom)@[ne.0 as int].parent is None,
        fresh_ok(old(dom)@, lo, old(dom)@.len() as int),
        loose_roots(old(dom)@, ids(kids@), lo, old(dom)@.len() as int),
        forall|j: int| 0 <= j < kids@.len() ==> #[trigger] kids@[j].0 != ne.0,
        forest_in(old(dom)@, ids(kids@), kts, lo, old(dom)@.len() as int),
    ensures
        final(dom).wf(),
        final(dom)@.len() == old(dom)@.len(),
        forall|k: int| 0 <= k < lo ==> #[trigger] final(dom)@[k] == old(dom)@[k],
        final(dom)@[ne.0 as int].kind == old(dom)@[ne.0 as int].kind,
        final(dom)@[ne.0 as int].children == ids(kids@),
        final(dom)@[ne.0 as int].parent is None,
        fresh_ok(final(dom)@, lo, final(dom)@.len() as int),
        forest_in(final(dom)@, ids(kids@), kts, lo, final(dom)@.len() as int),
{
    let ghost d = dom@;
    let ghost ks = ids(kids@);
    let ghost hi = d.len() as int;
    let total = dom.len();
    let mut j: usize = 0;
    assert(ks.take(0) =~= Seq::<usize>::empty());
    while j < kids.len()
        invariant
            dom.wf(),
            d == old(dom)@,
            hi == total,
            ks == ids(kids@),
            hi == d.len(),
            dom@.len() == d.len(),
            0 <= lo <= ne.0 < hi,
            j <= kids@.len(),
            loose_roots(d, ks, lo, hi),
            forall|m: int| 0 <= m < ks.len() ==> #[trigger] ks[m] != ne.0,
            dom@[ne.0 as int].kind == d[ne.0 as int].kind,
            dom@[ne.0 as int].children == ks.take(j as int),
            dom@[ne.0 as int].parent is None,
            forall|k: int|
                0 <= k < hi && k != ne.0 ==> #[trigger] dom@[k].kind == d[k].kind && dom@[k].children
                    == d[k].children && dom@[k].parent == if ks.take(j as int).contains(k as usize) {
                    Some(ne.0)
                } else {
                    d[k].parent
                },
        decreases kids@.len() - j,
    {
        let c = kids[j];
        assert(ks[j as int] == c.0);
        assert(!ks.take(j as int).contains(c.0)) by {
            if ks.take(j as int).contains(c.0) {
                let m = choose|m: int| 0 <= m < j && #[trigger] ks.take(j as int)[m] == c.0;
                assert(ks[m] == ks[j as int]);
            }
        }
        assert(d[ks[j as int] as int].parent is None);
        assert(dom@[c.0 as int].kind == d[c.0 as int].kind);
        assert(dom@[c.0 as int].parent is None);
        let ghost before = dom@;
        dom.add(ne, c);
        assert(ks.take(j + 1) =~= ks.take(j as int).push(c.0));
        assert forall|k: int| 0 <= k < hi && k != ne.0 implies #[trigger] dom@[k].kind == d[k].kind
            && dom@[k].children == d[k].children && dom@[k].parent == if ks.take(j + 1).contains(
            k as usize,
        ) {
            Some(ne.0)
        } else {
            d[k].parent
        } by {
            if k == c.0 {
                assert(ks.take(j + 1).contains(c.0)) by {
                    assert(ks.take(j + 1)[j as int] == c.0);
                }
            } else {
                assert(dom@[k] == before[k]);
                if ks.take(j + 1).contains(k as usize) {
                    let m = choose|m: int| 0 <= m < j + 1 && #[trigger] ks.take(j + 1)[m] == k as usize;
                    assert(ks.take(j + 1)[j as int] == c.0);
                    assert(m != j);
                    assert(ks.take(j as int)[m] == k as usize);
                }
                if ks.take(j as int).contains(k as usize) {
                    let m = choose|m: int| 0 <= m < j && #[trigger] ks.take(j as int)[m] == k as usize;
                    assert(ks.take(j + 1)[m] == k as usize);
                }
            }
        }
        j = j + 1;
    }
    assert(ks.take(kids@.len() as int) =~= ks);
    proof {
        // The kids' trees do not contain `ne`: nothing of the range lists it.
        assert forall|x: int, m: int| lo <= x < hi && 0 <= m < d[x].children.len() implies #[trigger] d[x].children[m] != ne.0 by {
            if d[x].children[m] == ne.0 {
                assert(d[ne.0 as int].parent == Some(x as usize));
            }
        }
        assert forall|k: int| lo <= k < hi && k != ne.0 implies #[trigger] dom@[k].kind == d[k].kind && dom@[k].children == d[k].children by {}
        assert forall|m: int| 0 <= m < ks.len() implies #[trigger] ks[m] != ne.0 by {}
        lemma_forest_avoids(d, dom@, ks, kts, lo, hi, ne.0 as int);
        assert forall|k: int| 0 <= k < lo implies #[trigger] dom@[k] == d[k] by {
            assert(k != ne.0);
            assert(dom@[k].kind == d[k].kind);
            if ks.contains(k as usize) {
                let m = choose|m: int| 0 <= m < ks.len() && #[trigger] ks[m] == k as usize;
                assert(lo <= ks[m]);
            }
        }
        assert forall|x: int, m: int| lo <= x < hi && 0 <= m < dom@[x].children.len() implies {
            let c = #[trigger] dom@[x].children[m] as int;
            &&& lo <= c < hi
            &&& dom@[c].parent == Some(x as usize)
        } by {
            if x == ne.0 {
                let c = ks[m];
                assert(ks.contains(c));
                assert(c != ne.0);
                assert(dom@[c as int].kind == d[c as int].kind);
            } else {
                assert(dom@[x].kind == d[x].kind);
                let c = d[x].children[m] as int;
                assert(d[c].parent == Some(x as usize));
                if ks.contains(c as usize) {
                    let q = choose|q: int| 0 <= q < ks.len() && #[trigger] ks[q] == c as usize;
                    assert(d[ks[q] as int].parent is None);
                }
                assert(c != ne.0);
                assert(dom@[c].kind == d[c].kind);
            }
        }
    }
}


/// A new element named `name`, the attributes `sets` set on it in order,
/// over the parentless trees `kids`, all built since the arena was `e`.
pub(crate) fn wrap(
    dom: &mut Dom,
    name: XName,
    sets: &Vec<Attr>,
    kids: &Vec<NodeId>,
    Ghost(e): Ghost<Seq<NodeView>>,
    Ghost(kts): Ghost<Seq<TreeView>>,
) -> (r: NodeId)
    requires
        old(dom).wf(),
        extends(e, old(dom)@),
        fresh_ok(old(dom)@, e.len() as int, old(dom)@.len() as int),
        loose_roots(old(dom)@, ids(kids@), e.len() as int, old(dom)@.len() as int),
        forest_in(old(dom)@, ids(kids@), kts, e.len() as int, old(dom)@.len() as int),
    ensures
        final(dom).wf(),
        built(
            e,
            final(dom)@,
            seq![r.0],
            seq![
                TreeView::Element {
                    name: name@,
                    attrs: set_all(seq![], attrs_view(sets@)),
                    kids: kts,
                },
            ],
        ),
{
    let ghost d1 = dom@;
    let ghost lo = e.len() as int;
    let ghost t = TreeView::Element { name: name@, attrs: set_all(seq![], attrs_view(sets@)), kids: kts };
    let ne = new_leaf_element(dom, name, sets);
    proof {
        lemma_push_keeps(d1, dom@.last(), lo, ids(kids@), kts);
        assert(dom@ =~= d1.push(dom@.last()));
        assert forall|j: int| 0 <= j < kids@.len() implies #[trigger] kids@[j].0 != ne.0 by {
            assert(ids(kids@)[j] == kids@[j].0);
        }
    }
    let ghost d2 = dom@;
    adopt(dom, ne, kids, Ghost(lo), Ghost(kts));
    proof {
        let d3 = dom@;
        assert(tree_in(d3, ne.0 as int, t, lo, d3.len() as int));
        lemma_forest_push(d3, seq![], seq![], ne.0, t, lo, d3.len() as int);
        assert(seq![].push(ne.0) =~= seq![ne.0]);
        assert(seq![].push(t) =~= seq![t]);
        assert forall|k: int| 0 <= k < e.len() implies #[trigger] d3[k] == e[k] by {
            assert(d3[k] == d2[k]);
            assert(d2[k] == d1[k]);
        }
    }
    ne
}

/// The text of the tree at `n`: its text nodes' values in document order.
fn tree_value(
    dom: &Dom,
    n: NodeId,
    Ghost(t): Ghost<TreeView>,
    Ghost(lo): Ghost<int>,
    Ghost(hi): Ghost<int>,
) -> (r: String)
    requires
        dom.wf(),
        tree_in(dom@, n.0 as int, t, lo, hi),
    ensures
        r@ == tree_text(t),
    decreases t,
{
    if dom.is_text(n) {
        return dom.value_str(n);
    }
    let ghost kts = match t {
        TreeView::Element { kids, .. } => kids,
        TreeView::Document { kids } => kids,
        TreeView::Text { .. } => seq![],
    };
    proof {
        lemma_forest_index(dom@, dom@[n.0 as int].children, kts, lo, hi);
    }
    let k = dom.child_count(n);
    let mut out = String::new();
    let mut i: usize = 0;
    assert(kts.take(0) =~= Seq::<TreeView>::empty());
    while i < k
        invariant
            dom.wf(),
            tree_in(dom@, n.0 as int, t, lo, hi),
            !(t is Text),
            t is Element ==> kts == t->Element_kids,
            t is Document ==> kts == t->Document_kids,
            k == kts.len(),
            k == dom@[n.0 as int].children.len(),
            forall|j: int| 0 <= j < kts.len() ==> tree_in(dom@, #[trigger] dom@[n.0 as int].children[j] as int, kts[j], lo, hi),
            i <= k,
            out@ == forest_text(kts.take(i as int)),
        decreases k - i,
    {
        let c = dom.child_at(n, i);
        proof {
            if t is Element {
                assert(decreases_to!(t => t->Element_kids));
                assert(decreases_to!(t->Element_kids => kts[i as int]));
            } else {
                assert(decreases_to!(t => t->Document_kids));
                assert(decreases_to!(t->Document_kids => kts[i as int]));
            }
        }
        let s = tree_value(dom, c, Ghost(kts[i as int]), Ghost(lo), Ghost(hi));
        out.append(s.as_str());
        assert(kts.take(i + 1).subrange(0, i as int) =~= kts.take(i as int));
        i = i + 1;
    }
    assert(kts.take(k as int) =~= kts);
    out
}


/// How the paragraph child at `e`, the element tree `t`, merges with its
/// neighbours.
fn merge_kind_of(
    dom: &Dom,
    e: NodeId,
    Ghost(t): Ghost<TreeView>,
    Ghost(lo): Ghost<int>,
    Ghost(hi): Ghost<int>,
) -> (r: u8)
    requires
        dom.wf(),
        tree_in(dom@, e.0 as int, t, lo, hi),
        t is Element,
    ensures
        r == merge_kind(t),
{
    if !dom.is_named(e, &W::r()) {
        return 0;
    }
    let ghost kts = t->Element_kids;
    proof {
        lemma_forest_index(dom@, dom@[e.0 as int].children, kts, lo, hi);
    }
    let k = dom.child_count(e);
    let mut count: usize = 0;
    let mut first_t = false;
    let mut i: usize = 0;
    assert(kts.take(0) =~= Seq::<TreeView>::empty());
    while i < k
        invariant
            dom.wf(),
            k == kts.len(),
            e.0 < dom@.len(),
            k == dom@[e.0 as int].children.len(),
            forall|j: int| 0 <= j < kts.len() ==> tree_in(dom@, #[trigger] dom@[e.0 as int].children[j] as int, kts[j], lo, hi),
            i <= k,
            count == only_elements(kts.take(i as int)).len(),
            count <= i,
            count > 0 ==> first_t == (tree_name(only_elements(kts.take(i as int))[0]) == Some(w_name("t"@))),
        decreases k - i,
    {
        let c = dom.child_at(e, i);
        assert(tree_in(dom@, c.0 as int, kts[i as int], lo, hi));
        assert(kts.take(i + 1).drop_last() =~= kts.take(i as int));
        assert(kts.take(i + 1).last() == kts[i as int]);
        if dom.is_element(c) {
            assert(kts[i as int] is Element);
            if count == 0 {
                first_t = dom.is_named(c, &W::t());
                assert(only_elements(kts.take(i + 1)) =~= seq![kts[i as int]]) by {
                    assert(only_elements(kts.take(i as int)).len() == 0);
                }
            } else {
                assert(only_elements(kts.take(i + 1))[0] == only_elements(kts.take(i as int))[0]);
            }
            count = count + 1;
        } else {
            assert(!(kts[i as int] is Element));
            assert(only_elements(kts.take(i + 1)) =~= only_elements(kts.take(i as int)));
        }
        i = i + 1;
    }
    assert(kts.take(k as int) =~= kts);
    if !(count == 1 && first_t) {
        return 0;
    }
    match dom.attribute(e, &PT::name("PreDeleteSalt")) {
        Some(_) => 2,
        None => 1,
    }
}

/// A new merged run of kind `k` holding `txt`.
fn make_merged_run(dom: &mut Dom, k: u8, txt: &str, tt: TextTransform) -> (r: NodeId)
    requires
        old(dom).wf(),
    ensures
        final(dom).wf(),
        built(old(dom)@, final(dom)@, seq![r.0], seq![merged_run(k, txt@, tt)]),
{
    let ghost e = dom@;
    let value = apply_text_transform(txt, tt);
    let ghost tv = TreeView::Text { value: value@ };
    let x = dom.new_text(value.as_str());
    proof {
        lemma_built_leaf(e, dom@.last(), tv, x.0);
        assert(dom@ =~= e.push(dom@.last()));
    }
    let mut tkids: Vec<NodeId> = Vec::new();
    tkids.push(x);
    assert(ids(tkids@) =~= seq![x.0]);
    let no_attrs: Vec<Attr> = Vec::new();
    assert(attrs_view(no_attrs@) =~= Seq::<AttrView>::empty());
    let ghost d1 = dom@;
    let ghost tkts = seq![tv];
    let t = wrap(dom, W::t(), &no_attrs, &tkids, Ghost(e), Ghost(tkts));
    let ghost tt_tree = TreeView::Element { name: w_name("t"@), attrs: set_all(seq![], seq![]), kids: seq![tv] };
    let mut rkids: Vec<NodeId> = Vec::new();
    rkids.push(t);
    assert(ids(rkids@) =~= seq![t.0]);
    let mut sets: Vec<Attr> = Vec::new();
    if k == 2 {
        sets.push(Attr { name: PT::name("PreDeleteSalt"), value: String::from_str("1") });
        assert(attrs_view(sets@) =~= seq![AttrView { name: salt_name(), value: "1"@ }]);
    } else {
        assert(attrs_view(sets@) =~= Seq::<AttrView>::empty());
    }
    let ghost rkts = seq![tt_tree];
    let r = wrap(dom, W::r(), &sets, &rkids, Ghost(e), Ghost(rkts));
    assert(set_all(seq![], seq![]) == Seq::<AttrView>::empty());
    r
}

/// The child ids of `n`, in order.
fn children_of(dom: &Dom, n: NodeId) -> (r: Vec<NodeId>)
    requires
        n.0 < dom@.len(),
    ensures
        ids(r@) == dom@[n.0 as int].children,
{
    let k = dom.child_count(n);
    let mut out: Vec<NodeId> = Vec::new();
    let mut i: usize = 0;
    while i < k
        invariant
            n.0 < dom@.len(),
            k == dom@[n.0 as int].children.len(),
            i <= k,
            ids(out@) == dom@[n.0 as int].children.take(i as int),
        decreases k - i,
    {
        let c = dom.child_at(n, i);
        let ghost before = ids(out@);
        out.push(c);
        assert(ids(out@) =~= before.push(c.0));
        assert(dom@[n.0 as int].children.take(i + 1) =~= dom@[n.0 as int].children.take(i as int).push(c.0));
        i = i + 1;
    }
    assert(dom@[n.0 as int].children.take(k as int) =~= dom@[n.0 as int].children);
    out
}

/// The attributes of `n`, copied in order.
fn all_attrs_of(dom: &Dom, n: NodeId) -> (r: Vec<Attr>)
    ensures
        attrs_view(r@) == attrs_of(dom@, n.0 as int),
{
    let ghost a = attrs_of(dom@, n.0 as int);
    let k = dom.attr_count(n);
    let mut out: Vec<Attr> = Vec::new();
    let mut i: usize = 0;
    while i < k
        invariant
            a == attrs_of(dom@, n.0 as int),
            k == a.len(),
            i <= k,
            attrs_view(out@) == a.take(i as int),
        decreases k - i,
    {
        match dom.attr_at(n, i) {
            Some(at) => {
                let c = copy_attr(at);
                let ghost before = attrs_view(out@);
                out.push(c);
                assert(attrs_view(out@) =~= before.push(c@));
            },
            None => {},
        }
        assert(attrs_view(out@) =~= a.take(i + 1));
        i = i + 1;
    }
    assert(a.take(k as int) =~= a);
    out
}

/// The element children of a source node read the same in any arena that
/// keeps the source intact, and are source nodes.
proof fn lemma_select_intact(d0: Seq<NodeView>, d: Seq<NodeView>, cs: Seq<usize>, f: Option<XNameView>)
    requires
        extends(d0, d),
        forall|j: int| 0 <= j < cs.len() ==> #[trigger] cs[j] < d0.len(),
    ensures
        select_below(d, cs, 0, f) == select_below(d0, cs, 0, f),
        forall|j: int| 0 <= j < select_below(d0, cs, 0, f).len() ==> #[trigger] select_below(d0, cs, 0, f)[j] < d0.len(),
    decreases cs.len(),
{
    if cs.len() > 0 {
        let c = cs.last();
        assert forall|j: int| 0 <= j < cs.drop_last().len() implies #[trigger] cs.drop_last()[j] < d0.len() by {
            assert(cs.drop_last()[j] == cs[j]);
        }
        lemma_select_intact(d0, d, cs.drop_last(), f);
        assert(d[c as int] == d0[c as int]);
        assert(selects(d, c as int, f) == selects(d0, c as int, f));
        let a = select_below(d0, cs.drop_last(), 0, f);
        let b: Seq<usize> = if selects(d0, c as int, f) { seq![c] } else { seq![] };
        assert(select_below(d0, cs, 0, f) =~= a + b);
        assert forall|j: int| 0 <= j < (a + b).len() implies #[trigger] (a + b)[j] < d0.len() by {
            if j < a.len() {
                assert((a + b)[j] == a[j]);
            } else {
                assert((a + b)[j] == c);
            }
        }
    }
}

/// `elements_of` of a source node, read in an arena that keeps the source
/// intact.
proof fn lemma_elements_intact(d0: Seq<NodeView>, d: Seq<NodeView>, n: int, f: Option<XNameView>)
    requires
        links_ok(d0),
        extends(d0, d),
        0 <= n < d0.len(),
    ensures
        elements_of(d, n, f) == elements_of(d0, n, f),
        forall|j: int| 0 <= j < elements_of(d0, n, f).len() ==> #[trigger] elements_of(d0, n, f)[j] < d0.len(),
{
    assert(d[n] == d0[n]);
    let cs = d0[n].children;
    assert forall|j: int| 0 <= j < cs.len() implies #[trigger] cs[j] < d0.len() by {}
    lemma_select_intact(d0, d, cs, f);
}

/// A verbatim copy of source node `n` down to `fuel` levels.
pub(crate) fn copy_subtree(dom: &mut Dom, n: NodeId, fuel: usize, Ghost(d0): Ghost<Seq<NodeView>>) -> (r: NodeId)
    requires
        old(dom).wf(),
        links_ok(d0),
        extends(d0, old(dom)@),
        n.0 < d0.len(),
    ensures
        final(dom).wf(),
        built(old(dom)@, final(dom)@, seq![r.0], seq![copy_tree(d0, n.0 as int, fuel as nat)]),
    decreases fuel,
{
    let ghost e = dom@;
    assert(dom@[n.0 as int] == d0[n.0 as int]);
    if fuel == 0 {
        let r = dom.new_document();
        proof {
            lemma_built_leaf(e, dom@.last(), TreeView::Document { kids: seq![] }, r.0);
            assert(dom@ =~= e.push(dom@.last()));
        }
        return r;
    }
    if dom.is_text(n) {
        let v = dom.value_str(n);
        let r = dom.new_text(v.as_str());
        proof {
            lemma_built_leaf(e, dom@.last(), copy_tree(d0, n.0 as int, fuel as nat), r.0);
            assert(dom@ =~= e.push(dom@.last()));
        }
        return r;
    }
    let g = fuel - 1;
    let cs = children_of(dom, n);
    let ghost ics = ids(cs@);
    assert(ics == d0[n.0 as int].children);
    let mut kids: Vec<NodeId> = Vec::new();
    let mut i: usize = 0;
    assert(ics.take(0) =~= Seq::<usize>::empty());
    while i < cs.len()
        invariant
            dom.wf(),
            links_ok(d0),
            extends(d0, dom@),
            extends(e, dom@),
            e == old(dom)@,
            n.0 < d0.len(),
            ics == ids(cs@),
            ics == d0[n.0 as int].children,
            g == fuel - 1,
            i <= cs@.len(),
            fresh_ok(dom@, e.len() as int, dom@.len() as int),
            loose_roots(dom@, ids(kids@), e.len() as int, dom@.len() as int),
            forest_in(dom@, ids(kids@), copy_forest(d0, ics.take(i as int), g as nat), e.len() as int, dom@.len() as int),
        decreases cs@.len() - i,
    {
        let ghost d1 = dom@;
        assert(ics[i as int] < d0.len());
        let piece = copy_subtree(dom, cs[i], g, Ghost(d0));
        proof {
            lemma_accumulate(e, d1, dom@, ids(kids@), copy_forest(d0, ics.take(i as int), g as nat), seq![piece.0], seq![copy_tree(d0, ics[i as int] as int, g as nat)]);
            lemma_extends_trans(d0, d1, dom@);
            assert(ics.take(i + 1).drop_last() =~= ics.take(i as int));
            assert(ics.take(i + 1).last() == ics[i as int]);
            assert(copy_forest(d0, ics.take(i + 1), g as nat) =~= copy_forest(d0, ics.take(i as int), g as nat) + seq![copy_tree(d0, ics[i as int] as int, g as nat)]);
        }
        let ghost before = ids(kids@);
        kids.push(piece);
        assert(ids(kids@) =~= before + seq![piece.0]);
        i = i + 1;
    }
    assert(ics.take(cs@.len() as int) =~= ics);
    let ghost kts = copy_forest(d0, ics, g as nat);
    let ghost d2 = dom@;
    let ghost lo = e.len() as int;
    let ne = if dom.is_element(n) {
        let name = match dom.name(n) {
            Some(x) => x,
            None => W::p(),
        };
        let attrs = all_attrs_of(dom, n);
        dom.new_element_with_attrs(name, attrs)
    } else {
        dom.new_document()
    };
    let ghost t = copy_tree(d0, n.0 as int, fuel as nat);
    proof {
        lemma_push_keeps(d2, dom@.last(), lo, ids(kids@), kts);
        assert(dom@ =~= d2.push(dom@.last()));
        assert forall|j: int| 0 <= j < kids@.len() implies #[trigger] kids@[j].0 != ne.0 by {
            assert(ids(kids@)[j] == kids@[j].0);
        }
    }
    let ghost d3 = dom@;
    adopt(dom, ne, &kids, Ghost(lo), Ghost(kts));
    proof {
        let d4 = dom@;
        assert(tree_in(d4, ne.0 as int, t, lo, d4.len() as int));
        lemma_forest_push(d4, seq![], seq![], ne.0, t, lo, d4.len() as int);
        assert(seq![].push(ne.0) =~= seq![ne.0]);
        assert(seq![].push(t) =~= seq![t]);
        assert forall|k: int| 0 <= k < e.len() implies #[trigger] d4[k] == e[k] by {
            assert(d4[k] == d3[k]);
            assert(d3[k] == d2[k]);
        }
    }
    ne
}


/// The options the hash form is taken with.
pub open spec fn hash_options(
    include_related_parts: bool,
    tt: TextTransform,
    known: Seq<(Seq<char>, Option<Seq<char>>)>,
) -> HashOptions {
    HashOptions { include_related_parts, tt, known }
}

/// Setting the salt on root `i` of the parentless trees `out` salts that
/// tree and leaves the others as they were.
proof fn lemma_salt_one(d: Seq<NodeView>, out: Seq<usize>, ts: Seq<TreeView>, lo: int, i: int)
    requires
        0 <= lo <= d.len(),
        fresh_ok(d, lo, d.len() as int),
        loose_roots(d, out, lo, d.len() as int),
        forest_in(d, out, ts, lo, d.len() as int),
        0 <= i < out.len(),
        name_of(d, out[i] as int) is Some,
    ensures
        fresh_ok(with_attr(d, out[i] as int, salt_name(), Some("1"@)), lo, d.len() as int),
        loose_roots(with_attr(d, out[i] as int, salt_name(), Some("1"@)), out, lo, d.len() as int),
        forest_in(
            with_attr(d, out[i] as int, salt_name(), Some("1"@)),
            out,
            ts.update(i, salted(ts[i])),
            lo,
            d.len() as int,
        ),
{
    let c = out[i] as int;
    let hi = d.len() as int;
    let d2 = with_attr(d, c, salt_name(), Some("1"@));
    let ts2 = ts.update(i, salted(ts[i]));
    lemma_forest_index(d, out, ts, lo, hi);
    assert forall|x: int, m: int| lo <= x < hi && 0 <= m < d[x].children.len() implies #[trigger] d[x].children[m] != c by {
        if d[x].children[m] == c {
            assert(d[c].parent == Some(x as usize));
            assert(d[out[i] as int].parent is None);
        }
    }
    assert forall|k: int| lo <= k < hi && k != c implies #[trigger] d2[k].kind == d[k].kind && d2[k].children == d[k].children by {}
    assert forall|j: int| 0 <= j < ts2.len() implies tree_in(d2, #[trigger] out[j] as int, ts2[j], lo, hi) by {
        if j != i {
            assert(out[j] != out[i]);
            lemma_tree_avoids(d, d2, out[j] as int, ts[j], lo, hi, c);
        } else {
            let t = ts[i];
            assert(tree_in(d, c, t, lo, hi));
            let kids = t->Element_kids;
            assert forall|m: int| 0 <= m < d[c].children.len() implies #[trigger] d[c].children[m] != c by {}
            lemma_forest_avoids(d, d2, d[c].children, kids, lo, hi, c);
            assert(d2[c].children == d[c].children);
        }
    }
    lemma_forest_from_index(d2, out, ts2, lo, hi);
    assert forall|x: int, m: int| lo <= x < hi && 0 <= m < d2[x].children.len() implies {
        let ch = #[trigger] d2[x].children[m] as int;
        &&& lo <= ch < hi
        &&& d2[ch].parent == Some(x as usize)
    } by {
        assert(d2[x].children == d[x].children);
        let ch = d[x].children[m] as int;
        assert(d2[ch].parent == d[ch].parent);
    }
    assert forall|j: int| 0 <= j < out.len() implies lo <= #[trigger] out[j] < hi && d2[out[j] as int].parent is None by {}
}

/// A tree that is not an element sits at a node that is not one.
proof fn lemma_tree_kind(d: Seq<NodeView>, n: int, t: TreeView, lo: int, hi: int)
    requires
        tree_in(d, n, t, lo, hi),
        0 <= lo,
    ensures
        (name_of(d, n) is Some) == (t is Element),
        t is Element ==> name_of(d, n) == Some(t->Element_name),
{
    match t {
        TreeView::Element { name, attrs, .. } => {
            assert(d[n].kind == (KindView::Element { name, attrs }));
        },
        TreeView::Document { .. } => {
            assert(d[n].kind == KindView::Document);
        },
        TreeView::Text { value } => {
            assert(d[n].kind == (KindView::Text { value }));
        },
    }
}

/// The hash forms of the source nodes `cs`, one after another.
fn clone_list(
    dom: &mut Dom,
    cs: &Vec<NodeId>,
    fuel: usize,
    include_related_parts: bool,
    tt: TextTransform,
    rels: &RelHashResolver,
    Ghost(d0): Ghost<Seq<NodeView>>,
) -> (out: Vec<NodeId>)
    requires
        old(dom).wf(),
        links_ok(d0),
        extends(d0, old(dom)@),
        forall|j: int| 0 <= j < cs@.len() ==> #[trigger] cs@[j].0 < d0.len(),
    ensures
        final(dom).wf(),
        built(
            old(dom)@,
            final(dom)@,
            ids(out@),
            hash_forms(d0, ids(cs@), fuel as nat, hash_options(include_related_parts, tt, rels@)),
        ),
    decreases fuel, 2int,
{
    let ghost e = dom@;
    let ghost o = hash_options(include_related_parts, tt, rels@);
    let ghost ics = ids(cs@);
    let mut out: Vec<NodeId> = Vec::new();
    let mut i: usize = 0;
    assert(ics.take(0) =~= Seq::<usize>::empty());
    while i < cs.len()
        invariant
            dom.wf(),
            links_ok(d0),
            extends(d0, dom@),
            extends(e, dom@),
            e == old(dom)@,
            o == hash_options(include_related_parts, tt, rels@),
            ics == ids(cs@),
            forall|j: int| 0 <= j < cs@.len() ==> #[trigger] cs@[j].0 < d0.len(),
            i <= cs@.len(),
            fresh_ok(dom@, e.len() as int, dom@.len() as int),
            loose_roots(dom@, ids(out@), e.len() as int, dom@.len() as int),
            forest_in(dom@, ids(out@), hash_forms(d0, ics.take(i as int), fuel as nat, o), e.len() as int, dom@.len() as int),
        decreases cs@.len() - i,
    {
        let ghost d1 = dom@;
        let mut piece = clone_internal(dom, cs[i], fuel, include_related_parts, tt, rels, Ghost(d0));
        proof {
            lemma_accumulate(
                e,
                d1,
                dom@,
                ids(out@),
                hash_forms(d0, ics.take(i as int), fuel as nat, o),
                ids(piece@),
                hash_form(d0, ics[i as int] as int, fuel as nat, o),
            );
            lemma_extends_trans(d0, d1, dom@);
            assert(ics.take(i + 1).drop_last() =~= ics.take(i as int));
            assert(ics.take(i + 1).last() == ics[i as int]);
        }
        let ghost before = out@;
        let ghost added = piece@;
        out.append(&mut piece);
        assert(ids(out@) =~= ids(before) + ids(added));
        i = i + 1;
    }
    assert(ics.take(cs@.len() as int) =~= ics);
    out
}

/// The hash form of source node `node` down to `fuel` levels.
fn clone_internal(
    dom: &mut Dom,
    node: NodeId,
    fuel: usize,
    include_related_parts: bool,
    tt: TextTransform,
    rels: &RelHashResolver,
    Ghost(d0): Ghost<Seq<NodeView>>,
) -> (out: Vec<NodeId>)
    requires
        old(dom).wf(),
        links_ok(d0),
        extends(d0, old(dom)@),
        node.0 < d0.len(),
    ensures
        final(dom).wf(),
        built(
            old(dom)@,
            final(dom)@,
            ids(out@),
            hash_form(d0, node.0 as int, fuel as nat, hash_options(include_related_parts, tt, rels@)),
        ),
    decreases fuel, 1int,
{
    let ghost e = dom@;
    let ghost o = hash_options(include_related_parts, tt, rels@);
    let ghost ts0 = hash_form_unsalted(d0, node.0 as int, fuel as nat, o);
    let out = clone_internal_unsalted(dom, node, fuel, include_related_parts, tt, rels, Ghost(d0));
    let ghost d1 = dom@;
    assert(d1[node.0 as int] == d0[node.0 as int]);
    let stamped = dom.is_element(node) && match dom.attribute(node, &PT::name("PreDelete")) {
        Some(v) => str_eq(v, "orig"),
        None => false,
    };
    if stamped {
        let ghost lo = e.len() as int;
        let mut i: usize = 0;
        assert(Seq::new(ts0.len(), |j: int| if j < 0 { salted(ts0[j]) } else { ts0[j] }) =~= ts0);
        while i < out.len()
            invariant
                dom.wf(),
                lo == e.len(),
                extends(e, dom@),
                dom@.len() == d1.len(),
                fresh_ok(dom@, lo, dom@.len() as int),
                loose_roots(dom@, ids(out@), lo, dom@.len() as int),
                ts0.len() == out@.len(),
                i <= out@.len(),
                forest_in(
                    dom@,
                    ids(out@),
                    Seq::new(ts0.len(), |j: int| if j < i { salted(ts0[j]) } else { ts0[j] }),
                    lo,
                    dom@.len() as int,
                ),
            decreases out@.len() - i,
        {
            let ghost cur = Seq::new(ts0.len(), |j: int| if j < i { salted(ts0[j]) } else { ts0[j] });
            let ghost next = Seq::new(ts0.len(), |j: int| if j < i + 1 { salted(ts0[j]) } else { ts0[j] });
            proof {
                lemma_forest_index(dom@, ids(out@), cur, lo, dom@.len() as int);
                lemma_tree_kind(dom@, ids(out@)[i as int] as int, cur[i as int], lo, dom@.len() as int);
                assert(ids(out@)[i as int] == out@[i as int].0);
            }
            if dom.is_element(out[i]) {
                proof {
                    lemma_salt_one(dom@, ids(out@), cur, lo, i as int);
                    assert(cur.update(i as int, salted(cur[i as int])) =~= next);
                }
                let ghost before = dom@;
                dom.set_attribute_value(out[i], &PT::name("PreDeleteSalt"), Some("1"));
                proof {
                    assert forall|k: int| 0 <= k < e.len() implies #[trigger] dom@[k] == e[k] by {
                        assert(dom@[k] == before[k]);
                    }
                }
            } else {
                assert(next =~= cur);
            }
            i = i + 1;
        }
        assert(Seq::new(ts0.len(), |j: int| if j < out@.len() { salted(ts0[j]) } else { ts0[j] }) =~= Seq::new(ts0.len(), |j: int| salted(ts0[j])));
    }
    out
}


/// The hash forms of all children of source node `node`, one after
/// another.
fn clone_children(
    dom: &mut Dom,
    node: NodeId,
    g: usize,
    include_related_parts: bool,
    tt: TextTransform,
    rels: &RelHashResolver,
    Ghost(d0): Ghost<Seq<NodeView>>,
) -> (out: Vec<NodeId>)
    requires
        old(dom).wf(),
        links_ok(d0),
        extends(d0, old(dom)@),
        node.0 < d0.len(),
    ensures
        final(dom).wf(),
        built(
            old(dom)@,
            final(dom)@,
            ids(out@),
            hash_forms(d0, d0[node.0 as int].children, g as nat, hash_options(include_related_parts, tt, rels@)),
        ),
    decreases g, 3int,
{
    assert(dom@[node.0 as int] == d0[node.0 as int]);
    let cs = children_of(dom, node);
    proof {
        assert forall|j: int| 0 <= j < cs@.len() implies #[trigger] cs@[j].0 < d0.len() by {
            assert(ids(cs@)[j] == cs@[j].0);
        }
    }
    clone_list(dom, &cs, g, include_related_parts, tt, rels, Ghost(d0))
}

/// The hash forms of the child elements of source node `node`, one after
/// another.
fn clone_children_elements(
    dom: &mut Dom,
    node: NodeId,
    g: usize,
    include_related_parts: bool,
    tt: TextTransform,
    rels: &RelHashResolver,
    Ghost(d0): Ghost<Seq<NodeView>>,
) -> (out: Vec<NodeId>)
    requires
        old(dom).wf(),
        links_ok(d0),
        extends(d0, old(dom)@),
        node.0 < d0.len(),
    ensures
        final(dom).wf(),
        built(
            old(dom)@,
            final(dom)@,
            ids(out@),
            hash_forms(d0, elements_of(d0, node.0 as int, None), g as nat, hash_options(include_related_parts, tt, rels@)),
        ),
    decreases g, 3int,
{
    let cs = element_children_of(dom, node, None, Ghost(d0));
    clone_list(dom, &cs, g, include_related_parts, tt, rels, Ghost(d0))
}

/// The child elements of source node `node` named `filter` (all of them
/// with no filter).
fn element_children_of(dom: &Dom, node: NodeId, filter: Option<&XName>, Ghost(d0): Ghost<Seq<NodeView>>) -> (r: Vec<NodeId>)
    requires
        dom.wf(),
        links_ok(d0),
        extends(d0, dom@),
        node.0 < d0.len(),
    ensures
        ids(r@) == elements_of(d0, node.0 as int, crate::xml::filter_view(filter)),
        forall|j: int| 0 <= j < r@.len() ==> #[trigger] r@[j].0 < d0.len(),
{
    let cs = dom.elements(node, filter);
    proof {
        lemma_elements_intact(d0, dom@, node.0 as int, crate::xml::filter_view(filter));
        assert forall|j: int| 0 <= j < cs@.len() implies #[trigger] cs@[j].0 < d0.len() by {
            assert(ids(cs@)[j] == cs@[j].0);
        }
    }
    cs
}

/// A new element named `name` with the attributes of `src` that `drop`
/// keeps, over the parentless trees `children`, all built since the arena
/// was `e`.
fn new_with_filtered_attrs(
    dom: &mut Dom,
    name: XName,
    src: NodeId,
    drop: AttrFilter,
    children: &Vec<NodeId>,
    Ghost(e): Ghost<Seq<NodeView>>,
    Ghost(kts): Ghost<Seq<TreeView>>,
) -> (r: NodeId)
    requires
        old(dom).wf(),
        extends(e, old(dom)@),
        fresh_ok(old(dom)@, e.len() as int, old(dom)@.len() as int),
        loose_roots(old(dom)@, ids(children@), e.len() as int, old(dom)@.len() as int),
        forest_in(old(dom)@, ids(children@), kts, e.len() as int, old(dom)@.len() as int),
    ensures
        final(dom).wf(),
        built(
            e,
            final(dom)@,
            seq![r.0],
            seq![
                TreeView::Element {
                    name: name@,
                    attrs: copied_attrs(attrs_of(old(dom)@, src.0 as int), drop),
                    kids: kts,
                },
            ],
        ),
{
    let sets = kept_of(dom, src, drop);
    wrap(dom, name, &sets, children, Ghost(e), Ghost(kts))
}

/// The hash forms of the child elements of `node` named `filter` (all of
/// them with no filter), under a new bare element named `name`.
fn clone_bare(
    dom: &mut Dom,
    node: NodeId,
    name: XName,
    filter: Option<&XName>,
    g: usize,
    include_related_parts: bool,
    tt: TextTransform,
    rels: &RelHashResolver,
    Ghost(d0): Ghost<Seq<NodeView>>,
) -> (r: NodeId)
    requires
        old(dom).wf(),
        links_ok(d0),
        extends(d0, old(dom)@),
        node.0 < d0.len(),
    ensures
        final(dom).wf(),
        built(
            old(dom)@,
            final(dom)@,
            seq![r.0],
            seq![
                bare(
                    name@,
                    hash_forms(
                        d0,
                        elements_of(d0, node.0 as int, crate::xml::filter_view(filter)),
                        g as nat,
                        hash_options(include_related_parts, tt, rels@),
                    ),
                ),
            ],
        ),
    decreases g, 4int,
{
    let ghost e = dom@;
    let cs = element_children_of(dom, node, filter, Ghost(d0));
    let kids = clone_list(dom, &cs, g, include_related_parts, tt, rels, Ghost(d0));
    let no_attrs: Vec<Attr> = Vec::new();
    assert(attrs_view(no_attrs@) =~= Seq::<AttrView>::empty());
    let ghost kts = hash_forms(d0, ids(cs@), g as nat, hash_options(include_related_parts, tt, rels@));
    let r = wrap(dom, name, &no_attrs, &kids, Ghost(e), Ghost(kts));
    assert(set_all(seq![], seq![]) == Seq::<AttrView>::empty());
    r
}

/// The hash form of a run: each child element other than the run
/// properties, hashed, in a run of its own.
fn clone_run_pieces(
    dom: &mut Dom,
    node: NodeId,
    g: usize,
    include_related_parts: bool,
    tt: TextTransform,
    rels: &RelHashResolver,
    Ghost(d0): Ghost<Seq<NodeView>>,
) -> (out: Vec<NodeId>)
    requires
        old(dom).wf(),
        links_ok(d0),
        extends(d0, old(dom)@),
        node.0 < d0.len(),
    ensures
        final(dom).wf(),
        built(
            old(dom)@,
            final(dom)@,
            ids(out@),
            run_pieces(d0, d0[node.0 as int].children, g as nat, hash_options(include_related_parts, tt, rels@)),
        ),
    decreases g, 4int,
{
    let ghost e = dom@;
    let ghost o = hash_options(include_related_parts, tt, rels@);
    assert(dom@[node.0 as int] == d0[node.0 as int]);
    let cs = children_of(dom, node);
    let ghost ics = ids(cs@);
    let no_attrs: Vec<Attr> = Vec::new();
    assert(attrs_view(no_attrs@) =~= Seq::<AttrView>::empty());
    let mut out: Vec<NodeId> = Vec::new();
    let mut i: usize = 0;
    assert(ics.take(0) =~= Seq::<usize>::empty());
    while i < cs.len()
        invariant
            dom.wf(),
            links_ok(d0),
            extends(d0, dom@),
            extends(e, dom@),
            e == old(dom)@,
            o == hash_options(include_related_parts, tt, rels@),
            node.0 < d0.len(),
            ics == ids(cs@),
            ics == d0[node.0 as int].children,
            attrs_view(no_attrs@) == Seq::<AttrView>::empty(),
            i <= cs@.len(),
            fresh_ok(dom@, e.len() as int, dom@.len() as int),
            loose_roots(dom@, ids(out@), e.len() as int, dom@.len() as int),
            forest_in(dom@, ids(out@), run_pieces(d0, ics.take(i as int), g as nat, o), e.len() as int, dom@.len() as int),
        decreases cs@.len() - i,
    {
        let c = cs[i];
        assert(ics[i as int] == c.0);
        assert(c.0 < d0.len());
        assert(dom@[c.0 as int] == d0[c.0 as int]);
        assert(ics.take(i + 1).drop_last() =~= ics.take(i as int));
        assert(ics.take(i + 1).last() == c.0);
        if dom.is_element(c) && !dom.is_named(c, &W::name("rPr")) {
            let ghost d1 = dom@;
            let ghost hf = hash_form(d0, c.0 as int, g as nat, o);
            let inner = clone_internal(dom, c, g, include_related_parts, tt, rels, Ghost(d0));
            let r = wrap(dom, W::r(), &no_attrs, &inner, Ghost(d1), Ghost(hf));
            let ghost rt = TreeView::Element { name: w_name("r"@), attrs: seq![], kids: hf };
            proof {
                assert(set_all(seq![], attrs_view(no_attrs@)) == Seq::<AttrView>::empty());
                lemma_accumulate(e, d1, dom@, ids(out@), run_pieces(d0, ics.take(i as int), g as nat, o), seq![r.0], seq![rt]);
                lemma_extends_trans(d0, d1, dom@);
                assert(run_pieces(d0, ics.take(i + 1), g as nat, o) =~= run_pieces(d0, ics.take(i as int), g as nat, o) + seq![rt]);
            }
            let ghost before = ids(out@);
            out.push(r);
            assert(ids(out@) =~= before + seq![r.0]);
        } else {
            assert(run_pieces(d0, ics.take(i + 1), g as nat, o) =~= run_pieces(d0, ics.take(i as int), g as nat, o));
        }
        i = i + 1;
    }
    assert(ics.take(cs@.len() as int) =~= ics);
    out
}


/// The hash form of paragraph `node`: its filtered attributes over the
/// element hash forms of its children, adjacent plain-text runs of one kind
/// merged into one run holding their text.
fn clone_paragraph(
    dom: &mut Dom,
    node: NodeId,
    g: usize,
    include_related_parts: bool,
    tt: TextTransform,
    rels: &RelHashResolver,
    Ghost(d0): Ghost<Seq<NodeView>>,
) -> (r: NodeId)
    requires
        old(dom).wf(),
        links_ok(d0),
        extends(d0, old(dom)@),
        node.0 < d0.len(),
    ensures
        final(dom).wf(),
        built(
            old(dom)@,
            final(dom)@,
            seq![r.0],
            seq![
                TreeView::Element {
                    name: w_name("p"@),
                    attrs: copied_attrs(attrs_of(d0, node.0 as int), AttrFilter::Para),
                    kids: para_kids(
                        hash_forms(d0, d0[node.0 as int].children, g as nat, hash_options(include_related_parts, tt, rels@)),
                        tt,
                    ),
                },
            ],
        ),
    decreases g, 4int,
{
    let ghost e = dom@;
    let ghost lo = e.len() as int;
    let ghost o = hash_options(include_related_parts, tt, rels@);
    assert(dom@[node.0 as int] == d0[node.0 as int]);
    let cloned = clone_children(dom, node, g, include_related_parts, tt, rels, Ghost(d0));
    let ghost f = hash_forms(d0, d0[node.0 as int].children, g as nat, o);
    let ghost ic = ids(cloned@);
    // The element children, in order.
    let mut els: Vec<NodeId> = Vec::new();
    let ghost mut pos: Seq<int> = seq![];
    let mut i: usize = 0;
    proof {
        lemma_forest_index(dom@, ic, f, lo, dom@.len() as int);
    }
    assert(f.take(0) =~= Seq::<TreeView>::empty());
    while i < cloned.len()
        invariant
            dom.wf(),
            lo == e.len(),
            ic == ids(cloned@),
            ic.len() == f.len(),
            forall|j: int| 0 <= j < f.len() ==> tree_in(dom@, #[trigger] ic[j] as int, f[j], lo, dom@.len() as int),
            i <= cloned@.len(),
            pos.len() == els@.len(),
            forall|m: int| 0 <= m < pos.len() ==> 0 <= #[trigger] pos[m] < i && ids(els@)[m] == ic[pos[m]],
            forall|m1: int, m2: int| 0 <= m1 < m2 < pos.len() ==> #[trigger] pos[m1] < #[trigger] pos[m2],
            forest_in(dom@, ids(els@), only_elements(f.take(i as int)), lo, dom@.len() as int),
        decreases cloned@.len() - i,
    {
        let c = cloned[i];
        assert(ic[i as int] == c.0);
        proof {
            lemma_tree_kind(dom@, c.0 as int, f[i as int], lo, dom@.len() as int);
        }
        assert(f.take(i + 1).drop_last() =~= f.take(i as int));
        assert(f.take(i + 1).last() == f[i as int]);
        if dom.is_element(c) {
            let ghost before = ids(els@);
            proof {
                lemma_forest_push(dom@, before, only_elements(f.take(i as int)), c.0, f[i as int], lo, dom@.len() as int);
            }
            els.push(c);
            assert(ids(els@) =~= before.push(c.0));
            assert(only_elements(f.take(i + 1)) =~= only_elements(f.take(i as int)).push(f[i as int]));
            proof {
                pos = pos.push(i as int);
            }
        } else {
            assert(only_elements(f.take(i + 1)) =~= only_elements(f.take(i as int)));
        }
        i = i + 1;
    }
    assert(f.take(cloned@.len() as int) =~= f);
    let ghost ets = only_elements(f);
    let ghost ie = ids(els@);
    proof {
        lemma_only_elements(f);
        assert forall|j: int| 0 <= j < ie.len() implies lo <= #[trigger] ie[j] < dom@.len() && dom@[ie[j] as int].parent is None by {
            assert(ie[j] == ic[pos[j]]);
        }
        assert forall|a: int, b: int| 0 <= a < b < ie.len() implies #[trigger] ie[a] != #[trigger] ie[b] by {
            assert(pos[a] < pos[b]);
            assert(ie[a] == ic[pos[a]] && ie[b] == ic[pos[b]]);
        }
        lemma_forest_index(dom@, ie, ets, lo, dom@.len() as int);
        assert(ie.skip(0) =~= ie);
        assert(ets.skip(0) =~= ets);
        assert(Seq::<usize>::empty() + ie =~= ie);
    }
    // Merge adjacent plain-text runs.
    let mut kids: Vec<NodeId> = Vec::new();
    let mut has_open = false;
    let mut open_kind: u8 = 0;
    let mut open_text = String::new();
    let mut k: usize = 0;
    assert(ets.take(0) =~= Seq::<TreeView>::empty());
    while k < els.len()
        invariant
            dom.wf(),
            extends(e, dom@),
            lo == e.len(),
            ie == ids(els@),
            ie.len() == ets.len(),
            k <= els@.len(),
            fresh_ok(dom@, lo, dom@.len() as int),
            loose_roots(dom@, ids(kids@) + ie.skip(k as int), lo, dom@.len() as int),
            forest_in(dom@, ids(kids@), merge_runs(ets.take(k as int), tt).0, lo, dom@.len() as int),
            forall|j: int| k <= j < ie.len() ==> tree_in(dom@, #[trigger] ie[j] as int, ets[j], lo, dom@.len() as int),
            forall|j: int| 0 <= j < ets.len() ==> #[trigger] ets[j] is Element,
            merge_runs(ets.take(k as int), tt).1 == if has_open {
                Some((open_kind, open_text@))
            } else {
                None::<(u8, Seq<char>)>
            },
        decreases els@.len() - k,
    {
        let x = els[k];
        assert(ie[k as int] == x.0);
        assert(ets.take(k + 1).drop_last() =~= ets.take(k as int));
        assert(ets.take(k + 1).last() == ets[k as int]);
        let ghost t = ets[k as int];
        let kind = merge_kind_of(dom, x, Ghost(t), Ghost(lo), Ghost(dom@.len() as int));
        let ghost rest = ie.skip(k + 1);
        assert(ie.skip(k as int) =~= seq![x.0] + rest);
        if kind == 0 {
            if has_open {
                let ghost d1 = dom@;
                let ghost em = merge_runs(ets.take(k as int), tt).0;
                let r = make_merged_run(dom, open_kind, open_text.as_str(), tt);
                proof {
                    lemma_fresh_join_built(d1, dom@, lo);
                    lemma_loose_insert(d1, dom@, ids(kids@), ie.skip(k as int), r.0, lo);
                    lemma_forest_extends(d1, dom@, ids(kids@), em, lo, d1.len() as int);
                    lemma_forest_widen(dom@, ids(kids@), em, lo, d1.len() as int, lo, dom@.len() as int);
                    lemma_forest_index(dom@, seq![r.0], seq![merged_run(open_kind, open_text@, tt)], d1.len() as int, dom@.len() as int);
                    crate::tree::lemma_tree_widen(dom@, r.0 as int, merged_run(open_kind, open_text@, tt), d1.len() as int, dom@.len() as int, lo, dom@.len() as int);
                    lemma_forest_push(dom@, ids(kids@), em, r.0, merged_run(open_kind, open_text@, tt), lo, dom@.len() as int);
                    assert forall|j: int| k <= j < ie.len() implies tree_in(dom@, #[trigger] ie[j] as int, ets[j], lo, dom@.len() as int) by {
                        lemma_tree_extends(d1, dom@, ie[j] as int, ets[j], lo, d1.len() as int);
                    }
                    lemma_extends_trans(e, d1, dom@);
                }
                let ghost before = ids(kids@);
                kids.push(r);
                assert(ids(kids@) =~= before.push(r.0));
                has_open = false;
            }
            let ghost before = ids(kids@);
            let ghost em = flushed(merge_runs(ets.take(k as int), tt).0, merge_runs(ets.take(k as int), tt).1, tt);
            proof {
                lemma_forest_push(dom@, before, em, x.0, t, lo, dom@.len() as int);
                assert(before.push(x.0) + rest =~= before + ie.skip(k as int));
            }
            kids.push(x);
            assert(ids(kids@) =~= before.push(x.0));
        } else if has_open && open_kind == kind {
            let v = tree_value(dom, x, Ghost(t), Ghost(lo), Ghost(dom@.len() as int));
            open_text.append(v.as_str());
            proof {
                lemma_loose_drop(dom@, ids(kids@), x.0, rest, lo);
            }
        } else {
            if has_open {
                let ghost d1 = dom@;
                let ghost em = merge_runs(ets.take(k as int), tt).0;
                let r = make_merged_run(dom, open_kind, open_text.as_str(), tt);
                proof {
                    lemma_fresh_join_built(d1, dom@, lo);
                    lemma_loose_insert(d1, dom@, ids(kids@), ie.skip(k as int), r.0, lo);
                    lemma_forest_extends(d1, dom@, ids(kids@), em, lo, d1.len() as int);
                    lemma_forest_widen(dom@, ids(kids@), em, lo, d1.len() as int, lo, dom@.len() as int);
                    lemma_forest_index(dom@, seq![r.0], seq![merged_run(open_kind, open_text@, tt)], d1.len() as int, dom@.len() as int);
                    crate::tree::lemma_tree_widen(dom@, r.0 as int, merged_run(open_kind, open_text@, tt), d1.len() as int, dom@.len() as int, lo, dom@.len() as int);
                    lemma_forest_push(dom@, ids(kids@), em, r.0, merged_run(open_kind, open_text@, tt), lo, dom@.len() as int);
                    assert forall|j: int| k <= j < ie.len() implies tree_in(dom@, #[trigger] ie[j] as int, ets[j], lo, dom@.len() as int) by {
                        lemma_tree_extends(d1, dom@, ie[j] as int, ets[j], lo, d1.len() as int);
                    }
                    lemma_extends_trans(e, d1, dom@);
                }
                let ghost before = ids(kids@);
                kids.push(r);
                assert(ids(kids@) =~= before.push(r.0));
            }
            let v = tree_value(dom, x, Ghost(t), Ghost(lo), Ghost(dom@.len() as int));
            open_text = v;
            open_kind = kind;
            has_open = true;
            proof {
                lemma_loose_drop(dom@, ids(kids@), x.0, rest, lo);
            }
        }
        k = k + 1;
    }
    assert(ets.take(els@.len() as int) =~= ets);
    if has_open {
        let ghost d1 = dom@;
        let ghost em = merge_runs(ets, tt).0;
        let r = make_merged_run(dom, open_kind, open_text.as_str(), tt);
        proof {
            assert(ie.skip(els@.len() as int) =~= Seq::<usize>::empty());
            assert(ids(kids@) + ie.skip(els@.len() as int) =~= ids(kids@));
            lemma_fresh_join_built(d1, dom@, lo);
            lemma_loose_insert(d1, dom@, ids(kids@), Seq::<usize>::empty(), r.0, lo);
            lemma_forest_extends(d1, dom@, ids(kids@), em, lo, d1.len() as int);
            lemma_forest_widen(dom@, ids(kids@), em, lo, d1.len() as int, lo, dom@.len() as int);
            lemma_forest_index(dom@, seq![r.0], seq![merged_run(open_kind, open_text@, tt)], d1.len() as int, dom@.len() as int);
            crate::tree::lemma_tree_widen(dom@, r.0 as int, merged_run(open_kind, open_text@, tt), d1.len() as int, dom@.len() as int, lo, dom@.len() as int);
            lemma_forest_push(dom@, ids(kids@), em, r.0, merged_run(open_kind, open_text@, tt), lo, dom@.len() as int);
            lemma_extends_trans(e, d1, dom@);
        }
        let ghost before = ids(kids@);
        kids.push(r);
        assert(ids(kids@) =~= before.push(r.0));
        assert(ids(kids@) + Seq::<usize>::empty() =~= ids(kids@));
    } else {
        assert(ie.skip(els@.len() as int) =~= Seq::<usize>::empty());
        assert(ids(kids@) + ie.skip(els@.len() as int) =~= ids(kids@));
    }
    assert(attrs_of(dom@, node.0 as int) == attrs_of(d0, node.0 as int)) by {
        assert(dom@[node.0 as int] == d0[node.0 as int]);
    }
    let ghost kts = para_kids(f, tt);
    new_with_filtered_attrs(dom, W::name("p"), node, AttrFilter::Para, &kids, Ghost(e), Ghost(kts))
}


/// Every tree `only_elements` keeps is an element.
proof fn lemma_only_elements(ts: Seq<TreeView>)
    ensures
        forall|j: int| 0 <= j < only_elements(ts).len() ==> #[trigger] only_elements(ts)[j] is Element,
    decreases ts.len(),
{
    if ts.len() > 0 {
        lemma_only_elements(ts.drop_last());
        let a = only_elements(ts.drop_last());
        let b: Seq<TreeView> = if ts.last() is Element { seq![ts.last()] } else { seq![] };
        assert forall|j: int| 0 <= j < (a + b).len() implies #[trigger] (a + b)[j] is Element by {
            if j < a.len() {
                assert((a + b)[j] == a[j]);
            } else {
                assert((a + b)[j] == b[j - a.len()]);
            }
        }
    }
}

/// Whether element `name` is left out of the hash form.
fn is_hash_dropped(name: &XName) -> (r: bool)
    ensures
        r == hash_dropped(name@),
{
    name_is(name, "http://schemas.openxmlformats.org/wordprocessingml/2006/main", "bookmarkStart")
        || name_is(name, "http://schemas.openxmlformats.org/wordprocessingml/2006/main", "bookmarkEnd")
        || name_is(name, "http://schemas.openxmlformats.org/wordprocessingml/2006/main", "pPr")
        || name_is(name, "http://schemas.openxmlformats.org/wordprocessingml/2006/main", "rPr")
        || str_eq(name.namespace_name(), "http://schemas.microsoft.com/office/drawing/2010/main")
}

/// Whether `name` is the WordprocessingML name `local`.
fn w_is(name: &XName, local: &str) -> (r: bool)
    ensures
        r == (name@ == w_name(local@)),
{
    name_is(name, "http://schemas.openxmlformats.org/wordprocessingml/2006/main", local)
}

/// The hash form of source node `node` down to `fuel` levels, before
/// salting.
fn clone_internal_unsalted(
    dom: &mut Dom,
    node: NodeId,
    fuel: usize,
    include_related_parts: bool,
    tt: TextTransform,
    rels: &RelHashResolver,
    Ghost(d0): Ghost<Seq<NodeView>>,
) -> (out: Vec<NodeId>)
    requires
        old(dom).wf(),
        links_ok(d0),
        extends(d0, old(dom)@),
        node.0 < d0.len(),
    ensures
        final(dom).wf(),
        built(
            old(dom)@,
            final(dom)@,
            ids(out@),
            hash_form_unsalted(d0, node.0 as int, fuel as nat, hash_options(include_related_parts, tt, rels@)),
        ),
    decreases fuel, 0int,
{
    let ghost e = dom@;
    let ghost o = hash_options(include_related_parts, tt, rels@);
    assert(dom@[node.0 as int] == d0[node.0 as int]);
    if fuel == 0 {
        proof {
            lemma_built_nothing(e);
        }
        let out: Vec<NodeId> = Vec::new();
        assert(ids(out@) =~= Seq::<usize>::empty());
        return out;
    }
    let g = fuel - 1;
    let ghost expected = hash_form_unsalted(d0, node.0 as int, fuel as nat, o);
    let ghost cs0 = d0[node.0 as int].children;
    if dom.is_text(node) {
        let raw = dom.value_str(node);
        let t = apply_text_transform(raw.as_str(), tt);
        let r = dom.new_text(t.as_str());
        proof {
            lemma_built_leaf(e, dom@.last(), TreeView::Text { value: t@ }, r.0);
            assert(dom@ =~= e.push(dom@.last()));
        }
        let out = vec![r];
        assert(ids(out@) =~= seq![r.0]);
        return out;
    }
    let name = match dom.name(node) {
        Some(x) => x,
        None => {
            let r = copy_subtree(dom, node, fuel, Ghost(d0));
            let out = vec![r];
            assert(ids(out@) =~= seq![r.0]);
            return out;
        },
    };
    let no_attrs: Vec<Attr> = Vec::new();
    assert(attrs_view(no_attrs@) =~= Seq::<AttrView>::empty());
    assert(set_all(seq![], seq![]) == Seq::<AttrView>::empty());
    if is_hash_dropped(&name) {
        proof {
            lemma_built_nothing(e);
        }
        let out: Vec<NodeId> = Vec::new();
        assert(ids(out@) =~= Seq::<usize>::empty());
        return out;
    }
    let out_one = if w_is(&name, "footnoteReference") || w_is(&name, "endnoteReference") {
        let kids: Vec<NodeId> = Vec::new();
        proof {
            assert(ids(kids@) =~= Seq::<usize>::empty());
            lemma_built_nothing(e);
        }
        let r = wrap(dom, name, &no_attrs, &kids, Ghost(e), Ghost(Seq::<TreeView>::empty()));
        assert(expected == seq![bare(name@, seq![])]);
        r
    } else if w_is(&name, "p") {
        let r = clone_paragraph(dom, node, g, include_related_parts, tt, rels, Ghost(d0));
        assert(expected == seq![
            TreeView::Element {
                name: w_name("p"@),
                attrs: copied_attrs(attrs_of(d0, node.0 as int), AttrFilter::Para),
                kids: para_kids(hash_forms(d0, cs0, g as nat, o), tt),
            },
        ]);
        r
    } else if w_is(&name, "r") {
        return clone_run_pieces(dom, node, g, include_related_parts, tt, rels, Ghost(d0));
    } else if w_is(&name, "tbl") {
        let f = W::name("tr");
        let r = clone_bare(dom, node, name, Some(&f), g, include_related_parts, tt, rels, Ghost(d0));
        assert(expected == seq![bare(name@, hash_forms(d0, elements_of(d0, node.0 as int, Some(w_name("tr"@))), g as nat, o))]);
        r
    } else if w_is(&name, "tr") {
        let f = W::name("tc");
        clone_bare(dom, node, name, Some(&f), g, include_related_parts, tt, rels, Ghost(d0))
    } else if w_is(&name, "tc") {
        let kids = clone_children_elements(dom, node, g, include_related_parts, tt, rels, Ghost(d0));
        let ghost kts = hash_forms(d0, elements_of(d0, node.0 as int, None), g as nat, o);
        wrap(dom, name, &no_attrs, &kids, Ghost(e), Ghost(kts))
    } else if w_is(&name, "tcPr") {
        let f = W::name("gridSpan");
        clone_bare(dom, node, name, Some(&f), g, include_related_parts, tt, rels, Ghost(d0))
    } else if w_is(&name, "gridSpan") {
        let val = match dom.attribute(node, &W::name("val")) {
            Some(v) => String::from_str(v),
            None => String::new(),
        };
        let mut sets: Vec<Attr> = Vec::new();
        sets.push(Attr { name: XName::get("val", ""), value: val });
        proof {
            reveal_strlit("");
            assert(""@ =~= Seq::<char>::empty());
        }
        let kids: Vec<NodeId> = Vec::new();
        proof {
            assert(ids(kids@) =~= Seq::<usize>::empty());
        }
        let ghost av = AttrView {
            name: plain_name("val"@),
            value: match attribute_of(d0, node.0 as int, w_name("val"@)) {
                Some(v) => v,
                None => seq![],
            },
        };
        assert(attrs_view(sets@) =~= seq![av]);
        let r = wrap(dom, name, &sets, &kids, Ghost(e), Ghost(Seq::<TreeView>::empty()));
        assert(expected == seq![TreeView::Element { name: name@, attrs: set_all(seq![], seq![av]), kids: seq![] }]);
        r
    } else if w_is(&name, "txbxContent") {
        let kids = clone_children_elements(dom, node, g, include_related_parts, tt, rels, Ghost(d0));
        let ghost kts = hash_forms(d0, elements_of(d0, node.0 as int, None), g as nat, o);
        wrap(dom, name, &no_attrs, &kids, Ghost(e), Ghost(kts))
    } else if include_related_parts && is_element_with_rel_ids(&name) {
        let sets = rel_kept_of(dom, node, rels);
        assert(attrs_of(dom@, node.0 as int) == attrs_of(d0, node.0 as int));
        let kids = clone_children(dom, node, g, include_related_parts, tt, rels, Ghost(d0));
        let ghost kts = hash_forms(d0, cs0, g as nat, o);
        let r = wrap(dom, name, &sets, &kids, Ghost(e), Ghost(kts));
        assert(expected == seq![
            TreeView::Element { name: name@, attrs: rel_attrs(attrs_of(d0, node.0 as int), rels@), kids: hash_forms(d0, cs0, g as nat, o) },
        ]);
        r
    } else {
        let af = if name_is(&name, "urn:schemas-microsoft-com:vml", "shape") {
            AttrFilter::Shape
        } else if name_is(&name, "urn:schemas-microsoft-com:office:office", "OLEObject") {
            AttrFilter::OleObject
        } else if w_is(&name, "object") {
            AttrFilter::Object
        } else if name_is(&name, "http://schemas.openxmlformats.org/drawingml/2006/wordprocessingDrawing", "docPr") {
            AttrFilter::DocPr
        } else {
            AttrFilter::Default
        };
        let kids = clone_children(dom, node, g, include_related_parts, tt, rels, Ghost(d0));
        let ghost kts = hash_forms(d0, cs0, g as nat, o);
        assert(attrs_of(dom@, node.0 as int) == attrs_of(d0, node.0 as int)) by {
            assert(dom@[node.0 as int] == d0[node.0 as int]);
        }
        let r = new_with_filtered_attrs(dom, name, node, af, &kids, Ghost(e), Ghost(kts));
        assert(expected == seq![
            TreeView::Element { name: name@, attrs: copied_attrs(attrs_of(d0, node.0 as int), af), kids: hash_forms(d0, cs0, g as nat, o) },
        ]);
        r
    };
    let out = vec![out_one];
    assert(ids(out@) =~= seq![out_one.0]);
    out
}


// ── namespace declarations ──────────────────────────────────────────────────

/// The names of the namespace declarations among `attrs`, in order.
pub open spec fn decl_names(attrs: Seq<AttrView>) -> Seq<XNameView>
    decreases attrs.len(),
{
    if attrs.len() == 0 {
        seq![]
    } else {
        decl_names(attrs.drop_last()) + if ns_declaration(attrs.last().name) {
            seq![attrs.last().name]
        } else {
            seq![]
        }
    }
}

/// `acc` with an attribute of each of the `names` removed in order.
pub open spec fn remove_named(acc: Seq<AttrView>, names: Seq<XNameView>) -> Seq<AttrView>
    decreases names.len(),
{
    if names.len() == 0 {
        acc
    } else {
        set_attr(remove_named(acc, names.drop_last()), names.last(), None)
    }
}

/// `attrs` without their namespace declarations.
pub open spec fn without_decls(attrs: Seq<AttrView>) -> Seq<AttrView> {
    remove_named(attrs, decl_names(attrs))
}

/// A node kind without namespace declarations.
pub open spec fn kind_without_decls(k: KindView) -> KindView {
    match k {
        KindView::Element { name, attrs } => KindView::Element { name, attrs: without_decls(attrs) },
        _ => k,
    }
}

/// A tree without namespace declarations.
pub open spec fn tree_without_decls(t: TreeView) -> TreeView
    decreases t,
{
    match t {
        TreeView::Element { name, attrs, kids } => TreeView::Element {
            name,
            attrs: without_decls(attrs),
            kids: forest_without_decls(kids),
        },
        TreeView::Document { kids } => TreeView::Document { kids: forest_without_decls(kids) },
        TreeView::Text { .. } => t,
    }
}

/// Trees without namespace declarations.
pub open spec fn forest_without_decls(ts: Seq<TreeView>) -> Seq<TreeView>
    decreases ts,
{
    if ts.len() == 0 {
        seq![]
    } else {
        forest_without_decls(ts.subrange(0, ts.len() - 1)).push(tree_without_decls(ts[ts.len() - 1]))
    }
}

/// A tree of a range whose nodes all lost their namespace declarations.
proof fn lemma_tree_without_decls(d1: Seq<NodeView>, d2: Seq<NodeView>, n: int, t: TreeView, lo: int, hi: int)
    requires
        tree_in(d1, n, t, lo, hi),
        hi <= d2.len(),
        forall|k: int| lo <= k < hi ==> #[trigger] d2[k].kind == kind_without_decls(d1[k].kind) && d2[k].children == d1[k].children,
    ensures
        tree_in(d2, n, tree_without_decls(t), lo, hi),
    decreases t,
{
    assert(d2[n].kind == kind_without_decls(d1[n].kind));
    match t {
        TreeView::Element { kids, .. } => lemma_forest_without_decls(d1, d2, d1[n].children, kids, lo, hi),
        TreeView::Document { kids } => lemma_forest_without_decls(d1, d2, d1[n].children, kids, lo, hi),
        TreeView::Text { .. } => {},
    }
}

/// A forest of a range whose nodes all lost their namespace declarations.
proof fn lemma_forest_without_decls(
    d1: Seq<NodeView>,
    d2: Seq<NodeView>,
    cs: Seq<usize>,
    ts: Seq<TreeView>,
    lo: int,
    hi: int,
)
    requires
        forest_in(d1, cs, ts, lo, hi),
        hi <= d2.len(),
        forall|k: int| lo <= k < hi ==> #[trigger] d2[k].kind == kind_without_decls(d1[k].kind) && d2[k].children == d1[k].children,
    ensures
        forest_in(d2, cs, forest_without_decls(ts), lo, hi),
    decreases ts,
{
    if ts.len() > 0 {
        let cs0 = cs.subrange(0, cs.len() - 1);
        let ts0 = ts.subrange(0, ts.len() - 1);
        lemma_forest_without_decls(d1, d2, cs0, ts0, lo, hi);
        lemma_tree_without_decls(d1, d2, cs[cs.len() - 1] as int, ts[ts.len() - 1], lo, hi);
        lemma_forest_push(d2, cs0, forest_without_decls(ts0), cs[cs.len() - 1], tree_without_decls(ts[ts.len() - 1]), lo, hi);
        assert(cs0.push(cs[cs.len() - 1]) =~= cs);
    }
}

/// Removes the namespace declarations of every element from node `from`
/// on.
fn strip_decls_from(dom: &mut Dom, from: usize)
    requires
        old(dom).wf(),
        from <= old(dom)@.len(),
    ensures
        final(dom).wf(),
        final(dom)@.len() == old(dom)@.len(),
        forall|k: int| 0 <= k < from ==> #[trigger] final(dom)@[k] == old(dom)@[k],
        forall|k: int| from <= k < old(dom)@.len() ==> #[trigger] final(dom)@[k] == (NodeView {
            kind: kind_without_decls(old(dom)@[k].kind),
            ..old(dom)@[k]
        }),
{
    let ghost d = dom@;
    let len = dom.len();
    let mut k = from;
    while k < len
        invariant
            dom.wf(),
            d == old(dom)@,
            len == d.len(),
            dom@.len() == d.len(),
            from <= k <= len,
            forall|j: int| 0 <= j < from ==> #[trigger] dom@[j] == d[j],
            forall|j: int| k <= j < len ==> #[trigger] dom@[j] == d[j],
            forall|j: int| from <= j < k ==> #[trigger] dom@[j] == (NodeView { kind: kind_without_decls(d[j].kind), ..d[j] }),
        decreases len - k,
    {
        let id = NodeId(k);
        assert(dom@[k as int] == d[k as int]);
        if dom.is_element(id) {
            let ghost a = attrs_of(d, k as int);
            let ghost nm = d[k as int].kind->Element_name;
            let n = dom.attr_count(id);
            let mut names: Vec<XName> = Vec::new();
            let mut i: usize = 0;
            assert(a.take(0) =~= Seq::<AttrView>::empty());
            while i < n
                invariant
                    dom@[k as int] == d[k as int],
                    k < dom@.len(),
                    k < d.len(),
                    id.0 == k,
                    a == attrs_of(dom@, k as int),
                    n == a.len(),
                    i <= n,
                    names@.map_values(|x: XName| x@) == decl_names(a.take(i as int)),
                decreases n - i,
            {
                assert(a.take(i + 1).drop_last() =~= a.take(i as int));
                assert(a.take(i + 1).last() == a[i as int]);
                match dom.attr_at(id, i) {
                    Some(at) => {
                        assert(at@ == attrs_of(dom@, k as int)[i as int]);
                        assert(at@ == a[i as int]);
                        if is_namespace_declaration(&at.name) {
                            let ghost before = names@.map_values(|x: XName| x@);
                            names.push(at.name.clone());
                            assert(names@.map_values(|x: XName| x@) =~= before.push(at.name@));
                        } else {
                            assert(decl_names(a.take(i + 1)) =~= decl_names(a.take(i as int)));
                        }
                    },
                    None => {},
                }
                i = i + 1;
            }
            assert(a.take(n as int) =~= a);
            let ghost nv = names@.map_values(|x: XName| x@);
            let ghost dk = dom@;
            let mut j: usize = 0;
            assert(nv.take(0) =~= Seq::<XNameView>::empty());
            while j < names.len()
                invariant
                    dom.wf(),
                    k < dom@.len(),
                    k < d.len(),
                    id.0 == k,
                    dom@.len() == dk.len(),
                    nv == names@.map_values(|x: XName| x@),
                    j <= names@.len(),
                    forall|q: int| 0 <= q < dk.len() && q != k ==> #[trigger] dom@[q] == dk[q],
                    dom@[k as int] == (NodeView {
                        kind: KindView::Element { name: nm, attrs: remove_named(a, nv.take(j as int)) },
                        ..dk[k as int]
                    }),
                    dk[k as int] == d[k as int],
                    d[k as int].kind == (KindView::Element { name: nm, attrs: a }),
                decreases names@.len() - j,
            {
                assert(nv.take(j + 1).drop_last() =~= nv.take(j as int));
                assert(nv.take(j + 1).last() == names@[j as int]@);
                let ghost before = dom@;
                assert(name_of(before, k as int) is Some);
                dom.set_attribute_value(id, &names[j], None);
                assert(dom@ == before.update(
                    k as int,
                    NodeView {
                        kind: KindView::Element {
                            name: nm,
                            attrs: set_attr(remove_named(a, nv.take(j as int)), nv[j as int], None),
                        },
                        ..before[k as int]
                    },
                ));
                assert(remove_named(a, nv.take(j + 1)) == set_attr(remove_named(a, nv.take(j as int)), nv[j as int], None));
                j = j + 1;
            }
            assert(nv.take(names@.len() as int) =~= nv);
            assert(dom@[k as int] == (NodeView { kind: kind_without_decls(d[k as int].kind), ..d[k as int] }));
        } else {
            assert(kind_without_decls(d[k as int].kind) == d[k as int].kind);
            assert(dom@[k as int] == (NodeView { kind: kind_without_decls(d[k as int].kind), ..d[k as int] }));
        }
        k = k + 1;
    }
}

/// The tree the hash copy of node `n` is rooted at: the first hash form,
/// or, when there is none, an empty element named like `n` (`w:p` for a
/// node that is not an element).
pub open spec fn hash_root(d: Seq<NodeView>, n: int, o: HashOptions) -> TreeView {
    let forms = hash_form(d, n, d.len(), o);
    if forms.len() > 0 {
        forms[0]
    } else {
        bare(
            match name_of(d, n) {
                Some(x) => x,
                None => w_name("p"@),
            },
            seq![],
        )
    }
}

/// The copy of block-level content `node` that its hash is taken over: its
/// hash form (the first piece of it, or an empty element named like it
/// when there is none), with every namespace declaration removed, built of
/// new nodes.
pub fn clone_block_level_content_for_hashing(
    dom: &mut Dom,
    node: NodeId,
    include_related_parts: bool,
    tt: TextTransform,
    rel_hash: &RelHashResolver,
) -> (r: NodeId)
    requires
        old(dom).wf(),
        node.0 < old(dom)@.len(),
    ensures
        final(dom).wf(),
        extends(old(dom)@, final(dom)@),
        final(dom)@[r.0 as int].parent is None,
        tree_in(
            final(dom)@,
            r.0 as int,
            tree_without_decls(
                hash_root(old(dom)@, node.0 as int, hash_options(include_related_parts, tt, rel_hash@)),
            ),
            old(dom)@.len() as int,
            final(dom)@.len() as int,
        ),
{
    let ghost d0 = dom@;
    let ghost lo = d0.len() as int;
    let ghost o = hash_options(include_related_parts, tt, rel_hash@);
    let fuel = dom.len();
    let from = fuel;
    let cloned = clone_internal(dom, node, fuel, include_related_parts, tt, rel_hash, Ghost(d0));
    let ghost forms = hash_form(d0, node.0 as int, fuel as nat, o);
    let ghost d1 = dom@;
    let root = if cloned.len() > 0 {
        proof {
            lemma_forest_index(d1, ids(cloned@), forms, lo, d1.len() as int);
            assert(ids(cloned@)[0] == cloned@[0].0);
        }
        cloned[0]
    } else {
        assert(dom@[node.0 as int] == d0[node.0 as int]);
        let name = match dom.name(node) {
            Some(x) => x,
            None => W::name("p"),
        };
        let ghost t = bare(name@, seq![]);
        let r = dom.new_element(name);
        proof {
            lemma_built_leaf(d1, dom@.last(), t, r.0);
            assert(dom@ =~= d1.push(dom@.last()));
            lemma_forest_index(dom@, seq![r.0], seq![t], d1.len() as int, dom@.len() as int);
            crate::tree::lemma_tree_widen(dom@, r.0 as int, t, d1.len() as int, dom@.len() as int, lo, dom@.len() as int);
            lemma_extends_trans(d0, d1, dom@);
        }
        r
    };
    let ghost d2 = dom@;
    assert(tree_in(d2, root.0 as int, hash_root(d0, node.0 as int, o), lo, d2.len() as int));
    strip_decls_from(dom, from);
    proof {
        let d3 = dom@;
        assert forall|k: int| lo <= k < d2.len() implies #[trigger] d3[k].kind == kind_without_decls(d2[k].kind) && d3[k].children == d2[k].children by {
            assert(d3[k] == (NodeView { kind: kind_without_decls(d2[k].kind), ..d2[k] }));
        }
        lemma_tree_without_decls(d2, d3, root.0 as int, hash_root(d0, node.0 as int, o), lo, d2.len() as int);
        assert forall|k: int| 0 <= k < d0.len() implies #[trigger] d3[k] == d0[k] by {
            assert(d3[k] == d2[k]);
        }
        assert(d3[root.0 as int] == (NodeView { kind: kind_without_decls(d2[root.0 as int].kind), ..d2[root.0 as int] }));
    }
    root
}


/// Setting attributes none of which is named `x` on attributes without one
/// named `x` leaves none named `x`.
proof fn lemma_set_all_lacks(acc: Seq<AttrView>, sets: Seq<AttrView>, x: XNameView)
    requires
        crate::xml::attr_lookup(acc, x) is None,
        forall|i: int| 0 <= i < sets.len() ==> #[trigger] sets[i].name != x,
    ensures
        crate::xml::attr_lookup(set_all(acc, sets), x) is None,
    decreases sets.len(),
{
    if sets.len() > 0 {
        assert forall|i: int| 0 <= i < sets.drop_last().len() implies #[trigger] sets.drop_last()[i].name != x by {
            assert(sets.drop_last()[i] == sets[i]);
        }
        lemma_set_all_lacks(acc, sets.drop_last(), x);
        let a = sets.last();
        assert(a.name != x);
        crate::xml::lemma_set_attr_some(set_all(acc, sets.drop_last()), a.name, a.value, x);
    }
}

/// The attributes a filter keeps are all ones it does not drop.
proof fn lemma_kept_not_dropped(src: Seq<AttrView>, f: AttrFilter)
    ensures
        forall|i: int| 0 <= i < kept(src, f).len() ==> !filter_drops(f, #[trigger] kept(src, f)[i].name),
    decreases src.len(),
{
    if src.len() > 0 {
        lemma_kept_not_dropped(src.drop_last(), f);
        let a = kept(src.drop_last(), f);
        let b: Seq<AttrView> = if filter_drops(f, src.last().name) { seq![] } else { seq![src.last()] };
        assert forall|i: int| 0 <= i < (a + b).len() implies !filter_drops(f, #[trigger] (a + b)[i].name) by {
            if i < a.len() {
                assert((a + b)[i] == a[i]);
            } else {
                assert((a + b)[i] == b[i - a.len()]);
            }
        }
    }
}

/// The WordprocessingML namespace is not the Office 2010 drawing one.
proof fn lemma_w_not_a14()
    ensures
        w_uri_is_not_a14(),
{
    reveal_strlit("http://schemas.openxmlformats.org/wordprocessingml/2006/main");
    reveal_strlit("http://schemas.microsoft.com/office/drawing/2010/main");
    assert(crate::namespaces::w_uri()[15] != a14_uri()[15]);
}

/// The WordprocessingML namespace is not the Office 2010 drawing one.
pub open spec fn w_uri_is_not_a14() -> bool {
    crate::namespaces::w_uri() != a14_uri()
}

/// The salt keeps the hash form of content of an earlier deletion apart
/// from that of live content: a paragraph stamped as such and one that is
/// not never have the same hash form.
pub proof fn lemma_salt_separates(d: Seq<NodeView>, n1: int, n2: int, f: nat, o: HashOptions)
    requires
        f > 0,
        name_of(d, n1) == Some(w_name("p"@)),
        name_of(d, n2) == Some(w_name("p"@)),
        attribute_of(d, n1, pt_name("PreDelete"@)) == Some("orig"@),
        attribute_of(d, n2, pt_name("PreDelete"@)) != Some("orig"@),
    ensures
        hash_form(d, n1, f, o) != hash_form(d, n2, f, o),
{
    let x = salt_name();
    let a1 = d[n1].kind->Element_attrs;
    let a2 = d[n2].kind->Element_attrs;
    let u1 = hash_form_unsalted(d, n1, f, o);
    let u2 = hash_form_unsalted(d, n2, f, o);
    reveal_strlit("p");
    reveal_strlit("bookmarkStart");
    reveal_strlit("bookmarkEnd");
    reveal_strlit("pPr");
    reveal_strlit("rPr");
    reveal_strlit("footnoteReference");
    reveal_strlit("endnoteReference");
    reveal_strlit("http://schemas.openxmlformats.org/wordprocessingml/2006/main");
    reveal_strlit("http://schemas.microsoft.com/office/drawing/2010/main");
    reveal_strlit("PreDeleteSalt");
    assert("p"@.len() != "pPr"@.len());
    lemma_w_not_a14();
    assert(!hash_dropped(w_name("p"@)));
    assert(!note_reference(w_name("p"@)));
    assert(u1[0] == TreeView::Element {
        name: w_name("p"@),
        attrs: copied_attrs(a1, AttrFilter::Para),
        kids: para_kids(hash_forms(d, d[n1].children, (f - 1) as nat, o), o.tt),
    });
    assert(u2[0] == TreeView::Element {
        name: w_name("p"@),
        attrs: copied_attrs(a2, AttrFilter::Para),
        kids: para_kids(hash_forms(d, d[n2].children, (f - 1) as nat, o), o.tt),
    });
    assert(x.local.len() == 13);
    assert(x != plain_name(seq![]));
    crate::xml::lemma_set_attr_some(copied_attrs(a1, AttrFilter::Para), x, "1"@, plain_name(seq![]));
    lemma_kept_not_dropped(a2, AttrFilter::Para);
    assert forall|i: int| 0 <= i < kept(a2, AttrFilter::Para).len() implies #[trigger] kept(a2, AttrFilter::Para)[i].name != x by {
        assert(!filter_drops(AttrFilter::Para, kept(a2, AttrFilter::Para)[i].name));
    }
    lemma_set_all_lacks(seq![], kept(a2, AttrFilter::Para), x);
    let h1 = hash_form(d, n1, f, o);
    let h2 = hash_form(d, n2, f, o);
    assert(h1[0] == salted(u1[0]));
    assert(h2 == u2);
    assert(crate::xml::attr_lookup(h1[0]->Element_attrs, x) == Some("1"@));
    assert(crate::xml::attr_lookup(h2[0]->Element_attrs, x) is None);
}

} // verus!
