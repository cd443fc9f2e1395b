//! Preprocessing before hashing: attribute classes that hashing ignores,
//! removal of earlier comparison annotations, the invalid-content guard,
//! whitespace-invariant text and XML escaping.

use vstd::prelude::*;

use crate::namespaces::{pt_name, pt_uri, w14_uri, w_name, w_uri, PT, W, W14};
use crate::text::{chars_of, is_white_space, is_whitespace_char, push_char, str_eq};
use crate::xml::{
    attrs_of, descendants_of, elements_of, filter_view, has_name, ids, name_of, AttrView, Dom,
    KindView, NodeId, NodeView, XName, XNameView,
};

verus! {

/// The value every relationship id resolves to when no package is at hand.
pub fn null_rel_resolver(_r_id: &str) -> (r: Option<String>)
    ensures
        r matches Some(s) && s@ == "NULL Relationship"@,
{
    Some(String::from_str("NULL Relationship"))
}

// ── attribute classes ───────────────────────────────────────────────────────

/// A `w:rsid*` revision-session attribute.
pub open spec fn rsid_attr(n: XNameView) -> bool {
    &&& n.namespace == w_uri()
    &&& {
        ||| n.local == "rsid"@
        ||| n.local == "rsidDel"@
        ||| n.local == "rsidP"@
        ||| n.local == "rsidR"@
        ||| n.local == "rsidRDefault"@
        ||| n.local == "rsidRPr"@
        ||| n.local == "rsidSect"@
        ||| n.local == "rsidTr"@
    }
}

/// Whether the name is a `w:rsid*` revision-session attribute.
pub fn is_rsid_attr(name: &XName) -> (r: bool)
    ensures
        r == rsid_attr(name@),
{
    let l = name.local_name();
    str_eq(name.namespace_name(), W::uri()) && (str_eq(l, "rsid") || str_eq(l, "rsidDel")
        || str_eq(l, "rsidP") || str_eq(l, "rsidR") || str_eq(l, "rsidRDefault") || str_eq(
        l,
        "rsidRPr",
    ) || str_eq(l, "rsidSect") || str_eq(l, "rsidTr"))
}

/// Whether the name is in the annotation namespace.
pub fn is_pt(name: &XName) -> (r: bool)
    ensures
        r == (name@.namespace == pt_uri()),
{
    str_eq(name.namespace_name(), PT::uri())
}

/// A volatile per-paragraph id: `w14:paraId` or `w14:textId`.
pub open spec fn volatile_para_attr(n: XNameView) -> bool {
    n.namespace == w14_uri() && (n.local == "paraId"@ || n.local == "textId"@)
}

/// Whether the name is `w14:paraId` or `w14:textId`, ids Word regenerates.
pub fn is_volatile_para_attr(name: &XName) -> (r: bool)
    ensures
        r == volatile_para_attr(name@),
{
    let l = name.local_name();
    str_eq(name.namespace_name(), W14::uri()) && (str_eq(l, "paraId") || str_eq(l, "textId"))
}

// ── whitespace and escaping ─────────────────────────────────────────────────

/// `t` without its whitespace characters.
pub open spec fn strip_white(t: Seq<char>) -> Seq<char>
    decreases t.len(),
{
    if t.len() == 0 {
        seq![]
    } else {
        strip_white(t.drop_last()) + if is_white_space(t.last()) {
            seq![]
        } else {
            seq![t.last()]
        }
    }
}

/// `text` without its whitespace, for whitespace-insensitive block hashes.
pub fn whitespace_invariant_for_hash(text: &str) -> (r: String)
    ensures
        r@ == strip_white(text@),
{
    let t = chars_of(text);
    let mut out = String::new();
    let mut i: usize = 0;
    assert(t@.take(0) =~= Seq::<char>::empty());
    while i < t.len()
        invariant
            t@ == text@,
            i <= t@.len(),
            out@ == strip_white(t@.take(i as int)),
        decreases t@.len() - i,
    {
        assert(t@.take(i + 1).drop_last() =~= t@.take(i as int));
        if !is_whitespace_char(t[i]) {
            push_char(&mut out, t[i]);
        } else {
            assert(out@ =~= out@ + Seq::<char>::empty());
        }
        i = i + 1;
    }
    assert(t@.take(t@.len() as int) =~= t@);
    out
}

/// The escaped form of one character of an attribute value.
pub open spec fn escape_attr_char(c: char) -> Seq<char> {
    if c == '&' {
        "&amp;"@
    } else if c == '<' {
        "&lt;"@
    } else if c == '>' {
        "&gt;"@
    } else if c == '"' {
        "&quot;"@
    } else {
        seq![c]
    }
}

/// The escaped form of one character of text content.
pub open spec fn escape_text_char(c: char) -> Seq<char> {
    if c == '&' {
        "&amp;"@
    } else if c == '<' {
        "&lt;"@
    } else if c == '>' {
        "&gt;"@
    } else {
        seq![c]
    }
}

/// `t` with each character replaced by its escaped form (`attr` selects the
/// attribute-value escaping, which also escapes `"`).
pub open spec fn escaped(t: Seq<char>, attr: bool) -> Seq<char>
    decreases t.len(),
{
    if t.len() == 0 {
        seq![]
    } else {
        escaped(t.drop_last(), attr) + if attr {
            escape_attr_char(t.last())
        } else {
            escape_text_char(t.last())
        }
    }
}

fn escape_chars(s: &str, attr: bool) -> (r: String)
    ensures
        r@ == escaped(s@, attr),
{
    let t = chars_of(s);
    let mut out = String::new();
    let mut i: usize = 0;
    assert(t@.take(0) =~= Seq::<char>::empty());
    while i < t.len()
        invariant
            t@ == s@,
            i <= t@.len(),
            out@ == escaped(t@.take(i as int), attr),
        decreases t@.len() - i,
    {
        assert(t@.take(i + 1).drop_last() =~= t@.take(i as int));
        let c = t[i];
        if c == '&' {
            out.append("&amp;");
        } else if c == '<' {
            out.append("&lt;");
        } else if c == '>' {
            out.append("&gt;");
        } else if attr && c == '"' {
            out.append("&quot;");
        } else {
            push_char(&mut out, c);
            assert(out@ =~= escaped(t@.take(i as int), attr) + seq![c]);
        }
        i = i + 1;
    }
    assert(t@.take(t@.len() as int) =~= t@);
    out
}

/// `s` escaped for an attribute value: `&`, `<`, `>` and `"` become entities.
pub fn escape_xml_attr(s: &str) -> (r: String)
    ensures
        r@ == escaped(s@, true),
{
    escape_chars(s, true)
}

/// `s` escaped for text content: `&`, `<` and `>` become entities.
pub fn escape_xml_text(s: &str) -> (r: String)
    ensures
        r@ == escaped(s@, false),
{
    escape_chars(s, false)
}

// ── laws of escaping ────────────────────────────────────────────────────────

/// A character the escaping rewrites: `&`, `<`, `>`, and `"` for attributes.
pub open spec fn needs_escape(c: char, attr: bool) -> bool {
    c == '&' || c == '<' || c == '>' || (attr && c == '"')
}

/// Text with nothing to escape comes back unchanged.
pub proof fn lemma_escape_plain(t: Seq<char>, attr: bool)
    requires
        forall|i: int| 0 <= i < t.len() ==> !needs_escape(#[trigger] t[i], attr),
    ensures
        escaped(t, attr) == t,
    decreases t.len(),
{
    if t.len() > 0 {
        lemma_escape_plain(t.drop_last(), attr);
        assert(escaped(t.drop_last(), attr) + seq![t.last()] =~= t);
    }
}

/// Escaped text holds no `<` or `>`, and escaped attribute values no `"`.
pub proof fn lemma_escape_safe(t: Seq<char>, attr: bool)
    ensures
        forall|i: int|
            0 <= i < escaped(t, attr).len() ==> #[trigger] escaped(t, attr)[i] != '<'
                && escaped(t, attr)[i] != '>' && (attr ==> escaped(t, attr)[i] != '"'),
    decreases t.len(),
{
    reveal_strlit("&amp;");
    reveal_strlit("&lt;");
    reveal_strlit("&gt;");
    reveal_strlit("&quot;");
    if t.len() > 0 {
        lemma_escape_safe(t.drop_last(), attr);
        let pre = escaped(t.drop_last(), attr);
        let tail = if attr {
            escape_attr_char(t.last())
        } else {
            escape_text_char(t.last())
        };
        assert forall|i: int| 0 <= i < tail.len() implies tail[i] != '<' && tail[i] != '>' && (
        attr ==> tail[i] != '"') by {}
        assert forall|i: int| 0 <= i < escaped(t, attr).len() implies #[trigger] escaped(t, attr)[i]
            != '<' && escaped(t, attr)[i] != '>' && (attr ==> escaped(t, attr)[i] != '"') by {
            if i < pre.len() {
                assert(escaped(t, attr)[i] == pre[i]);
            } else {
                assert(escaped(t, attr)[i] == tail[i - pre.len()]);
            }
        }
    }
}

// ── element children ────────────────────────────────────────────────────────

/// The child elements of `node`, in order.
pub fn element_children(dom: &Dom, node: NodeId) -> (r: Vec<NodeId>)
    requires
        dom.wf(),
    ensures
        ids(r@) == elements_of(dom@, node.0 as int, None),
{
    dom.elements(node, None)
}

/// The child elements of `node` named `filter`, in order.
pub fn element_children_named(dom: &Dom, node: NodeId, filter: &XName) -> (r: Vec<NodeId>)
    requires
        dom.wf(),
    ensures
        ids(r@) == elements_of(dom@, node.0 as int, Some(filter@)),
{
    dom.elements(node, Some(filter))
}

/// `e` is a `w:r` whose only child element is a `w:t`.
pub open spec fn single_t_run(d: Seq<NodeView>, e: int) -> bool {
    &&& has_name(d, e, w_name("r"@))
    &&& elements_of(d, e, None).len() == 1
    &&& has_name(d, elements_of(d, e, None)[0] as int, w_name("t"@))
}

/// Whether `e` is a run holding a single text element and no other element.
pub fn is_single_t_run(dom: &Dom, e: NodeId) -> (r: bool)
    requires
        dom.wf(),
    ensures
        r == single_t_run(dom@, e.0 as int),
{
    if !dom.is_named(e, &W::r()) {
        return false;
    }
    let es = dom.elements(e, None);
    if es.len() != 1 {
        return false;
    }
    assert(ids(es@)[0] == es@[0].0);
    dom.is_named(es[0], &W::t())
}

// ── earlier annotations ─────────────────────────────────────────────────────

/// An annotation attribute other than `pt:Unid`.
pub open spec fn dropped_annotation(a: AttrView) -> bool {
    a.name.namespace == pt_uri() && a.name != pt_name("Unid"@)
}

/// `attrs` without the annotation attributes other than `pt:Unid`.
pub open spec fn kept_attrs(attrs: Seq<AttrView>) -> Seq<AttrView>
    decreases attrs.len(),
{
    if attrs.len() == 0 {
        seq![]
    } else {
        (if dropped_annotation(attrs[0]) {
            seq![]
        } else {
            seq![attrs[0]]
        }) + kept_attrs(attrs.drop_first())
    }
}

/// `d` with element `i`'s earlier annotations removed.
pub open spec fn strip_one(d: Seq<NodeView>, i: int) -> Seq<NodeView> {
    if name_of(d, i) is Some {
        d.update(
            i,
            NodeView {
                kind: KindView::Element {
                    name: d[i].kind->Element_name,
                    attrs: kept_attrs(d[i].kind->Element_attrs),
                },
                ..d[i]
            },
        )
    } else {
        d
    }
}

/// `d` with the earlier annotations of every element among `ns` removed.
pub open spec fn strip_all(d: Seq<NodeView>, ns: Seq<usize>) -> Seq<NodeView>
    decreases ns.len(),
{
    if ns.len() == 0 {
        d
    } else {
        strip_one(strip_all(d, ns.drop_last()), ns.last() as int)
    }
}

/// Removes every annotation attribute except `pt:Unid` from `root` and all
/// elements below it.
pub fn remove_existing_powertools_markup(dom: &mut Dom, root: NodeId)
    requires
        old(dom).wf(),
    ensures
        final(dom).wf(),
        final(dom)@ == strip_all(
            old(dom)@,
            seq![root.0] + descendants_of(old(dom)@, root.0 as int, None),
        ),
{
    let ghost d0 = dom@;
    let below = dom.descendants(root, None);
    let mut els: Vec<NodeId> = Vec::new();
    els.push(root);
    let mut i: usize = 0;
    while i < below.len()
        invariant
            els@.len() == i + 1,
            i <= below@.len(),
            ids(els@) == seq![root.0] + ids(below@).take(i as int),
        decreases below@.len() - i,
    {
        let ghost prev = ids(els@);
        els.push(below[i]);
        assert(ids(els@) =~= prev.push(below@[i as int].0));
        assert(ids(below@).take(i + 1) =~= ids(below@).take(i as int).push(below@[i as int].0));
        assert(ids(els@) =~= seq![root.0] + ids(below@).take(i + 1));
        i = i + 1;
    }
    assert(ids(below@).take(below@.len() as int) =~= ids(below@));
    let ghost ns = ids(els@);
    let unid = PT::unid();
    let mut k: usize = 0;
    assert(ns.take(0) =~= Seq::<usize>::empty());
    while k < els.len()
        invariant
            dom.wf(),
            ns == ids(els@),
            unid@ == pt_name("Unid"@),
            k <= els@.len(),
            dom@ == strip_all(d0, ns.take(k as int)),
        decreases els@.len() - k,
    {
        let el = els[k];
        assert(ns.take(k + 1).drop_last() =~= ns.take(k as int));
        let ghost dk = dom@;
        let ghost orig = attrs_of(dk, el.0 as int);
        let mut j = dom.attr_count(el);
        assert(orig.skip(j as int) =~= Seq::<AttrView>::empty());
        assert(orig.take(j as int) =~= orig);
        proof {
            if name_of(dk, el.0 as int) is Some {
                assert(dk =~= dk.update(
                    el.0 as int,
                    NodeView {
                        kind: KindView::Element {
                            name: dk[el.0 as int].kind->Element_name,
                            attrs: orig.take(j as int) + kept_attrs(orig.skip(j as int)),
                        },
                        ..dk[el.0 as int]
                    },
                ));
            }
        }
        while j > 0
            invariant
                dom.wf(),
                unid@ == pt_name("Unid"@),
                j <= orig.len(),
                orig == attrs_of(dk, el.0 as int),
                j > 0 ==> name_of(dk, el.0 as int) is Some,
                name_of(dk, el.0 as int) is Some ==> dom@ == dk.update(
                    el.0 as int,
                    NodeView {
                        kind: KindView::Element {
                            name: dk[el.0 as int].kind->Element_name,
                            attrs: orig.take(j as int) + kept_attrs(orig.skip(j as int)),
                        },
                        ..dk[el.0 as int]
                    },
                ),
                name_of(dk, el.0 as int) is None ==> dom@ == dk,
            decreases j,
        {
            assert(orig.skip(j - 1).drop_first() =~= orig.skip(j as int));
            assert(orig.skip(j - 1)[0] == orig[j - 1]);
            let cur_attrs = Ghost(attrs_of(dom@, el.0 as int));
            assert(cur_attrs@ == orig.take(j as int) + kept_attrs(orig.skip(j as int)));
            assert(cur_attrs@[j - 1] == orig[j - 1]);
            let drop = match dom.attr_at(el, j - 1) {
                Some(a) => is_pt(&a.name) && !a.name.same(&unid),
                None => false,
            };
            if drop {
                dom.remove_attribute_at(el, j - 1);
                assert(cur_attrs@.remove(j - 1) =~= orig.take(j - 1) + kept_attrs(
                    orig.skip(j - 1),
                ));
            } else {
                assert(cur_attrs@ =~= orig.take(j - 1) + kept_attrs(orig.skip(j - 1)));
            }
            j = j - 1;
        }
        assert(orig.take(0) + kept_attrs(orig.skip(0)) =~= kept_attrs(orig));
        assert(orig.skip(0) =~= orig);
        assert(dom@ =~= strip_one(dk, el.0 as int));
        k = k + 1;
    }
    assert(ns.take(els@.len() as int) =~= ns);
}

// ── invalid content ─────────────────────────────────────────────────────────

/// `n` is a `w:altChunk`, `w:subDoc` or `w:contentPart`.
pub open spec fn invalid_element(d: Seq<NodeView>, n: int) -> bool {
    ||| has_name(d, n, w_name("altChunk"@))
    ||| has_name(d, n, w_name("subDoc"@))
    ||| has_name(d, n, w_name("contentPart"@))
}

/// The first invalid element among `ns`.
pub open spec fn first_invalid(d: Seq<NodeView>, ns: Seq<usize>) -> Option<usize>
    decreases ns.len(),
{
    if ns.len() == 0 {
        None
    } else if invalid_element(d, ns[0] as int) {
        Some(ns[0])
    } else {
        first_invalid(d, ns.drop_first())
    }
}

/// Rejects content that cannot be compared: fails with `Document contains
/// <name>` for the first `w:altChunk`, `w:subDoc` or `w:contentPart` below
/// `root` in document order.
pub fn test_for_invalid_content(dom: &Dom, root: NodeId) -> (r: Result<(), String>)
    requires
        dom.wf(),
    ensures
        match r {
            Ok(()) => first_invalid(dom@, descendants_of(dom@, root.0 as int, None)) is None,
            Err(msg) => match first_invalid(dom@, descendants_of(dom@, root.0 as int, None)) {
                Some(n) => msg@ == "Document contains "@ + name_of(dom@, n as int)->0.local,
                None => false,
            },
        },
{
    let ns = dom.descendants(root, None);
    let ghost all = ids(ns@);
    let alt = W::name("altChunk");
    let sub = W::name("subDoc");
    let part = W::name("contentPart");
    let mut k: usize = 0;
    assert(all.skip(0) =~= all);
    while k < ns.len()
        invariant
            all == ids(ns@),
            all == descendants_of(dom@, root.0 as int, None),
            alt@ == w_name("altChunk"@),
            sub@ == w_name("subDoc"@),
            part@ == w_name("contentPart"@),
            k <= ns@.len(),
            first_invalid(dom@, all) == first_invalid(dom@, all.skip(k as int)),
        decreases ns@.len() - k,
    {
        let n = ns[k];
        assert(all.skip(k as int)[0] == n.0);
        assert(all.skip(k as int).drop_first() =~= all.skip(k + 1));
        if dom.is_named(n, &alt) || dom.is_named(n, &sub) || dom.is_named(n, &part) {
            let mut msg = String::from_str("Document contains ");
            match dom.name(n) {
                Some(nm) => {
                    msg.append(nm.local_name());
                },
                None => {},
            }
            return Err(msg);
        }
        k = k + 1;
    }
    assert(all.skip(ns@.len() as int) =~= Seq::<usize>::empty());
    Ok(())
}


// ── helpers of the streamed block hash ──────────────────────────────────────

/// An empty run child that the streamed hash of a simple paragraph accepts.
pub open spec fn streamable_empty_leaf(local: Seq<char>) -> bool {
    ||| local == "br"@
    ||| local == "tab"@
    ||| local == "cr"@
    ||| local == "noBreakHyphen"@
    ||| local == "softHyphen"@
    ||| local == "lastRenderedPageBreak"@
}

/// Whether `local` names an empty run child that the streamed hash of a
/// simple paragraph accepts.
pub fn is_streamable_empty_run_leaf(local: &str) -> (r: bool)
    ensures
        r == streamable_empty_leaf(local@),
{
    str_eq(local, "br") || str_eq(local, "tab") || str_eq(local, "cr") || str_eq(local, "noBreakHyphen")
        || str_eq(local, "softHyphen") || str_eq(local, "lastRenderedPageBreak")
}

/// `out` followed by the opening tag of the root element `w:local`,
/// declaring the WordprocessingML namespace.
pub open spec fn open_root_tag(local: Seq<char>) -> Seq<char> {
    "<w:"@ + local + " xmlns:w=\"http://schemas.openxmlformats.org/wordprocessingml/2006/main\">"@
}

/// Appends the opening tag of the root element `w:local`, declaring the
/// WordprocessingML namespace.
pub fn emit_open_root(out: &mut String, local: &str)
    ensures
        final(out)@ == old(out)@ + open_root_tag(local@),
{
    out.append("<w:");
    out.append(local);
    out.append(" xmlns:w=\"http://schemas.openxmlformats.org/wordprocessingml/2006/main\">");
    assert(final(out)@ =~= old(out)@ + open_root_tag(local@));
}

/// Node `n` is an element stamped as content of an earlier deletion.
pub open spec fn stamped_orig(d: Seq<NodeView>, n: int) -> bool {
    crate::xml::attribute_of(d, n, pt_name("PreDelete"@)) == Some("orig"@)
}

/// Node `node` is an element that, or one of whose descendant elements, is
/// stamped as content of an earlier deletion.
pub open spec fn has_predelete_orig(d: Seq<NodeView>, node: int) -> bool {
    &&& name_of(d, node) is Some
    &&& (stamped_orig(d, node) || exists|k: int|
        0 <= k < descendants_of(d, node, None).len() && #[trigger] stamped_orig(
            d,
            descendants_of(d, node, None)[k] as int,
        ))
}

/// Whether `node` is an element that, or one of whose descendant elements,
/// is stamped as content of an earlier deletion.
pub fn element_or_desc_has_predelete_orig(dom: &Dom, node: NodeId) -> (r: bool)
    requires
        dom.wf(),
    ensures
        r == has_predelete_orig(dom@, node.0 as int),
{
    if !dom.is_element(node) {
        return false;
    }
    let pre = PT::name("PreDelete");
    if is_orig(dom, node, &pre) {
        return true;
    }
    let ds = dom.descendants(node, None);
    let ghost dv = ids(ds@);
    let mut i: usize = 0;
    while i < ds.len()
        invariant
            dv == ids(ds@),
            dv == descendants_of(dom@, node.0 as int, None),
            pre@ == pt_name("PreDelete"@),
            name_of(dom@, node.0 as int) is Some,
            i <= ds@.len(),
            forall|k: int| 0 <= k < i ==> !stamped_orig(dom@, #[trigger] dv[k] as int),
        decreases ds@.len() - i,
    {
        assert(dv[i as int] == ds@[i as int].0);
        if is_orig(dom, ds[i], &pre) {
            assert(stamped_orig(dom@, dv[i as int] as int));
            return true;
        }
        i = i + 1;
    }
    false
}

/// Whether node `n` is stamped as content of an earlier deletion.
fn is_orig(dom: &Dom, n: NodeId, pre: &XName) -> (r: bool)
    requires
        pre@ == pt_name("PreDelete"@),
    ensures
        r == stamped_orig(dom@, n.0 as int),
{
    match dom.attribute(n, pre) {
        Some(v) => str_eq(v, "orig"),
        None => false,
    }
}

/// The serialized form of attribute `a` in the streamed hash: ` w:local="…"`
/// for a WordprocessingML attribute, ` local="…"` for one in no namespace
/// (the value escaped), none for any other.
pub open spec fn attr_xml(a: AttrView) -> Option<Seq<char>> {
    if a.name.namespace == w_uri() {
        Some(" w:"@ + a.name.local + "=\""@ + escaped(a.value, true) + "\""@)
    } else if a.name.namespace.len() == 0 {
        Some(" "@ + a.name.local + "=\""@ + escaped(a.value, true) + "\""@)
    } else {
        None
    }
}

/// The serialized attributes of `attrs` that are neither namespace
/// declarations nor dropped by `f`, in order; none when one of them is in
/// a namespace other than WordprocessingML.
pub open spec fn attrs_xml(attrs: Seq<AttrView>, f: crate::comparer::block_clone::AttrFilter) -> Option<Seq<char>>
    decreases attrs.len(),
{
    if attrs.len() == 0 {
        Some(seq![])
    } else {
        match attrs_xml(attrs.drop_last(), f) {
            None => None,
            Some(s) => {
                let a = attrs.last();
                if crate::comparer::block_clone::ns_declaration(a.name)
                    || crate::comparer::block_clone::filter_drops(f, a.name) {
                    Some(s)
                } else {
                    match attr_xml(a) {
                        Some(x) => Some(s + x),
                        None => None,
                    }
                }
            },
        }
    }
}

/// The serialized attributes of `node` kept by `f` (see `attrs_xml`).
fn filtered_attr_xml(dom: &Dom, node: NodeId, f: crate::comparer::block_clone::AttrFilter) -> (r: Option<String>)
    ensures
        match r {
            Some(s) => attrs_xml(attrs_of(dom@, node.0 as int), f) == Some(s@),
            None => attrs_xml(attrs_of(dom@, node.0 as int), f) is None,
        },
{
    let ghost a = attrs_of(dom@, node.0 as int);
    let n = dom.attr_count(node);
    let mut out = String::new();
    let mut i: usize = 0;
    assert(a.take(0) =~= Seq::<AttrView>::empty());
    while i < n
        invariant
            a == attrs_of(dom@, node.0 as int),
            n == a.len(),
            i <= n,
            attrs_xml(a.take(i as int), f) == Some(out@),
        decreases n - i,
    {
        assert(a.take(i + 1).drop_last() =~= a.take(i as int));
        assert(a.take(i + 1).last() == a[i as int]);
        match dom.attr_at(node, i) {
            Some(at) => {
                assert(at@ == a[i as int]);
                if crate::comparer::block_clone::is_namespace_declaration(&at.name)
                    || crate::comparer::block_clone::drops_attr(f, &at.name) {
                } else {
                    let ns = at.name.namespace_name();
                    let local = at.name.local_name();
                    let ghost before = out@;
                    proof {
                        reveal_strlit("");
                    }
                    if str_eq(ns, W::uri()) {
                        out.append(" w:");
                        out.append(local);
                        out.append("=\"");
                        out.append(escape_xml_attr(at.value.as_str()).as_str());
                        out.append("\"");
                        assert(out@ =~= before + (" w:"@ + local@ + "=\""@ + escaped(at.value@, true) + "\""@));
                    } else if str_eq(ns, "") {
                        assert(ns@.len() == 0);
                        out.append(" ");
                        out.append(local);
                        out.append("=\"");
                        out.append(escape_xml_attr(at.value.as_str()).as_str());
                        out.append("\"");
                        assert(out@ =~= before + (" "@ + local@ + "=\""@ + escaped(at.value@, true) + "\""@));
                    } else {
                        assert(ns@.len() != 0) by {
                            if ns@.len() == 0 {
                                assert(ns@ =~= ""@);
                            }
                        }
                        proof {
                            lemma_attrs_xml_none_stays(a, i as int + 1, f);
                        }
                        return None;
                    }
                }
            },
            None => {},
        }
        i = i + 1;
    }
    assert(a.take(n as int) =~= a);
    Some(out)
}

/// Once the serialized attributes give none, every longer prefix does.
proof fn lemma_attrs_xml_none_stays(a: Seq<AttrView>, k: int, f: crate::comparer::block_clone::AttrFilter)
    requires
        0 <= k <= a.len(),
        attrs_xml(a.take(k), f) is None,
    ensures
        attrs_xml(a, f) is None,
    decreases a.len() - k,
{
    if k < a.len() {
        assert(a.take(k + 1).drop_last() =~= a.take(k));
        lemma_attrs_xml_none_stays(a, k + 1, f);
    } else {
        assert(a.take(k) =~= a);
    }
}

/// The serialized attributes of paragraph `node` the streamed hash keeps:
/// those that are not namespace declarations, revision-session ids,
/// annotations or volatile ids; none when one of them is in a namespace
/// other than WordprocessingML.
pub fn filtered_p_attr_xml(dom: &Dom, node: NodeId) -> (r: Option<String>)
    ensures
        match r {
            Some(s) => attrs_xml(attrs_of(dom@, node.0 as int), crate::comparer::block_clone::AttrFilter::Para) == Some(s@),
            None => attrs_xml(attrs_of(dom@, node.0 as int), crate::comparer::block_clone::AttrFilter::Para) is None,
        },
{
    filtered_attr_xml(dom, node, crate::comparer::block_clone::AttrFilter::Para)
}

/// The serialized attributes of the empty leaf `node` the streamed hash
/// keeps: those that are not namespace declarations, annotations, volatile
/// ids or attributes that vary between saves; none when one of them is in a
/// namespace other than WordprocessingML.
pub fn filtered_leaf_attr_xml(dom: &Dom, node: NodeId) -> (r: Option<String>)
    ensures
        match r {
            Some(s) => attrs_xml(attrs_of(dom@, node.0 as int), crate::comparer::block_clone::AttrFilter::Default) == Some(s@),
            None => attrs_xml(attrs_of(dom@, node.0 as int), crate::comparer::block_clone::AttrFilter::Default) is None,
        },
{
    filtered_attr_xml(dom, node, crate::comparer::block_clone::AttrFilter::Default)
}

} // verus!
