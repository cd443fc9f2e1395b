use wml_comparer::comparer::block_clone::{
    apply_text_transform, clone_block_level_content_for_hashing, RelHashResolver, TextTransform,
};
use wml_comparer::namespaces::{PT, W};
use wml_comparer::xml::{Dom, NodeId, XName};

const R_NS: &str = "http://schemas.openxmlformats.org/officeDocument/2006/relationships";
const XMLNS: &str = "http://www.w3.org/2000/xmlns/";
const W14: &str = "http://schemas.microsoft.com/office/word/2010/wordml";

fn plain() -> TextTransform {
    TextTransform { case_insensitive: false, conflate_breaking_and_nonbreaking_spaces: false }
}

fn el(d: &mut Dom, parent: NodeId, name: XName) -> NodeId {
    let e = d.new_element(name);
    d.add(parent, e);
    e
}

fn text_el(d: &mut Dom, parent: NodeId, local: &str, text: &str) -> NodeId {
    let e = el(d, parent, W::name(local));
    d.add_text(e, text);
    e
}

/// A compact rendering: `local[attr=value,...](children)` and `'text'`.
fn show(d: &Dom, n: NodeId) -> String {
    if d.is_text(n) {
        return format!("'{}'", d.value_str(n));
    }
    let name = d.name(n).map(|x| x.local_name().to_string()).unwrap_or_else(|| "#doc".to_string());
    let mut out = name;
    let ac = d.attr_count(n);
    if ac > 0 {
        let attrs: Vec<String> = (0..ac)
            .map(|i| {
                let a = d.attr_at(n, i).unwrap();
                format!("{}={}", a.name.local_name(), a.value)
            })
            .collect();
        out.push_str(&format!("[{}]", attrs.join(",")));
    }
    let cc = d.child_count(n);
    if cc > 0 {
        let kids: Vec<String> = (0..cc).map(|i| show(d, d.child_at(n, i))).collect();
        out.push_str(&format!("({})", kids.join(" ")));
    }
    out
}

fn paragraph(d: &mut Dom) -> NodeId {
    let body = d.new_element(W::name("body"));
    let p = el(d, body, W::p());
    d.set_attribute_value(p, &W::name("rsidR"), Some("00AB"));
    d.set_attribute_value(p, &XName::get("paraId", W14), Some("1234"));
    d.set_attribute_value(p, &W::name("align"), Some("x"));
    el(d, p, W::name("pPr"));
    let r1 = el(d, p, W::r());
    el(d, r1, W::name("rPr"));
    text_el(d, r1, "t", "Hello ");
    let bm = el(d, p, W::name("bookmarkStart"));
    d.set_attribute_value(bm, &W::name("id"), Some("0"));
    let r2 = el(d, p, W::r());
    text_el(d, r2, "t", "world");
    let r3 = el(d, p, W::r());
    el(d, r3, W::name("tab"));
    text_el(d, r3, "t", "x");
    p
}

#[test]
fn paragraph_runs_merge_and_markup_drops() {
    let mut d = Dom::new();
    let p = paragraph(&mut d);
    let before = d.len();
    let c = clone_block_level_content_for_hashing(&mut d, p, false, plain(), &RelHashResolver::new());
    assert!(c.0 >= before);
    assert_eq!(
        show(&d, c),
        "p[align=x](r(t('Hello world')) r(tab) r(t('x')))"
    );
    // the source is untouched
    assert_eq!(d.attr_count(p), 3);
    assert_eq!(d.child_count(p), 5);
}

#[test]
fn text_is_normalised_as_asked() {
    let mut d = Dom::new();
    let p = paragraph(&mut d);
    let tt = TextTransform { case_insensitive: true, conflate_breaking_and_nonbreaking_spaces: true };
    let c = clone_block_level_content_for_hashing(&mut d, p, false, tt, &RelHashResolver::new());
    assert_eq!(
        show(&d, c),
        "p[align=x](r(t('HELLO\u{a0}WORLD')) r(tab) r(t('X')))"
    );
    assert_eq!(apply_text_transform("a b", tt), "A\u{a0}B");
    assert_eq!(apply_text_transform("a b", plain()), "a b");
}

#[test]
fn table_keeps_rows_cells_and_spans() {
    let mut d = Dom::new();
    let tbl = d.new_element(W::name("tbl"));
    el(&mut d, tbl, W::name("tblPr"));
    el(&mut d, tbl, W::name("tblGrid"));
    let tr = el(&mut d, tbl, W::name("tr"));
    el(&mut d, tr, W::name("trPr"));
    let tc = el(&mut d, tr, W::name("tc"));
    let tcpr = el(&mut d, tc, W::name("tcPr"));
    el(&mut d, tcpr, W::name("tcW"));
    let gs = el(&mut d, tcpr, W::name("gridSpan"));
    d.set_attribute_value(gs, &W::name("val"), Some("2"));
    let p = el(&mut d, tc, W::p());
    let r = el(&mut d, p, W::r());
    text_el(&mut d, r, "t", "cell");
    let c = clone_block_level_content_for_hashing(&mut d, tbl, false, plain(), &RelHashResolver::new());
    assert_eq!(show(&d, c), "tbl(tr(tc(tcPr(gridSpan[val=2]) p(r(t('cell'))))))");
    // the span's value moves to an unqualified `val`
    let cell = d.child_at(d.child_at(c, 0), 0);
    let span = d.child_at(d.child_at(cell, 0), 0);
    let a = d.attr_at(span, 0).unwrap();
    assert_eq!(a.name.namespace_name(), "");
}

#[test]
fn earlier_deletions_are_salted() {
    let mut d = Dom::new();
    let p = d.new_element(W::p());
    d.set_attribute_value(p, &PT::name("PreDelete"), Some("orig"));
    let r = el(&mut d, p, W::r());
    text_el(&mut d, r, "t", "gone");
    let c = clone_block_level_content_for_hashing(&mut d, p, false, plain(), &RelHashResolver::new());
    assert_eq!(show(&d, c), "p[PreDeleteSalt=1](r(t('gone')))");
    // other stamps are not salted
    let q = d.new_element(W::p());
    d.set_attribute_value(q, &PT::name("PreDelete"), Some("other"));
    let c2 = clone_block_level_content_for_hashing(&mut d, q, false, plain(), &RelHashResolver::new());
    assert_eq!(show(&d, c2), "p");
}

#[test]
fn salted_runs_merge_only_with_salted_runs() {
    let mut d = Dom::new();
    let p = d.new_element(W::p());
    let r1 = el(&mut d, p, W::r());
    d.set_attribute_value(r1, &PT::name("PreDelete"), Some("orig"));
    text_el(&mut d, r1, "t", "a");
    let r2 = el(&mut d, p, W::r());
    d.set_attribute_value(r2, &PT::name("PreDelete"), Some("orig"));
    text_el(&mut d, r2, "t", "b");
    let r3 = el(&mut d, p, W::r());
    text_el(&mut d, r3, "t", "c");
    let c = clone_block_level_content_for_hashing(&mut d, p, false, plain(), &RelHashResolver::new());
    assert_eq!(show(&d, c), "p(r[PreDeleteSalt=1](t('ab')) r(t('c')))");
}

#[test]
fn relationship_ids_resolve_when_asked() {
    let mut d = Dom::new();
    let p = d.new_element(W::p());
    let h = el(&mut d, p, W::name("hyperlink"));
    d.set_attribute_value(h, &XName::get("id", R_NS), Some("rId5"));
    d.set_attribute_value(h, &W::name("history"), Some("1"));
    d.set_attribute_value(h, &XName::get("id", ""), Some("9"));
    let r = el(&mut d, h, W::r());
    text_el(&mut d, r, "t", "link");
    let none = RelHashResolver::new();
    let c = clone_block_level_content_for_hashing(&mut d, h, true, plain(), &none);
    assert_eq!(show(&d, c), "hyperlink[id=NULL Relationship,history=1](r(t('link')))");
    let known = RelHashResolver {
        known: vec![("rId5".to_string(), Some("https://example.com/".to_string()))],
    };
    let c2 = clone_block_level_content_for_hashing(&mut d, h, true, plain(), &known);
    assert_eq!(show(&d, c2), "hyperlink[id=https://example.com/,history=1](r(t('link')))");
    let dropped = RelHashResolver { known: vec![("rId5".to_string(), None)] };
    let c3 = clone_block_level_content_for_hashing(&mut d, h, true, plain(), &dropped);
    assert_eq!(show(&d, c3), "hyperlink[history=1](r(t('link')))");
    // without related parts the id is copied, minus the trimmed `id`
    let c4 = clone_block_level_content_for_hashing(&mut d, h, false, plain(), &known);
    assert_eq!(show(&d, c4), "hyperlink[id=rId5,history=1](r(t('link')))");
    assert_eq!(none.resolve("rId1").as_deref(), Some("NULL Relationship"));
    assert_eq!(known.resolve("rId5").as_deref(), Some("https://example.com/"));
    assert_eq!(dropped.resolve("rId5"), None);
}

#[test]
fn namespace_declarations_leave_the_copy() {
    let mut d = Dom::new();
    let p = d.new_element(W::p());
    d.set_attribute_value(p, &XName::get("w", XMLNS), Some(W::uri()));
    d.set_attribute_value(p, &XName::get("xmlns", ""), Some("urn:x"));
    d.set_attribute_value(p, &W::name("keep"), Some("1"));
    let sect = el(&mut d, p, W::name("sectPr"));
    d.set_attribute_value(sect, &XName::get("r", XMLNS), Some(R_NS));
    let c = clone_block_level_content_for_hashing(&mut d, p, false, plain(), &RelHashResolver::new());
    assert_eq!(show(&d, c), "p[keep=1](sectPr)");
}

#[test]
fn dropped_block_gives_an_empty_element() {
    let mut d = Dom::new();
    let bm = d.new_element(W::name("bookmarkStart"));
    d.set_attribute_value(bm, &W::name("id"), Some("3"));
    let c = clone_block_level_content_for_hashing(&mut d, bm, false, plain(), &RelHashResolver::new());
    assert_eq!(show(&d, c), "bookmarkStart");
    let f = d.new_element(W::name("footnoteReference"));
    d.set_attribute_value(f, &W::name("id"), Some("3"));
    let c2 = clone_block_level_content_for_hashing(&mut d, f, false, plain(), &RelHashResolver::new());
    assert_eq!(show(&d, c2), "footnoteReference");
}

#[test]
fn drawing_properties_and_shapes_filter_their_attributes() {
    let mut d = Dom::new();
    let wp = "http://schemas.openxmlformats.org/drawingml/2006/wordprocessingDrawing";
    let v = "urn:schemas-microsoft-com:vml";
    let p = d.new_element(W::p());
    let r = el(&mut d, p, W::r());
    let doc_pr = el(&mut d, r, XName::get("docPr", wp));
    d.set_attribute_value(doc_pr, &XName::get("id", ""), Some("7"));
    d.set_attribute_value(doc_pr, &XName::get("name", ""), Some("Picture 7"));
    let shape = el(&mut d, r, XName::get("shape", v));
    d.set_attribute_value(shape, &XName::get("style", ""), Some("width:1pt"));
    d.set_attribute_value(shape, &XName::get("alt", ""), Some("a"));
    let c = clone_block_level_content_for_hashing(&mut d, p, false, plain(), &RelHashResolver::new());
    assert_eq!(show(&d, c), "p(r(docPr[name=Picture 7]) r(shape[alt=a]))");
}
