use wml_comparer::comparer::produce::{add_tblpr_child_in_order, delete_text_in_opaque};
use wml_comparer::comparer::CorrelationStatus;
use wml_comparer::namespaces::W;
use wml_comparer::xml::{Dom, NodeId};

/// `<w:drawing><w:r><w:t>txt</w:t></w:r></w:drawing>`, an opaque subtree.
fn opaque_with_text(d: &mut Dom, txt: &str) -> NodeId {
    let drawing = d.new_element(W::name("drawing"));
    let r = d.new_element(W::r());
    let t = d.new_element(W::t());
    d.add_text(t, txt);
    d.add(r, t);
    d.add(drawing, r);
    drawing
}

/// Local name of the first `w:t`/`w:delText` leaf under `node`.
fn text_kind(d: &Dom, node: NodeId) -> String {
    let leaf = d
        .descendants(node, None)
        .into_iter()
        .find(|&c| {
            matches!(
                d.name(c).as_ref().map(|n| n.local_name()),
                Some("t") | Some("delText")
            )
        })
        .expect("a text leaf");
    d.name(leaf).unwrap().local_name().to_string()
}

#[test]
fn deleted_opaque_text_becomes_deltext() {
    let mut d = Dom::new();
    let n = opaque_with_text(&mut d, "x");
    delete_text_in_opaque(&mut d, n, CorrelationStatus::Deleted);
    assert_eq!(text_kind(&d, n), "delText");
}

#[test]
fn moved_source_opaque_text_stays_t_like_word() {
    let mut d = Dom::new();
    let n = opaque_with_text(&mut d, "x");
    delete_text_in_opaque(&mut d, n, CorrelationStatus::MovedSource);
    assert_eq!(text_kind(&d, n), "t", "Word Compare keeps w:t inside moveFrom (not delText)");
}

#[test]
fn non_deleted_opaque_text_stays_t() {
    for status in [
        CorrelationStatus::Inserted,
        CorrelationStatus::MovedDestination,
        CorrelationStatus::Equal,
    ] {
        let mut d = Dom::new();
        let n = opaque_with_text(&mut d, "x");
        delete_text_in_opaque(&mut d, n, status);
        assert_eq!(text_kind(&d, n), "t", "non-deleted opaque text stays w:t for {status:?}");
    }
}

#[test]
fn instr_text_is_untouched() {
    let mut d = Dom::new();
    let drawing = d.new_element(W::name("drawing"));
    let r = d.new_element(W::r());
    let instr = d.new_element(W::name("instrText"));
    d.add_text(instr, "FIELD");
    d.add(r, instr);
    d.add(drawing, r);
    delete_text_in_opaque(&mut d, drawing, CorrelationStatus::Deleted);
    assert_eq!(
        d.descendants(drawing, Some(&W::name("instrText"))).len(),
        1,
        "instrText untouched"
    );
    assert!(
        d.descendants(drawing, Some(&W::name("delText"))).is_empty(),
        "no delText fabricated from instrText"
    );
}

#[test]
fn tblw_inserted_after_tblppr_and_bidivisual() {
    // <w:tblPr><w:tblStyle w:val="TableGrid"/><w:tblpPr w:leftFromText="0"/><w:bidiVisual/></w:tblPr>
    let mut dom = Dom::new();
    let tblpr = dom.new_element(W::name("tblPr"));
    let style = dom.new_element(W::name("tblStyle"));
    dom.set_attribute_value(style, &W::name("val"), Some("TableGrid"));
    dom.add(tblpr, style);
    let tblppr = dom.new_element(W::name("tblpPr"));
    dom.set_attribute_value(tblppr, &W::name("leftFromText"), Some("0"));
    dom.add(tblpr, tblppr);
    let bidi = dom.new_element(W::name("bidiVisual"));
    dom.add(tblpr, bidi);
    let tblw = dom.new_element(W::name("tblW"));
    add_tblpr_child_in_order(&mut dom, tblpr, tblw, "tblW");
    let order: Vec<String> = dom
        .elements(tblpr, None)
        .into_iter()
        .map(|e| dom.name(e).unwrap().local_name().to_string())
        .collect();
    let pos = |n: &str| order.iter().position(|x| x == n).unwrap();
    assert!(
        pos("tblW") > pos("tblpPr") && pos("tblW") > pos("bidiVisual"),
        "tblW must follow tblpPr and bidiVisual (CT_TblPrBase), got: {order:?}"
    );
}
