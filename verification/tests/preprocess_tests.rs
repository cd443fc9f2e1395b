use wml_comparer::comparer::preprocess::{
    element_children, element_children_named, escape_xml_attr, escape_xml_text, is_pt,
    is_rsid_attr, is_single_t_run, is_volatile_para_attr, null_rel_resolver,
    remove_existing_powertools_markup, test_for_invalid_content, whitespace_invariant_for_hash,
};
use wml_comparer::namespaces::{PT, W, W14};
use wml_comparer::xml::{Dom, XName};

#[test]
fn whitespace_is_removed_for_hashing() {
    assert_eq!(whitespace_invariant_for_hash(" a b\tc\u{a0}d \n"), "abcd");
    assert_eq!(whitespace_invariant_for_hash(""), "");
}

#[test]
fn escaping_of_quotes_differs_between_text_and_attributes() {
    assert_eq!(escape_xml_text("\"q\""), "\"q\"");
    assert_eq!(escape_xml_attr("<&>"), "&lt;&amp;&gt;");
}

#[test]
fn null_resolver_names_the_null_relationship() {
    assert_eq!(null_rel_resolver("rId7"), Some("NULL Relationship".to_string()));
}

#[test]
fn attribute_classes() {
    assert!(is_rsid_attr(&W::name("rsidR")));
    assert!(is_rsid_attr(&W::name("rsidRDefault")));
    assert!(!is_rsid_attr(&W::name("rsidX")));
    assert!(!is_rsid_attr(&PT::name("rsidR")));
    assert!(is_pt(&PT::unid()));
    assert!(!is_pt(&W::name("Unid")));
    assert!(is_volatile_para_attr(&XName::get("paraId", W14::uri())));
    assert!(is_volatile_para_attr(&XName::get("textId", W14::uri())));
    assert!(!is_volatile_para_attr(&W::name("paraId")));
}

#[test]
fn annotations_other_than_unid_are_removed() {
    let mut d = Dom::new();
    let p = d.new_element(W::p());
    let r = d.new_element(W::r());
    d.add(p, r);
    d.set_attribute_value(p, &PT::unid(), Some("u1"));
    d.set_attribute_value(p, &PT::name("SHA1Hash"), Some("h"));
    d.set_attribute_value(p, &W::name("rsidR"), Some("00A1"));
    d.set_attribute_value(r, &PT::name("Status"), Some("Deleted"));
    remove_existing_powertools_markup(&mut d, p);
    assert_eq!(d.attribute(p, &PT::unid()), Some("u1"));
    assert_eq!(d.attribute(p, &PT::name("SHA1Hash")), None);
    assert_eq!(d.attribute(p, &W::name("rsidR")), Some("00A1"));
    assert_eq!(d.attribute(r, &PT::name("Status")), None);
    assert_eq!(d.attr_count(p), 2);
}

#[test]
fn invalid_content_is_reported_by_name() {
    let mut d = Dom::new();
    let body = d.new_element(W::name("body"));
    let p = d.new_element(W::p());
    d.add(body, p);
    assert_eq!(test_for_invalid_content(&d, body), Ok(()));
    let sub = d.new_element(W::name("subDoc"));
    d.add(p, sub);
    let alt = d.new_element(W::name("altChunk"));
    d.add(body, alt);
    assert_eq!(
        test_for_invalid_content(&d, body),
        Err("Document contains subDoc".to_string())
    );
}

#[test]
fn single_text_runs_and_element_children() {
    let mut d = Dom::new();
    let r = d.new_element(W::r());
    let t = d.new_element(W::t());
    d.add_text(r, "stray");
    d.add(r, t);
    assert!(is_single_t_run(&d, r));
    assert_eq!(element_children(&d, r), vec![t]);
    let rpr = d.new_element(W::name("rPr"));
    d.add_first(r, rpr);
    assert!(!is_single_t_run(&d, r));
    assert_eq!(element_children_named(&d, r, &W::t()), vec![t]);
    assert_eq!(element_children(&d, r), vec![rpr, t]);
}
