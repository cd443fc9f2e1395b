use wml_comparer::namespaces::{PT, W};
use wml_comparer::xml::{Dom, XName};

#[test]
fn attribute_read_gives_back_last_write() {
    let mut d = Dom::new();
    let p = d.new_element(W::p());
    let a = W::name("val");
    let b = W::name("other");
    d.set_attribute_value(p, &a, Some("1"));
    d.set_attribute_value(p, &b, Some("x"));
    d.set_attribute_value(p, &a, Some("2"));
    assert_eq!(d.attribute(p, &a), Some("2"));
    assert_eq!(d.attribute(p, &b), Some("x"));
    assert_eq!(d.attr_count(p), 2);
    d.set_attribute_value(p, &a, None);
    assert_eq!(d.attribute(p, &a), None);
    assert_eq!(d.attribute(p, &b), Some("x"));
}

#[test]
fn add_moves_a_child_and_descendants_are_in_document_order() {
    let mut d = Dom::new();
    let body = d.new_element(W::name("body"));
    let p1 = d.new_element(W::p());
    let p2 = d.new_element(W::p());
    let r = d.new_element(W::r());
    let t = d.new_element(W::t());
    d.add_text(t, "hi");
    d.add(r, t);
    d.add(p1, r);
    d.add(body, p1);
    d.add(body, p2);
    let names: Vec<String> = d
        .descendants(body, None)
        .into_iter()
        .map(|n| d.name(n).unwrap().local_name().to_string())
        .collect();
    assert_eq!(names, vec!["p", "r", "t", "p"]);
    assert_eq!(d.value_str(body), "hi");
    // Moving the run to the second paragraph takes it out of the first.
    d.add(p2, r);
    assert_eq!(d.parent(r), Some(p2));
    assert_eq!(d.child_count(p1), 0);
    assert_eq!(d.elements(p2, None), vec![r]);
    d.add_first(body, p2);
    assert_eq!(d.elements(body, None), vec![p2, p1]);
    assert_eq!(d.element(body, &W::p()), Some(p2));
}

#[test]
fn names_compare_by_namespace_and_local_name() {
    let a = XName::get("Unid", "http://powertools.codeplex.com/2011");
    assert!(a.same(&PT::unid()));
    assert!(!a.same(&W::name("Unid")));
    assert_eq!(a.local_name(), "Unid");
}
