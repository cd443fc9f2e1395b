use wml_comparer::comparer::atoms::ComparisonUnitAtom;
use wml_comparer::comparer::revisions::{
    elements_before_self, group_text, is_rev_element_with_no_text, move_group_id_from_name,
    status_key,
};
use wml_comparer::comparer::CorrelationStatus;
use wml_comparer::namespaces::{M, W};
use wml_comparer::xml::{Dom, NodeId};

#[test]
fn move_group_ids_are_masked_fnv1a() {
    assert_eq!(move_group_id_from_name(""), 18652613);
    assert_eq!(move_group_id_from_name("a"), 1678518572);
    assert_eq!(move_group_id_from_name("move1"), 1662073407);
    assert_eq!(move_group_id_from_name("é"), 513665217);
    assert_eq!(move_group_id_from_name("move1"), move_group_id_from_name("move1"));
}

#[test]
fn status_keys() {
    assert_eq!(status_key(CorrelationStatus::Normal), "Normal");
    assert_eq!(status_key(CorrelationStatus::Group), "Group");
    assert_eq!(status_key(CorrelationStatus::Unknown), "Unknown");
}

#[test]
fn siblings_before_self() {
    let mut d = Dom::new();
    let p = d.new_element(W::p());
    let a = d.new_element(W::r());
    let b = d.new_element(W::r());
    let c = d.new_element(W::r());
    d.add(p, a);
    d.add_text(p, "text");
    d.add(p, b);
    d.add(p, c);
    assert_eq!(elements_before_self(&d, c), vec![a, b]);
    assert_eq!(elements_before_self(&d, a), Vec::<NodeId>::new());
    assert_eq!(elements_before_self(&d, p), Vec::<NodeId>::new());
}

#[test]
fn revision_text() {
    let mut d = Dom::new();
    let t1 = d.new_element(W::t());
    d.add_text(t1, "ab");
    let ppr = d.new_element(W::p_pr());
    let t2 = d.new_element(W::t());
    d.add_text(t2, "c");
    let drawing = d.new_element(W::name("drawing"));
    let math = d.new_element(M::name("oMath"));
    let at = |n| ("k".to_string(), ComparisonUnitAtom::new(n, Vec::new(), "h".to_string()));
    assert_eq!(group_text(&d, &[at(t1), at(ppr), at(t2)]), Some("ab\nc".to_string()));
    assert_eq!(group_text(&d, &[at(drawing), at(t1)]), None);
    assert!(is_rev_element_with_no_text(&d, math));
    assert!(!is_rev_element_with_no_text(&d, t1));
}
