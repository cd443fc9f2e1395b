use wml_comparer::comparer::parts::ref_from_inserted_content;
use wml_comparer::comparer::revisions::get_text_from_ancestor_run;
use wml_comparer::namespaces::W;
use wml_comparer::text::{parse_i64_str, parse_u32_str, parse_usize_str, u64_to_decimal};
use wml_comparer::xml::{Dom, NodeId, XName};

fn el(d: &mut Dom, parent: NodeId, name: XName) -> NodeId {
    let e = d.new_element(name);
    d.add(parent, e);
    e
}

#[test]
fn ancestors_are_nearest_first() {
    let mut d = Dom::new();
    let doc = d.new_document();
    let body = el(&mut d, doc, W::name("body"));
    let p = el(&mut d, body, W::p());
    let r = el(&mut d, p, W::r());
    assert_eq!(d.ancestors(r), vec![p, body, doc]);
    assert_eq!(d.ancestors(doc), Vec::<NodeId>::new());
    d.remove(p);
    assert_eq!(d.ancestors(r), vec![p]);
}

#[test]
fn run_text_comes_from_nearest_run() {
    let mut d = Dom::new();
    let p = d.new_element(W::p());
    let r = el(&mut d, p, W::r());
    let rpr = el(&mut d, r, W::name("rPr"));
    let change = el(&mut d, rpr, W::name("rPrChange"));
    let t1 = el(&mut d, r, W::t());
    d.add_text(t1, "Hello ");
    let t2 = el(&mut d, r, W::t());
    d.add_text(t2, "world");
    let tab = el(&mut d, r, W::name("tab"));
    let _ = tab;
    assert_eq!(get_text_from_ancestor_run(&d, change), "Hello world");
    // no run above: empty
    let lone = d.new_element(W::name("rPrChange"));
    assert_eq!(get_text_from_ancestor_run(&d, lone), "");
    // a run with no text elements gives the empty string
    let r2 = el(&mut d, p, W::r());
    let c2 = el(&mut d, r2, W::name("rPrChange"));
    assert_eq!(get_text_from_ancestor_run(&d, c2), "");
}

#[test]
fn reference_inside_insertion_is_found_upwards() {
    let mut d = Dom::new();
    let p = d.new_element(W::p());
    let ins = el(&mut d, p, W::name("ins"));
    let r = el(&mut d, ins, W::r());
    let fref = el(&mut d, r, W::name("footnoteReference"));
    assert!(ref_from_inserted_content(&d, fref));
    let mv = el(&mut d, p, W::name("moveTo"));
    let r2 = el(&mut d, mv, W::r());
    let fref2 = el(&mut d, r2, W::name("endnoteReference"));
    assert!(ref_from_inserted_content(&d, fref2));
    let del = el(&mut d, p, W::name("del"));
    let r3 = el(&mut d, del, W::r());
    let fref3 = el(&mut d, r3, W::name("footnoteReference"));
    assert!(!ref_from_inserted_content(&d, fref3));
    // the element itself does not count, only its ancestors
    assert!(!ref_from_inserted_content(&d, ins));
    // an `ins` of another namespace does not count
    let other = el(&mut d, p, XName::get("ins", "urn:other"));
    let r4 = el(&mut d, other, W::r());
    assert!(!ref_from_inserted_content(&d, r4));
}

#[test]
fn unsigned_parsers_take_plain_digits() {
    assert_eq!(parse_usize_str("0"), Some(0));
    assert_eq!(parse_usize_str("+42"), Some(42));
    assert_eq!(parse_usize_str("007"), Some(7));
    assert_eq!(parse_usize_str(""), None);
    assert_eq!(parse_usize_str("+"), None);
    assert_eq!(parse_usize_str("-1"), None);
    assert_eq!(parse_usize_str(" 1"), None);
    assert_eq!(parse_usize_str("1a"), None);
    assert_eq!(parse_usize_str("18446744073709551615"), Some(usize::MAX));
    assert_eq!(parse_usize_str("18446744073709551616"), None);
    assert_eq!(parse_u32_str("4294967295"), Some(u32::MAX));
    assert_eq!(parse_u32_str("4294967296"), None);
}

#[test]
fn signed_parser_takes_sign_and_bounds() {
    assert_eq!(parse_i64_str("-1440"), Some(-1440));
    assert_eq!(parse_i64_str("+12"), Some(12));
    assert_eq!(parse_i64_str("12240"), Some(12240));
    assert_eq!(parse_i64_str("-"), None);
    assert_eq!(parse_i64_str("--1"), None);
    assert_eq!(parse_i64_str("1.5"), None);
    assert_eq!(parse_i64_str("9223372036854775807"), Some(i64::MAX));
    assert_eq!(parse_i64_str("9223372036854775808"), None);
    assert_eq!(parse_i64_str("-9223372036854775808"), Some(i64::MIN));
    assert_eq!(parse_i64_str("-9223372036854775809"), None);
}

#[test]
fn decimal_matches_to_string() {
    for n in [0u64, 7, 10, 3120, 99999, u64::MAX] {
        assert_eq!(u64_to_decimal(n), n.to_string());
    }
}
