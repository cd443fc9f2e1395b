use wml_comparer::comparer::atoms::{ComparisonUnit, ComparisonUnitAtom, ComparisonUnitWord};
use wml_comparer::comparer::lists::{
    first_list_cluster_end, mostly_list_paras, short_item_list_paras, unit_para_has_numpr,
    unit_para_ilvl,
};
use wml_comparer::comparer::CorrelationStatus;
use wml_comparer::namespaces::W;
use wml_comparer::text::parse_u32_str;
use wml_comparer::xml::{Dom, NodeId};

fn word(atoms: Vec<ComparisonUnitAtom>, hash: &str) -> ComparisonUnit {
    ComparisonUnit::Word(ComparisonUnitWord {
        correlation_status: CorrelationStatus::Nil,
        contents: atoms,
        sha1_hash: hash.to_string(),
    })
}

/// A paragraph holding `text`, numbered at `level` when given (`Some(None)`:
/// numbered without a level).
fn item(d: &mut Dom, body: NodeId, text: &str, level: Option<Option<&str>>) -> (ComparisonUnit, ComparisonUnit) {
    let p = d.new_element(W::p());
    d.add(body, p);
    let ppr = d.new_element(W::p_pr());
    d.add(p, ppr);
    if let Some(lvl) = level {
        let num = d.new_element(W::name("numPr"));
        d.add(ppr, num);
        if let Some(v) = lvl {
            let il = d.new_element(W::name("ilvl"));
            d.add(num, il);
            d.set_attribute_value(il, &W::name("val"), Some(v));
        }
    }
    let t = d.new_element(W::t());
    d.add(p, t);
    d.add_text(t, text);
    let text_unit = word(vec![ComparisonUnitAtom::new(t, vec![body, p], "t".into())], "wt");
    let mark = word(vec![ComparisonUnitAtom::new(ppr, vec![body, p], "m".into())], "wm");
    (text_unit, mark)
}

#[test]
fn parse_u32_follows_str_parse() {
    assert_eq!(parse_u32_str("42"), Some(42));
    assert_eq!(parse_u32_str("+7"), Some(7));
    assert_eq!(parse_u32_str("4294967295"), Some(u32::MAX));
    assert_eq!(parse_u32_str("4294967296"), None);
    assert_eq!(parse_u32_str(""), None);
    assert_eq!(parse_u32_str("+"), None);
    assert_eq!(parse_u32_str("-1"), None);
    assert_eq!(parse_u32_str("1a"), None);
    for s in ["0", "007", "123456", "+99", "x", " 1"] {
        assert_eq!(parse_u32_str(s), s.parse::<u32>().ok());
    }
}

#[test]
fn numbering_and_levels_are_read_from_the_paragraph() {
    let mut d = Dom::new();
    let body = d.new_element(W::name("body"));
    let (plain, _) = item(&mut d, body, "plain", None);
    let (top, _) = item(&mut d, body, "top", Some(None));
    let (nested, _) = item(&mut d, body, "nested", Some(Some("2")));
    let (bad, _) = item(&mut d, body, "bad", Some(Some("x")));
    assert!(!unit_para_has_numpr(&d, &plain));
    assert!(unit_para_has_numpr(&d, &top));
    assert_eq!(unit_para_ilvl(&d, &plain), None);
    assert_eq!(unit_para_ilvl(&d, &top), Some(0));
    assert_eq!(unit_para_ilvl(&d, &nested), Some(2));
    assert_eq!(unit_para_ilvl(&d, &bad), None);
    let loose = word(vec![ComparisonUnitAtom::new(NodeId(0), vec![], "x".into())], "w");
    assert!(!unit_para_has_numpr(&d, &loose));
}

#[test]
fn the_first_list_cluster_ends_at_a_top_item_after_a_nested_one() {
    let mut d = Dom::new();
    let body = d.new_element(W::name("body"));
    let (a, _) = item(&mut d, body, "one", Some(Some("0")));
    let (b, _) = item(&mut d, body, "one a", Some(Some("1")));
    let (empty, _) = item(&mut d, body, "", None);
    let (c, _) = item(&mut d, body, "two", Some(Some("0")));
    let (e, _) = item(&mut d, body, "three", Some(Some("0")));
    assert_eq!(first_list_cluster_end(&d, &[a, b, empty, c, e]), 3);
    let (x, _) = item(&mut d, body, "one", Some(Some("0")));
    let (y, _) = item(&mut d, body, "two", Some(Some("0")));
    assert_eq!(first_list_cluster_end(&d, &[x, y]), 2);
    assert_eq!(first_list_cluster_end(&d, &[]), 0);
}

#[test]
fn list_paragraphs_are_mostly_numbered_short_items() {
    let mut d = Dom::new();
    let body = d.new_element(W::name("body"));
    let (t1, m1) = item(&mut d, body, "first", Some(None));
    let (t2, m2) = item(&mut d, body, "second", None);
    let (_, m3) = item(&mut d, body, "", None);
    let paras = vec![vec![t1, m1], vec![t2, m2], vec![m3]];
    assert!(mostly_list_paras(&d, &paras));
    assert!(short_item_list_paras(&d, &paras));
    let (t4, m4) = item(&mut d, body, "third", None);
    let (t5, m5) = item(&mut d, body, "fourth", None);
    let more = vec![paras[0].clone(), paras[1].clone(), vec![t4, m4], vec![t5, m5]];
    assert!(!mostly_list_paras(&d, &more));
    let only_marks = vec![vec![paras[2][0].clone()]];
    assert!(!mostly_list_paras(&d, &only_marks));
    assert!(!short_item_list_paras(&d, &only_marks));
    let words: Vec<ComparisonUnit> = (0..13).map(|i| word(vec![], &format!("w{i}"))).collect();
    assert!(!short_item_list_paras(&d, &[words]));
}
