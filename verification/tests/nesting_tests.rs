use wml_comparer::comparer::atoms::ComparisonUnit;
use wml_comparer::comparer::units::get_hierarchical_comparison_units;
use wml_comparer::comparer::ComparisonUnitGroupType;
use wml_comparer::namespaces::{PT, W};

fn keyed_word(
    d: &mut wml_comparer::xml::Dom,
    keys: &[&str],
    ancestors: &[wml_comparer::xml::NodeId],
    hash: &str,
) -> wml_comparer::comparer::units::WordWithKeys {
    let t = d.new_element(wml_comparer::namespaces::W::t());
    let atom = wml_comparer::comparer::atoms::ComparisonUnitAtom::new(t, ancestors.to_vec(), hash.to_string());
    (
        keys.iter().map(|k| k.to_string()).collect(),
        ancestors.to_vec(),
        wml_comparer::comparer::atoms::ComparisonUnitWord {
            correlation_status: wml_comparer::comparer::CorrelationStatus::Nil,
            contents: vec![atom],
            sha1_hash: hash.to_string(),
        },
    )
}

#[test]
fn words_nest_into_groups_by_their_keys() {
    let mut d = wml_comparer::xml::Dom::new();
    let tbl = d.new_element(W::name("tbl"));
    let p1 = d.new_element(W::p());
    let p2 = d.new_element(W::p());
    d.set_attribute_value(p1, &PT::name("SHA1Hash"), Some("hp1"));
    d.set_attribute_value(tbl, &PT::name("CorrelatedSHA1Hash"), Some("ct"));
    let words = vec![
        keyed_word(&mut d, &["p:1"], &[p1], "a"),
        keyed_word(&mut d, &["p:1"], &[p1], "b"),
        keyed_word(&mut d, &["tbl:9", "p:2"], &[tbl, p2], "c"),
        keyed_word(&mut d, &[], &[], "d"),
    ];
    let units = get_hierarchical_comparison_units(&d, words, 0);
    assert_eq!(units.len(), 3);
    match &units[0] {
        ComparisonUnit::Group(g) => {
            assert_eq!(g.group_type, ComparisonUnitGroupType::Paragraph);
            assert_eq!(g.sha1_hash, "hp1");
            assert_eq!(g.level, 0);
            assert_eq!(g.contents.len(), 2);
            assert_eq!(g.correlated_sha1_hash, None);
        }
        _ => panic!("expected a paragraph group"),
    }
    match &units[1] {
        ComparisonUnit::Group(g) => {
            assert_eq!(g.group_type, ComparisonUnitGroupType::Table);
            assert_eq!(g.sha1_hash, "");
            assert_eq!(g.correlated_sha1_hash.as_deref(), Some("ct"));
            match &g.contents[0] {
                ComparisonUnit::Group(inner) => {
                    assert_eq!(inner.group_type, ComparisonUnitGroupType::Paragraph);
                    assert_eq!(inner.level, 1);
                    assert_eq!(inner.contents.len(), 1);
                }
                _ => panic!("expected a nested paragraph"),
            }
        }
        _ => panic!("expected a table group"),
    }
    match &units[2] {
        ComparisonUnit::Word(w) => assert_eq!(w.sha1_hash, "d"),
        _ => panic!("expected a bare word"),
    }
}
