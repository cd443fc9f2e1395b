use wml_comparer::comparer::atoms::{
    ComparisonUnit, ComparisonUnitAtom, ComparisonUnitWord, CorrelatedSequence,
};
use wml_comparer::comparer::produce::{
    atom_in_textbox, flatten_to_comparison_unit_atom_list, is_ppr_atom, is_txbx_from_level,
    status_str, xml_space_attr,
};
use wml_comparer::comparer::CorrelationStatus;
use wml_comparer::namespaces::W;
use wml_comparer::xml::{Dom, NodeId};

#[test]
fn xml_space_is_preserved_for_edge_whitespace() {
    assert_eq!(xml_space_attr(" lead"), Some("preserve"));
    assert_eq!(xml_space_attr("trail\u{a0}"), Some("preserve"));
    assert_eq!(xml_space_attr("in side"), None);
    assert_eq!(xml_space_attr(""), None);
}

#[test]
fn status_labels() {
    assert_eq!(status_str(CorrelationStatus::Deleted), "Deleted");
    assert_eq!(status_str(CorrelationStatus::MovedDestination), "MovedDestination");
    assert_eq!(status_str(CorrelationStatus::Unknown), "Nil");
}

fn word(ids: &[usize], tag: &str) -> ComparisonUnit {
    let atoms = ids
        .iter()
        .map(|&i| ComparisonUnitAtom::new(NodeId(i), Vec::<NodeId>::new(), format!("{tag}{i}")))
        .collect();
    ComparisonUnit::Word(ComparisonUnitWord {
        correlation_status: CorrelationStatus::Nil,
        contents: atoms,
        sha1_hash: tag.to_string(),
    })
}

#[test]
fn flatten_zips_equal_sides_and_tags_the_rest() {
    let seqs = vec![
        CorrelatedSequence::paired(CorrelationStatus::Equal, vec![word(&[1, 2, 3], "b")], vec![word(&[11, 12], "a")]),
        CorrelatedSequence::deleted(vec![word(&[4], "d")]),
        CorrelatedSequence::inserted(vec![word(&[13, 14], "i")]),
    ];
    let out = flatten_to_comparison_unit_atom_list(&seqs);
    let got: Vec<(usize, CorrelationStatus, Option<usize>)> = out
        .iter()
        .map(|a| (a.content_element.0, a.correlation_status, a.content_element_before.map(|n| n.0)))
        .collect();
    assert_eq!(
        got,
        vec![
            (11, CorrelationStatus::Equal, Some(1)),
            (12, CorrelationStatus::Equal, Some(2)),
            (4, CorrelationStatus::Deleted, None),
            (13, CorrelationStatus::Inserted, None),
            (14, CorrelationStatus::Inserted, None),
        ]
    );
}

#[test]
fn text_box_ancestry() {
    let mut d = Dom::new();
    let body = d.new_element(W::name("body"));
    let txbx = d.new_element(W::name("txbxContent"));
    let p = d.new_element(W::p());
    let ppr = d.new_element(W::p_pr());
    let a = ComparisonUnitAtom::new(ppr, vec![body, txbx, p], "m".to_string());
    assert!(is_ppr_atom(&d, &a));
    assert!(atom_in_textbox(&d, &a));
    assert!(is_txbx_from_level(&d, &a, 1));
    assert!(!is_txbx_from_level(&d, &a, 2));
}
