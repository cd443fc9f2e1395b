use wml_comparer::comparer::atoms::{
    ComparisonUnit, ComparisonUnitAtom, ComparisonUnitGroup, ComparisonUnitWord, CorrelatedSequence,
};
use wml_comparer::comparer::lcs_table::mark_rows_as_deleted_or_inserted;
use wml_comparer::comparer::lcs_table::{
    apply_lcs_to_table_rows, do_lcs_algorithm_for_table, positional_rows_with_remainder,
};
use wml_comparer::comparer::tables::recursion_info;
use wml_comparer::comparer::units::{hierarchical_grouping_key, is_cjk, is_digit_char, is_grouping_element, is_word_break_element};
use wml_comparer::comparer::{ComparisonUnitGroupType, CorrelationStatus};
use wml_comparer::namespaces::{M, PT, W};
use wml_comparer::xml::{Dom, NodeId};

fn row(hash: &str, corr: Option<&str>, atoms: Vec<ComparisonUnitAtom>) -> ComparisonUnit {
    ComparisonUnit::Group(ComparisonUnitGroup {
        correlation_status: CorrelationStatus::Nil,
        group_type: ComparisonUnitGroupType::Row,
        contents: vec![ComparisonUnit::Word(ComparisonUnitWord {
            correlation_status: CorrelationStatus::Nil,
            contents: atoms,
            sha1_hash: hash.to_string(),
        })],
        level: 1,
        sha1_hash: hash.to_string(),
        correlated_sha1_hash: corr.map(|s| s.to_string()),
        structure_sha1_hash: None,
    })
}

fn table(rows: Vec<ComparisonUnit>, structure: Option<&str>) -> ComparisonUnit {
    ComparisonUnit::Group(ComparisonUnitGroup {
        correlation_status: CorrelationStatus::Nil,
        group_type: ComparisonUnitGroupType::Table,
        contents: rows,
        level: 0,
        sha1_hash: "tbl".to_string(),
        correlated_sha1_hash: None,
        structure_sha1_hash: structure.map(|s| s.to_string()),
    })
}

fn statuses(v: &[wml_comparer::comparer::atoms::CorrelatedSequence]) -> Vec<CorrelationStatus> {
    v.iter().map(|s| s.correlation_status).collect()
}

#[test]
fn rows_are_aligned_by_lcs() {
    let a = vec![row("1", None, vec![]), row("2", None, vec![]), row("3", None, vec![])];
    let b = vec![row("2", None, vec![]), row("4", None, vec![]), row("3", None, vec![])];
    let r = apply_lcs_to_table_rows(&a, &b);
    assert_eq!(
        statuses(&r),
        vec![
            CorrelationStatus::Deleted,
            CorrelationStatus::Unknown,
            CorrelationStatus::Inserted,
            CorrelationStatus::Unknown,
        ]
    );
    let p = positional_rows_with_remainder(&a, &b[..1]);
    assert_eq!(
        statuses(&p),
        vec![CorrelationStatus::Unknown, CorrelationStatus::Deleted, CorrelationStatus::Deleted]
    );
}

#[test]
fn equal_projection_tables_pair_rows_by_position() {
    let d = Dom::new();
    let t1 = table(vec![row("a", Some("x"), vec![]), row("b", Some("y"), vec![])], None);
    let t2 = table(vec![row("c", Some("x"), vec![]), row("d", Some("y"), vec![])], None);
    let r = do_lcs_algorithm_for_table(&d, &[t1], &[t2], true).expect("aligned");
    assert_eq!(statuses(&r), vec![CorrelationStatus::Unknown, CorrelationStatus::Unknown]);
}

#[test]
fn merged_cell_tables_are_replaced_or_paired() {
    let mut d = Dom::new();
    let tbl = d.new_element(W::name("tbl"));
    let tr = d.new_element(W::name("tr"));
    let tc = d.new_element(W::name("tc"));
    let tcpr = d.new_element(W::name("tcPr"));
    let vm = d.new_element(W::name("vMerge"));
    d.add(tbl, tr);
    d.add(tr, tc);
    d.add(tc, tcpr);
    d.add(tcpr, vm);
    let at = ComparisonUnitAtom::new(NodeId(99), vec![tbl, tr, tc], "a".to_string());
    let t1 = table(vec![row("a", Some("x"), vec![at]), row("b", Some("y"), vec![])], Some("s1"));
    let t2 = table(vec![row("c", Some("z"), vec![])], Some("s2"));
    let faithful = do_lcs_algorithm_for_table(&d, &[t1], &[t2], false).expect("merged");
    assert_eq!(statuses(&faithful), vec![CorrelationStatus::Deleted, CorrelationStatus::Inserted]);
    let t1 = table(vec![row("a", Some("x"), vec![ComparisonUnitAtom::new(NodeId(99), vec![tbl], "a".to_string())])], Some("s1"));
    let t2 = table(vec![row("c", Some("z"), vec![]), row("e", Some("w"), vec![])], Some("s2"));
    let word_mode = do_lcs_algorithm_for_table(&d, &[t1], &[t2], true).expect("merged");
    assert_eq!(statuses(&word_mode), vec![CorrelationStatus::Unknown, CorrelationStatus::Inserted]);
    let plain1 = table(vec![row("a", Some("x"), vec![])], None);
    let plain2 = table(vec![row("b", Some("q"), vec![])], None);
    assert!(do_lcs_algorithm_for_table(&d, &[plain1], &[plain2], true).is_none());
}

#[test]
fn grouping_keys_and_word_breaks() {
    let mut d = Dom::new();
    let p = d.new_element(W::p());
    assert_eq!(hierarchical_grouping_key(&d, p), "p:");
    d.set_attribute_value(p, &PT::unid(), Some("u7"));
    assert_eq!(hierarchical_grouping_key(&d, p), "p:u7");
    assert!(is_grouping_element(&W::name("txbxContent")));
    assert!(!is_grouping_element(&W::r()));
    assert!(is_word_break_element(&W::p_pr()));
    assert!(is_word_break_element(&M::name("oMath")));
    assert!(!is_word_break_element(&W::t()));
    assert!(is_digit_char('7') && !is_digit_char('x'));
    assert!(is_cjk('\u{4e2d}') && !is_cjk('a'));
}

#[test]
fn recursion_entries() {
    let tbl = recursion_info(&W::name("tbl")).expect("tbl recurses");
    let props: Vec<String> = tbl
        .child_property_names
        .unwrap()
        .iter()
        .map(|n| n.local_name().to_string())
        .collect();
    assert_eq!(props, vec!["tblPr", "tblGrid", "tblPrEx"]);
    assert!(recursion_info(&W::name("del")).unwrap().child_property_names.is_none());
    assert!(recursion_info(&W::p()).is_none());
}

fn row_unit(ancestors: Vec<NodeId>, content: NodeId) -> ComparisonUnit {
    let atom = ComparisonUnitAtom::new(content, ancestors, "a".to_string());
    let word = ComparisonUnit::Word(ComparisonUnitWord {
        correlation_status: CorrelationStatus::Nil,
        contents: vec![atom],
        sha1_hash: "w".to_string(),
    });
    ComparisonUnit::Group(ComparisonUnitGroup {
        correlation_status: CorrelationStatus::Nil,
        group_type: ComparisonUnitGroupType::Row,
        contents: vec![word],
        level: 0,
        sha1_hash: "row".to_string(),
        correlated_sha1_hash: None,
        structure_sha1_hash: None,
    })
}

#[test]
fn deleted_and_inserted_rows_get_row_revisions() {
    let mut d = Dom::new();
    let tbl = d.new_element(W::name("tbl"));
    let tr1 = d.new_element(W::name("tr"));
    d.add(tbl, tr1);
    let tc1 = d.new_element(W::name("tc"));
    d.add(tr1, tc1);
    let t1 = d.new_element(W::t());
    d.add(tc1, t1);
    let tr2 = d.new_element(W::name("tr"));
    d.add(tbl, tr2);
    let trpr2 = d.new_element(W::name("trPr"));
    d.add(tr2, trpr2);
    let h = d.new_element(W::name("cantSplit"));
    d.add(trpr2, h);
    let tc2 = d.new_element(W::name("tc"));
    d.add(tr2, tc2);
    let t2 = d.new_element(W::t());
    d.add(tc2, t2);
    let seqs = vec![
        CorrelatedSequence::deleted(vec![row_unit(vec![tbl, tr1, tc1], t1)]),
        CorrelatedSequence::inserted(vec![row_unit(vec![tbl, tr2, tc2], t2)]),
        // a row group outside any row is left alone
        CorrelatedSequence::deleted(vec![row_unit(vec![tbl], t1)]),
    ];
    let mut next = 7u32;
    mark_rows_as_deleted_or_inserted(&mut d, "me", "now", &seqs, &mut next);
    assert_eq!(next, 9);
    // the first row got properties, first, holding a deletion
    let p1 = d.child_at(tr1, 0);
    assert_eq!(d.name(p1).unwrap().local_name(), "trPr");
    assert_eq!(d.child_at(tr1, 1), tc1);
    let del = d.child_at(p1, 0);
    assert_eq!(d.name(del).unwrap().local_name(), "del");
    assert_eq!(d.attribute(del, &W::name("author")), Some("me"));
    assert_eq!(d.attribute(del, &W::name("id")), Some("7"));
    assert_eq!(d.attribute(del, &W::name("date")), Some("now"));
    // the second row's properties got an insertion, last
    assert_eq!(d.child_count(trpr2), 2);
    let ins = d.child_at(trpr2, 1);
    assert_eq!(d.name(ins).unwrap().local_name(), "ins");
    assert_eq!(d.attribute(ins, &W::name("id")), Some("8"));
}
