use wml_comparer::comparer::atoms::{
    ComparisonUnit, ComparisonUnitAtom, ComparisonUnitGroup, ComparisonUnitWord, CorrelatedSequence,
};
use wml_comparer::comparer::lcs::{
    correlate_atoms, detect_unrelated_sources, find_index_of_next_para_mark,
    last_atom_overall_is_ppr, longest_common_run, set_after_unids, split_at_paragraph_mark,
    unit_is_single_atom_ppr, word_first_not_ppr,
};
use wml_comparer::comparer::{ComparisonUnitGroupType, CorrelationStatus};
use wml_comparer::namespaces::{PT, W};
use wml_comparer::xml::{Dom, NodeId};

fn word_of(atoms: Vec<ComparisonUnitAtom>, hash: &str) -> ComparisonUnit {
    ComparisonUnit::Word(ComparisonUnitWord {
        correlation_status: CorrelationStatus::Nil,
        contents: atoms,
        sha1_hash: hash.to_string(),
    })
}

fn hashed(h: &str) -> ComparisonUnit {
    word_of(vec![], h)
}

#[test]
fn longest_common_run_takes_the_first_longest() {
    let a: Vec<ComparisonUnit> = ["x", "a", "b", "y", "a", "b", "c"].iter().map(|h| hashed(h)).collect();
    let b: Vec<ComparisonUnit> = ["a", "b", "c", "z", "a", "b"].iter().map(|h| hashed(h)).collect();
    assert_eq!(longest_common_run(&a, &b), (4, 0, 3));
    let c: Vec<ComparisonUnit> = ["p", "q"].iter().map(|h| hashed(h)).collect();
    assert_eq!(longest_common_run(&a, &c), (0, 0, 0));
    let d: Vec<ComparisonUnit> = ["b", "a"].iter().map(|h| hashed(h)).collect();
    // Two runs of length one: the earliest start in the first sequence wins.
    assert_eq!(longest_common_run(&d, &a), (0, 2, 1));
}

#[test]
fn atoms_are_tagged_by_the_longest_common_runs() {
    let at = |h: &str| ComparisonUnitAtom::new(NodeId(0), vec![], h.to_string());
    let a = vec![at("1"), at("2"), at("3"), at("4")];
    let b = vec![at("2"), at("3"), at("5")];
    let tags: Vec<(String, CorrelationStatus)> = correlate_atoms(&a, &b)
        .into_iter()
        .map(|t| (t.atom.sha1_hash.clone(), t.status))
        .collect();
    assert_eq!(
        tags,
        vec![
            ("1".to_string(), CorrelationStatus::Deleted),
            ("2".to_string(), CorrelationStatus::Equal),
            ("3".to_string(), CorrelationStatus::Equal),
            ("4".to_string(), CorrelationStatus::Deleted),
            ("5".to_string(), CorrelationStatus::Inserted),
        ]
    );
}

fn doc_atoms(d: &mut Dom) -> (ComparisonUnit, ComparisonUnit, ComparisonUnit) {
    let t = d.new_element(W::t());
    let ppr = d.new_element(W::p_pr());
    let text = word_of(vec![ComparisonUnitAtom::new(t, vec![], "t".into())], "w1");
    let mark = word_of(vec![ComparisonUnitAtom::new(ppr, vec![], "p".into())], "w2");
    let mixed = word_of(
        vec![
            ComparisonUnitAtom::new(ppr, vec![], "p".into()),
            ComparisonUnitAtom::new(t, vec![], "t".into()),
        ],
        "w3",
    );
    (text, mark, mixed)
}

#[test]
fn paragraph_marks_split_and_find() {
    let mut d = Dom::new();
    let (text, mark, mixed) = doc_atoms(&mut d);
    assert!(unit_is_single_atom_ppr(&d, &mark));
    assert!(!unit_is_single_atom_ppr(&d, &mixed));
    assert!(word_first_not_ppr(&d, &text));
    assert!(!word_first_not_ppr(&d, &mixed));
    let units = vec![text, mixed, mark];
    // The first unit whose last atom is a mark is the bare mark at 2.
    assert_eq!(find_index_of_next_para_mark(&d, &units), 2);
    let parts = split_at_paragraph_mark(&d, &units);
    let hashes: Vec<Vec<String>> = parts
        .iter()
        .map(|p| p.iter().map(|u| u.sha1().to_string()).collect())
        .collect();
    assert_eq!(hashes, vec![vec!["w1".to_string()], vec!["w3".to_string(), "w2".to_string()]]);
    assert_eq!(last_atom_overall_is_ppr(&d, &units), Some(true));
    assert_eq!(last_atom_overall_is_ppr(&d, &units[..2]), Some(false));
    assert_eq!(last_atom_overall_is_ppr(&d, &[]), None);
}

fn para_group(atoms: Vec<ComparisonUnitAtom>, hash: &str) -> ComparisonUnit {
    ComparisonUnit::Group(ComparisonUnitGroup {
        correlation_status: CorrelationStatus::Nil,
        group_type: ComparisonUnitGroupType::Paragraph,
        contents: vec![word_of(atoms, hash)],
        level: 0,
        sha1_hash: hash.to_string(),
        correlated_sha1_hash: None,
        structure_sha1_hash: None,
    })
}

#[test]
fn unids_are_carried_onto_the_revised_paragraph() {
    let mut d = Dom::new();
    let unid = PT::unid();
    let body1 = d.new_element(W::name("body"));
    let p1 = d.new_element(W::p());
    d.set_attribute_value(p1, &unid, Some("orig-p"));
    let t1 = d.new_element(W::t());
    let body2 = d.new_element(W::name("body"));
    let p2 = d.new_element(W::p());
    d.set_attribute_value(p2, &unid, Some("rev-p"));
    let t2 = d.new_element(W::t());
    let g1 = para_group(vec![ComparisonUnitAtom::new(t1, vec![body1, p1], "a".into())], "g1");
    let g2 = para_group(vec![ComparisonUnitAtom::new(t2, vec![body2, p2], "b".into())], "g2");
    let unknown = CorrelatedSequence::paired(CorrelationStatus::Unknown, vec![g1], vec![g2]);
    set_after_unids(&mut d, &unknown);
    // body1 has no unid, so the only unid is p1's; it lands on the first
    // ancestor of the revised atom that carries one... position by position:
    // body2 (no unid, left alone).
    assert_eq!(d.attribute(p2, &unid), Some("rev-p"));
    d.set_attribute_value(body1, &unid, Some("orig-body"));
    d.set_attribute_value(body2, &unid, Some("rev-body"));
    set_after_unids(&mut d, &unknown);
    assert_eq!(d.attribute(body2, &unid), Some("orig-body"));
    assert_eq!(d.attribute(p2, &unid), Some("orig-p"));
}

#[test]
fn fully_disjoint_blocks_are_replaced_whole() {
    let groups = |hs: &[&str]| hs.iter().map(|h| para_group(vec![], h)).collect::<Vec<_>>();
    let a = groups(&["g1", "g2", "g3", "g4"]);
    let b = groups(&["h1", "h2", "h3", "h4"]);
    let r = detect_unrelated_sources(&a, &b).expect("unrelated");
    let statuses: Vec<CorrelationStatus> = r.iter().map(|s| s.correlation_status).collect();
    assert_eq!(statuses, vec![CorrelationStatus::Deleted, CorrelationStatus::Inserted]);
    // One shared block, or three blocks or fewer on a side: not unrelated.
    let c = groups(&["h1", "g2", "h3", "h4"]);
    assert!(detect_unrelated_sources(&a, &c).is_none());
    let short = groups(&["h1", "h2", "h3"]);
    assert!(detect_unrelated_sources(&a, &short).is_none());
}
