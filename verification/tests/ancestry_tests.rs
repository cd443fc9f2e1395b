use wml_comparer::comparer::ancestry::assemble_ancestor_unids;
use wml_comparer::comparer::atoms::ComparisonUnitAtom;
use wml_comparer::comparer::CorrelationStatus;
use wml_comparer::namespaces::{PT, W};
use wml_comparer::unid::UnidSource;
use wml_comparer::xml::{Dom, NodeId};

#[test]
fn unids_are_counter_digits() {
    let mut mint = UnidSource::new();
    let a = mint.generate_unid();
    let b = mint.generate_unid();
    assert_eq!(a, "00000000000000000000000000000000");
    assert_eq!(b, "00000000000000000000000000000001");
    assert_ne!(a, b);
    let mut seen = std::collections::HashSet::new();
    for _ in 0..40 {
        let u = mint.generate_unid();
        assert_eq!(u.len(), 32);
        assert!(seen.insert(u));
    }
    assert!(seen.contains("00000000000000000000000000000029"));
}

fn unid(d: &Dom, n: NodeId) -> Option<String> {
    d.attribute(n, &PT::unid()).map(|s| s.to_string())
}

#[test]
fn every_atom_gets_one_identity_per_ancestor() {
    let mut d = Dom::new();
    let body = d.new_element(W::name("body"));
    let p = d.new_element(W::p());
    d.add(body, p);
    let r = d.new_element(W::r());
    d.add(p, r);
    let t = d.new_element(W::t());
    d.add(r, t);
    let ppr = d.new_element(W::p_pr());
    d.add(p, ppr);
    d.set_attribute_value(p, &PT::unid(), Some("para"));
    let mut atoms = vec![
        ComparisonUnitAtom::new(t, vec![body, p, r], "t".into()),
        ComparisonUnitAtom::new(ppr, vec![body, p], "m".into()),
    ];
    let mut mint = UnidSource::new();
    assemble_ancestor_unids(&mut d, &mut atoms, &mut mint);
    let body_id = unid(&d, body).expect("body minted");
    assert_eq!(unid(&d, p).as_deref(), Some("para"));
    assert_eq!(atoms[1].ancestor_unids, Some(vec![body_id.clone(), "para".to_string()]));
    let run_id = unid(&d, r).expect("run minted");
    assert_eq!(atoms[0].ancestor_unids, Some(vec![body_id, "para".to_string(), run_id]));
    for a in &atoms {
        assert_eq!(a.ancestor_unids.as_ref().map(|u| u.len()), Some(a.ancestor_elements.len()));
    }
}

#[test]
fn equal_paragraph_marks_take_the_original_identities() {
    let mut d = Dom::new();
    let body1 = d.new_element(W::name("body"));
    let p1 = d.new_element(W::p());
    let body2 = d.new_element(W::name("body"));
    let p2 = d.new_element(W::p());
    let ppr2 = d.new_element(W::p_pr());
    let ppr1 = d.new_element(W::p_pr());
    for (n, v) in [(body1, "B1"), (p1, "P1"), (body2, "B2"), (p2, "P2")] {
        d.set_attribute_value(n, &PT::unid(), Some(v));
    }
    let before = ComparisonUnitAtom::new(ppr1, vec![body1, p1], "m".into());
    let mut mark = ComparisonUnitAtom::new(ppr2, vec![body2, p2], "m".into());
    mark.correlation_status = CorrelationStatus::Equal;
    mark.comparison_unit_atom_before = Some(Box::new(before));
    let mut atoms = vec![mark];
    let mut mint = UnidSource::new();
    assemble_ancestor_unids(&mut d, &mut atoms, &mut mint);
    assert_eq!(unid(&d, p2).as_deref(), Some("P1"));
    assert_eq!(atoms[0].ancestor_unids, Some(vec!["B1".to_string(), "P1".to_string()]));
    assert_eq!(mint.generate_unid(), "00000000000000000000000000000000");
}

#[test]
fn note_roots_replace_the_outermost_identity() {
    let mut d = Dom::new();
    let note = d.new_element(W::name("footnote"));
    let p = d.new_element(W::p());
    d.add(note, p);
    let ppr = d.new_element(W::p_pr());
    d.add(p, ppr);
    d.set_attribute_value(note, &PT::unid(), Some("NOTE"));
    let mut atoms = vec![ComparisonUnitAtom::new(ppr, vec![note, p], "m".into())];
    let mut mint = UnidSource::new();
    assemble_ancestor_unids(&mut d, &mut atoms, &mut mint);
    let ids = atoms[0].ancestor_unids.clone().unwrap();
    assert_eq!(ids[0], "NOTE");
    assert_eq!(Some(ids[1].clone()), unid(&d, p));
}
