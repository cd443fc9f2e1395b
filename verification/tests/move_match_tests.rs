use wml_comparer::comparer::atoms::ComparisonUnitAtom;
use wml_comparer::comparer::moves::{detect_moves_in_atom_list, detect_moves_memoized};
use wml_comparer::comparer::CorrelationStatus;
use wml_comparer::namespaces::W;
use wml_comparer::xml::Dom;

const SEPS: [char; 2] = [' ', '\n'];

fn text_atom(d: &mut Dom, text: &str, status: CorrelationStatus) -> ComparisonUnitAtom {
    let t = d.new_element(W::t());
    d.add_text(t, text);
    let mut a = ComparisonUnitAtom::new(t, vec![], "h".to_string());
    a.correlation_status = status;
    a
}

fn mark(d: &mut Dom, status: CorrelationStatus) -> ComparisonUnitAtom {
    let p = d.new_element(W::p_pr());
    let mut a = ComparisonUnitAtom::new(p, vec![], "pm".to_string());
    a.correlation_status = status;
    a
}

fn summary(atoms: &[ComparisonUnitAtom]) -> Vec<(CorrelationStatus, Option<u32>, Option<String>)> {
    atoms
        .iter()
        .map(|a| (a.correlation_status, a.move_group_id, a.move_name.clone()))
        .collect()
}

const TEXT: &str = "alpha beta gamma delta epsilon zeta eta";

#[test]
fn identical_paragraphs_become_a_move() {
    let mut d = Dom::new();
    let mut atoms = vec![
        text_atom(&mut d, TEXT, CorrelationStatus::Deleted),
        mark(&mut d, CorrelationStatus::Deleted),
        text_atom(&mut d, "kept", CorrelationStatus::Equal),
        text_atom(&mut d, TEXT, CorrelationStatus::Inserted),
        mark(&mut d, CorrelationStatus::Inserted),
    ];
    detect_moves_memoized(&d, &mut atoms, true, 6, 900_000, &SEPS, false);
    let m = Some("move1".to_string());
    assert_eq!(
        summary(&atoms),
        vec![
            (CorrelationStatus::MovedSource, Some(1), m.clone()),
            (CorrelationStatus::MovedSource, Some(1), m.clone()),
            (CorrelationStatus::Equal, None, None),
            (CorrelationStatus::MovedDestination, Some(1), m.clone()),
            (CorrelationStatus::MovedDestination, Some(1), m),
        ]
    );
}

#[test]
fn dissimilar_short_or_disabled_give_no_move() {
    let mut d = Dom::new();
    let mut atoms = vec![
        text_atom(&mut d, TEXT, CorrelationStatus::Deleted),
        text_atom(&mut d, "alpha beta gamma delta epsilon zeta theta", CorrelationStatus::Inserted),
    ];
    // one word in seven differs: below 97 in a hundred
    detect_moves_in_atom_list(&d, &mut atoms, true, 6, 0, &SEPS, false);
    assert_eq!(atoms[0].correlation_status, CorrelationStatus::Deleted);
    assert_eq!(atoms[1].correlation_status, CorrelationStatus::Inserted);
    // identical, but fewer words than the minimum
    let mut atoms = vec![
        text_atom(&mut d, TEXT, CorrelationStatus::Deleted),
        text_atom(&mut d, TEXT, CorrelationStatus::Inserted),
    ];
    detect_moves_in_atom_list(&d, &mut atoms, true, 8, 0, &SEPS, false);
    assert_eq!(atoms[0].move_group_id, None);
    // detection off
    detect_moves_in_atom_list(&d, &mut atoms, false, 1, 0, &SEPS, false);
    assert_eq!(atoms[1].correlation_status, CorrelationStatus::Inserted);
    // case-insensitive words match across case
    let mut atoms = vec![
        text_atom(&mut d, TEXT, CorrelationStatus::Deleted),
        text_atom(&mut d, "ALPHA BETA GAMMA DELTA EPSILON ZETA ETA", CorrelationStatus::Inserted),
    ];
    detect_moves_in_atom_list(&d, &mut atoms, true, 6, 0, &SEPS, true);
    assert_eq!(atoms[0].correlation_status, CorrelationStatus::MovedSource);
    assert_eq!(atoms[1].move_name, Some("move1".to_string()));
}
