use wml_comparer::comparer::atoms::{AtomBlock, ComparisonUnitAtom};
use wml_comparer::comparer::moves::{
    collapse_ws, count_words, extract_text_from_atom_block, group_consecutive_atoms_by_status,
    split_block_on_paragraphs, split_by_chars,
};
use wml_comparer::comparer::CorrelationStatus;
use wml_comparer::namespaces::W;
use wml_comparer::xml::{Dom, NodeId};

#[test]
fn split_keeps_empty_segments() {
    assert_eq!(split_by_chars(" a,,b ", &[' ', ',']), vec!["", "a", "", "b", ""]);
    assert_eq!(split_by_chars("", &[' ']), vec![""]);
    assert_eq!(split_by_chars("abc", &[]), vec!["abc"]);
}

#[test]
fn words_are_counted_without_empty_segments() {
    assert_eq!(count_words(" the  party, shall ", &[' ', ',']), 3);
    assert_eq!(count_words("", &[' ']), 0);
}

#[test]
fn whitespace_runs_collapse_to_single_spaces() {
    assert_eq!(collapse_ws("  dense\t\tand \n spaced  "), "dense and spaced");
    assert_eq!(collapse_ws("   "), "");
    assert_eq!(collapse_ws("one"), "one");
}

fn atom(dom: &mut Dom, kind: &str, text: &str, status: CorrelationStatus) -> ComparisonUnitAtom {
    let e = dom.new_element(W::name(kind));
    if !text.is_empty() {
        dom.add_text(e, text);
    }
    let mut a = ComparisonUnitAtom::new(e, Vec::<NodeId>::new(), format!("{kind}:{text}"));
    a.correlation_status = status;
    a
}

#[test]
fn runs_of_a_status_are_maximal() {
    let mut d = Dom::new();
    let (dl, eq) = (CorrelationStatus::Deleted, CorrelationStatus::Equal);
    let atoms: Vec<ComparisonUnitAtom> = [dl, dl, eq, dl, eq, eq, dl]
        .iter()
        .map(|s| atom(&mut d, "t", "x", *s))
        .collect();
    let blocks = group_consecutive_atoms_by_status(&atoms, dl);
    let got: Vec<(Vec<usize>, usize)> = blocks.iter().map(|b| (b.atoms.clone(), b.start_index)).collect();
    assert_eq!(got, vec![(vec![0, 1], 0), (vec![3], 3), (vec![6], 6)]);
    assert!(group_consecutive_atoms_by_status(&atoms, CorrelationStatus::Inserted).is_empty());
}

#[test]
fn block_text_and_paragraph_split() {
    let mut d = Dom::new();
    let s = CorrelationStatus::Deleted;
    let atoms = vec![
        atom(&mut d, "t", "a", s),
        atom(&mut d, "t", "b", s),
        atom(&mut d, "pPr", "", s),
        atom(&mut d, "t", "c", s),
    ];
    let block = AtomBlock { atoms: vec![0, 1, 2, 3], start_index: 0 };
    assert_eq!(extract_text_from_atom_block(&d, &atoms, &block), "ab\nc");
    let parts = split_block_on_paragraphs(&d, &atoms, &block);
    let got: Vec<(Vec<usize>, usize)> = parts.iter().map(|b| (b.atoms.clone(), b.start_index)).collect();
    assert_eq!(got, vec![(vec![0, 1, 2], 0), (vec![3], 3)]);
    let empty = AtomBlock { atoms: vec![], start_index: 5 };
    let parts = split_block_on_paragraphs(&d, &atoms, &empty);
    assert_eq!(parts.len(), 1);
    assert_eq!(parts[0].start_index, 5);
}
