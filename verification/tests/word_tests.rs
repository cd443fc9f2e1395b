use wml_comparer::comparer::atoms::ComparisonUnitAtom;
use wml_comparer::comparer::units::{group_atoms_by_key, word_grouping_keys, word_keys};
use wml_comparer::namespaces::{PT, W};
use wml_comparer::xml::Dom;

fn chars(d: &mut Dom, text: &[&str]) -> Vec<ComparisonUnitAtom> {
    text.iter()
        .map(|s| {
            let t = d.new_element(W::t());
            d.add_text(t, s);
            ComparisonUnitAtom::new(t, vec![], s.to_string())
        })
        .collect()
}

#[test]
fn words_break_at_separators_and_break_elements() {
    let mut d = Dom::new();
    let mut atoms = chars(&mut d, &["a", "b", " ", "c", "1", ".", "5"]);
    let ppr = d.new_element(W::p_pr());
    atoms.push(ComparisonUnitAtom::new(ppr, vec![], "m".into()));
    let keys = word_keys(&d, &atoms, &[' '], false);
    assert_eq!(keys, vec![0, 0, 1, 2, 2, 2, 2, 3]);
    let runs = group_atoms_by_key(&atoms, &keys);
    let sizes: Vec<usize> = runs.iter().map(|r| r.len()).collect();
    assert_eq!(sizes, vec![2, 1, 4, 1]);
    let all: Vec<String> = runs.iter().flatten().map(|a| a.sha1_hash.clone()).collect();
    assert_eq!(all, vec!["a", "b", " ", "c", "1", ".", "5", "m"]);
}

#[test]
fn word_mode_splits_letters_from_digits() {
    let mut d = Dom::new();
    let text: Vec<String> = "file_137.docx".chars().map(|c| c.to_string()).collect();
    let refs: Vec<&str> = text.iter().map(|s| s.as_str()).collect();
    let atoms = chars(&mut d, &refs);
    assert_eq!(word_keys(&d, &atoms, &[' '], true), vec![0, 0, 0, 0, 0, 1, 1, 1, 2, 2, 2, 2, 2]);
    assert_eq!(word_keys(&d, &atoms, &[' '], false), vec![0; 13]);
    let hy: Vec<String> = "Left-aligned".chars().map(|c| c.to_string()).collect();
    let hrefs: Vec<&str> = hy.iter().map(|s| s.as_str()).collect();
    let hatoms = chars(&mut d, &hrefs);
    let keys = word_keys(&d, &hatoms, &[' '], true);
    assert_eq!(keys[..5], [0, 0, 0, 0, 0]);
    assert!(keys[5..].iter().all(|&k| k == 1));
    // A lone separator-like dot is a word of its own.
    let dots = chars(&mut d, &["a", ".", "b"]);
    assert_eq!(word_keys(&d, &dots, &[' '], false), vec![0, 1, 2]);
}

#[test]
fn grouping_keys_come_from_grouping_ancestors() {
    let mut d = Dom::new();
    let body = d.new_element(W::name("body"));
    let p = d.new_element(W::p());
    let r = d.new_element(W::r());
    d.set_attribute_value(p, &PT::unid(), Some("u1"));
    let t = d.new_element(W::t());
    let atom = ComparisonUnitAtom::new(t, vec![body, p, r], "x".into());
    let (keys, groups) = word_grouping_keys(&d, &atom);
    assert_eq!(groups, vec![p]);
    assert_eq!(keys, vec!["p:u1".to_string()]);
}
