use wml_comparer::comparer::atoms::{ComparisonUnit, ComparisonUnitAtom, ComparisonUnitGroup, ComparisonUnitWord};
use wml_comparer::comparer::lists::legal_mid_splice_cut;
use wml_comparer::comparer::residuals::{
    body_residual_unrelated, containing_paragraph_is_duplicated, distinct_tokens,
    first_paras_share_last_sig, has_table_units, ooxml_x_short_prose_demo, ooxml_x_short_table_demo,
    parallel_sectioned_demos, para_text_tokens, para_text_tokens_from_units,
    residual_first_body_starts_this, residual_first_this_body_index,
    residual_has_this_body_after_non_this, residual_looks_like_colon_list,
    residual_para_starts_this, residual_sets_share_content_sig, residual_shared_sig_count,
    residual_title_ends_demo, section_letter_labels, shared_connector_tokens,
    short_ooxml_property_demo, short_table_title_demo, significant_body_tokens,
    significant_tokens, titles_share_last_sig,
};
use wml_comparer::comparer::{ComparisonUnitGroupType, CorrelationStatus};
use wml_comparer::namespaces::W;
use wml_comparer::xml::{Dom, NodeId};

fn word(atoms: Vec<ComparisonUnitAtom>, hash: &str) -> ComparisonUnit {
    ComparisonUnit::Word(ComparisonUnitWord {
        correlation_status: CorrelationStatus::Nil,
        contents: atoms,
        sha1_hash: hash.to_string(),
    })
}

fn group(kind: ComparisonUnitGroupType, contents: Vec<ComparisonUnit>, hash: &str) -> ComparisonUnit {
    ComparisonUnit::Group(ComparisonUnitGroup {
        correlation_status: CorrelationStatus::Nil,
        group_type: kind,
        contents,
        level: 0,
        sha1_hash: hash.to_string(),
        correlated_sha1_hash: None,
        structure_sha1_hash: None,
    })
}

/// A paragraph group whose text atoms are `text`, under `w:p` element `p`.
fn para_in(d: &mut Dom, p: NodeId, text: &str) -> ComparisonUnit {
    let t = d.new_element(W::t());
    d.add(p, t);
    d.add_text(t, text);
    let a = ComparisonUnitAtom::new(t, vec![p], "t".into());
    group(ComparisonUnitGroupType::Paragraph, vec![word(vec![a], "w")], text)
}

fn para(d: &mut Dom, text: &str) -> ComparisonUnit {
    let p = d.new_element(W::p());
    para_in(d, p, text)
}

fn paras(d: &mut Dom, texts: &[&str]) -> Vec<ComparisonUnit> {
    texts.iter().map(|t| para(d, t)).collect()
}

fn strings(v: &[&str]) -> Vec<String> {
    v.iter().map(|s| s.to_string()).collect()
}

#[test]
fn token_sets_keep_first_occurrences() {
    assert_eq!(distinct_tokens(&strings(&["a", "b", "a", "c", "b"])), strings(&["a", "b", "c"]));
    assert_eq!(significant_tokens(&strings(&["this", "is", "long", "ab"])), strings(&["this", "long"]));
    assert_eq!(
        shared_connector_tokens(&strings(&["and", "bold", "the", "or"]), &strings(&["AND", "or", "x"])),
        1
    );
    let mut d = Dom::new();
    let us = paras(&mut d, &["Alpha beta alpha", "gamma file_9 docx"]);
    assert_eq!(para_text_tokens_from_units(&d, &us), strings(&["alpha", "beta", "gamma", "file", "9", "docx"]));
    assert_eq!(para_text_tokens(&d, &us[0]), strings(&["alpha", "beta"]));
    assert_eq!(significant_body_tokens(&d, &us), strings(&["alpha", "beta", "gamma", "file"]));
}

#[test]
fn residual_paragraph_openings() {
    let mut d = Dom::new();
    let rest = paras(&mut d, &["Red Bold Heading Demo", "Subtitle here", "This document shows"]);
    assert!(residual_title_ends_demo(&d, &rest[0]));
    assert!(!residual_title_ends_demo(&d, &rest[1]));
    assert!(residual_para_starts_this(&d, &rest[2]));
    assert!(!residual_first_body_starts_this(&d, &rest));
    assert_eq!(residual_first_this_body_index(&d, &rest), Some(2));
    assert!(residual_has_this_body_after_non_this(&d, &rest));
    let direct = paras(&mut d, &["Title", "this is it"]);
    assert!(residual_first_body_starts_this(&d, &direct));
    assert!(!residual_has_this_body_after_non_this(&d, &direct));
    assert_eq!(residual_first_this_body_index(&d, &direct[..1]), None);
}

#[test]
fn shared_content_ignores_boilerplate() {
    let mut d = Dom::new();
    let a = paras(&mut d, &["This document demonstrates inventory lists", "Bold text"]);
    let b = paras(&mut d, &["Numbered list demo: inventory", "document shows"]);
    assert_eq!(residual_shared_sig_count(&d, &a, &b), 1);
    assert!(residual_sets_share_content_sig(&d, &a, &b));
    let c = paras(&mut d, &["This document demonstrates bold text"]);
    assert!(!residual_sets_share_content_sig(&d, &c, &b));
    let t1 = paras(&mut d, &["Title one", "alpha beta document"]);
    let t2 = paras(&mut d, &["Title two", "gamma delta document"]);
    assert!(body_residual_unrelated(&d, &t1, &t2));
    let t3 = paras(&mut d, &["Title three", "alpha words"]);
    assert!(!body_residual_unrelated(&d, &t1, &t3));
    assert!(!body_residual_unrelated(&d, &t1[..1], &t3));
}

#[test]
fn colon_lists_and_last_tokens() {
    let mut d = Dom::new();
    let rest = paras(&mut d, &["Owner: me", "Status: open", "notes"]);
    assert!(residual_looks_like_colon_list(&d, &rest));
    let prose = paras(&mut d, &["one", "two: x", "three"]);
    assert!(!residual_looks_like_colon_list(&d, &prose));
    assert!(!residual_looks_like_colon_list(&d, &[]));
    let a = paras(&mut d, &["Open Sans Bold Demo"]);
    let b = paras(&mut d, &["Verdana DEMO"]);
    assert!(first_paras_share_last_sig(&d, &a, &b));
    let c = paras(&mut d, &["Tab test document"]);
    let e = paras(&mut d, &["Table DOCUMENT"]);
    assert!(titles_share_last_sig(&d, &c, &e));
    assert!(!titles_share_last_sig(&d, &a, &b));
}

#[test]
fn tester_and_table_documents() {
    let mut d = Dom::new();
    let tester = paras(&mut d, &["OOXML property tester", "w:b on"]);
    assert!(short_ooxml_property_demo(&d, &tester));
    let mut table_doc = paras(&mut d, &["RTL Table sample"]);
    let cell = para(&mut d, "cell");
    table_doc.push(group(ComparisonUnitGroupType::Table, vec![cell], "tbl"));
    assert!(has_table_units(&table_doc));
    assert!(short_table_title_demo(&d, &table_doc));
    assert!(ooxml_x_short_table_demo(&d, &table_doc, &tester));
    let prose = paras(&mut d, &["Here's some text with a comment"]);
    assert!(ooxml_x_short_prose_demo(&d, &tester, &prose, 2, 1));
    let demo = paras(&mut d, &["Font Demo"]);
    assert!(!ooxml_x_short_prose_demo(&d, &tester, &demo, 2, 1));
    assert!(!ooxml_x_short_prose_demo(&d, &tester, &tester, 2, 2));
}

#[test]
fn lettered_sections_are_compared() {
    let mut d = Dom::new();
    let a = paras(&mut d, &["A) First", "  B) Second", "C) Third", "A) again", "x) no"]);
    assert_eq!(section_letter_labels(&d, &a), vec!['A', 'B', 'C']);
    let b = paras(&mut d, &["C) x", "B) y", "A) z"]);
    assert!(parallel_sectioned_demos(&d, &a, &b));
    let c = paras(&mut d, &["A) x", "B) y"]);
    assert!(!parallel_sectioned_demos(&d, &a, &c));
    // A whole text value is taken in full, however long its indent.
    let spaced = paras(&mut d, &["        A) indented"]);
    assert_eq!(section_letter_labels(&d, &spaced), vec!['A']);
    // Character by character, the lead stops at eight bytes: all spaces here.
    let p = d.new_element(W::p());
    let mut atoms = Vec::new();
    for ch in "        A) late".chars() {
        let t = d.new_element(W::t());
        d.add(p, t);
        d.add_text(t, &ch.to_string());
        atoms.push(ComparisonUnitAtom::new(t, vec![p], "c".into()));
    }
    let per_char = vec![group(ComparisonUnitGroupType::Paragraph, vec![word(atoms, "w")], "g")];
    assert_eq!(section_letter_labels(&d, &per_char), Vec::<char>::new());
}

#[test]
fn duplicated_paragraphs_are_found() {
    let mut d = Dom::new();
    let t1 = d.new_element(W::t());
    d.add_text(t1, "Hello");
    let t2 = d.new_element(W::t());
    d.add_text(t2, "Hello");
    let mark = d.new_element(W::p_pr());
    let units = vec![
        word(vec![ComparisonUnitAtom::new(t1, vec![], "a".into())], "a"),
        word(vec![ComparisonUnitAtom::new(mark, vec![], "m".into())], "m"),
        word(vec![ComparisonUnitAtom::new(t2, vec![], "b".into())], "b"),
    ];
    assert!(containing_paragraph_is_duplicated(&d, &units, 0));
    assert!(containing_paragraph_is_duplicated(&d, &units, 2));
    let blank = d.new_element(W::t());
    d.add_text(blank, " ");
    let single = vec![word(vec![ComparisonUnitAtom::new(blank, vec![], "s".into())], "s")];
    assert!(!containing_paragraph_is_duplicated(&d, &single, 0));
    let other = d.new_element(W::t());
    d.add_text(other, "World");
    let units2 = vec![
        word(vec![ComparisonUnitAtom::new(t1, vec![], "a".into())], "a"),
        word(vec![ComparisonUnitAtom::new(mark, vec![], "m".into())], "m"),
        word(vec![ComparisonUnitAtom::new(other, vec![], "c".into())], "c"),
    ];
    assert!(!containing_paragraph_is_duplicated(&d, &units2, 0));
}

fn styled(d: &mut Dom, style: Option<&str>, text: &str) -> ComparisonUnit {
    let p = d.new_element(W::p());
    if let Some(st) = style {
        let ppr = d.new_element(W::p_pr());
        d.add(p, ppr);
        let ps = d.new_element(W::name("pStyle"));
        d.add(ppr, ps);
        d.set_attribute_value(ps, &W::name("val"), Some(st));
    }
    para_in(d, p, text)
}

#[test]
fn the_legal_cut_follows_the_third_section() {
    let mut d = Dom::new();
    let units = vec![
        styled(&mut d, Some("Title"), "Lease Agreement"),
        styled(&mut d, None, "1. Premises"),
        styled(&mut d, None, "Some body text that goes on"),
        styled(&mut d, Some("Heading2"), "Term"),
        styled(&mut d, Some("heading1"), "Not a body section"),
        styled(&mut d, None, "3 Rent"),
        styled(&mut d, None, "after"),
    ];
    assert_eq!(legal_mid_splice_cut(&d, &units), Some(6));
    assert_eq!(legal_mid_splice_cut(&d, &units[..5]), None);
    let headings = vec![
        styled(&mut d, Some("HeadingX"), "a"),
        styled(&mut d, Some("Heading3"), "b"),
        styled(&mut d, Some("Heading2"), "c"),
    ];
    // "HeadingX" has no number, so it reads as level 1: not a section.
    assert_eq!(legal_mid_splice_cut(&d, &headings), None);
}
