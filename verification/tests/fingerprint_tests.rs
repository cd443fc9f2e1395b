use wml_comparer::comparer::atoms::{ComparisonUnit, ComparisonUnitAtom, ComparisonUnitGroup, ComparisonUnitWord};
use wml_comparer::comparer::para_text::{
    contentful_group_sha1s, first_contentful_group_index, first_contentful_para_text,
    group_has_drawing_or_pict, looks_like_fields_html_doc, looks_like_memo_doc,
    looks_like_short_alpha_list, looks_like_short_alpha_list_cluster,
    looks_like_short_annotation_doc, memo_header_cut, para_text_token_list, run_real_text_len,
    short_item_list_groups, split_tokens, trimmed_char_count,
};
use wml_comparer::comparer::{ComparisonUnitGroupType, CorrelationStatus};
use wml_comparer::namespaces::W;
use wml_comparer::xml::{Dom, XName};

fn text_atom(d: &mut Dom, text: &str) -> ComparisonUnitAtom {
    let t = d.new_element(W::t());
    d.add_text(t, text);
    ComparisonUnitAtom::new(t, vec![], format!("h-{text}"))
}

fn word(atoms: Vec<ComparisonUnitAtom>, hash: &str) -> ComparisonUnit {
    ComparisonUnit::Word(ComparisonUnitWord {
        correlation_status: CorrelationStatus::Nil,
        contents: atoms,
        sha1_hash: hash.to_string(),
    })
}

fn para(d: &mut Dom, text: &str, hash: &str) -> ComparisonUnit {
    let a = text_atom(d, text);
    ComparisonUnit::Group(ComparisonUnitGroup {
        correlation_status: CorrelationStatus::Nil,
        group_type: ComparisonUnitGroupType::Paragraph,
        contents: vec![word(vec![a], &format!("w-{hash}"))],
        level: 0,
        sha1_hash: hash.to_string(),
        correlated_sha1_hash: None,
        structure_sha1_hash: None,
    })
}

fn doc(d: &mut Dom, texts: &[&str]) -> Vec<ComparisonUnit> {
    texts.iter().enumerate().map(|(i, t)| para(d, t, &format!("g{i}"))).collect()
}

#[test]
fn tokens_are_lower_cased_alphanumeric_runs() {
    let mut d = Dom::new();
    let u = para(&mut d, "Hello, World-42 again!", "g");
    assert_eq!(para_text_token_list(&d, &u), vec!["hello", "world", "42", "again"]);
    let text: Vec<char> = "aB c".chars().collect();
    assert_eq!(split_tokens(&text, &[true, true, false, true]), vec!["ab", "c"]);
    assert_eq!(split_tokens(&text, &[false, false, false, false]), Vec::<String>::new());
}

#[test]
fn short_alpha_lists_are_recognised() {
    let mut d = Dom::new();
    let list = doc(&mut d, &["ONE", "", "a", "b c"]);
    assert!(looks_like_short_alpha_list(&d, &list));
    let long_token = doc(&mut d, &["ONE", "abcdefghi"]);
    assert!(!looks_like_short_alpha_list(&d, &long_token));
    let too_many = doc(&mut d, &["a", "b", "c", "d", "e"]);
    assert!(!looks_like_short_alpha_list(&d, &too_many));
    assert!(looks_like_short_alpha_list_cluster(&d, &too_many));
    let empty = doc(&mut d, &["", ""]);
    assert!(!looks_like_short_alpha_list(&d, &empty));
    let wordy = doc(&mut d, &["first item", "second item", "third item", "fourth", "fifth thing"]);
    // None of the five paragraphs is a single short token: not a cluster.
    assert!(!looks_like_short_alpha_list_cluster(&d, &wordy));
}

#[test]
fn memo_documents_are_recognised_and_cut() {
    let mut d = Dom::new();
    let memo = doc(
        &mut d,
        &[
            "TO: All staff",
            "FROM: Management",
            "RE: Parking",
            "The parking lot will be closed for repairs next week on Monday",
        ],
    );
    assert!(looks_like_memo_doc(&d, &memo));
    assert_eq!(memo_header_cut(&d, &memo), Some(3));
    let titled = doc(&mut d, &["Memorandum of understanding", "Dear Sir", "body"]);
    assert!(looks_like_memo_doc(&d, &titled));
    assert_eq!(memo_header_cut(&d, &titled), Some(2));
    let plain = doc(&mut d, &["To be or not to be", "that is the question"]);
    assert!(!looks_like_memo_doc(&d, &plain));
    assert_eq!(memo_header_cut(&d, &plain), Some(2));
    let none = doc(&mut d, &["Nothing here"]);
    assert_eq!(memo_header_cut(&d, &none), None);
}

#[test]
fn fields_and_annotation_documents_are_recognised() {
    let mut d = Dom::new();
    let fields = doc(&mut d, &["Intro", "The HTML input-type field"]);
    assert!(looks_like_fields_html_doc(&d, &fields));
    let other = doc(&mut d, &["html", "input type"]);
    assert!(!looks_like_fields_html_doc(&d, &other));
    let note = doc(&mut d, &["Feel free to leave a comment below."]);
    assert!(looks_like_short_annotation_doc(&d, &note));
    let plain = doc(&mut d, &["A contract between two parties."]);
    assert!(!looks_like_short_annotation_doc(&d, &plain));
}

#[test]
fn short_item_groups_need_one_group_of_few_tokens() {
    let mut d = Dom::new();
    let a = para(&mut d, "one two three", "a");
    let b = para(&mut d, "a b c d e f g h i j k l m", "b");
    assert!(short_item_list_groups(&d, &[&a]));
    assert!(!short_item_list_groups(&d, &[&a, &b]));
    assert!(!short_item_list_groups(&d, &[]));
}

#[test]
fn real_text_is_counted_trimmed() {
    assert_eq!(trimmed_char_count("  héllo  "), 5);
    assert_eq!(trimmed_char_count(" \t\n"), 0);
    assert_eq!(trimmed_char_count("a b"), 3);
    let mut d = Dom::new();
    let units = doc(&mut d, &["  ", " ab ", "cde"]);
    assert_eq!(run_real_text_len(&d, &units), 5);
    assert_eq!(first_contentful_group_index(&d, &units), Some(1));
    assert_eq!(first_contentful_para_text(&d, &units), Some(" ab ".to_string()));
    let blank = doc(&mut d, &["  "]);
    assert_eq!(first_contentful_group_index(&d, &blank), None);
    assert_eq!(first_contentful_para_text(&d, &blank), None);
}

#[test]
fn drawings_count_as_content() {
    let mut d = Dom::new();
    let drawing = d.new_element(W::name("drawing"));
    let alt = d.new_element(XName::get("AlternateContent", "urn:mc"));
    let pic = word(vec![ComparisonUnitAtom::new(drawing, vec![], "d".into())], "wd");
    let other = word(vec![ComparisonUnitAtom::new(alt, vec![], "m".into())], "wm");
    assert!(group_has_drawing_or_pict(&d, &pic));
    assert!(group_has_drawing_or_pict(&d, &other));
    let blank = para(&mut d, " ", "blank");
    assert!(!group_has_drawing_or_pict(&d, &blank));
    let pic_group = ComparisonUnit::Group(ComparisonUnitGroup {
        correlation_status: CorrelationStatus::Nil,
        group_type: ComparisonUnitGroupType::Paragraph,
        contents: vec![pic],
        level: 0,
        sha1_hash: "gp".to_string(),
        correlated_sha1_hash: None,
        structure_sha1_hash: None,
    });
    let text = para(&mut d, "words", "gt");
    let units = vec![blank, pic_group, text, other];
    assert_eq!(contentful_group_sha1s(&d, &units), vec!["gp", "gt"]);
}
