use wml_comparer::comparer::preprocess::{escape_xml_attr, escape_xml_text};

#[test]
fn plain_text_roundtrips_without_entities() {
    assert_eq!(escape_xml_text("hello world"), "hello world");
    assert_eq!(escape_xml_attr("id-42"), "id-42");
}

#[test]
fn specials_are_escaped() {
    assert_eq!(escape_xml_text("a&b<c>d"), "a&amp;b&lt;c&gt;d");
    assert_eq!(escape_xml_attr(r#"say "hi""#), "say &quot;hi&quot;");
}
