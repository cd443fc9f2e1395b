use wml_comparer::comparer::parts::{
    decode_xml_attribute, is_external_relationship, parse_relationship_rows,
    required_rel_type_suffix,
};
use wml_comparer::comparer::preprocess::escape_xml_attr;

#[test]
fn decode_undoes_entities_in_order() {
    assert_eq!(decode_xml_attribute("a &lt;b&gt; &quot;c&quot; &amp;d"), "a <b> \"c\" &d");
    // `&amp;` is decoded last, so an escaped entity stays an entity.
    assert_eq!(decode_xml_attribute("&amp;lt;"), "&lt;");
    assert_eq!(decode_xml_attribute("plain"), "plain");
}

#[test]
fn decode_round_trips_escaped_values() {
    for s in ["x < y & \"z\" > w", "&quot;", "&amp;gt;", "", "no specials"] {
        assert_eq!(decode_xml_attribute(&escape_xml_attr(s)), s);
    }
}

#[test]
fn rows_are_parsed_with_external_classification() {
    let xml = [
        "<?xml version=\"1.0\"?><Relationships>",
        "<Relationship Id=\"rId1\" Type=\"http://x/officeDocument/2006/relationships/styles\" Target=\"styles.xml\"/>",
        "<Relationship Id=\"rId2\" Type=\"http://x/relationships/hyperlink\" Target=\"https://a.example/?q=1&amp;r=2\"/>",
        "<Relationship Id=\"rId3\" Type=\"http://x/relationships/image\" TargetMode=\"External\" Target=\"media/i.png\"/>",
        "<Relationships2 Id=\"bad\" Type=\"t\" Target=\"x\"/>",
        "<Relationship Id=\"rId4\" Type=\"http://x/relationships/image\" Target=\"file:///c/i.png\"/>",
        "<Relationship Type=\"missing-id\" Target=\"y\"/>",
        "</Relationships>",
    ]
    .join("");
    let rows = parse_relationship_rows(&xml);
    assert_eq!(rows.len(), 4);
    assert_eq!(rows[0].id, "rId1");
    assert_eq!(rows[0].target, "styles.xml");
    assert!(!rows[0].external);
    assert_eq!(rows[1].target, "https://a.example/?q=1&r=2");
    assert!(rows[1].external);
    assert_eq!(rows[2].id, "rId3");
    assert!(rows[2].external);
    assert_eq!(rows[3].id, "rId4");
    assert!(rows[3].external);
}

#[test]
fn attribute_names_must_be_whole() {
    // `TargetMode` must not be read as `Target`.
    let rows = parse_relationship_rows(
        "<Relationship Id=\"r\" TargetMode=\"External\" Type=\"t\" Target=\"a.xml\">",
    );
    assert_eq!(rows.len(), 1);
    assert_eq!(rows[0].target, "a.xml");
    assert!(rows[0].external);
}

#[test]
fn external_relationship_cases() {
    assert!(is_external_relationship("http://x/hyperlink", "/word/a.xml"));
    assert!(!is_external_relationship("http://x/image", "/media/a.png"));
    assert!(is_external_relationship("http://x/image", "https://a/b"));
    assert!(is_external_relationship("http://x/image", "mailto:a@b"));
    assert!(!is_external_relationship("http://x/image", "media/a.png"));
    assert!(!is_external_relationship("http://x/image", "1http:x"));
    assert!(!is_external_relationship("http://x/image", ":x"));
    assert!(!is_external_relationship("http://x/image", "a_b:c"));
}

#[test]
fn rel_type_suffixes() {
    assert_eq!(required_rel_type_suffix("hyperlink"), Some("/hyperlink"));
    assert_eq!(required_rel_type_suffix("hlinkClick"), Some("/hyperlink"));
    assert_eq!(required_rel_type_suffix("chart"), Some("/chart"));
    assert_eq!(required_rel_type_suffix("headerReference"), Some("/header"));
    assert_eq!(required_rel_type_suffix("footerReference"), Some("/footer"));
    assert_eq!(required_rel_type_suffix("blip"), Some("/image"));
    assert_eq!(required_rel_type_suffix("imagedata"), Some("/image"));
    assert_eq!(required_rel_type_suffix("OLEObject"), Some("/oleObject"));
    assert_eq!(required_rel_type_suffix("p"), None);
}
