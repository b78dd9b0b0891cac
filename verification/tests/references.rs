//! Entity and character references.

use xml_semantic_tree::entities::{decode_xml_entities, utf8_char_len};

#[test]
fn decode_entities_roundtrip() {
    assert_eq!(decode_xml_entities("a &amp; b &lt; c"), "a & b < c");
    assert_eq!(decode_xml_entities("&quot;hi&quot;"), "\"hi\"");
    assert_eq!(decode_xml_entities("&#65;"), "A");
    assert_eq!(decode_xml_entities("&#x42;"), "B");
}

#[test]
fn predefined_entities() {
    assert_eq!(decode_xml_entities("&amp;&lt;&gt;&quot;&apos;"), "&<>\"'");
}

#[test]
fn decoding_happens_once() {
    assert_eq!(decode_xml_entities("&amp;lt;"), "&lt;");
}

#[test]
fn text_without_references_is_kept() {
    assert_eq!(decode_xml_entities(""), "");
    assert_eq!(decode_xml_entities("a; b"), "a; b");
    assert_eq!(decode_xml_entities("é 水 😀"), "é 水 😀");
}

#[test]
fn what_is_no_reference_is_kept() {
    assert_eq!(decode_xml_entities("&"), "&");
    assert_eq!(decode_xml_entities("a & b"), "a & b");
    assert_eq!(decode_xml_entities("&nbsp;"), "&nbsp;");
    assert_eq!(decode_xml_entities("&;"), "&;");
    assert_eq!(decode_xml_entities("&AMP;"), "&AMP;");
    assert_eq!(decode_xml_entities("& &lt;"), "& <");
}

#[test]
fn numeric_references() {
    assert_eq!(decode_xml_entities("&#x1F600;"), "😀");
    assert_eq!(decode_xml_entities("&#x1f600;"), "😀");
    assert_eq!(decode_xml_entities("&#x1F60a;"), "😊");
    assert_eq!(decode_xml_entities("&#128512;"), "😀");
    assert_eq!(decode_xml_entities("&#0065;"), "A");
    assert_eq!(decode_xml_entities("&#+65;"), "A");
}

#[test]
fn numbers_that_are_no_character() {
    assert_eq!(decode_xml_entities("&#xD800;"), "&#xD800;");
    assert_eq!(decode_xml_entities("&#xDFFF;"), "&#xDFFF;");
    assert_eq!(decode_xml_entities("&#x110000;"), "&#x110000;");
    assert_eq!(decode_xml_entities("&#x10FFFF;"), "\u{10FFFF}");
    assert_eq!(decode_xml_entities("&#4294967361;"), "&#4294967361;");
    assert_eq!(decode_xml_entities("&#;"), "&#;");
    assert_eq!(decode_xml_entities("&#x;"), "&#x;");
    assert_eq!(decode_xml_entities("&#+;"), "&#+;");
    assert_eq!(decode_xml_entities("&#-1;"), "&#-1;");
    assert_eq!(decode_xml_entities("&#X41;"), "&#X41;");
    assert_eq!(decode_xml_entities("&#6A;"), "&#6A;");
}

#[test]
fn escaped_text_decodes_back() {
    let text = "if a < b && c > \"d\" 'e' é";
    let escaped = text
        .replace('&', "&amp;")
        .replace('<', "&lt;")
        .replace('>', "&gt;")
        .replace('"', "&quot;")
        .replace('\'', "&apos;");
    assert_ne!(escaped, text);
    assert_eq!(decode_xml_entities(&escaped), text);
}

#[test]
fn lengths_of_characters() {
    for text in ["a", "é", "水", "😀"] {
        assert_eq!(utf8_char_len(text.as_bytes()[0]), text.len());
    }
    assert_eq!(utf8_char_len(0x80), 1);
    assert_eq!(utf8_char_len(0xFF), 1);
}
