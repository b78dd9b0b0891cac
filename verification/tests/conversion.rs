//! Labels and the semantic tree.

use xml_semantic_tree::hashed::HashedNode;
use xml_semantic_tree::labels::{attribute_name_of, attribute_value_of, label_for, tag_name_of};
use xml_semantic_tree::plugin::XmlParser;
use xml_semantic_tree::process::{after_hash, after_parse, after_serialize, parsed_tree, Next};
use xml_semantic_tree::semantic::{
    convert, convert_attribute_node, convert_element, is_semantic, SemanticNode,
};

fn node(kind: &str, children: Vec<HashedNode>) -> HashedNode {
    HashedNode {
        node_type: kind.to_string(),
        text: None,
        start_line: 1,
        start_col: 2,
        end_line: 3,
        end_col: 4,
        hash: format!("hash of {}", kind),
        literal_label: None,
        children,
    }
}

fn leaf(kind: &str, text: &str) -> HashedNode {
    let mut n = node(kind, Vec::new());
    n.text = Some(text.to_string());
    n
}

fn attribute(name: &str, value: &str) -> HashedNode {
    node("Attribute", vec![leaf("Name", name), leaf("AttValue", value)])
}

fn element(name: &str, attributes: Vec<HashedNode>, content: Vec<HashedNode>) -> HashedNode {
    let mut tag = vec![leaf("Name", name)];
    tag.extend(attributes);
    node(
        "element",
        vec![
            node("STag", tag),
            node("content", content),
            node("ETag", vec![leaf("Name", name)]),
        ],
    )
}

fn summary(nodes: &[SemanticNode]) -> Vec<(String, String, String)> {
    nodes
        .iter()
        .map(|n| (n.id.clone(), n.node_type.clone(), n.label.clone()))
        .collect()
}

fn triple(id: &str, kind: &str, label: &str) -> (String, String, String) {
    (id.to_string(), kind.to_string(), label.to_string())
}

#[test]
fn labels_of_leaves() {
    assert_eq!(label_for(&leaf("CharData", " x ")), " x ");
    assert_eq!(label_for(&node("CharData", Vec::new())), "");
}

#[test]
fn labels_of_literals() {
    let mut n = attribute("a", "\"1\"");
    n.literal_label = Some("literal".to_string());
    assert_eq!(label_for(&n), "literal");
    let mut l = leaf("AttValue", "text");
    l.literal_label = Some("literal".to_string());
    assert_eq!(label_for(&l), "text");
}

#[test]
fn labels_of_attributes() {
    assert_eq!(label_for(&attribute("a", "\"1\"")), "a=1");
    assert_eq!(label_for(&attribute("a", "\"\"")), "a");
    assert_eq!(label_for(&attribute("a", "\"a\"")), "a");
    assert_eq!(label_for(&node("Attribute", vec![leaf("AttValue", "\"v\"")])), "=v");
    assert_eq!(label_for(&node("Attribute", vec![leaf("Eq", "=")])), "");
}

#[test]
fn labels_of_elements_and_others() {
    assert_eq!(label_for(&element("e", Vec::new(), Vec::new())), "e");
    assert_eq!(label_for(&node("element", vec![node("content", Vec::new())])), "element");
    assert_eq!(label_for(&node("prolog", vec![leaf("X", "y")])), "prolog");
}

#[test]
fn labels_of_declarations() {
    let declaration = node(
        "XMLDecl",
        vec![
            leaf("VersionNum", " 1.0\u{3000}"),
            leaf("Blank", " \t\n"),
            node("EncodingDecl", vec![leaf("EncName", "UTF-8")]),
        ],
    );
    assert_eq!(label_for(&declaration), "1.0 UTF-8");
    assert_eq!(label_for(&node("XMLDecl", vec![leaf("Blank", " ")])), "XMLDecl");
    let long = node("XMLDecl", vec![leaf("A", &"é".repeat(100)), leaf("B", &"b".repeat(100))]);
    let expected = format!("{} {}", "é".repeat(100), "b".repeat(19));
    assert_eq!(label_for(&long), expected);
}

#[test]
fn names_and_values() {
    let a = attribute("n", "\"\"v\"");
    assert_eq!(attribute_name_of(&a), Some("n".to_string()));
    assert_eq!(attribute_value_of(&a), Some("v".to_string()));
    assert_eq!(attribute_name_of(&node("Attribute", Vec::new())), None);
    assert_eq!(attribute_value_of(&node("Attribute", Vec::new())), None);
    let nameless = node(
        "element",
        vec![node("STag", Vec::new()), node("ETag", vec![leaf("Name", "e")])],
    );
    assert_eq!(tag_name_of(&nameless), Some("e".to_string()));
    assert_eq!(tag_name_of(&node("element", vec![leaf("Name", "x")])), None);
}

#[test]
fn semantic_kinds() {
    for kind in [
        "document", "element", "STag", "ETag", "EmptyElemTag", "Attribute", "Name", "AttValue",
        "CharData", "XMLDecl", "doctypedecl", "prolog",
    ] {
        assert!(is_semantic(kind), "{}", kind);
    }
    for kind in ["Comment", "PI", "content", "attribute", "CDSect", "EntityRef", "", "elements"] {
        assert!(!is_semantic(kind), "{}", kind);
    }
}

#[test]
fn trivia_have_no_semantic_node() {
    for kind in XmlParser::trivia_node_types() {
        assert!(convert(&leaf(&kind, "x"), "0").is_none());
    }
    assert!(convert(&leaf("content", "x"), "0").is_none());
}

#[test]
fn children_of_an_element() {
    let e = element(
        "e",
        vec![attribute("a", "\"1\""), attribute("b", "\"2\"")],
        vec![
            leaf("CharData", "text"),
            element("f", vec![attribute("c", "\"3\"")], Vec::new()),
            leaf("Comment", "no"),
            element("g", Vec::new(), Vec::new()),
        ],
    );
    let tree = convert(&e, "0.7").unwrap();
    assert_eq!(tree.id, "0.7");
    assert_eq!(tree.label, "e");
    assert_eq!(tree.hash, "hash of element");
    assert_eq!((tree.start_line, tree.start_col, tree.end_line, tree.end_col), (1, 2, 3, 4));
    assert_eq!(
        summary(&tree.children),
        vec![
            triple("0.7.0", "attribute", "a=1"),
            triple("0.7.1", "attribute", "b=2"),
            triple("0.7.2", "element", "f"),
            triple("0.7.3", "element", "g"),
        ]
    );
    assert_eq!(
        summary(&tree.children[2].children),
        vec![triple("0.7.2.0", "attribute", "c=3")]
    );
    assert_eq!(tree.children[0].hash, "hash of Attribute");
    assert!(tree.children[0].children.is_empty());
}

#[test]
fn other_children_of_an_element() {
    let e = node(
        "element",
        vec![leaf("PI", "p"), leaf("CharData", "t"), element("f", Vec::new(), Vec::new())],
    );
    let tree = convert_element(&e, "0").unwrap();
    assert_eq!(tree.label, "element");
    assert_eq!(
        summary(&tree.children),
        vec![triple("0.0", "CharData", "t"), triple("0.1", "element", "f")]
    );
}

#[test]
fn other_nodes_number_by_position() {
    let document = node(
        "document",
        vec![
            leaf("Comment", "c"),
            leaf("prolog", "p"),
            leaf("PI", "i"),
            element("r", Vec::new(), Vec::new()),
        ],
    );
    let tree = convert(&document, "0").unwrap();
    assert_eq!(tree.label, "document");
    assert_eq!(
        summary(&tree.children),
        vec![triple("0.1", "prolog", "p"), triple("0.3", "element", "r")]
    );
}

#[test]
fn numbers_of_several_digits() {
    let many: Vec<HashedNode> = (0u32..12).map(|i| leaf("Name", &i.to_string())).collect();
    let tree = convert(&node("document", many), "0").unwrap();
    assert_eq!(tree.children[9].id, "0.9");
    assert_eq!(tree.children[10].id, "0.10");
    assert_eq!(tree.children[11].id, "0.11");
}

#[test]
fn attributes_become_leaves() {
    let a = convert_attribute_node(&attribute("a", "\"1\""), "x").unwrap();
    assert_eq!(summary(&[a]), vec![triple("x", "attribute", "a=1")]);
}

fn response(next: Next) -> String {
    match next {
        Next::Respond(response) => response,
        other => panic!("{:?}", other),
    }
}

#[test]
fn a_failed_parse_is_reported() {
    assert_eq!(parsed_tree(Ok(None)).err(), Some("Parse failed".to_string()));
    assert_eq!(
        response(after_parse(Err("Parse failed".to_string()))),
        r#"{"error":"Parse failed"}"#
    );
}

#[test]
fn a_tree_without_meaning_is_reported() {
    assert_eq!(
        response(after_hash(&leaf("Comment", "c"))),
        r#"{"error":"Empty semantic tree"}"#
    );
}

#[test]
fn a_failed_serialisation_is_reported() {
    assert_eq!(
        response(after_serialize(Err("why".to_string()))),
        r#"{"error":"Serialisation error: why"}"#
    );
    assert_eq!(response(after_serialize(Ok("{}".to_string()))), "{}");
}

#[test]
fn the_root_has_the_id_zero() {
    match after_hash(&node("document", vec![leaf("prolog", "p")])) {
        Next::Serialize(tree) => {
            assert_eq!(tree.id, "0");
            assert_eq!(tree.children[0].id, "0.0");
        }
        other => panic!("{:?}", other),
    }
}
