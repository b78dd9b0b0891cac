//! Whole documents, from source text to response.

use serde_json::Value;
use xml_semantic_tree::hashed::HashedNode;
use xml_semantic_tree::normalize::normalize_cst;
use xml_semantic_tree::process::{after_hash, after_parse, after_serialize, parse_source, Next};
use xml_semantic_tree::semantic::SemanticNode;
use xml_semantic_tree::tree::CstNode;

/// The named nodes of a parsed tree, with the text of those that have no named children.
fn cst_of(node: tree_sitter::Node, source: &str) -> CstNode {
    let mut children: Vec<CstNode> = Vec::new();
    let count: u32 = node.named_child_count() as u32;
    for i in 0..count {
        if let Some(child) = node.named_child(i as usize) {
            children.push(cst_of(child, source));
        }
    }
    let text = if children.is_empty() {
        Some(source[node.start_byte()..node.end_byte()].to_string())
    } else {
        None
    };
    CstNode {
        node_type: node.kind().to_string(),
        named: node.is_named(),
        text,
        start_line: node.start_position().row as u32,
        start_col: node.start_position().column as u32,
        end_line: node.end_position().row as u32,
        end_col: node.end_position().column as u32,
        children,
    }
}

fn cst(source: &str) -> CstNode {
    let tree = parse_source(source).unwrap();
    cst_of(tree.root_node(), source)
}

/// Kind, text and children, whatever the place in the text.
fn structure(node: &CstNode) -> String {
    let children: Vec<String> = node.children.iter().map(structure).collect();
    format!("({} {:?} [{}])", node.node_type, node.text, children.join(","))
}

fn hash_of(source: &str) -> String {
    structure(&normalize_cst(&cst(source)))
}

fn hashed(node: &CstNode) -> HashedNode {
    HashedNode {
        node_type: node.node_type.clone(),
        text: node.text.clone(),
        start_line: node.start_line,
        start_col: node.start_col,
        end_line: node.end_line,
        end_col: node.end_col,
        hash: structure(node),
        literal_label: None,
        children: node.children.iter().map(hashed).collect(),
    }
}

fn json(node: &SemanticNode) -> Value {
    let mut map = serde_json::Map::new();
    map.insert("id".to_string(), Value::from(node.id.clone()));
    map.insert("node_type".to_string(), Value::from(node.node_type.clone()));
    map.insert("label".to_string(), Value::from(node.label.clone()));
    map.insert("hash".to_string(), Value::from(node.hash.clone()));
    map.insert(
        "children".to_string(),
        Value::Array(node.children.iter().map(json).collect()),
    );
    Value::Object(map)
}

fn process_impl(source: &str) -> String {
    let parsed = parse_source(source).map(|tree| cst_of(tree.root_node(), source));
    let mut next = after_parse(parsed);
    loop {
        next = match next {
            Next::Hash(root) => after_hash(&hashed(&root)),
            Next::Serialize(tree) => {
                after_serialize(serde_json::to_string(&json(&tree)).map_err(|e| e.to_string()))
            }
            Next::Respond(response) => return response,
        };
    }
}

fn find<'a>(node: &'a CstNode, kind: &str) -> Option<&'a CstNode> {
    if node.node_type == kind {
        return Some(node);
    }
    node.children.iter().find_map(|c| find(c, kind))
}

fn semantic_tree(source: &str) -> SemanticNode {
    let parsed = Ok(cst(source));
    match after_parse(parsed) {
        Next::Hash(root) => match after_hash(&hashed(&root)) {
            Next::Serialize(tree) => tree,
            other => panic!("{:?}", other),
        },
        other => panic!("{:?}", other),
    }
}

fn all_ids(node: &SemanticNode) -> Vec<String> {
    let mut ids = vec![node.id.clone()];
    for child in &node.children {
        ids.extend(all_ids(child));
    }
    ids
}

#[test]
fn process_impl_empty_returns_valid_json() {
    let out = process_impl("");
    let value: Result<Value, serde_json::Error> = serde_json::from_str(&out);
    assert!(value.is_ok(), "process(empty): {}", out);
}

#[test]
fn process_impl_whitespace_returns_valid_json() {
    let out = process_impl("   \n  ");
    let value: Result<Value, serde_json::Error> = serde_json::from_str(&out);
    assert!(value.is_ok(), "process(whitespace): {}", out);
}

#[test]
fn cdata_and_entity_escaped_text_produce_same_hash() {
    let cdata = hash_of("<msg><![CDATA[a & b < c]]></msg>");
    let entity = hash_of("<msg>a &amp; b &lt; c</msg>");
    assert_eq!(cdata, entity, "CDATA and entity-escaped text must match");
}

#[test]
fn namespace_prefix_and_default_produce_same_hash() {
    let prefixed = hash_of(r#"<a:item xmlns:a="http://x">v</a:item>"#);
    let default = hash_of(r#"<item xmlns="http://x">v</item>"#);
    assert_eq!(
        prefixed, default,
        "prefixed and default-namespace elements must match"
    );
}

#[test]
fn attribute_reorder_produces_same_hash() {
    let order_a = hash_of(r#"<elem a="1" b="2" c="3"/>"#);
    let order_b = hash_of(r#"<elem c="3" a="1" b="2"/>"#);
    assert_eq!(order_a, order_b, "attribute reordering must not change hash");
}

#[test]
fn different_attribute_values_produce_different_hash() {
    let v1 = hash_of(r#"<elem x="1"/>"#);
    let v2 = hash_of(r#"<elem x="2"/>"#);
    assert_ne!(v1, v2);
}

#[test]
fn undeclared_namespace_prefix_is_not_resolved() {
    let normalized = normalize_cst(&cst(r#"<a:item>v</a:item>"#));
    let name_text = find(&normalized, "STag")
        .and_then(|tag| tag.children.iter().find(|c| c.node_type == "Name"))
        .map(|n| n.text_or_empty().to_string())
        .unwrap_or_default();
    assert_eq!(name_text, "a:item", "undeclared prefixes must stay as-is");
}

#[test]
fn semantic_tree_has_element_children_after_fix() {
    let out = process_impl(r#"<root><child>text</child></root>"#);
    let tree: Value = serde_json::from_str(&out).unwrap();
    assert!(tree.get("children").is_some(), "root must have children");
}

#[test]
fn parsing_tells_documents_apart() {
    let a = parse_source("<a/>").unwrap();
    let b = parse_source("<a></a>").unwrap();
    assert_eq!(a.root_node().kind(), "document");
    assert_eq!(a.root_node().end_byte(), 4);
    assert_eq!(b.root_node().end_byte(), 7);
    assert!(find(&cst("<a/>"), "EmptyElemTag").is_some());
    assert!(find(&cst("<a></a>"), "EmptyElemTag").is_none());
}

#[test]
fn every_text_has_a_tree() {
    for source in ["", "<", "<é/>", "plain", "<a></b>", "水 &"] {
        let tree = parse_source(source).unwrap();
        assert!(tree.root_node().end_byte() <= source.len());
    }
}

#[test]
fn names_of_a_document_are_expanded() {
    let normalized = normalize_cst(&cst(r#"<a:item xmlns:a="http://x"><b/></a:item>"#));
    let tag = find(&normalized, "STag").unwrap();
    assert_eq!(find(tag, "Name").unwrap().text_or_empty(), "{http://x}item");
    assert!(find(tag, "Attribute").is_none());
    let inner = find(&normalized, "EmptyElemTag").unwrap();
    assert_eq!(find(inner, "Name").unwrap().text_or_empty(), "b");
}

#[test]
fn inner_declarations_replace_outer_ones() {
    let normalized =
        normalize_cst(&cst(r#"<r xmlns="http://x"><i xmlns="http://y"/><j/></r>"#));
    let content = find(&normalized, "content").unwrap();
    let names: Vec<&str> = content
        .children
        .iter()
        .map(|e| find(e, "Name").unwrap().text_or_empty())
        .collect();
    assert_eq!(names, vec!["{http://y}i", "{http://x}j"]);
}

#[test]
fn all_three_differences_at_once() {
    let a = hash_of(r#"<a:r xmlns:a="http://x" p="1" q="2"><a:s><![CDATA[<&>]]></a:s></a:r>"#);
    let b = hash_of(r#"<r q="2" xmlns="http://x" p="1"><s>&lt;&amp;&gt;</s></r>"#);
    assert_eq!(a, b);
    let c = hash_of(r#"<r q="2" xmlns="http://x" p="1"><s>&lt;&amp;</s></r>"#);
    assert_ne!(a, c);
}

#[test]
fn tree_of_a_small_document() {
    let tree = semantic_tree("<r b=\"2\" a=\"1\"><c>t</c><!-- note --><d/></r>");
    assert_eq!(tree.id, "0");
    assert_eq!(tree.node_type, "document");
    let root = &tree.children[0];
    assert_eq!(root.node_type, "element");
    assert_eq!(root.label, "r");
    let seen: Vec<(&str, &str)> = root
        .children
        .iter()
        .map(|c| (c.node_type.as_str(), c.label.as_str()))
        .collect();
    assert_eq!(
        seen,
        vec![
            ("attribute", "a=1"),
            ("attribute", "b=2"),
            ("element", "c"),
            ("element", "d"),
        ]
    );
    assert_eq!(root.children[2].id, format!("{}.2", root.id));
    assert!(root.children[2].children.is_empty());
}

#[test]
fn ids_of_a_document_are_unique() {
    let pair = xml_semantic_tree::plugin::XmlParser::example("xml".to_string());
    let ids = all_ids(&semantic_tree(&pair.new));
    let mut sorted = ids.clone();
    sorted.sort();
    sorted.dedup();
    assert_eq!(sorted.len(), ids.len());
    assert!(ids.len() > 10);
}

#[test]
fn declaration_shows_in_its_label() {
    let tree = semantic_tree("<?xml version=\"1.0\" encoding=\"UTF-8\"?><r/>");
    let mut labels: Vec<String> = Vec::new();
    let mut open: Vec<&SemanticNode> = vec![&tree];
    while let Some(node) = open.pop() {
        if node.node_type == "XMLDecl" {
            labels.push(node.label.clone());
        }
        open.extend(node.children.iter());
    }
    assert_eq!(labels.len(), 1);
    assert!(labels[0].contains("1.0"), "{}", labels[0]);
}
