//! The steps of normalisation.

use xml_semantic_tree::attributes::sort_tag_attributes;
use xml_semantic_tree::content::{cdata_text, entity_ref_text, normalize_content_children};
use xml_semantic_tree::namespaces::{extract_namespace_decls, resolve_qname, Namespaces};
use xml_semantic_tree::normalize::{normalize_cst, normalize_cst_with_ns};
use xml_semantic_tree::tree::CstNode;

fn node(kind: &str, text: Option<&str>, line: u32, children: Vec<CstNode>) -> CstNode {
    CstNode {
        node_type: kind.to_string(),
        named: true,
        text: text.map(|t| t.to_string()),
        start_line: line,
        start_col: 1,
        end_line: line,
        end_col: 9,
        children,
    }
}

fn leaf(kind: &str, text: &str) -> CstNode {
    node(kind, Some(text), 0, Vec::new())
}

fn attribute(name: &str, value: &str) -> CstNode {
    node(
        "Attribute",
        None,
        0,
        vec![leaf("Name", name), leaf("AttValue", &format!("\"{}\"", value))],
    )
}

fn namespaces(pairs: &[(&str, &str)]) -> Namespaces {
    let mut ns = Namespaces::new();
    for (prefix, uri) in pairs {
        ns.insert(prefix.to_string(), uri.to_string());
    }
    ns
}

fn texts(nodes: &[CstNode]) -> Vec<(String, String)> {
    nodes
        .iter()
        .map(|n| (n.node_type.clone(), n.text_or_empty().to_string()))
        .collect()
}

fn names(tag: &CstNode) -> Vec<String> {
    tag.children
        .iter()
        .filter(|c| c.node_type == "Attribute")
        .map(|c| c.children[0].text_or_empty().to_string())
        .collect()
}

#[test]
fn text_of_a_cdata_section() {
    let section = node(
        "CDSect",
        None,
        0,
        vec![leaf("CDStart", "<![CDATA["), leaf("CData", "a &amp; b")],
    );
    assert_eq!(cdata_text(&section), Some("a &amp; b".to_string()));
    assert_eq!(cdata_text(&leaf("CDSect", "x")), None);
}

#[test]
fn text_of_an_entity_reference() {
    let reference = node("EntityRef", None, 0, vec![leaf("Name", "lt")]);
    assert_eq!(entity_ref_text(&reference), Some("<".to_string()));
    let unknown = node("EntityRef", None, 0, vec![leaf("Name", "nbsp")]);
    assert_eq!(entity_ref_text(&unknown), Some("&nbsp;".to_string()));
    assert_eq!(entity_ref_text(&leaf("EntityRef", "&lt;")), None);
}

#[test]
fn runs_of_text_are_merged() {
    let merged = normalize_content_children(&[
        node("CharData", Some("a "), 1, Vec::new()),
        node("EntityRef", None, 2, vec![leaf("Name", "amp")]),
        node("CDSect", None, 3, vec![leaf("CData", " <b>")]),
        node("element", None, 4, Vec::new()),
        node("CharData", Some("c &gt; d"), 5, Vec::new()),
    ]);
    assert_eq!(
        texts(&merged),
        vec![
            ("CharData".to_string(), "a & <b>".to_string()),
            ("element".to_string(), "".to_string()),
            ("CharData".to_string(), "c > d".to_string()),
        ]
    );
    assert_eq!((merged[0].start_line, merged[0].end_line), (1, 3));
    assert!(merged[0].named && merged[0].children.is_empty());
}

#[test]
fn text_starts_at_its_first_node_with_text() {
    let merged = normalize_content_children(&[
        node("CharData", Some(""), 1, Vec::new()),
        node("CharData", Some("x"), 2, Vec::new()),
        node("CharData", Some(""), 3, Vec::new()),
    ]);
    assert_eq!(merged.len(), 1);
    assert_eq!((merged[0].start_line, merged[0].end_line), (2, 3));
    assert_eq!((merged[0].start_col, merged[0].end_col), (1, 9));
}

#[test]
fn runs_without_text_vanish() {
    let merged = normalize_content_children(&[
        node("CDSect", None, 1, Vec::new()),
        node("EntityRef", None, 2, Vec::new()),
    ]);
    assert!(merged.is_empty());
    assert!(normalize_content_children(&[]).is_empty());
}

#[test]
fn declarations_of_a_tag() {
    let ns = extract_namespace_decls(&[
        leaf("Name", "item"),
        attribute("xmlns", "http://x"),
        attribute("xmlns:a", "http://a"),
        attribute("id", "7"),
        attribute("xmlns:a", "http://b"),
    ]);
    assert_eq!(ns.get(""), Some("http://x"));
    assert_eq!(ns.get("a"), Some("http://b"));
    assert_eq!(ns.get("id"), None);
    assert_eq!(ns.get("xmlns"), None);
}

#[test]
fn quotation_marks_around_a_uri_are_dropped() {
    let single = node(
        "Attribute",
        None,
        0,
        vec![leaf("Name", "xmlns:s"), leaf("AttValue", "'http://s'")],
    );
    let ns = extract_namespace_decls(&[single, attribute("xmlns:d", "\"u\"")]);
    assert_eq!(ns.get("s"), Some("'http://s'"));
    assert_eq!(ns.get("d"), Some("u"));
}

#[test]
fn later_bindings_replace_earlier_ones() {
    let mut ns = namespaces(&[("a", "1"), ("b", "2")]);
    ns.extend(&namespaces(&[("b", "3"), ("c", "4")]));
    let copy = ns.clone();
    ns.insert("a".to_string(), "5".to_string());
    assert_eq!(ns.get("a"), Some("5"));
    assert_eq!(copy.get("a"), Some("1"));
    assert_eq!(copy.get("b"), Some("3"));
    assert_eq!(copy.get("c"), Some("4"));
}

#[test]
fn names_are_expanded() {
    let ns = namespaces(&[("a", "http://x"), ("", "http://y"), ("e", "")]);
    assert_eq!(resolve_qname("a:item", &ns), Some("{http://x}item".to_string()));
    assert_eq!(resolve_qname("item", &ns), Some("{http://y}item".to_string()));
    assert_eq!(resolve_qname("a:b:c", &ns), Some("{http://x}b:c".to_string()));
    assert_eq!(resolve_qname("e:item", &ns), Some("{}item".to_string()));
    assert_eq!(resolve_qname("q:item", &ns), None);
    assert_eq!(resolve_qname(":item", &ns), Some("{http://y}item".to_string()));
}

#[test]
fn names_without_a_default_namespace_stay() {
    assert_eq!(resolve_qname("item", &Namespaces::new()), None);
    assert_eq!(resolve_qname("item", &namespaces(&[("", "")])), None);
}

#[test]
fn prefixed_and_default_names_agree() {
    let m = namespaces(&[("p", "urn:u")]);
    let n = namespaces(&[("", "urn:u")]);
    assert_eq!(resolve_qname("p:x", &m), Some("{urn:u}x".to_string()));
    assert_eq!(resolve_qname("p:x", &m), resolve_qname("x", &n));
}

#[test]
fn attributes_are_sorted_by_name() {
    let mut tag = node(
        "STag",
        None,
        0,
        vec![
            leaf("Name", "t"),
            attribute("b", "1"),
            attribute("xmlns:x", "u"),
            attribute("a", "2"),
            attribute("xmlns", "u"),
            attribute("B", "3"),
            attribute("é", "4"),
            attribute("ab", "5"),
        ],
    );
    sort_tag_attributes(&mut tag);
    assert_eq!(tag.children[0].node_type, "Name");
    assert_eq!(names(&tag), vec!["B", "a", "ab", "b", "é"]);
}

#[test]
fn attributes_of_one_name_keep_their_order() {
    let mut tag = node(
        "STag",
        None,
        0,
        vec![attribute("a", "1"), attribute("a", "2"), attribute("a", "0")],
    );
    sort_tag_attributes(&mut tag);
    let values: Vec<String> = tag
        .children
        .iter()
        .map(|c| c.children[1].text_or_empty().to_string())
        .collect();
    assert_eq!(values, vec!["\"1\"", "\"2\"", "\"0\""]);
}

#[test]
fn sorting_again_changes_nothing() {
    let mut tag = node(
        "STag",
        None,
        0,
        vec![attribute("b", "1"), leaf("Name", "t"), attribute("a", "2")],
    );
    sort_tag_attributes(&mut tag);
    let once = format!("{:?}", tag);
    sort_tag_attributes(&mut tag);
    assert_eq!(format!("{:?}", tag), once);
}

#[test]
fn names_starting_like_a_declaration_are_kept() {
    let mut tag = node("STag", None, 0, vec![attribute("xmlnsfoo", "1"), attribute("x", "2")]);
    sort_tag_attributes(&mut tag);
    assert_eq!(names(&tag), vec!["x", "xmlnsfoo"]);
}

#[test]
fn only_tags_are_expanded() {
    let ns = namespaces(&[("", "u")]);
    for (kind, expected) in [
        ("STag", "{u}n"),
        ("ETag", "{u}n"),
        ("EmptyElemTag", "{u}n"),
        ("Attribute", "n"),
    ] {
        let result = normalize_cst_with_ns(&node(kind, None, 0, vec![leaf("Name", "n")]), &ns);
        assert_eq!(result.children[0].text_or_empty(), expected, "{}", kind);
    }
}

#[test]
fn declarations_reach_the_whole_element() {
    let element = node(
        "element",
        None,
        0,
        vec![
            node("STag", None, 0, vec![leaf("Name", "p:e"), attribute("xmlns:p", "u")]),
            node("content", None, 0, vec![leaf("CharData", "x")]),
            node("ETag", None, 0, vec![leaf("Name", "p:e")]),
        ],
    );
    let result = normalize_cst(&element);
    assert_eq!(result.children[0].children.len(), 1);
    assert_eq!(result.children[0].children[0].text_or_empty(), "{u}e");
    assert_eq!(result.children[2].children[0].text_or_empty(), "{u}e");
}

#[test]
fn places_are_kept() {
    let inner = node("PI", Some("p"), 4, Vec::new());
    let result = normalize_cst(&node("document", Some("t"), 3, vec![inner]));
    assert_eq!(result.start_line, 3);
    assert_eq!(result.text, Some("t".to_string()));
    assert_eq!(result.children[0].start_line, 4);
    assert_eq!(result.children[0].node_type, "PI");
}

#[test]
fn reordered_attributes_give_one_normal_form() {
    let tree = |attributes: Vec<CstNode>| {
        let mut tag = vec![leaf("Name", "p:t")];
        tag.extend(attributes);
        let inner = node("element", None, 2, vec![node("EmptyElemTag", None, 2, tag)]);
        node(
            "element",
            None,
            1,
            vec![
                node("STag", None, 1, vec![leaf("Name", "r")]),
                node("content", None, 1, vec![leaf("CharData", "x"), inner]),
            ],
        )
    };
    let placed = |name: &str, line: u32| {
        let mut a = attribute(name, "v");
        a.start_line = line;
        a
    };
    let a = tree(vec![placed("b", 7), placed("xmlns:p", 8), placed("a", 9), placed("xmlns", 10)]);
    let b = tree(vec![placed("xmlns", 10), placed("a", 9), placed("b", 7), placed("xmlns:p", 8)]);
    let normal = normalize_cst(&a);
    assert_eq!(format!("{:?}", normal), format!("{:?}", normalize_cst(&b)));
    let tag = &normal.children[1].children[1].children[0];
    assert_eq!(tag.children[0].text_or_empty(), "{v}t");
    assert_eq!(names(tag), vec!["a", "b"]);
    assert_eq!(tag.children[1].start_line, 9);
}

#[test]
fn normalising_twice_is_normalising_once() {
    let content = |text: &str| {
        node(
            "element",
            None,
            0,
            vec![
                node(
                    "STag",
                    None,
                    0,
                    vec![attribute("b", "1"), leaf("Name", "t"), attribute("xmlns", "http://x")],
                ),
                node("content", None, 0, vec![leaf("CharData", text), leaf("CharData", " y")]),
                node("ETag", None, 0, vec![leaf("Name", "t")]),
            ],
        )
    };
    let once = normalize_cst(&content("a &lt; b"));
    assert_eq!(once.children[2].children[0].text_or_empty(), "{http://x}t");
    assert_eq!(format!("{:?}", normalize_cst(&once)), format!("{:?}", once));
    // An ampersand that is left may start a reference.
    let once = normalize_cst(&content("&amp;lt;"));
    assert_eq!(once.children[1].children[0].text_or_empty(), "&lt; y");
    let twice = normalize_cst(&once);
    assert_eq!(twice.children[1].children[0].text_or_empty(), "< y");
}
