[package]
name = "xml_semantic_tree"
version = "0.1.0"
edition = "2021"
publish = false

[dependencies]
serde_json = "1"
tree-sitter = "0.25"
tree-sitter-xml = "0.7"
wit-bindgen = "0.51"
