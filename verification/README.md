# xml_semantic_tree

The parser of an XML diff plugin, verified with Verus. It turns an XML document into a
semantic tree in which forms that mean the same look the same: CDATA sections and escaped
text, namespace prefixes and default namespaces, attributes in whatever order.

- `src/` is the library. Every function has a contract over mathematical models of the trees
  (`Cst`, `Hashed`, `Semantic`), and `src/laws/` proves what holds of the library as a whole.
- `tests/` runs the library, with the real parser.
- `app/` puts the library behind the interface of the plugin host. It makes the calls into
  the plugin SDK: conversion of parsed nodes, structural hashes, literal labels, metadata.

What is taken on trust is marked in the source, each with a comment that says what is
claimed: parsing by tree-sitter (`src/process.rs`), `char::from_u32` (`src/entities.rs`),
`str::to_lowercase` (`src/plugin.rs`) and `String::push` (`src/text.rs`).
