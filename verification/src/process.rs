//! The steps from a source text to the response that describes its semantic tree.
//!
//! Parsing gives a syntax tree; [`after_parse`] normalises it. Once its nodes are
//! hashed, [`after_hash`] converts it to the semantic tree. Once that is serialised,
//! [`after_serialize`] gives the response. Each step may end with an error response.

use crate::hashed::HashedNode;
use crate::normalize;
use crate::semantic;
use crate::semantic::SemanticNode;
use crate::tree::CstNode;
use vstd::prelude::*;
use vstd::string::*;
use vstd::utf8::*;

verus! {

/// `tree_sitter::Tree`: a parsed document.
#[verifier::external_type_specification]
#[verifier::external_body]
pub struct ExTree(tree_sitter::Tree);

/// `tree_sitter::LanguageError`: a grammar that does not fit the parser.
#[verifier::external_type_specification]
#[verifier::external_body]
pub struct ExLanguageError(tree_sitter::LanguageError);

/// The tree that `tree_sitter::Parser::parse` builds of a source text of ASCII characters
/// by the grammar `tree_sitter_xml::LANGUAGE_XML`: the kinds, the ranges and the structure
/// of its nodes. Their ids are addresses, which differ from parse to parse.
pub uninterp spec fn xml_tree(source: Seq<char>) -> tree_sitter::Tree;

/// `tree_sitter::Parser::parse`, on a new parser that `set_language` gave the grammar
/// `tree_sitter_xml::LANGUAGE_XML`, and without an earlier tree. `set_language` fails
/// only for a grammar of another version than the parser supports: it supports 13 to
/// 15, and this grammar is of version 14. `parse` gives no tree only where no grammar
/// was set, or where a timeout or a cancellation was set and came about. Of a text of
/// ASCII characters the tree depends on the text alone. Of any other text nothing is said
/// but that there is a tree: the scanner of the grammar asks `iswalpha` and `iswalnum` of
/// the C library what may stand in a name, and beyond ASCII they answer by the library
/// and its locale. Places in the text are counted in bytes with 32 bits, so longer texts
/// are left out.
#[verifier::external_body]
fn parse_xml(source: &str) -> (r: Result<Option<tree_sitter::Tree>, tree_sitter::LanguageError>)
    requires
        source.spec_bytes().len() <= u32::MAX,
    ensures
        r is Ok && r->Ok_0 is Some,
        is_ascii_chars(source@) ==> r->Ok_0 == Some(xml_tree(source@)),
{
    let mut parser = tree_sitter::Parser::new();
    parser.set_language(&tree_sitter_xml::LANGUAGE_XML.into())?;
    Ok(parser.parse(source, None))
}

/// The tree of a parse, or why there is none.
pub fn parsed_tree(
    parsed: Result<Option<tree_sitter::Tree>, tree_sitter::LanguageError>,
) -> (r: Result<tree_sitter::Tree, String>)
    ensures
        match parsed {
            Err(_) => r is Err && r->Err_0@ == "Failed to load XML grammar"@,
            Ok(None) => r is Err && r->Err_0@ == "Parse failed"@,
            Ok(Some(tree)) => r == Ok::<tree_sitter::Tree, String>(tree),
        },
{
    match parsed {
        Err(_) => Err("Failed to load XML grammar".to_owned()),
        Ok(None) => Err("Parse failed".to_owned()),
        Ok(Some(tree)) => Ok(tree),
    }
}

/// Parses an XML document of at most `u32::MAX` bytes, which is what the parser can count.
/// There is a tree of every document. Which one it is goes by the text, and beyond ASCII
/// also by what the C library takes for a letter.
pub fn parse_source(source: &str) -> (r: Result<tree_sitter::Tree, String>)
    requires
        source.spec_bytes().len() <= u32::MAX,
    ensures
        r is Ok,
        is_ascii_chars(source@) ==> r == Ok::<tree_sitter::Tree, String>(xml_tree(source@)),
{
    parsed_tree(parse_xml(source))
}

/// What is to be done next for a document.
#[derive(Debug)]
pub enum Next {
    /// Hash the nodes of the normalised tree.
    Hash(CstNode),
    /// Serialise the semantic tree.
    Serialize(SemanticNode),
    /// Answer with this response.
    Respond(String),
}

/// The response that reports an error.
pub open spec fn error_json(message: Seq<char>) -> Seq<char> {
    "{\"error\":\""@ + message + "\"}"@
}

/// The response that reports an error.
fn error_response(message: &str) -> (r: String)
    ensures
        r@ == error_json(message@),
{
    let mut r = "{\"error\":\"".to_owned();
    r.append(message);
    r.append("\"}");
    r
}

/// A parsed document is normalised; a failed parse is reported.
pub fn after_parse(parsed: Result<CstNode, String>) -> (next: Next)
    ensures
        match parsed {
            Ok(root) => next is Hash && next->Hash_0@ == normalize::normalized(
                root@,
                Map::empty(),
            ),
            Err(e) => next is Respond && next->Respond_0@ == error_json(e@),
        },
{
    match parsed {
        Ok(root) => Next::Hash(normalize::normalize_cst(&root)),
        Err(e) => Next::Respond(error_response(e.as_str())),
    }
}

/// A document with hashes is converted to its semantic tree, whose root has the id `0`.
/// A root without a place in the semantic tree is reported.
pub fn after_hash(root: &HashedNode) -> (next: Next)
    ensures
        match semantic::semantic(root@, "0"@) {
            Some(tree) => next is Serialize && next->Serialize_0@ == tree,
            None => next is Respond && next->Respond_0@ == error_json("Empty semantic tree"@),
        },
{
    match semantic::convert(root, "0") {
        Some(tree) => Next::Serialize(tree),
        None => Next::Respond(error_response("Empty semantic tree")),
    }
}

/// A serialised tree is the response; that it could not be serialised is reported.
pub fn after_serialize(serialized: Result<String, String>) -> (next: Next)
    ensures
        match serialized {
            Ok(json) => next == Next::Respond(json),
            Err(e) => next is Respond && next->Respond_0@ == error_json(
                "Serialisation error: "@ + e@,
            ),
        },
{
    match serialized {
        Ok(json) => Next::Respond(json),
        Err(e) => {
            let mut message = "Serialisation error: ".to_owned();
            message.append(e.as_str());
            Next::Respond(error_response(message.as_str()))
        },
    }
}

} // verus!
