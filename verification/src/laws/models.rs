//! The mathematical trees show all that the nodes hold.

use crate::hashed;
use crate::hashed::HashedNode;
use crate::labels;
use crate::semantic;
use crate::semantic::SemanticNode;
use crate::tree;
use crate::tree::CstNode;
use vstd::prelude::*;

verus! {

/// The tree of a node of the syntax tree has its kind, its text and its place, and the
/// trees of its children.
pub proof fn law_syntax_tree(n: CstNode)
    ensures
        n@.kind == n.node_type@,
        n@.named == n.named,
        n.text is Some <==> n@.text is Some,
        n.text is Some ==> n@.text->0 == n.text->0@,
        n@.start == (n.start_line, n.start_col),
        n@.end == (n.end_line, n.end_col),
        n@.children.len() == n.children@.len(),
        forall|i: int|
            0 <= i < n.children@.len() ==> (#[trigger] n@.children[i]) == n.children@[i]@,
{
}

/// The tree of a hashed node has its kind, its text, its place, its hash and its label as
/// a literal, and the trees of its children.
pub proof fn law_hashed_tree(n: HashedNode)
    ensures
        n@.kind == n.node_type@,
        n.text is Some <==> n@.text is Some,
        n.text is Some ==> n@.text->0 == n.text->0@,
        n.literal_label is Some <==> n@.literal_label is Some,
        n.literal_label is Some ==> n@.literal_label->0 == n.literal_label->0@,
        n@.start == (n.start_line, n.start_col),
        n@.end == (n.end_line, n.end_col),
        n@.hash == n.hash@,
        n@.children.len() == n.children@.len(),
        forall|i: int|
            0 <= i < n.children@.len() ==> (#[trigger] n@.children[i]) == n.children@[i]@,
{
}

/// The tree of a semantic node has its id, its kind, its label, its place and its hash, and
/// the trees of its children.
pub proof fn law_semantic_tree(n: SemanticNode)
    ensures
        n@.id == n.id@,
        n@.kind == n.node_type@,
        n@.label == n.label@,
        n@.start == (n.start_line, n.start_col),
        n@.end == (n.end_line, n.end_col),
        n@.hash == n.hash@,
        n@.children.len() == n.children@.len(),
        forall|i: int|
            0 <= i < n.children@.len() ==> (#[trigger] n@.children[i]) == n.children@[i]@,
{
}

/// The text of a node that has none is empty.
pub proof fn law_missing_text(c: tree::Cst, n: hashed::Hashed)
    ensures
        c.text_or_empty() == (if c.text is Some {
            c.text->0
        } else {
            Seq::empty()
        }),
        n.text_or_empty() == (if n.text is Some {
            n.text->0
        } else {
            Seq::empty()
        }),
{
}

/// The trees of a sequence of nodes are theirs, one by one, and so are the texts of a
/// sequence of strings.
pub proof fn law_sequences(s: Seq<CstNode>, t: Seq<SemanticNode>, u: Seq<String>)
    ensures
        labels::views(u).len() == u.len(),
        forall|i: int| 0 <= i < u.len() ==> (#[trigger] labels::views(u)[i]) == u[i]@,
        tree::models(s).len() == s.len(),
        forall|i: int| 0 <= i < s.len() ==> (#[trigger] tree::models(s)[i]) == s[i]@,
        semantic::models(t).len() == t.len(),
        forall|i: int| 0 <= i < t.len() ==> (#[trigger] semantic::models(t)[i]) == t[i]@,
{
}

} // verus!
