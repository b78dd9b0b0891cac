//! The semantic tree of a document, and the conversion to it.
//!
//! Attributes and child elements become direct children of their element; the tags and
//! the content around them do not appear.

use crate::hashed;
use crate::hashed::HashedNode;
use crate::labels;
use crate::text;
use vstd::prelude::*;
use vstd::string::*;

verus! {

/// A node of the semantic tree.
#[derive(Debug)]
pub struct SemanticNode {
    pub id: String,
    pub node_type: String,
    pub label: String,
    pub start_line: u32,
    pub start_col: u32,
    pub end_line: u32,
    pub end_col: u32,
    pub hash: String,
    pub children: Vec<SemanticNode>,
}

/// What a [`SemanticNode`] is.
pub struct Semantic {
    pub id: Seq<char>,
    pub kind: Seq<char>,
    pub label: Seq<char>,
    pub start: (u32, u32),
    pub end: (u32, u32),
    pub hash: Seq<char>,
    pub children: Seq<Semantic>,
}

impl SemanticNode {
    /// The mathematical tree that this node stands for.
    pub open spec fn model(self) -> Semantic
        decreases self,
    {
        Semantic {
            id: self.id@,
            kind: self.node_type@,
            label: self.label@,
            start: (self.start_line, self.start_col),
            end: (self.end_line, self.end_col),
            hash: self.hash@,
            children: Seq::new(
                self.children@.len(),
                |i: int|
                    if 0 <= i < self.children@.len() {
                        self.children@[i].model()
                    } else {
                        arbitrary()
                    },
            ),
        }
    }
}

impl View for SemanticNode {
    type V = Semantic;

    open spec fn view(&self) -> Semantic {
        self.model()
    }
}

/// The trees that a sequence of nodes stands for.
pub open spec fn models(nodes: Seq<SemanticNode>) -> Seq<Semantic> {
    nodes.map_values(|n: SemanticNode| n@)
}

/// Whether nodes of this kind carry no meaning: comments and processing instructions.
pub open spec fn is_trivia(kind: Seq<char>) -> bool {
    kind == "Comment"@ || kind == "PI"@
}

/// Whether nodes of this kind have a place in the semantic tree.
pub open spec fn is_semantic_kind(kind: Seq<char>) -> bool {
    ||| kind == "document"@
    ||| kind == "element"@
    ||| kind == "STag"@
    ||| kind == "ETag"@
    ||| kind == "EmptyElemTag"@
    ||| kind == "Attribute"@
    ||| kind == "Name"@
    ||| kind == "AttValue"@
    ||| kind == "CharData"@
    ||| kind == "XMLDecl"@
    ||| kind == "doctypedecl"@
    ||| kind == "prolog"@
}

/// The id of the child number `i` of the node with this id.
pub open spec fn child_id(id: Seq<char>, i: nat) -> Seq<char> {
    id + seq!['.'] + text::decimal(i)
}

/// The semantic node of an attribute.
pub open spec fn attribute_node(n: hashed::Hashed, id: Seq<char>) -> Semantic {
    Semantic {
        id,
        kind: "attribute"@,
        label: labels::label(n),
        start: n.start,
        end: n.end,
        hash: n.hash,
        children: Seq::empty(),
    }
}

/// The semantic nodes of the attributes of a tag from its child `j` on, with ids
/// numbered from `count` on.
pub open spec fn tag_attributes(
    tag: hashed::Hashed,
    j: nat,
    id: Seq<char>,
    count: nat,
) -> Seq<Semantic>
    decreases tag.children.len() - j,
{
    if j < tag.children.len() {
        let c = tag.children[j as int];
        if c.kind == "Attribute"@ {
            seq![attribute_node(c, child_id(id, count))] + tag_attributes(
                tag,
                j + 1,
                id,
                count + 1,
            )
        } else {
            tag_attributes(tag, j + 1, id, count)
        }
    } else {
        Seq::empty()
    }
}

/// The node as the only one, or none.
pub open spec fn as_seq(n: Option<Semantic>) -> Seq<Semantic> {
    match n {
        Some(x) => seq![x],
        None => Seq::empty(),
    }
}

/// The semantic nodes of the elements in content from its child `j` on, with ids
/// numbered from `count` on. Text is no node of its own: it shows in the hash of the
/// element.
pub open spec fn content_elements(
    content: hashed::Hashed,
    j: nat,
    id: Seq<char>,
    count: nat,
) -> Seq<Semantic>
    decreases content, content.children.len() - j,
{
    if j < content.children.len() {
        let c = content.children[j as int];
        if c.kind == "element"@ {
            let here = as_seq(semantic(c, child_id(id, count)));
            here + content_elements(content, j + 1, id, count + here.len())
        } else {
            content_elements(content, j + 1, id, count)
        }
    } else {
        Seq::empty()
    }
}

/// What one child of an element contributes to the children of the semantic node, with
/// ids numbered from `count` on: an opening tag its attributes, an end tag nothing,
/// content its elements, anything else itself.
pub open spec fn contribution(c: hashed::Hashed, id: Seq<char>, count: nat) -> Seq<Semantic>
    decreases c, c.children.len() + 3,
{
    if c.kind == "STag"@ || c.kind == "EmptyElemTag"@ {
        tag_attributes(c, 0, id, count)
    } else if c.kind == "ETag"@ {
        Seq::empty()
    } else if c.kind == "content"@ {
        content_elements(c, 0, id, count)
    } else {
        as_seq(semantic(c, child_id(id, count)))
    }
}

/// The children of the semantic node of an element: what its children from the one at
/// `i` on contribute, with ids numbered one after the other from `count` on.
pub open spec fn element_children(
    n: hashed::Hashed,
    i: nat,
    id: Seq<char>,
    count: nat,
) -> Seq<Semantic>
    decreases n, n.children.len() - i,
{
    if i < n.children.len() {
        let here = contribution(n.children[i as int], id, count);
        here + element_children(n, i + 1, id, count + here.len())
    } else {
        Seq::empty()
    }
}

/// The children of the semantic node of anything but an element: those of its children
/// from the one at `i` on that have a semantic node, each with its own index in its id.
pub open spec fn plain_children(n: hashed::Hashed, i: nat, id: Seq<char>) -> Seq<Semantic>
    decreases n, n.children.len() - i,
{
    if i < n.children.len() {
        as_seq(semantic(n.children[i as int], child_id(id, i))) + plain_children(n, i + 1, id)
    } else {
        Seq::empty()
    }
}

/// The label of an element: its name, or its kind where it has none.
pub open spec fn element_label(n: hashed::Hashed) -> Seq<char> {
    match labels::tag_name(n.children) {
        Some(name) => name,
        None => "element"@,
    }
}

/// The semantic node of an element.
pub open spec fn element_node(n: hashed::Hashed, id: Seq<char>) -> Semantic
    decreases n, n.children.len() + 1,
{
    Semantic {
        id,
        kind: "element"@,
        label: element_label(n),
        start: n.start,
        end: n.end,
        hash: n.hash,
        children: element_children(n, 0, id, 0),
    }
}

/// The semantic node of a node. Trivia and kinds without a place in the semantic tree
/// have none.
pub open spec fn semantic(n: hashed::Hashed, id: Seq<char>) -> Option<Semantic>
    decreases n, n.children.len() + 2,
{
    if is_trivia(n.kind) {
        None
    } else if n.kind == "element"@ {
        Some(element_node(n, id))
    } else if !is_semantic_kind(n.kind) {
        None
    } else {
        Some(
            Semantic {
                id,
                kind: n.kind,
                label: labels::label(n),
                start: n.start,
                end: n.end,
                hash: n.hash,
                children: plain_children(n, 0, id),
            },
        )
    }
}

/// Whether nodes of this kind have a place in the semantic tree.
pub fn is_semantic(node_type: &str) -> (r: bool)
    ensures
        r == is_semantic_kind(node_type@),
{
    text::same_text(node_type, "document") || text::same_text(node_type, "element")
        || text::same_text(node_type, "STag") || text::same_text(node_type, "ETag")
        || text::same_text(node_type, "EmptyElemTag") || text::same_text(node_type, "Attribute")
        || text::same_text(node_type, "Name") || text::same_text(node_type, "AttValue")
        || text::same_text(node_type, "CharData") || text::same_text(node_type, "XMLDecl")
        || text::same_text(node_type, "doctypedecl") || text::same_text(node_type, "prolog")
}

/// The id of the child number `i` of the node with this id.
fn make_child_id(id_prefix: &str, i: usize) -> (r: String)
    ensures
        r@ == child_id(id_prefix@, i as nat),
{
    let mut r = id_prefix.to_owned();
    r.push('.');
    text::push_decimal(&mut r, i);
    assert(r@ =~= child_id(id_prefix@, i as nat));
    r
}

/// A semantic node with the given children, which takes place and hash of `node`.
fn build(
    node: &HashedNode,
    id: &str,
    node_type: &str,
    label: String,
    children: Vec<SemanticNode>,
) -> (r: SemanticNode)
    ensures
        r@ == (Semantic {
            id: id@,
            kind: node_type@,
            label: label@,
            start: node@.start,
            end: node@.end,
            hash: node@.hash,
            children: models(children@),
        }),
{
    let r = SemanticNode {
        id: id.to_owned(),
        node_type: node_type.to_owned(),
        label,
        start_line: node.start_line,
        start_col: node.start_col,
        end_line: node.end_line,
        end_col: node.end_col,
        hash: node.hash.clone(),
        children,
    };
    assert(r@.children =~= models(children@));
    r
}

/// Adds a node to a sequence of nodes.
fn add_node(nodes: &mut Vec<SemanticNode>, node: SemanticNode)
    ensures
        models(final(nodes)@) == models(old(nodes)@) + seq![node@],
        final(nodes)@.len() == old(nodes)@.len() + 1,
{
    let ghost before = nodes@;
    nodes.push(node);
    assert(models(nodes@) =~= models(before) + seq![node@]);
}

/// Converts an attribute to its semantic node, labelled with its name and value.
pub fn convert_attribute_node(node: &HashedNode, id_prefix: &str) -> (r: Option<SemanticNode>)
    ensures
        r is Some,
        r->0@ == attribute_node(node@, id_prefix@),
{
    let children: Vec<SemanticNode> = Vec::new();
    assert(models(children@) =~= Seq::<Semantic>::empty());
    Some(build(node, id_prefix, "attribute", labels::label_for(node), children))
}

/// Adds the semantic nodes of the attributes of a tag.
fn promote_attributes(tag: &HashedNode, id_prefix: &str, out: &mut Vec<SemanticNode>)
    ensures
        models(final(out)@) == models(old(out)@) + tag_attributes(
            tag@,
            0,
            id_prefix@,
            old(out)@.len(),
        ),
{
    let ghost before = models(out@);
    let ghost start = out@.len();
    let mut j: usize = 0;
    while j < tag.children.len()
        invariant
            j <= tag.children@.len(),
            models(out@) + tag_attributes(tag@, j as nat, id_prefix@, out@.len()) == before
                + tag_attributes(tag@, 0, id_prefix@, start),
        decreases tag.children@.len() - j,
    {
        let child = &tag.children[j];
        let ghost so_far = models(out@);
        let ghost count = out@.len();
        assert(tag@.children[j as int] == child@);
        if child.is_kind("Attribute") {
            if let Some(node) = convert_attribute_node(
                child,
                make_child_id(id_prefix, out.len()).as_str(),
            ) {
                add_node(out, node);
            }
        }
        assert(models(out@) + tag_attributes(tag@, (j + 1) as nat, id_prefix@, out@.len())
            =~= so_far + tag_attributes(tag@, j as nat, id_prefix@, count));
        j = j + 1;
    }
    assert(models(out@) =~= models(out@) + tag_attributes(
        tag@,
        j as nat,
        id_prefix@,
        out@.len(),
    ));
}

/// Adds the semantic nodes of the elements in content.
fn promote_elements(content: &HashedNode, id_prefix: &str, out: &mut Vec<SemanticNode>)
    ensures
        models(final(out)@) == models(old(out)@) + content_elements(
            content@,
            0,
            id_prefix@,
            old(out)@.len(),
        ),
    decreases content, 1nat,
{
    let ghost before = models(out@);
    let ghost start = out@.len();
    let mut j: usize = 0;
    while j < content.children.len()
        invariant
            j <= content.children@.len(),
            models(out@) + content_elements(content@, j as nat, id_prefix@, out@.len()) == before
                + content_elements(content@, 0, id_prefix@, start),
        decreases content.children@.len() - j,
    {
        let child = &content.children[j];
        let ghost so_far = models(out@);
        let ghost count = out@.len();
        assert(content@.children[j as int] == child@);
        if child.is_kind("element") {
            if let Some(node) = convert(child, make_child_id(id_prefix, out.len()).as_str()) {
                add_node(out, node);
            }
        }
        assert(models(out@) + content_elements(content@, (j + 1) as nat, id_prefix@, out@.len())
            =~= so_far + content_elements(content@, j as nat, id_prefix@, count));
        j = j + 1;
    }
    assert(models(out@) =~= models(out@) + content_elements(
        content@,
        j as nat,
        id_prefix@,
        out@.len(),
    ));
}

/// Converts an element to a semantic node that has its attributes and its child
/// elements as direct children.
pub fn convert_element(node: &HashedNode, id_prefix: &str) -> (r: Option<SemanticNode>)
    ensures
        r is Some,
        r->0@ == element_node(node@, id_prefix@),
    decreases node, 2nat,
{
    let mut children: Vec<SemanticNode> = Vec::new();
    let mut i: usize = 0;
    assert(models(children@) =~= Seq::<Semantic>::empty());
    assert(models(children@) + element_children(node@, 0, id_prefix@, 0) =~= element_children(
        node@,
        0,
        id_prefix@,
        0,
    ));
    while i < node.children.len()
        invariant
            i <= node.children@.len(),
            models(children@) + element_children(
                node@,
                i as nat,
                id_prefix@,
                children@.len(),
            ) == element_children(node@, 0, id_prefix@, 0),
        decreases node.children@.len() - i,
    {
        let child = &node.children[i];
        let ghost so_far = models(children@);
        let ghost count = children@.len();
        assert(node@.children[i as int] == child@);
        if child.is_kind("STag") || child.is_kind("EmptyElemTag") {
            promote_attributes(child, id_prefix, &mut children);
        } else if child.is_kind("ETag") {
        } else if child.is_kind("content") {
            promote_elements(child, id_prefix, &mut children);
        } else {
            if let Some(sem) = convert(child, make_child_id(id_prefix, children.len()).as_str()) {
                add_node(&mut children, sem);
            }
        }
        proof {
            let here = contribution(child@, id_prefix@, count);
            assert(models(children@) =~= so_far + here);
            assert(children@.len() == models(children@).len());
            assert(models(children@) + element_children(
                node@,
                (i + 1) as nat,
                id_prefix@,
                children@.len(),
            ) =~= so_far + element_children(node@, i as nat, id_prefix@, count));
        }
        i = i + 1;
    }
    assert(models(children@) =~= models(children@) + element_children(
        node@,
        i as nat,
        id_prefix@,
        children@.len(),
    ));
    let tag = match labels::tag_name_of(node) {
        Some(name) => name,
        None => "element".to_owned(),
    };
    Some(build(node, id_prefix, "element", tag, children))
}

/// Converts a node of the normalised tree to the node of the semantic tree with the given
/// id. `None` for trivia, and for what has no place in the semantic tree.
pub fn convert(node: &HashedNode, id_prefix: &str) -> (r: Option<SemanticNode>)
    ensures
        match r {
            Some(n) => semantic(node@, id_prefix@) == Some(n@),
            None => semantic(node@, id_prefix@) is None,
        },
    decreases node, 3nat,
{
    if node.is_kind("Comment") || node.is_kind("PI") {
        return None;
    }
    if node.is_kind("element") {
        return convert_element(node, id_prefix);
    }
    if !is_semantic(node.node_type.as_str()) {
        return None;
    }
    let mut children: Vec<SemanticNode> = Vec::new();
    let mut i: usize = 0;
    assert(models(children@) =~= Seq::<Semantic>::empty());
    assert(models(children@) + plain_children(node@, 0, id_prefix@) =~= plain_children(
        node@,
        0,
        id_prefix@,
    ));
    while i < node.children.len()
        invariant
            i <= node.children@.len(),
            models(children@) + plain_children(node@, i as nat, id_prefix@) == plain_children(
                node@,
                0,
                id_prefix@,
            ),
        decreases node.children@.len() - i,
    {
        let child = &node.children[i];
        let ghost so_far = models(children@);
        assert(node@.children[i as int] == child@);
        if let Some(sem) = convert(child, make_child_id(id_prefix, i).as_str()) {
            add_node(&mut children, sem);
        }
        assert(models(children@) + plain_children(node@, (i + 1) as nat, id_prefix@) =~= so_far
            + plain_children(node@, i as nat, id_prefix@));
        i = i + 1;
    }
    assert(models(children@) =~= models(children@) + plain_children(
        node@,
        i as nat,
        id_prefix@,
    ));
    Some(
        build(
            node,
            id_prefix,
            node.node_type.as_str(),
            labels::label_for(node),
            children,
        ),
    )
}

} // verus!
