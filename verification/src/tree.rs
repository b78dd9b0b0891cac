//! The concrete syntax tree of an XML document.

use crate::text;
use vstd::prelude::*;
use vstd::string::*;

verus! {

/// A node of the concrete syntax tree.
#[derive(Debug)]
pub struct CstNode {
    pub node_type: String,
    pub named: bool,
    pub text: Option<String>,
    pub start_line: u32,
    pub start_col: u32,
    pub end_line: u32,
    pub end_col: u32,
    pub children: Vec<CstNode>,
}

/// What a [`CstNode`] is: its kind, its text, where it stands, and its children.
pub struct Cst {
    pub kind: Seq<char>,
    pub named: bool,
    pub text: Option<Seq<char>>,
    pub start: (u32, u32),
    pub end: (u32, u32),
    pub children: Seq<Cst>,
}

impl Cst {
    /// The text of the node, empty where it has none.
    pub open spec fn text_or_empty(self) -> Seq<char> {
        match self.text {
            Some(t) => t,
            None => Seq::empty(),
        }
    }
}

/// The texts of an optional string.
pub open spec fn text_model(t: Option<String>) -> Option<Seq<char>> {
    match t {
        Some(s) => Some(s@),
        None => None,
    }
}

impl CstNode {
    /// The mathematical tree that this node stands for.
    pub open spec fn model(self) -> Cst
        decreases self,
    {
        Cst {
            kind: self.node_type@,
            named: self.named,
            text: text_model(self.text),
            start: (self.start_line, self.start_col),
            end: (self.end_line, self.end_col),
            children: Seq::new(
                self.children@.len(),
                |i: int|
                    if 0 <= i < self.children@.len() {
                        self.children@[i].model()
                    } else {
                        arbitrary()
                    },
            ),
        }
    }
}

impl View for CstNode {
    type V = Cst;

    open spec fn view(&self) -> Cst {
        self.model()
    }
}

/// The trees that a sequence of nodes stands for.
pub open spec fn models(nodes: Seq<CstNode>) -> Seq<Cst> {
    nodes.map_values(|n: CstNode| n@)
}

/// The children of a node's tree are the trees of its children.
pub proof fn lemma_children(n: CstNode)
    ensures
        n@.children == models(n.children@),
{
    assert(n@.children =~= models(n.children@));
}

/// The tree of a node added at the end comes last.
pub proof fn lemma_models_push(nodes: Seq<CstNode>, n: CstNode)
    ensures
        models(nodes.push(n)) == models(nodes).push(n@),
{
    assert(models(nodes.push(n)) =~= models(nodes).push(n@));
}

impl Clone for CstNode {
    fn clone(&self) -> (r: Self)
        ensures
            r@ == self@,
        decreases self,
    {
        let mut children: Vec<CstNode> = Vec::new();
        let mut i: usize = 0;
        while i < self.children.len()
            invariant
                i <= self.children@.len(),
                models(children@) == models(self.children@).take(i as int),
            decreases self.children@.len() - i,
        {
            let child = self.children[i].clone();
            proof {
                lemma_models_push(children@, child);
                assert(child@ == models(self.children@)[i as int]);
            }
            children.push(child);
            assert(models(children@) =~= models(self.children@).take(i + 1));
            i = i + 1;
        }
        let text = match &self.text {
            Some(t) => Some(t.clone()),
            None => None,
        };
        let r = CstNode {
            node_type: self.node_type.clone(),
            named: self.named,
            text,
            start_line: self.start_line,
            start_col: self.start_col,
            end_line: self.end_line,
            end_col: self.end_col,
            children,
        };
        proof {
            lemma_children(*self);
            lemma_children(r);
            assert(models(self.children@).take(i as int) =~= models(self.children@));
        }
        r
    }
}

impl CstNode {
    /// The text of the node, empty where it has none.
    pub fn text_or_empty(&self) -> (r: &str)
        ensures
            r@ == self@.text_or_empty(),
    {
        match &self.text {
            Some(t) => t.as_str(),
            None => {
                proof {
                    reveal_strlit("");
                    assert(""@ =~= Seq::<char>::empty());
                }
                ""
            },
        }
    }

    /// Whether the node is of the given kind.
    pub fn is_kind(&self, kind: &str) -> (r: bool)
        ensures
            r == (self@.kind == kind@),
    {
        text::same_text(self.node_type.as_str(), kind)
    }
}

/// The tree without the places where its nodes stand. Two documents that are written
/// differently have nodes in different places, and may still have the same shape.
pub open spec fn shape(c: Cst) -> Cst
    decreases c,
{
    Cst {
        kind: c.kind,
        named: c.named,
        text: c.text,
        start: (0, 0),
        end: (0, 0),
        children: Seq::new(
            c.children.len(),
            |i: int|
                if 0 <= i < c.children.len() {
                    shape(c.children[i])
                } else {
                    arbitrary()
                },
        ),
    }
}

/// The shapes of a sequence of trees.
pub open spec fn shapes(s: Seq<Cst>) -> Seq<Cst> {
    s.map_values(|c: Cst| shape(c))
}

/// The children of a shape are the shapes of the children.
pub proof fn lemma_shape_children(c: Cst)
    ensures
        shape(c).children == shapes(c.children),
{
    assert(shape(c).children =~= shapes(c.children));
}

/// The first of the trees that is of the given kind.
pub open spec fn first_of_kind(s: Seq<Cst>, kind: Seq<char>) -> Option<Cst>
    decreases s.len(),
{
    if s.len() == 0 {
        None
    } else if s[0].kind == kind {
        Some(s[0])
    } else {
        first_of_kind(s.skip(1), kind)
    }
}

/// The text of the first of the trees that is of the given kind.
pub open spec fn first_text(s: Seq<Cst>, kind: Seq<char>) -> Option<Seq<char>> {
    match first_of_kind(s, kind) {
        Some(c) => Some(c.text_or_empty()),
        None => None,
    }
}

/// The first child of the given kind.
pub fn first_child<'a>(node: &'a CstNode, kind: &str) -> (r: Option<&'a CstNode>)
    ensures
        match r {
            Some(c) => first_of_kind(node@.children, kind@) == Some(c@),
            None => first_of_kind(node@.children, kind@) is None,
        },
{
    let ghost all = node@.children;
    proof {
        lemma_children(*node);
        assert(all.skip(0) =~= all);
    }
    let mut i: usize = 0;
    while i < node.children.len()
        invariant
            i <= node.children@.len(),
            all == models(node.children@),
            all == node@.children,
            first_of_kind(all.skip(i as int), kind@) == first_of_kind(all, kind@),
        decreases node.children@.len() - i,
    {
        let child = &node.children[i];
        assert(all.skip(i as int)[0] == child@);
        if child.is_kind(kind) {
            return Some(child);
        }
        assert(all.skip(i as int).skip(1) =~= all.skip(i + 1));
        i = i + 1;
    }
    None
}

} // verus!
