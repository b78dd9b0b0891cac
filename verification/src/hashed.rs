//! The normalised tree together with what is known of each of its nodes: the
//! structural hash, and the label of a literal.

use crate::text;
use vstd::prelude::*;
use vstd::string::*;

verus! {

/// A node of the normalised tree with its structural hash.
#[derive(Debug)]
pub struct HashedNode {
    pub node_type: String,
    pub text: Option<String>,
    pub start_line: u32,
    pub start_col: u32,
    pub end_line: u32,
    pub end_col: u32,
    /// The structural hash of the node.
    pub hash: String,
    /// The label of the node, where it is a literal.
    pub literal_label: Option<String>,
    pub children: Vec<HashedNode>,
}

/// What a [`HashedNode`] is.
pub struct Hashed {
    pub kind: Seq<char>,
    pub text: Option<Seq<char>>,
    pub start: (u32, u32),
    pub end: (u32, u32),
    pub hash: Seq<char>,
    pub literal_label: Option<Seq<char>>,
    pub children: Seq<Hashed>,
}

impl Hashed {
    /// The text of the node, empty where it has none.
    pub open spec fn text_or_empty(self) -> Seq<char> {
        match self.text {
            Some(t) => t,
            None => Seq::empty(),
        }
    }
}

impl HashedNode {
    /// The mathematical tree that this node stands for.
    pub open spec fn model(self) -> Hashed
        decreases self,
    {
        Hashed {
            kind: self.node_type@,
            text: crate::tree::text_model(self.text),
            start: (self.start_line, self.start_col),
            end: (self.end_line, self.end_col),
            hash: self.hash@,
            literal_label: crate::tree::text_model(self.literal_label),
            children: Seq::new(
                self.children@.len(),
                |i: int|
                    if 0 <= i < self.children@.len() {
                        self.children@[i].model()
                    } else {
                        arbitrary()
                    },
            ),
        }
    }
}

impl View for HashedNode {
    type V = Hashed;

    open spec fn view(&self) -> Hashed {
        self.model()
    }
}

impl HashedNode {
    /// The text of the node, empty where it has none.
    pub fn text_or_empty(&self) -> (r: &str)
        ensures
            r@ == self@.text_or_empty(),
    {
        match &self.text {
            Some(t) => t.as_str(),
            None => {
                proof {
                    reveal_strlit("");
                    assert(""@ =~= Seq::<char>::empty());
                }
                ""
            },
        }
    }

    /// Whether the node has no children.
    pub fn is_leaf(&self) -> (r: bool)
        ensures
            r == (self@.children.len() == 0),
    {
        self.children.len() == 0
    }

    /// Whether the node is of the given kind.
    pub fn is_kind(&self, kind: &str) -> (r: bool)
        ensures
            r == (self@.kind == kind@),
    {
        text::same_text(self.node_type.as_str(), kind)
    }
}

/// The text of the first of the nodes that is of the given kind.
pub open spec fn first_text(s: Seq<Hashed>, kind: Seq<char>) -> Option<Seq<char>>
    decreases s.len(),
{
    if s.len() == 0 {
        None
    } else if s[0].kind == kind {
        Some(s[0].text_or_empty())
    } else {
        first_text(s.skip(1), kind)
    }
}

/// The text of the first child of the given kind.
pub fn first_child_text<'a>(node: &'a HashedNode, kind: &str) -> (r: Option<&'a str>)
    ensures
        match r {
            Some(t) => first_text(node@.children, kind@) == Some(t@),
            None => first_text(node@.children, kind@) is None,
        },
{
    let ghost all = node@.children;
    let mut i: usize = 0;
    assert(all.skip(0) =~= all);
    while i < node.children.len()
        invariant
            i <= node.children@.len(),
            all == node@.children,
            first_text(all.skip(i as int), kind@) == first_text(all, kind@),
        decreases node.children@.len() - i,
    {
        let child = &node.children[i];
        assert(all.skip(i as int)[0] == child@);
        if child.is_kind(kind) {
            return Some(child.text_or_empty());
        }
        assert(all.skip(i as int).skip(1) =~= all.skip(i + 1));
        i = i + 1;
    }
    None
}

} // verus!
