//! Normalisation of the syntax tree: forms that mean the same become the same tree.
//!
//! - CDATA sections and escaped text become the same character data.
//! - Names of tags are expanded by the namespaces in scope.
//! - Attributes are put in the order of their names.

use crate::attributes;
use crate::content;
use crate::namespaces;
use crate::namespaces::Namespaces;
use crate::tree;
use crate::tree::CstNode;
use vstd::prelude::*;
use vstd::string::*;

verus! {

/// Whether nodes of this kind open an element and hold its attributes.
pub open spec fn is_opening_tag(kind: Seq<char>) -> bool {
    kind == "STag"@ || kind == "EmptyElemTag"@
}

/// Whether nodes of this kind are tags.
pub open spec fn is_tag(kind: Seq<char>) -> bool {
    is_opening_tag(kind) || kind == "ETag"@
}

/// The first opening tag among `s`.
pub open spec fn opening_tag(s: Seq<tree::Cst>) -> Option<tree::Cst>
    decreases s.len(),
{
    if s.len() == 0 {
        None
    } else if is_opening_tag(s[0].kind) {
        Some(s[0])
    } else {
        opening_tag(s.skip(1))
    }
}

/// The namespaces in scope inside an element with these children: those around it,
/// and those that its opening tag declares.
pub open spec fn inner_scope(
    s: Seq<tree::Cst>,
    ns: Map<Seq<char>, Seq<char>>,
) -> Map<Seq<char>, Seq<char>> {
    match opening_tag(s) {
        Some(tag) => ns.union_prefer_right(namespaces::declared(tag.children)),
        None => ns,
    }
}

/// The namespaces in scope for the children of a node.
pub open spec fn scope(
    c: tree::Cst,
    ns: Map<Seq<char>, Seq<char>>,
) -> Map<Seq<char>, Seq<char>> {
    if c.kind == "element"@ {
        inner_scope(c.children, ns)
    } else {
        ns
    }
}

/// A `Name` node with its name expanded, where the namespaces give it an expanded form;
/// any other node as it is.
pub open spec fn resolved(c: tree::Cst, ns: Map<Seq<char>, Seq<char>>) -> tree::Cst {
    if c.kind == "Name"@ {
        match namespaces::qname(c.text_or_empty(), ns) {
            Some(name) => tree::Cst { text: Some(name), ..c },
            None => c,
        }
    } else {
        c
    }
}

/// Each of the trees resolved.
pub open spec fn all_resolved(
    s: Seq<tree::Cst>,
    ns: Map<Seq<char>, Seq<char>>,
) -> Seq<tree::Cst> {
    s.map_values(|c: tree::Cst| resolved(c, ns))
}

/// What becomes of the children of a node of the given kind, once each of them is
/// normalised: the names of a tag are expanded, the attributes of an opening tag put in
/// canonical order, the text of element content merged.
pub open spec fn arranged(
    kind: Seq<char>,
    s: Seq<tree::Cst>,
    ns: Map<Seq<char>, Seq<char>>,
) -> Seq<tree::Cst> {
    if is_opening_tag(kind) {
        attributes::canonical(all_resolved(s, ns))
    } else if is_tag(kind) {
        all_resolved(s, ns)
    } else if kind == "content"@ {
        content::merged(s)
    } else {
        s
    }
}

/// The children of a node, each of them normalised.
pub open spec fn normalized_children(
    c: tree::Cst,
    ns: Map<Seq<char>, Seq<char>>,
) -> Seq<tree::Cst>
    decreases c, 0nat,
{
    Seq::new(
        c.children.len(),
        |i: int|
            if 0 <= i < c.children.len() {
                normalized(c.children[i], scope(c, ns))
            } else {
                arbitrary()
            },
    )
}

/// The normal form of a tree where the given namespaces are in scope.
pub open spec fn normalized(c: tree::Cst, ns: Map<Seq<char>, Seq<char>>) -> tree::Cst
    decreases c, 1nat,
{
    tree::Cst { children: arranged(c.kind, normalized_children(c, ns), ns), ..c }
}

/// The namespaces in scope inside an element.
fn namespaces_inside(children: &Vec<CstNode>, ns_context: &Namespaces) -> (r: Namespaces)
    ensures
        r@ == inner_scope(tree::models(children@), ns_context@),
{
    let ghost all = tree::models(children@);
    let mut inner = ns_context.clone();
    let mut i: usize = 0;
    assert(all.skip(0) =~= all);
    while i < children.len()
        invariant
            i <= children@.len(),
            all == tree::models(children@),
            inner@ == ns_context@,
            opening_tag(all.skip(i as int)) == opening_tag(all),
        decreases children@.len() - i,
    {
        let child = &children[i];
        assert(all.skip(i as int)[0] == child@);
        if child.is_kind("STag") || child.is_kind("EmptyElemTag") {
            let decls = namespaces::extract_namespace_decls(child.children.as_slice());
            inner.extend(&decls);
            proof {
                tree::lemma_children(*child);
            }
            return inner;
        }
        assert(all.skip(i as int).skip(1) =~= all.skip(i + 1));
        i = i + 1;
    }
    inner
}

/// Expands the name of a `Name` node, where the namespaces give it an expanded form.
fn resolve_name(node: &mut CstNode, ns_context: &Namespaces)
    ensures
        final(node)@ == resolved(old(node)@, ns_context@),
{
    let ghost before = *node;
    if node.is_kind("Name") {
        if let Some(name) = namespaces::resolve_qname(node.text_or_empty(), ns_context) {
            node.text = Some(name);
            proof {
                tree::lemma_children(before);
                tree::lemma_children(*node);
            }
            assert(node@ =~= resolved(before@, ns_context@));
        }
    }
}

/// Normalises a tree where the given namespaces are in scope.
pub fn normalize_cst_with_ns(node: &CstNode, ns_context: &Namespaces) -> (r: CstNode)
    ensures
        r@ == normalized(node@, ns_context@),
    decreases node,
{
    let ghost all = node@.children;
    proof {
        tree::lemma_children(*node);
        lemma_kinds();
    }
    let tag = node.is_kind("STag") || node.is_kind("ETag") || node.is_kind("EmptyElemTag");
    let inner = if node.is_kind("element") {
        namespaces_inside(&node.children, ns_context)
    } else {
        ns_context.clone()
    };
    let ghost done = normalized_children(node@, ns_context@);
    let mut children: Vec<CstNode> = Vec::new();
    let mut i: usize = 0;
    while i < node.children.len()
        invariant
            i <= node.children@.len(),
            all == tree::models(node.children@),
            all == node@.children,
            inner@ == scope(node@, ns_context@),
            done == normalized_children(node@, ns_context@),
            tag == is_tag(node@.kind),
            tag ==> inner@ == ns_context@,
            tree::models(children@) == (if tag {
                all_resolved(done, ns_context@).take(i as int)
            } else {
                done.take(i as int)
            }),
        decreases node.children@.len() - i,
    {
        let mut child = normalize_cst_with_ns(&node.children[i], &inner);
        assert(child@ == done[i as int]);
        if tag {
            resolve_name(&mut child, ns_context);
        }
        proof {
            tree::lemma_models_push(children@, child);
        }
        children.push(child);
        assert(tree::models(children@) =~= if tag {
            all_resolved(done, ns_context@).take(i + 1)
        } else {
            done.take(i + 1)
        });
        i = i + 1;
    }
    assert(tree::models(children@) =~= if tag {
        all_resolved(done, ns_context@)
    } else {
        done
    });
    if node.is_kind("content") {
        children = content::normalize_content_children(children.as_slice());
    }
    let text = match &node.text {
        Some(t) => Some(t.clone()),
        None => None,
    };
    let mut r = CstNode {
        node_type: node.node_type.clone(),
        named: node.named,
        text,
        start_line: node.start_line,
        start_col: node.start_col,
        end_line: node.end_line,
        end_col: node.end_col,
        children,
    };
    proof {
        tree::lemma_children(r);
    }
    if node.is_kind("STag") || node.is_kind("EmptyElemTag") {
        attributes::sort_tag_attributes(&mut r);
    }
    assert(r@ =~= normalized(node@, ns_context@));
    r
}

/// The kinds of tags, of elements and of their content are different.
pub proof fn lemma_kinds()
    ensures
        !is_tag("element"@),
        !is_tag("content"@),
        !is_opening_tag("ETag"@),
        !is_tag("Name"@),
        !is_tag("Attribute"@),
        "element"@ != "content"@,
        "Name"@ != "Attribute"@,
        "Name"@ != "element"@,
        "Name"@ != "content"@,
        "Attribute"@ != "element"@,
        "Attribute"@ != "content"@,
{
    reveal_strlit("element");
    reveal_strlit("content");
    reveal_strlit("STag");
    reveal_strlit("ETag");
    reveal_strlit("EmptyElemTag");
    reveal_strlit("Name");
    reveal_strlit("Attribute");
    assert("STag"@[0] == 'S');
    assert("ETag"@.len() == 4);
    assert("EmptyElemTag"@.len() == 12);
    assert("Attribute"@.len() == 9);
    assert("ETag"@[0] == 'E');
    assert("Name"@[0] == 'N');
    assert("element"@[0] == 'e');
    assert("content"@[0] == 'c');
}

/// Normalises a whole document: no namespace is in scope outside its root.
pub fn normalize_cst(node: &CstNode) -> (r: CstNode)
    ensures
        r@ == normalized(node@, Map::empty()),
{
    let ns_context = Namespaces::new();
    normalize_cst_with_ns(node, &ns_context)
}

} // verus!
