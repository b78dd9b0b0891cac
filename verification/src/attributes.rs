//! The canonical order of the attributes of a tag.
//!
//! The order in which attributes are written carries no meaning. A tag in canonical
//! order has its attributes last, sorted by name, and has no namespace declarations,
//! which are consumed when names are resolved.

use crate::namespaces;
use crate::text;
use crate::tree;
use crate::tree::CstNode;
use vstd::prelude::*;

verus! {

/// The name of an attribute: the text of its first `Name` child.
pub open spec fn attribute_name(c: tree::Cst) -> Seq<char> {
    match tree::first_text(c.children, "Name"@) {
        Some(t) => t,
        None => Seq::empty(),
    }
}

/// Whether the node is an attribute.
pub open spec fn is_attribute(c: tree::Cst) -> bool {
    c.kind == "Attribute"@
}

/// Whether the node is an attribute that declares no namespace.
pub open spec fn is_kept_attribute(c: tree::Cst) -> bool {
    is_attribute(c) && !namespaces::is_declaration_name(attribute_name(c))
}

/// The attributes among `s` that declare no namespace.
pub open spec fn kept_attributes(s: Seq<tree::Cst>) -> Seq<tree::Cst> {
    s.filter(|c: tree::Cst| is_kept_attribute(c))
}

/// What is no attribute among `s`.
pub open spec fn others(s: Seq<tree::Cst>) -> Seq<tree::Cst> {
    s.filter(|c: tree::Cst| !is_attribute(c))
}

/// Whether the name of `a` comes before that of `b`, or is the same.
pub open spec fn name_le(a: tree::Cst, b: tree::Cst) -> bool {
    text::text_le(attribute_name(a), attribute_name(b))
}

/// `s`, which is sorted, with `c` put behind everything whose name does not come after
/// that of `c`.
pub open spec fn insertion(s: Seq<tree::Cst>, c: tree::Cst) -> Seq<tree::Cst>
    decreases s.len(),
{
    if s.len() == 0 || name_le(s.last(), c) {
        s.push(c)
    } else {
        insertion(s.drop_last(), c).push(s.last())
    }
}

/// `s` sorted by name; what has the same name stays in its order.
pub open spec fn sorted(s: Seq<tree::Cst>) -> Seq<tree::Cst>
    decreases s.len(),
{
    if s.len() == 0 {
        s
    } else {
        insertion(sorted(s.drop_last()), s.last())
    }
}

/// Whether the names never descend.
pub open spec fn is_sorted(s: Seq<tree::Cst>) -> bool {
    forall|i: int, j: int| 0 <= i <= j < s.len() ==> name_le(#[trigger] s[i], #[trigger] s[j])
}

/// The children of a tag in canonical order.
pub open spec fn canonical(s: Seq<tree::Cst>) -> Seq<tree::Cst> {
    others(s) + sorted(kept_attributes(s))
}

/// The tag with its children in canonical order.
pub open spec fn canonical_tag(c: tree::Cst) -> tree::Cst {
    tree::Cst { children: canonical(c.children), ..c }
}

/// The name of an attribute: the text of its first `Name` child.
fn name_of(attr: &CstNode) -> (r: &str)
    ensures
        r@ == attribute_name(attr@),
{
    match tree::first_child(attr, "Name") {
        Some(name) => name.text_or_empty(),
        None => {
            proof {
                reveal_strlit("");
                assert(""@ =~= Seq::<char>::empty());
            }
            ""
        },
    }
}

/// Whether an attribute of this name declares a namespace.
fn declares_namespace(name: &str) -> (r: bool)
    ensures
        r == namespaces::is_declaration_name(name@),
{
    text::same_text(name, "xmlns") || text::begins_with(&text::chars_of(name), "xmlns:")
}

/// Puts an attribute behind everything whose name does not come after its own.
fn insert_sorted(attrs: &mut Vec<CstNode>, attr: CstNode)
    ensures
        tree::models(final(attrs)@) == insertion(tree::models(old(attrs)@), attr@),
{
    let ghost nodes = attrs@;
    let ghost all = tree::models(attrs@);
    let mut i: usize = attrs.len();
    proof {
        assert(all.take(i as int) =~= all);
        assert(insertion(all.take(i as int), attr@) + all.skip(i as int) =~= insertion(all, attr@));
    }
    while i > 0 && !text::not_after(name_of(&attrs[i - 1]), name_of(&attr))
        invariant
            attrs@ == nodes,
            all == tree::models(nodes),
            i <= nodes.len(),
            insertion(all.take(i as int), attr@) + all.skip(i as int) == insertion(all, attr@),
        decreases i,
    {
        proof {
            let part = all.take(i as int);
            assert(part.last() == nodes[i - 1]@);
            assert(part.drop_last() =~= all.take(i - 1));
            assert(insertion(all.take(i - 1), attr@) + all.skip(i - 1) =~= insertion(part, attr@)
                + all.skip(i as int));
        }
        i = i - 1;
    }
    proof {
        let part = all.take(i as int);
        assert(i > 0 ==> part.last() == nodes[i - 1]@);
        assert(tree::models(nodes.insert(i as int, attr)) =~= part.push(attr@) + all.skip(
            i as int,
        ));
    }
    attrs.insert(i, attr);
}

/// Sorts the `Attribute` children of a tag by name, behind its other children, and drops
/// those that declare namespaces.
pub fn sort_tag_attributes(tag: &mut CstNode)
    ensures
        final(tag)@ == canonical_tag(old(tag)@),
{
    let ghost whole = *tag;
    let ghost all = tag@.children;
    proof {
        tree::lemma_children(*tag);
    }
    let mut children: Vec<CstNode> = Vec::new();
    std::mem::swap(&mut children, &mut tag.children);
    let mut attrs: Vec<CstNode> = Vec::new();
    let mut rest: Vec<CstNode> = Vec::new();
    let ghost nodes = children@;
    proof {
        assert(all.take(0) =~= Seq::<tree::Cst>::empty());
        reveal_with_fuel(Seq::filter, 1);
        assert(tree::models(attrs@) =~= sorted(kept_attributes(all.take(0))));
        assert(tree::models(rest@) =~= others(all.take(0)));
    }
    for child in it: children
        invariant
            it.seq() == nodes,
            all == tree::models(nodes),
            tree::models(attrs@) == sorted(kept_attributes(all.take(it.index() as int))),
            tree::models(rest@) == others(all.take(it.index() as int)),
    {
        proof {
            let i = it.index() as int;
            reveal_with_fuel(Seq::filter, 2);
            assert(all.take(i + 1).drop_last() =~= all.take(i));
            assert(all.take(i + 1).last() == child@);
        }
        if child.is_kind("Attribute") {
            if !declares_namespace(name_of(&child)) {
                proof {
                    let i = it.index() as int;
                    let k = kept_attributes(all.take(i + 1));
                    assert(k.drop_last() =~= kept_attributes(all.take(i)));
                }
                insert_sorted(&mut attrs, child);
            }
        } else {
            proof {
                tree::lemma_models_push(rest@, child);
            }
            rest.push(child);
        }
    }
    proof {
        assert(all.take(nodes.len() as int) =~= all);
        assert(tree::models(rest@ + attrs@) =~= tree::models(rest@) + tree::models(attrs@));
    }
    rest.append(&mut attrs);
    tag.children = rest;
    proof {
        tree::lemma_children(*tag);
        assert(tag@ =~= canonical_tag(whole@));
    }
}

} // verus!
