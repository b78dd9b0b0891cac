//! Trees that differ in the order of attributes alone have one normal form.

use crate::attributes;
use crate::laws::attribute_order;
use crate::laws::documents;
use crate::laws::equivalence;
use crate::namespaces;
use crate::normalize;
use crate::tree;
use vstd::prelude::*;
use vstd::seq_lib::*;

verus! {

/// Whether `t` holds what `s` holds, with the attributes in some other order and the rest
/// in the same order.
pub open spec fn rearranged(s: Seq<tree::Cst>, t: Seq<tree::Cst>) -> bool {
    &&& s.to_multiset() == t.to_multiset()
    &&& attributes::others(s) == attributes::others(t)
}

/// Whether `s` are as many as the children of `a`, and the children of `b` are `s`, in
/// another order of attributes where `a` is an opening tag.
pub open spec fn leads_to(a: tree::Cst, s: Seq<tree::Cst>, b: tree::Cst) -> bool {
    &&& s.len() == a.children.len()
    &&& if normalize::is_opening_tag(a.kind) {
        rearranged(s, b.children)
    } else {
        s == b.children
    }
}

/// Whether two trees differ in nothing but the order of the attributes in opening tags,
/// namespace declarations among them, at any depth.
pub open spec fn reordered(a: tree::Cst, b: tree::Cst) -> bool
    decreases a,
{
    &&& a.kind == b.kind
    &&& a.named == b.named
    &&& a.text == b.text
    &&& a.start == b.start
    &&& a.end == b.end
    &&& exists|s: Seq<tree::Cst>| #[trigger]
        leads_to(a, s, b) && forall|i: int|
            0 <= i < a.children.len() ==> reordered(#[trigger] a.children[i], s[i])
}

/// Whether no opening tag in the tree has two attributes of one name, or declares a prefix
/// for two URIs.
pub open spec fn attributes_differ(c: tree::Cst) -> bool
    decreases c,
{
    &&& normalize::is_opening_tag(c.kind) ==> {
        &&& attribute_order::distinct_names(attributes::kept_attributes(c.children))
        &&& documents::declarations_agree(c.children)
    }
    &&& forall|i: int| 0 <= i < c.children.len() ==> attributes_differ(#[trigger] c.children[i])
}

/// What stands between a tree and its reordering.
proof fn lemma_between(a: tree::Cst, b: tree::Cst) -> (s: Seq<tree::Cst>)
    requires
        reordered(a, b),
    ensures
        leads_to(a, s, b),
        forall|i: int| 0 <= i < a.children.len() ==> reordered(#[trigger] a.children[i], s[i]),
{
    choose|s: Seq<tree::Cst>| #[trigger]
        leads_to(a, s, b) && forall|i: int|
            0 <= i < a.children.len() ==> reordered(#[trigger] a.children[i], s[i])
}

/// A tree is a reordering of itself.
pub proof fn law_same_order(c: tree::Cst)
    ensures
        reordered(c, c),
    decreases c,
{
    assert forall|i: int| 0 <= i < c.children.len() implies reordered(
        #[trigger] c.children[i],
        c.children[i],
    ) by {
        law_same_order(c.children[i]);
    }
    assert(leads_to(c, c.children, c));
}

/// An opening tag with its attributes in another order is a reordering.
pub proof fn law_tag_in_another_order(a: tree::Cst, s: Seq<tree::Cst>)
    requires
        normalize::is_opening_tag(a.kind),
        rearranged(a.children, s),
    ensures
        reordered(a, (tree::Cst { children: s, ..a })),
{
    assert forall|i: int| 0 <= i < a.children.len() implies reordered(
        #[trigger] a.children[i],
        a.children[i],
    ) by {
        law_same_order(a.children[i]);
    }
    assert(leads_to(a, a.children, tree::Cst { children: s, ..a }));
}

/// A tree whose children are reordered, each for itself, is a reordering.
pub proof fn law_reordered_inside(a: tree::Cst, s: Seq<tree::Cst>)
    requires
        s.len() == a.children.len(),
        forall|i: int| 0 <= i < s.len() ==> reordered(#[trigger] a.children[i], s[i]),
    ensures
        reordered(a, (tree::Cst { children: s, ..a })),
{
    assert(leads_to(a, s, tree::Cst { children: s, ..a }));
}

proof fn lemma_last_text(s: Seq<tree::Cst>, t: Seq<tree::Cst>, kind: Seq<char>)
    requires
        s.len() == t.len(),
        forall|i: int| 0 <= i < s.len() ==> reordered(#[trigger] s[i], t[i]),
    ensures
        namespaces::last_text(s, kind) == namespaces::last_text(t, kind),
    decreases s.len(),
{
    if s.len() > 0 {
        let n = s.len() - 1;
        assert(reordered(s[n], t[n]));
        assert forall|i: int| 0 <= i < s.drop_last().len() implies reordered(
            #[trigger] s.drop_last()[i],
            t.drop_last()[i],
        ) by {
            assert(reordered(s[i], t[i]));
        }
        lemma_last_text(s.drop_last(), t.drop_last(), kind);
    }
}

/// An attribute declares what it declared.
proof fn lemma_declaration(x: tree::Cst, y: tree::Cst)
    requires
        reordered(x, y),
    ensures
        namespaces::declaration(x) == namespaces::declaration(y),
{
    if x.kind == "Attribute"@ {
        normalize::lemma_kinds();
        lemma_attribute_kind();
        let between = lemma_between(x, y);
        lemma_last_text(x.children, y.children, "Name"@);
        lemma_last_text(x.children, y.children, "AttValue"@);
    }
}

proof fn lemma_attribute_kind()
    ensures
        !normalize::is_opening_tag("Attribute"@),
{
    reveal_strlit("Attribute");
    reveal_strlit("STag");
    reveal_strlit("EmptyElemTag");
    assert("Attribute"@.len() == 9);
    assert("STag"@.len() == 4);
    assert("EmptyElemTag"@.len() == 12);
}

proof fn lemma_declared(s: Seq<tree::Cst>, t: Seq<tree::Cst>)
    requires
        s.len() == t.len(),
        forall|i: int| 0 <= i < s.len() ==> reordered(#[trigger] s[i], t[i]),
    ensures
        namespaces::declared(s) == namespaces::declared(t),
    decreases s.len(),
{
    if s.len() > 0 {
        let n = s.len() - 1;
        assert(reordered(s[n], t[n]));
        lemma_declaration(s[n], t[n]);
        assert forall|i: int| 0 <= i < s.drop_last().len() implies reordered(
            #[trigger] s.drop_last()[i],
            t.drop_last()[i],
        ) by {
            assert(reordered(s[i], t[i]));
        }
        lemma_declared(s.drop_last(), t.drop_last());
    }
}

/// An opening tag declares what it declared.
proof fn lemma_declared_by_tag(x: tree::Cst, y: tree::Cst)
    requires
        normalize::is_opening_tag(x.kind),
        reordered(x, y),
        attributes_differ(y),
    ensures
        namespaces::declared(x.children) == namespaces::declared(y.children),
{
    let between = lemma_between(x, y);
    lemma_declared(x.children, between);
    documents::lemma_declared_rearranged(y.children, between);
}

proof fn lemma_inner_scope(
    s: Seq<tree::Cst>,
    t: Seq<tree::Cst>,
    ns: Map<Seq<char>, Seq<char>>,
)
    requires
        s.len() == t.len(),
        forall|i: int| 0 <= i < s.len() ==> reordered(#[trigger] s[i], t[i]),
        forall|i: int| 0 <= i < t.len() ==> attributes_differ(#[trigger] t[i]),
    ensures
        normalize::inner_scope(s, ns) == normalize::inner_scope(t, ns),
    decreases s.len(),
{
    if s.len() > 0 {
        assert(reordered(s[0], t[0]));
        if normalize::is_opening_tag(s[0].kind) {
            lemma_declared_by_tag(s[0], t[0]);
        } else {
            assert forall|i: int| 0 <= i < s.skip(1).len() implies reordered(
                #[trigger] s.skip(1)[i],
                t.skip(1)[i],
            ) by {
                assert(reordered(s[i + 1], t[i + 1]));
            }
            assert forall|i: int| 0 <= i < t.skip(1).len() implies attributes_differ(
                #[trigger] t.skip(1)[i],
            ) by {
                assert(attributes_differ(t[i + 1]));
            }
            lemma_inner_scope(s.skip(1), t.skip(1), ns);
        }
    }
}

/// The parts of an opening tag come out the same, whatever the order of its attributes.
proof fn lemma_canonical(s: Seq<tree::Cst>, t: Seq<tree::Cst>, ns: Map<Seq<char>, Seq<char>>)
    requires
        rearranged(s, t),
        attribute_order::distinct_names(attributes::kept_attributes(t)),
    ensures
        attributes::canonical(s.map_values(equivalence::part(ns))) == attributes::canonical(
            t.map_values(equivalence::part(ns)),
        ),
{
    let q = |c: tree::Cst| attributes::is_kept_attribute(c);
    let k = attributes::kept_attributes(s);
    let l = attributes::kept_attributes(t);
    let f = equivalence::part(ns);
    documents::lemma_filter_multiset(s, q);
    documents::lemma_filter_multiset(t, q);
    attribute_order::law_order_of_attributes_is_lost(l, k);
    equivalence::lemma_opening_tag(s, ns);
    equivalence::lemma_opening_tag(t, ns);
    assert forall|i: int| 0 <= i < k.len() implies attributes::attribute_name(f(#[trigger] k[i]))
        == attributes::attribute_name(k[i]) by {
        equivalence::lemma_attribute_kept(k[i], ns);
    }
    assert forall|i: int| 0 <= i < l.len() implies attributes::attribute_name(f(#[trigger] l[i]))
        == attributes::attribute_name(l[i]) by {
        equivalence::lemma_attribute_kept(l[i], ns);
    }
    attribute_order::lemma_sorted_map(k, f);
    attribute_order::lemma_sorted_map(l, f);
}

/// Trees that differ in the order of attributes alone have the same normal form, places
/// included.
pub proof fn law_reordered_trees(a: tree::Cst, b: tree::Cst, ns: Map<Seq<char>, Seq<char>>)
    requires
        reordered(a, b),
        attributes_differ(b),
    ensures
        normalize::normalized(a, ns) == normalize::normalized(b, ns),
    decreases a,
{
    broadcast use group_to_multiset_ensures;

    normalize::lemma_kinds();
    let between = lemma_between(a, b);
    assert forall|i: int| 0 <= i < between.len() implies attributes_differ(
        #[trigger] between[i],
    ) by {
        assert(between.contains(between[i]));
        assert(between.to_multiset().count(between[i]) > 0);
        assert(b.children.contains(between[i]));
        let j = choose|j: int| 0 <= j < b.children.len() && b.children[j] == between[i];
        assert(attributes_differ(b.children[j]));
    }
    if a.kind == "element"@ {
        lemma_inner_scope(a.children, b.children, ns);
    }
    let inner = normalize::scope(a, ns);
    assert(inner == normalize::scope(b, ns));
    let s = normalize::normalized_children(a, ns);
    let t = Seq::new(between.len(), |i: int| normalize::normalized(between[i], inner));
    assert forall|i: int| 0 <= i < s.len() implies s[i] == t[i] by {
        assert(reordered(a.children[i], between[i]));
        law_reordered_trees(a.children[i], between[i], inner);
    }
    assert(s =~= t);
    if normalize::is_opening_tag(a.kind) {
        let f = equivalence::part(ns);
        assert(normalize::all_resolved(s, ns) =~= between.map_values(f));
        assert(normalize::all_resolved(normalize::normalized_children(b, ns), ns)
            =~= b.children.map_values(f));
        lemma_canonical(between, b.children, ns);
    } else {
        assert(normalize::normalized_children(b, ns) =~= t);
    }
}

} // verus!
