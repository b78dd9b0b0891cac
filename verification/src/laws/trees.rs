//! What becomes of each node of a tree and of its children.

use crate::attributes;
use crate::content;
use crate::laws::merging;
use crate::laws::names;
use crate::laws::tags;
use crate::namespaces;
use crate::normalize;
use crate::tree;
use vstd::prelude::*;
use vstd::seq_lib::*;
use vstd::string::*;

verus! {

/// Whether the node opens an element.
pub open spec fn opens(c: tree::Cst) -> bool {
    c.kind == "STag"@ || c.kind == "EmptyElemTag"@
}

/// Whether the node is a tag.
pub open spec fn tag(c: tree::Cst) -> bool {
    opens(c) || c.kind == "ETag"@
}

/// A node stays what it is, where it is.
pub proof fn law_nodes_stay(c: tree::Cst, ns: Map<Seq<char>, Seq<char>>)
    ensures
        normalize::normalized(c, ns).kind == c.kind,
        normalize::normalized(c, ns).named == c.named,
        normalize::normalized(c, ns).text == c.text,
        normalize::normalized(c, ns).start == c.start,
        normalize::normalized(c, ns).end == c.end,
{
}

/// Each child in normal form, where the namespaces `inner` are in scope.
pub open spec fn each(s: Seq<tree::Cst>, inner: Map<Seq<char>, Seq<char>>) -> Seq<tree::Cst> {
    Seq::new(s.len(), |i: int| normalize::normalized(s[i], inner))
}

proof fn lemma_kinds()
    ensures
        "STag"@ != "element"@,
        "EmptyElemTag"@ != "element"@,
        "ETag"@ != "element"@,
        "STag"@ != "content"@,
        "EmptyElemTag"@ != "content"@,
        "ETag"@ != "content"@,
        "STag"@ != "ETag"@,
        "EmptyElemTag"@ != "ETag"@,
        "content"@ != "element"@,
        "Attribute"@ != "Name"@,
{
    reveal_strlit("STag");
    reveal_strlit("ETag");
    reveal_strlit("EmptyElemTag");
    reveal_strlit("element");
    reveal_strlit("content");
    reveal_strlit("Attribute");
    reveal_strlit("Name");
    assert("STag"@.len() == 4 && "STag"@[0] == 'S');
    assert("ETag"@.len() == 4 && "ETag"@[0] == 'E');
    assert("EmptyElemTag"@.len() == 12);
    assert("element"@.len() == 7 && "element"@[0] == 'e');
    assert("content"@.len() == 7 && "content"@[0] == 'c');
    assert("Attribute"@.len() == 9);
    assert("Name"@.len() == 4);
}

/// The children of an element are normalised with the namespaces around it and those that
/// its first opening tag declares, which replace the others.
pub proof fn law_children_of_an_element(c: tree::Cst, ns: Map<Seq<char>, Seq<char>>, k: int)
    requires
        c.kind == "element"@,
        0 <= k <= c.children.len(),
        forall|i: int| 0 <= i < k ==> !opens(#[trigger] c.children[i]),
        k < c.children.len() ==> opens(c.children[k]),
    ensures
        normalize::normalized(c, ns).children == each(
            c.children,
            if k < c.children.len() {
                ns.union_prefer_right(namespaces::declared(c.children[k].children))
            } else {
                ns
            },
        ),
{
    lemma_kinds();
    lemma_first_opening(c.children, k);
    let inner = normalize::scope(c, ns);
    assert(normalize::normalized_children(c, ns) =~= each(c.children, inner));
}

proof fn lemma_first_opening(s: Seq<tree::Cst>, k: int)
    requires
        0 <= k <= s.len(),
        forall|i: int| 0 <= i < k ==> !opens(#[trigger] s[i]),
        k < s.len() ==> opens(s[k]),
    ensures
        normalize::opening_tag(s) == (if k < s.len() {
            Some(s[k])
        } else {
            None
        }),
    decreases s.len(),
{
    if k > 0 {
        assert(!opens(s[0]));
        let t = s.skip(1);
        assert forall|i: int| 0 <= i < k - 1 implies !opens(#[trigger] t[i]) by {
            assert(t[i] == s[i + 1]);
        }
        lemma_first_opening(t, k - 1);
    }
}

/// The children of content are normalised, and their text is merged.
pub proof fn law_children_of_content(c: tree::Cst, ns: Map<Seq<char>, Seq<char>>)
    requires
        c.kind == "content"@,
    ensures
        normalize::normalized(c, ns).children == content::merged(each(c.children, ns)),
{
    lemma_kinds();
    assert(normalize::normalized_children(c, ns) =~= each(c.children, ns));
}

/// The children of any other node that is no tag are normalised, and nothing more.
pub proof fn law_children_of_other_nodes(c: tree::Cst, ns: Map<Seq<char>, Seq<char>>)
    requires
        !tag(c),
        c.kind != "content"@,
        c.kind != "element"@,
    ensures
        normalize::normalized(c, ns).children == each(c.children, ns),
{
    assert(normalize::normalized_children(c, ns) =~= each(c.children, ns));
}

/// What becomes of a part of a tag: it is normalised, and a name is expanded where the
/// namespaces give it an expanded form.
pub open spec fn part(x: tree::Cst, ns: Map<Seq<char>, Seq<char>>) -> tree::Cst {
    let y = normalize::normalized(x, ns);
    if x.kind == "Name"@ && namespaces::qname(merging::own_text(x), ns) is Some {
        tree::Cst { text: namespaces::qname(merging::own_text(x), ns), ..y }
    } else {
        y
    }
}

/// The parts of a tag.
pub open spec fn parts(c: tree::Cst, ns: Map<Seq<char>, Seq<char>>) -> Seq<tree::Cst> {
    Seq::new(c.children.len(), |i: int| part(c.children[i], ns))
}

/// The names of a tag are expanded. An opening tag is put in canonical order as well.
pub proof fn law_parts_of_a_tag(c: tree::Cst, ns: Map<Seq<char>, Seq<char>>)
    requires
        tag(c),
    ensures
        c.kind == "ETag"@ ==> normalize::normalized(c, ns).children == parts(c, ns),
        opens(c) ==> normalize::normalized(c, ns).children == attributes::canonical(parts(c, ns)),
{
    lemma_kinds();
    let s = normalize::normalized_children(c, ns);
    assert(normalize::all_resolved(s, ns) =~= parts(c, ns));
}

proof fn lemma_lead_filter(s: Seq<tree::Cst>, p: spec_fn(tree::Cst) -> bool, kind: Seq<char>)
    requires
        forall|c: tree::Cst| c.kind == kind ==> #[trigger] p(c),
    ensures
        merging::lead(s.filter(p), kind) == merging::lead(s, kind),
    decreases s.len(),
{
    reveal(Seq::filter);
    if s.len() > 0 {
        let t = s.drop_last();
        lemma_lead_filter(t, p, kind);
        if p(s.last()) {
            assert(s.filter(p) == t.filter(p).push(s.last()));
            assert(t.filter(p).push(s.last()).drop_last() =~= t.filter(p));
        }
    }
}

proof fn lemma_lead_add(s: Seq<tree::Cst>, t: Seq<tree::Cst>, kind: Seq<char>)
    requires
        forall|i: int| 0 <= i < t.len() ==> (#[trigger] t[i]).kind != kind,
    ensures
        merging::lead(s + t, kind) == merging::lead(s, kind),
    decreases t.len(),
{
    if t.len() == 0 {
        assert(s + t =~= s);
    } else {
        let u = t.drop_last();
        assert forall|i: int| 0 <= i < u.len() implies (#[trigger] u[i]).kind != kind by {
            assert(u[i] == t[i]);
        }
        lemma_lead_add(s, u, kind);
        assert((s + t).drop_last() =~= s + u);
        assert((s + t).last() == t[t.len() - 1]);
    }
}

/// Canonical order leaves the name of a tag.
proof fn lemma_lead_canonical(s: Seq<tree::Cst>)
    ensures
        merging::lead(attributes::canonical(s), "Name"@) == merging::lead(s, "Name"@),
{
    lemma_kinds();
    let p = |c: tree::Cst| !attributes::is_attribute(c);
    let q = |c: tree::Cst| attributes::is_kept_attribute(c);
    let k = attributes::kept_attributes(s);
    let r = attributes::sorted(k);
    lemma_lead_filter(s, p, "Name"@);
    crate::laws::attribute_order::lemma_sorted_contains(k);
    assert forall|i: int| 0 <= i < r.len() implies (#[trigger] r[i]).kind != "Name"@ by {
        assert(k.contains(r[i]));
        s.lemma_filter_contains_rev(q, r[i]);
        let j = choose|j: int| 0 <= j < k.len() && k[j] == r[i];
        s.lemma_filter_pred(q, j);
    }
    lemma_lead_add(attributes::others(s), r, "Name"@);
}

proof fn lemma_lead_parts(s: Seq<tree::Cst>, ns: Map<Seq<char>, Seq<char>>)
    ensures
        merging::lead(
            Seq::new(s.len(), |i: int| part(s[i], ns)),
            "Name"@,
        ) == expanded_name(merging::lead(s, "Name"@), ns),
    decreases s.len(),
{
    let r = Seq::new(s.len(), |i: int| part(s[i], ns));
    if s.len() > 0 {
        let t = s.drop_last();
        lemma_lead_parts(t, ns);
        assert(r.drop_last() =~= Seq::new(t.len(), |i: int| part(t[i], ns)));
        assert(r.last() == part(s.last(), ns));
    }
}

/// The name with the namespace it stands in, or as it is where it stands in none.
pub open spec fn expanded_name(
    name: Option<Seq<char>>,
    ns: Map<Seq<char>, Seq<char>>,
) -> Option<Seq<char>> {
    match name {
        Some(n) => if namespaces::qname(n, ns) is Some {
            namespaces::qname(n, ns)
        } else {
            Some(n)
        },
        None => None,
    }
}

/// The name of a tag in normal form is its name with the namespace it stands in.
pub proof fn law_name_of_a_tag(c: tree::Cst, ns: Map<Seq<char>, Seq<char>>)
    requires
        tag(c),
    ensures
        merging::lead(normalize::normalized(c, ns).children, "Name"@) == expanded_name(
            merging::lead(c.children, "Name"@),
            ns,
        ),
{
    lemma_kinds();
    law_parts_of_a_tag(c, ns);
    lemma_lead_parts(c.children, ns);
    lemma_lead_canonical(parts(c, ns));
}

proof fn lemma_lead_shapes(s: Seq<tree::Cst>, kind: Seq<char>)
    ensures
        merging::lead(tree::shapes(s), kind) == merging::lead(s, kind),
    decreases s.len(),
{
    if s.len() > 0 {
        lemma_lead_shapes(s.drop_last(), kind);
        assert(tree::shapes(s).drop_last() =~= tree::shapes(s.drop_last()));
        assert(tree::shapes(s).last() == tree::shape(s.last()));
    }
}

/// Tags whose names stand in different namespaces, or whose local names differ, have
/// normal forms that differ.
pub proof fn law_namespaces_make_a_difference(
    a: tree::Cst,
    m: Map<Seq<char>, Seq<char>>,
    p: Seq<char>,
    k: Seq<char>,
    b: tree::Cst,
    n: Map<Seq<char>, Seq<char>>,
    q: Seq<char>,
    l: Seq<char>,
)
    requires
        tag(a),
        tag(b),
        names_it(a, m, p, k),
        names_it(b, n, q, l),
        m[p] != n[q] || k != l,
    ensures
        tree::shape(normalize::normalized(a, m)) != tree::shape(normalize::normalized(b, n)),
{
    let x = normalize::normalized(a, m);
    let y = normalize::normalized(b, n);
    lemma_named(a, m, p, k);
    lemma_named(b, n, q, l);
    tree::lemma_shape_children(x);
    tree::lemma_shape_children(y);
    lemma_lead_shapes(x.children, "Name"@);
    lemma_lead_shapes(y.children, "Name"@);
    if tree::shape(x) == tree::shape(y) {
        names::law_expanded_names_differ(m[p], k, n[q], l);
    }
}

/// Whether the tag has the name `k` in the namespace of the prefix `p`, written with the
/// prefix, or without it where it is the empty one.
pub open spec fn names_it(
    c: tree::Cst,
    ns: Map<Seq<char>, Seq<char>>,
    p: Seq<char>,
    k: Seq<char>,
) -> bool {
    &&& ns.contains_key(p)
    &&& ns[p].len() > 0
    &&& !ns[p].contains('}')
    &&& !p.contains(':')
    &&& merging::lead(c.children, "Name"@) is Some
    &&& {
        let name = merging::lead(c.children, "Name"@)->0;
        ||| name == p + seq![':'] + k
        ||| p.len() == 0 && name == k && !k.contains(':')
    }
}

proof fn lemma_named(
    c: tree::Cst,
    ns: Map<Seq<char>, Seq<char>>,
    p: Seq<char>,
    k: Seq<char>,
)
    requires
        tag(c),
        names_it(c, ns, p, k),
    ensures
        merging::lead(normalize::normalized(c, ns).children, "Name"@) == Some(
            namespaces::expanded(ns[p], k),
        ),
{
    law_name_of_a_tag(c, ns);
    let name = merging::lead(c.children, "Name"@)->0;
    if name == p + seq![':'] + k {
        names::law_prefixed_name(p, k, ns);
    } else {
        assert(p =~= Seq::<char>::empty());
        names::law_unprefixed_name(k, ns);
    }
}

/// Whether there is no tag and no content in the tree.
pub open spec fn simple(c: tree::Cst) -> bool
    decreases c,
{
    &&& !tag(c)
    &&& c.kind != "content"@
    &&& forall|i: int| 0 <= i < c.children.len() ==> simple(#[trigger] c.children[i])
}

/// A tree without tags and content, such as an attribute, stays as it is.
pub proof fn law_simple_trees_stay(c: tree::Cst, ns: Map<Seq<char>, Seq<char>>)
    requires
        simple(c),
    ensures
        normalize::normalized(c, ns) == c,
    decreases c,
{
    let s = normalize::normalized_children(c, ns);
    assert forall|i: int| 0 <= i < s.len() implies s[i] == c.children[i] by {
        assert(simple(c.children[i]));
        law_simple_trees_stay(c.children[i], normalize::scope(c, ns));
    }
    assert(s =~= c.children);
}

/// An attribute that declares no namespace is found in the normal form of its tag, as it
/// is written.
pub proof fn law_attributes_are_kept(c: tree::Cst, ns: Map<Seq<char>, Seq<char>>, i: int)
    requires
        opens(c),
        0 <= i < c.children.len(),
        c.children[i].kind == "Attribute"@,
        simple(c.children[i]),
        !tags::declares(tags::name_of(c.children[i])),
    ensures
        normalize::normalized(c, ns).children.contains(c.children[i]),
{
    broadcast use group_to_multiset_ensures;

    lemma_kinds();
    let x = c.children[i];
    let s = parts(c, ns);
    law_parts_of_a_tag(c, ns);
    law_simple_trees_stay(x, ns);
    assert(s[i] == x);
    assert(s.contains(x));
    assert(s.to_multiset().count(x) > 0);
    tags::law_only_declarations_are_dropped(s, x);
    assert(attributes::canonical(s).to_multiset().count(x) > 0);
}

/// Two trees have the same shape where they are of one kind, say the same, and their
/// children have the same shapes, and only there.
pub proof fn law_same_shape(a: tree::Cst, b: tree::Cst)
    ensures
        tree::shape(a) == tree::shape(b) <==> {
            &&& a.kind == b.kind
            &&& a.named == b.named
            &&& a.text == b.text
            &&& a.children.len() == b.children.len()
            &&& forall|i: int|
                0 <= i < a.children.len() ==> tree::shape(#[trigger] a.children[i])
                    == tree::shape(b.children[i])
        },
{
    let x = tree::shape(a);
    let y = tree::shape(b);
    tree::lemma_shape_children(a);
    tree::lemma_shape_children(b);
    let s = tree::shapes(a.children);
    let t = tree::shapes(b.children);
    if x == y {
        assert(x.kind == y.kind && x.text == y.text && x.named == y.named);
        assert(s.len() == t.len());
        assert forall|i: int| 0 <= i < a.children.len() implies tree::shape(
            #[trigger] a.children[i],
        ) == tree::shape(b.children[i]) by {
            assert(s[i] == t[i]);
        }
    }
    if a.children.len() == b.children.len() && (forall|i: int|
        0 <= i < a.children.len() ==> tree::shape(#[trigger] a.children[i]) == tree::shape(
            b.children[i],
        )) {
        assert(s =~= t);
    }
}

} // verus!
