//! Normalisation and places: where the nodes of a document stand makes no difference to
//! the shape of its normal form.

use crate::attributes;
use crate::content;
use crate::laws::attribute_order;
use crate::namespaces;
use crate::normalize;
use crate::tree;
use vstd::prelude::*;

verus! {

/// A shape is its own shape.
pub proof fn lemma_shape_of_shape(c: tree::Cst)
    ensures
        tree::shape(tree::shape(c)) == tree::shape(c),
    decreases c,
{
    let s = tree::shape(c);
    assert forall|i: int| 0 <= i < c.children.len() implies tree::shape(#[trigger] s.children[i])
        == s.children[i] by {
        lemma_shape_of_shape(c.children[i]);
    }
    assert(tree::shape(s).children =~= s.children);
}

proof fn lemma_first_text(s: Seq<tree::Cst>, kind: Seq<char>)
    ensures
        tree::first_text(tree::shapes(s), kind) == tree::first_text(s, kind),
    decreases s.len(),
{
    if s.len() > 0 {
        lemma_first_text(s.skip(1), kind);
        assert(tree::shapes(s).skip(1) =~= tree::shapes(s.skip(1)));
        assert(tree::shapes(s)[0] == tree::shape(s[0]));
    }
}

proof fn lemma_last_text(s: Seq<tree::Cst>, kind: Seq<char>)
    ensures
        namespaces::last_text(tree::shapes(s), kind) == namespaces::last_text(s, kind),
    decreases s.len(),
{
    if s.len() > 0 {
        lemma_last_text(s.drop_last(), kind);
        assert(tree::shapes(s).drop_last() =~= tree::shapes(s.drop_last()));
        assert(tree::shapes(s).last() == tree::shape(s.last()));
    }
}

/// The name of an attribute shows in its shape.
pub proof fn lemma_attribute_name(c: tree::Cst)
    ensures
        attributes::attribute_name(tree::shape(c)) == attributes::attribute_name(c),
        attributes::is_kept_attribute(tree::shape(c)) == attributes::is_kept_attribute(c),
{
    tree::lemma_shape_children(c);
    lemma_first_text(c.children, "Name"@);
}

/// What an attribute declares shows in its shape.
pub proof fn lemma_declaration(c: tree::Cst)
    ensures
        namespaces::declaration(tree::shape(c)) == namespaces::declaration(c),
{
    tree::lemma_shape_children(c);
    lemma_last_text(c.children, "Name"@);
    lemma_last_text(c.children, "AttValue"@);
}

/// What the attributes among some nodes declare shows in their shapes.
pub proof fn lemma_declared(s: Seq<tree::Cst>)
    ensures
        namespaces::declared(tree::shapes(s)) == namespaces::declared(s),
    decreases s.len(),
{
    if s.len() > 0 {
        lemma_declared(s.drop_last());
        assert(tree::shapes(s).drop_last() =~= tree::shapes(s.drop_last()));
        assert(tree::shapes(s).last() == tree::shape(s.last()));
        lemma_declaration(s.last());
    }
}

proof fn lemma_inner_scope(s: Seq<tree::Cst>, ns: Map<Seq<char>, Seq<char>>)
    ensures
        normalize::inner_scope(tree::shapes(s), ns) == normalize::inner_scope(s, ns),
    decreases s.len(),
{
    if s.len() > 0 {
        assert(tree::shapes(s)[0] == tree::shape(s[0]));
        if normalize::is_opening_tag(s[0].kind) {
            tree::lemma_shape_children(s[0]);
            lemma_declared(s[0].children);
        } else {
            lemma_inner_scope(s.skip(1), ns);
            assert(tree::shapes(s).skip(1) =~= tree::shapes(s.skip(1)));
        }
    }
}

/// The namespaces in scope for the children of a node show in its shape.
pub proof fn lemma_scope(c: tree::Cst, ns: Map<Seq<char>, Seq<char>>)
    ensures
        normalize::scope(tree::shape(c), ns) == normalize::scope(c, ns),
{
    tree::lemma_shape_children(c);
    lemma_inner_scope(c.children, ns);
}

/// The text of a text-level node shows in its shape.
pub proof fn lemma_content_text(c: tree::Cst)
    ensures
        content::content_text(tree::shape(c)) == content::content_text(c),
{
    tree::lemma_shape_children(c);
    lemma_first_text(c.children, "CData"@);
    lemma_first_text(c.children, "Name"@);
}

proof fn lemma_text_run(s: Seq<tree::Cst>)
    ensures
        content::text_run(tree::shapes(s)) == content::text_run(s),
    decreases s.len(),
{
    if s.len() > 0 {
        lemma_text_run(s.skip(1));
        assert(tree::shapes(s).skip(1) =~= tree::shapes(s.skip(1)));
        assert(tree::shapes(s)[0] == tree::shape(s[0]));
    }
}

proof fn lemma_run_text(s: Seq<tree::Cst>)
    ensures
        content::run_text(tree::shapes(s)) == content::run_text(s),
    decreases s.len(),
{
    if s.len() > 0 {
        lemma_run_text(s.skip(1));
        assert(tree::shapes(s).skip(1) =~= tree::shapes(s.skip(1)));
        assert(tree::shapes(s)[0] == tree::shape(s[0]));
        lemma_content_text(s[0]);
    }
}

/// Runs with the same text are merged into the same shape.
pub proof fn lemma_merged_run(r: Seq<tree::Cst>, q: Seq<tree::Cst>)
    requires
        content::run_text(r) == content::run_text(q),
    ensures
        tree::shapes(content::merged_run(r)) == tree::shapes(content::merged_run(q)),
{
    let a = tree::shapes(content::merged_run(r));
    let b = tree::shapes(content::merged_run(q));
    if content::run_text(r).len() > 0 {
        let x = content::merged_run(r)[0];
        let y = content::merged_run(q)[0];
        tree::lemma_shape_children(x);
        tree::lemma_shape_children(y);
        assert(tree::shape(x).children =~= tree::shape(y).children);
        assert(tree::shape(x) == tree::shape(y));
    }
    assert(a =~= b);
}

proof fn lemma_merged(s: Seq<tree::Cst>)
    ensures
        tree::shapes(content::merged(tree::shapes(s))) == tree::shapes(content::merged(s)),
    decreases s.len(),
{
    let t = tree::shapes(s);
    if s.len() > 0 {
        assert(t[0] == tree::shape(s[0]));
        if !content::is_text_kind(s[0].kind) {
            lemma_merged(s.skip(1));
            assert(t.skip(1) =~= tree::shapes(s.skip(1)));
            lemma_shape_of_shape(s[0]);
            lemma_shapes_add(seq![t[0]], content::merged(t.skip(1)));
            lemma_shapes_add(seq![s[0]], content::merged(s.skip(1)));
            assert(tree::shapes(seq![t[0]]) =~= tree::shapes(seq![s[0]]));
        } else {
            let n = content::text_run(s);
            lemma_text_run(s);
            content::lemma_text_run_bounds(s);
            lemma_merged(s.skip(n));
            assert(t.skip(n) =~= tree::shapes(s.skip(n)));
            assert(t.take(n) =~= tree::shapes(s.take(n)));
            lemma_run_text(s.take(n));
            lemma_merged_run(t.take(n), s.take(n));
            lemma_shapes_add(content::merged_run(t.take(n)), content::merged(t.skip(n)));
            lemma_shapes_add(content::merged_run(s.take(n)), content::merged(s.skip(n)));
        }
    } else {
        assert(t =~= s);
    }
}

/// The shapes of two sequences together.
pub proof fn lemma_shapes_add(a: Seq<tree::Cst>, b: Seq<tree::Cst>)
    ensures
        tree::shapes(a + b) == tree::shapes(a) + tree::shapes(b),
{
    assert(tree::shapes(a + b) =~= tree::shapes(a) + tree::shapes(b));
}

/// Expanding a name and taking the shape may be done in either order.
pub proof fn lemma_resolved(c: tree::Cst, ns: Map<Seq<char>, Seq<char>>)
    ensures
        normalize::resolved(tree::shape(c), ns) == tree::shape(normalize::resolved(c, ns)),
{
    let r = normalize::resolved(c, ns);
    assert(tree::shape(r).children =~= tree::shape(c).children);
}

proof fn lemma_all_resolved(s: Seq<tree::Cst>, ns: Map<Seq<char>, Seq<char>>)
    ensures
        normalize::all_resolved(tree::shapes(s), ns) == tree::shapes(
            normalize::all_resolved(s, ns),
        ),
{
    assert forall|i: int| 0 <= i < s.len() implies normalize::resolved(
        #[trigger] tree::shapes(s)[i],
        ns,
    ) == tree::shape(normalize::all_resolved(s, ns)[i]) by {
        lemma_resolved(s[i], ns);
    }
    assert(normalize::all_resolved(tree::shapes(s), ns) =~= tree::shapes(
        normalize::all_resolved(s, ns),
    ));
}

/// Canonical order and taking shapes may be done in either order.
pub proof fn lemma_canonical(s: Seq<tree::Cst>)
    ensures
        attributes::others(tree::shapes(s)) == tree::shapes(attributes::others(s)),
        attributes::kept_attributes(tree::shapes(s)) == tree::shapes(
            attributes::kept_attributes(s),
        ),
        attributes::canonical(tree::shapes(s)) == tree::shapes(attributes::canonical(s)),
{
    let f = |c: tree::Cst| tree::shape(c);
    let p = |c: tree::Cst| !attributes::is_attribute(c);
    let q = |c: tree::Cst| attributes::is_kept_attribute(c);
    assert forall|i: int| 0 <= i < s.len() implies p(f(#[trigger] s[i])) == p(s[i]) && q(f(s[i]))
        == q(s[i]) by {
        lemma_attribute_name(s[i]);
    }
    attribute_order::lemma_filter_map(s, f, p);
    attribute_order::lemma_filter_map(s, f, q);
    let k = attributes::kept_attributes(s);
    assert forall|i: int| 0 <= i < k.len() implies attributes::attribute_name(f(#[trigger] k[i]))
        == attributes::attribute_name(k[i]) by {
        lemma_attribute_name(k[i]);
    }
    attribute_order::lemma_sorted_map(k, f);
    lemma_shapes_add(attributes::others(s), attributes::sorted(k));
}

/// Children of the same shapes are arranged to the same shapes.
pub proof fn lemma_arranged(
    kind: Seq<char>,
    s: Seq<tree::Cst>,
    t: Seq<tree::Cst>,
    ns: Map<Seq<char>, Seq<char>>,
)
    requires
        tree::shapes(s) == tree::shapes(t),
    ensures
        tree::shapes(normalize::arranged(kind, s, ns)) == tree::shapes(
            normalize::arranged(kind, t, ns),
        ),
{
    lemma_all_resolved(s, ns);
    lemma_all_resolved(t, ns);
    lemma_canonical(normalize::all_resolved(s, ns));
    lemma_canonical(normalize::all_resolved(t, ns));
    lemma_merged(s);
    lemma_merged(t);
}

/// A node whose children have the given shapes, arranged, has the shape that they give.
pub proof fn lemma_shape_is(a: tree::Cst, b: tree::Cst)
    requires
        a.kind == b.kind,
        a.named == b.named,
        a.text == b.text,
        tree::shapes(a.children) == tree::shapes(b.children),
    ensures
        tree::shape(a) == tree::shape(b),
{
    tree::lemma_shape_children(a);
    tree::lemma_shape_children(b);
}

proof fn lemma_normalized_shape(c: tree::Cst, ns: Map<Seq<char>, Seq<char>>)
    ensures
        tree::shape(normalize::normalized(tree::shape(c), ns)) == tree::shape(
            normalize::normalized(c, ns),
        ),
    decreases c,
{
    let d = tree::shape(c);
    let s = normalize::normalized_children(c, ns);
    let t = normalize::normalized_children(d, ns);
    lemma_scope(c, ns);
    assert forall|i: int| 0 <= i < s.len() implies tree::shape(#[trigger] t[i]) == tree::shape(
        s[i],
    ) by {
        lemma_normalized_shape(c.children[i], normalize::scope(c, ns));
        assert(d.children[i] == tree::shape(c.children[i]));
    }
    assert(tree::shapes(t) =~= tree::shapes(s));
    lemma_arranged(c.kind, s, t, ns);
    lemma_shape_is(normalize::normalized(d, ns), normalize::normalized(c, ns));
}

/// Documents of the same shape have normal forms of the same shape: where their nodes
/// stand makes no difference.
pub proof fn law_places_make_no_difference(
    a: tree::Cst,
    b: tree::Cst,
    ns: Map<Seq<char>, Seq<char>>,
)
    requires
        tree::shape(a) == tree::shape(b),
    ensures
        tree::shape(normalize::normalized(a, ns)) == tree::shape(normalize::normalized(b, ns)),
{
    lemma_normalized_shape(a, ns);
    lemma_normalized_shape(b, ns);
}

} // verus!
