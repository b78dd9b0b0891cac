//! Documents that mean the same have the same normal form.

use crate::attributes;
use crate::content;
use crate::laws::attribute_order;
use crate::laws::shapes;
use crate::namespaces;
use crate::normalize;
use crate::tree;
use vstd::prelude::*;

verus! {

/// Whether there is no tag in the tree, so that no name in it is expanded.
pub open spec fn plain(c: tree::Cst) -> bool
    decreases c,
{
    &&& !normalize::is_tag(c.kind)
    &&& forall|i: int| 0 <= i < c.children.len() ==> plain(#[trigger] c.children[i])
}

/// Whether two parts of tags, in the scope of the namespaces `m` and `n`, mean the same:
/// names that expand to the same name, other parts that have the same shape.
pub open spec fn same_part(
    x: tree::Cst,
    m: Map<Seq<char>, Seq<char>>,
    y: tree::Cst,
    n: Map<Seq<char>, Seq<char>>,
) -> bool {
    &&& plain(x)
    &&& plain(y)
    &&& if x.kind == "Name"@ {
        &&& y.kind == x.kind
        &&& y.named == x.named
        &&& tree::shapes(y.children) == tree::shapes(x.children)
        &&& normalize::resolved(y, n).text == normalize::resolved(x, m).text
    } else {
        tree::shape(y) == tree::shape(x)
    }
}

/// Whether parts of tags mean the same, one by one.
pub open spec fn same_parts(
    s: Seq<tree::Cst>,
    m: Map<Seq<char>, Seq<char>>,
    t: Seq<tree::Cst>,
    n: Map<Seq<char>, Seq<char>>,
) -> bool {
    &&& s.len() == t.len()
    &&& forall|i: int| 0 <= i < s.len() ==> same_part(#[trigger] s[i], m, t[i], n)
}

/// Whether these are the same attributes, no two of one name, in whatever order.
pub open spec fn same_attributes(s: Seq<tree::Cst>, t: Seq<tree::Cst>) -> bool {
    &&& forall|i: int| 0 <= i < s.len() ==> plain(#[trigger] s[i])
    &&& forall|i: int| 0 <= i < t.len() ==> plain(#[trigger] t[i])
    &&& attribute_order::distinct_names(s)
    &&& tree::shapes(s).to_multiset() == tree::shapes(t).to_multiset()
}

/// Whether two tags mean the same. Their namespace declarations may differ, and their
/// attributes may stand in any order.
pub open spec fn same_tag(
    a: tree::Cst,
    m: Map<Seq<char>, Seq<char>>,
    b: tree::Cst,
    n: Map<Seq<char>, Seq<char>>,
) -> bool {
    if normalize::is_opening_tag(a.kind) {
        &&& same_parts(attributes::others(a.children), m, attributes::others(b.children), n)
        &&& same_attributes(
            attributes::kept_attributes(a.children),
            attributes::kept_attributes(b.children),
        )
    } else {
        same_parts(a.children, m, b.children, n)
    }
}

/// Whether element content means the same from the child `i` of `a` and the child `j` of
/// `b` on: the text up to the next node that is no text is the same, however it is
/// written, and so is what follows.
pub open spec fn same_content(
    a: tree::Cst,
    i: nat,
    m: Map<Seq<char>, Seq<char>>,
    b: tree::Cst,
    j: nat,
    n: Map<Seq<char>, Seq<char>>,
) -> bool
    decreases a, a.children.len() - i,
{
    let s = a.children.skip(i as int);
    let t = b.children.skip(j as int);
    let k = i + content::text_run(s);
    let l = j + content::text_run(t);
    &&& i <= a.children.len()
    &&& j <= b.children.len()
    &&& content::run_text(s.take(content::text_run(s))) == content::run_text(
        t.take(content::text_run(t)),
    )
    &&& if i <= k < a.children.len() {
        &&& j <= l < b.children.len()
        &&& equivalent(a.children[k], m, b.children[l], n)
        &&& same_content(a, (k + 1) as nat, m, b, (l + 1) as nat, n)
    } else {
        l >= b.children.len()
    }
}

/// Whether two trees, in the scope of the namespaces `m` and `n`, mean the same. They may
/// differ in the order of attributes, in how text is written (as a CDATA section or with
/// references), and in the prefixes by which names refer to namespaces.
pub open spec fn equivalent(
    a: tree::Cst,
    m: Map<Seq<char>, Seq<char>>,
    b: tree::Cst,
    n: Map<Seq<char>, Seq<char>>,
) -> bool
    decreases a, a.children.len() + 1,
{
    ||| m == n && tree::shape(a) == tree::shape(b)
    ||| {
        &&& a.kind == b.kind
        &&& a.named == b.named
        &&& a.text == b.text
        &&& if normalize::is_tag(a.kind) {
            same_tag(a, m, b, n)
        } else if a.kind == "content"@ {
            same_content(a, 0, m, b, 0, n)
        } else {
            &&& a.children.len() == b.children.len()
            &&& forall|i: int|
                0 <= i < a.children.len() ==> equivalent(
                    #[trigger] a.children[i],
                    normalize::scope(a, m),
                    b.children[i],
                    normalize::scope(b, n),
                )
        }
    }
}

/// Whether the trees have the same kinds and texts, one by one.
spec fn alike(s: Seq<tree::Cst>, t: Seq<tree::Cst>) -> bool {
    &&& s.len() == t.len()
    &&& forall|i: int|
        0 <= i < s.len() ==> (#[trigger] s[i]).kind == t[i].kind && s[i].text == t[i].text
}

proof fn lemma_alike_children(c: tree::Cst, ns: Map<Seq<char>, Seq<char>>)
    ensures
        alike(normalize::normalized_children(c, ns), c.children),
{
}

proof fn lemma_alike_first_text(s: Seq<tree::Cst>, t: Seq<tree::Cst>, kind: Seq<char>)
    requires
        alike(s, t),
    ensures
        tree::first_text(s, kind) == tree::first_text(t, kind),
    decreases s.len(),
{
    if s.len() > 0 {
        assert(s[0].kind == t[0].kind && s[0].text == t[0].text);
        assert(alike(s.skip(1), t.skip(1))) by {
            assert forall|i: int| 0 <= i < s.skip(1).len() implies (
            #[trigger] s.skip(1)[i]).kind == t.skip(1)[i].kind && s.skip(1)[i].text == t.skip(
                1,
            )[i].text by {
                assert(s[i + 1].kind == t[i + 1].kind);
            }
        }
        lemma_alike_first_text(s.skip(1), t.skip(1), kind);
    }
}

/// The normal form of an attribute has its name.
pub proof fn lemma_attribute_kept(c: tree::Cst, ns: Map<Seq<char>, Seq<char>>)
    requires
        attributes::is_attribute(c),
    ensures
        attributes::attribute_name(normalize::normalized(c, ns)) == attributes::attribute_name(c),
        normalize::resolved(normalize::normalized(c, ns), ns) == normalize::normalized(c, ns),
{
    normalize::lemma_kinds();
    lemma_alike_children(c, ns);
    lemma_alike_first_text(normalize::normalized_children(c, ns), c.children, "Name"@);
}

/// Text-level nodes are no tags, no elements and no content.
proof fn lemma_text_kinds(kind: Seq<char>)
    requires
        content::is_text_kind(kind),
    ensures
        !normalize::is_tag(kind),
        kind != "content"@,
        kind != "element"@,
{
    reveal_strlit("CharData");
    reveal_strlit("CDSect");
    reveal_strlit("EntityRef");
    reveal_strlit("element");
    reveal_strlit("content");
    reveal_strlit("STag");
    reveal_strlit("ETag");
    reveal_strlit("EmptyElemTag");
    assert("CharData"@[0] == 'C');
    assert("CDSect"@[0] == 'C');
    assert("EntityRef"@[1] == 'n');
    assert("EntityRef"@.len() == 9);
    assert("STag"@.len() == 4 && "ETag"@.len() == 4 && "EmptyElemTag"@.len() == 12);
    assert("STag"@[0] == 'S' && "ETag"@[0] == 'E');
    assert("EmptyElemTag"@[0] == 'E');
    assert("element"@[0] == 'e' && "content"@[0] == 'c');
}

/// The normal form of a text-level node has its text.
pub proof fn lemma_text_kept(c: tree::Cst, ns: Map<Seq<char>, Seq<char>>)
    requires
        content::is_text_kind(c.kind),
    ensures
        content::content_text(normalize::normalized(c, ns)) == content::content_text(c),
{
    lemma_text_kinds(c.kind);
    lemma_alike_children(c, ns);
    let s = normalize::normalized_children(c, ns);
    lemma_alike_first_text(s, c.children, "CData"@);
    lemma_alike_first_text(s, c.children, "Name"@);
}

/// The namespaces in scope make no difference to a tree without tags.
pub proof fn lemma_plain(
    c: tree::Cst,
    m: Map<Seq<char>, Seq<char>>,
    n: Map<Seq<char>, Seq<char>>,
)
    requires
        plain(c),
    ensures
        normalize::normalized(c, m) == normalize::normalized(c, n),
    decreases c,
{
    let s = normalize::normalized_children(c, m);
    let t = normalize::normalized_children(c, n);
    assert forall|i: int| 0 <= i < s.len() implies s[i] == t[i] by {
        assert(plain(c.children[i]));
        lemma_plain(c.children[i], normalize::scope(c, m), normalize::scope(c, n));
    }
    assert(s =~= t);
}

/// What becomes of a part of a tag.
pub open spec fn part(ns: Map<Seq<char>, Seq<char>>) -> spec_fn(tree::Cst) -> tree::Cst {
    |x: tree::Cst| normalize::resolved(normalize::normalized(x, ns), ns)
}

proof fn lemma_same_part(
    x: tree::Cst,
    m: Map<Seq<char>, Seq<char>>,
    y: tree::Cst,
    n: Map<Seq<char>, Seq<char>>,
)
    requires
        same_part(x, m, y, n),
    ensures
        tree::shape(part(m)(x)) == tree::shape(part(n)(y)),
{
    lemma_plain(y, m, n);
    if x.kind == "Name"@ {
        let z = tree::Cst { text: y.text, ..x };
        shapes::lemma_shape_is(z, y);
        shapes::law_places_make_no_difference(z, y, m);
        normalize::lemma_kinds();
        assert(normalize::normalized_children(z, m) =~= normalize::normalized_children(x, m));
        let p = part(m)(x);
        let q = part(n)(y);
        tree::lemma_shape_children(normalize::normalized(z, m));
        tree::lemma_shape_children(normalize::normalized(y, m));
        shapes::lemma_shape_is(p, q);
    } else {
        tree::lemma_shape_children(x);
        tree::lemma_shape_children(y);
        assert(tree::shape(x).kind == x.kind);
        assert(tree::shape(y).kind == y.kind);
        shapes::law_places_make_no_difference(x, y, m);
    }
}

proof fn lemma_same_parts(
    s: Seq<tree::Cst>,
    m: Map<Seq<char>, Seq<char>>,
    t: Seq<tree::Cst>,
    n: Map<Seq<char>, Seq<char>>,
)
    requires
        same_parts(s, m, t, n),
    ensures
        tree::shapes(s.map_values(part(m))) == tree::shapes(t.map_values(part(n))),
{
    assert forall|i: int| 0 <= i < s.len() implies tree::shape(part(m)(#[trigger] s[i]))
        == tree::shape(part(n)(t[i])) by {
        lemma_same_part(s[i], m, t[i], n);
    }
    assert(tree::shapes(s.map_values(part(m))) =~= tree::shapes(t.map_values(part(n))));
}

/// What becomes of the shape of an attribute.
spec fn attribute_shape() -> spec_fn(tree::Cst) -> tree::Cst {
    |x: tree::Cst| tree::shape(normalize::normalized(x, Map::empty()))
}

/// The shapes of sorted attributes in normal form follow from the sorted shapes.
proof fn lemma_sorted_shapes(s: Seq<tree::Cst>, m: Map<Seq<char>, Seq<char>>)
    requires
        forall|i: int| 0 <= i < s.len() ==> plain(#[trigger] s[i]),
        forall|i: int| 0 <= i < s.len() ==> attributes::is_attribute(#[trigger] s[i]),
    ensures
        tree::shapes(attributes::sorted(s.map_values(part(m)))) == attributes::sorted(
            tree::shapes(s),
        ).map_values(attribute_shape()),
{
    let f = |c: tree::Cst| tree::shape(c);
    let g = attribute_shape();
    let x = s.map_values(part(m));
    assert forall|i: int| 0 <= i < x.len() implies attributes::attribute_name(f(#[trigger] x[i]))
        == attributes::attribute_name(x[i]) by {
        shapes::lemma_attribute_name(x[i]);
    }
    attribute_order::lemma_sorted_map(x, f);
    let y = tree::shapes(s);
    assert forall|i: int| 0 <= i < s.len() implies f(#[trigger] x[i]) == g(y[i])
        && attributes::attribute_name(g(y[i])) == attributes::attribute_name(y[i]) by {
        assert(plain(s[i]));
        assert(attributes::is_attribute(s[i]));
        lemma_attribute_kept(s[i], m);
        lemma_plain(s[i], m, Map::empty());
        shapes::lemma_shape_of_shape(s[i]);
        shapes::law_places_make_no_difference(s[i], y[i], Map::empty());
        lemma_attribute_kept(y[i], Map::empty());
        shapes::lemma_attribute_name(normalize::normalized(y[i], Map::empty()));
    }
    assert(x.map_values(f) =~= y.map_values(g));
    assert forall|i: int| 0 <= i < y.len() implies attributes::attribute_name(g(#[trigger] y[i]))
        == attributes::attribute_name(y[i]) by {
        assert(f(x[i]) == g(y[i]));
    }
    attribute_order::lemma_sorted_map(y, g);
}

proof fn lemma_same_attributes(
    s: Seq<tree::Cst>,
    m: Map<Seq<char>, Seq<char>>,
    t: Seq<tree::Cst>,
    n: Map<Seq<char>, Seq<char>>,
)
    requires
        same_attributes(s, t),
        forall|i: int| 0 <= i < s.len() ==> attributes::is_attribute(#[trigger] s[i]),
        forall|i: int| 0 <= i < t.len() ==> attributes::is_attribute(#[trigger] t[i]),
    ensures
        tree::shapes(attributes::sorted(s.map_values(part(m)))) == tree::shapes(
            attributes::sorted(t.map_values(part(n))),
        ),
{
    let x = tree::shapes(s);
    assert forall|i: int, j: int| 0 <= i < j < x.len() implies attributes::attribute_name(
        #[trigger] x[i],
    ) != attributes::attribute_name(#[trigger] x[j]) by {
        shapes::lemma_attribute_name(s[i]);
        shapes::lemma_attribute_name(s[j]);
        assert(attributes::attribute_name(s[i]) != attributes::attribute_name(s[j]));
    }
    attribute_order::law_order_of_attributes_is_lost(x, tree::shapes(t));
    lemma_sorted_shapes(s, m);
    lemma_sorted_shapes(t, n);
}

/// The parts of an opening tag in normal form.
pub proof fn lemma_opening_tag(s: Seq<tree::Cst>, m: Map<Seq<char>, Seq<char>>)
    ensures
        attributes::others(s.map_values(part(m))) == attributes::others(s).map_values(part(m)),
        attributes::kept_attributes(s.map_values(part(m))) == attributes::kept_attributes(
            s,
        ).map_values(part(m)),
        forall|i: int|
            0 <= i < attributes::kept_attributes(s).len() ==> attributes::is_attribute(
                #[trigger] attributes::kept_attributes(s)[i],
            ),
{
    let f = part(m);
    let p = |c: tree::Cst| !attributes::is_attribute(c);
    let q = |c: tree::Cst| attributes::is_kept_attribute(c);
    assert forall|i: int| 0 <= i < s.len() implies p(f(#[trigger] s[i])) == p(s[i]) && q(f(s[i]))
        == q(s[i]) by {
        if attributes::is_attribute(s[i]) {
            lemma_attribute_kept(s[i], m);
        }
    }
    attribute_order::lemma_filter_map(s, f, p);
    attribute_order::lemma_filter_map(s, f, q);
    let k = attributes::kept_attributes(s);
    assert forall|i: int| 0 <= i < k.len() implies attributes::is_attribute(#[trigger] k[i]) by {
        s.lemma_filter_pred(q, i);
    }
}

proof fn lemma_same_tag(
    a: tree::Cst,
    m: Map<Seq<char>, Seq<char>>,
    b: tree::Cst,
    n: Map<Seq<char>, Seq<char>>,
)
    requires
        a.kind == b.kind,
        normalize::is_tag(a.kind),
        same_tag(a, m, b, n),
    ensures
        tree::shapes(normalize::normalized(a, m).children) == tree::shapes(
            normalize::normalized(b, n).children,
        ),
{
    normalize::lemma_kinds();
    let s = a.children.map_values(part(m));
    let t = b.children.map_values(part(n));
    assert(normalize::all_resolved(normalize::normalized_children(a, m), m) =~= s);
    assert(normalize::all_resolved(normalize::normalized_children(b, n), n) =~= t);
    if normalize::is_opening_tag(a.kind) {
        let o = attributes::others(a.children);
        let p = attributes::others(b.children);
        let k = attributes::kept_attributes(a.children);
        let l = attributes::kept_attributes(b.children);
        lemma_opening_tag(a.children, m);
        lemma_opening_tag(b.children, n);
        lemma_same_parts(o, m, p, n);
        lemma_same_attributes(k, m, l, n);
        shapes::lemma_shapes_add(attributes::others(s), attributes::sorted(k.map_values(part(m))));
        shapes::lemma_shapes_add(attributes::others(t), attributes::sorted(l.map_values(part(n))));
    } else {
        lemma_same_parts(a.children, m, b.children, n);
    }
}

/// Merging treats the text at the start of a sequence, then what follows.
pub proof fn lemma_merged_step(s: Seq<tree::Cst>)
    ensures
        0 <= content::text_run(s) <= s.len(),
        content::merged(s) == content::merged_run(s.take(content::text_run(s))) + content::merged(
            s.skip(content::text_run(s)),
        ),
        content::text_run(s) < s.len() ==> content::merged(s.skip(content::text_run(s))) == seq![
            s[content::text_run(s)],
        ] + content::merged(s.skip(content::text_run(s) + 1)),
    decreases s.len(),
{
    content::lemma_text_run_bounds(s);
    let r = content::text_run(s);
    lemma_run_ends(s);
    if r == 0 {
        assert(s.take(0) =~= Seq::<tree::Cst>::empty());
        assert(s.skip(0) =~= s);
        assert(content::merged_run(s.take(0)) + content::merged(s) =~= content::merged(s));
    }
    if r < s.len() {
        assert(s.skip(r)[0] == s[r]);
        assert(s.skip(r).skip(1) =~= s.skip(r + 1));
    }
}

proof fn lemma_run_ends(s: Seq<tree::Cst>)
    ensures
        0 <= content::text_run(s) <= s.len(),
        content::text_run(s) < s.len() ==> !content::is_text_kind(s[content::text_run(s)].kind),
        forall|i: int|
            0 <= i < content::text_run(s) ==> content::is_text_kind((#[trigger] s[i]).kind),
    decreases s.len(),
{
    if s.len() > 0 && content::is_text_kind(s[0].kind) {
        lemma_run_ends(s.skip(1));
        assert forall|i: int| 0 <= i < content::text_run(s) implies content::is_text_kind(
            (#[trigger] s[i]).kind,
        ) by {
            if i > 0 {
                assert(s.skip(1)[i - 1] == s[i]);
            }
        }
    }
}

/// The text of a run is that of its normal form.
proof fn lemma_run_kept(c: tree::Cst, i: int, r: int, ns: Map<Seq<char>, Seq<char>>)
    requires
        c.kind == "content"@,
        0 <= i <= i + r <= c.children.len(),
        forall|k: int| i <= k < i + r ==> content::is_text_kind((#[trigger] c.children[k]).kind),
    ensures
        content::run_text(normalize::normalized_children(c, ns).subrange(i, i + r))
            == content::run_text(c.children.subrange(i, i + r)),
    decreases r,
{
    normalize::lemma_kinds();
    let s = normalize::normalized_children(c, ns);
    if r > 0 {
        lemma_run_kept(c, i + 1, r - 1, ns);
        assert(s.subrange(i, i + r).skip(1) =~= s.subrange(i + 1, i + r));
        assert(c.children.subrange(i, i + r).skip(1) =~= c.children.subrange(i + 1, i + r));
        assert(content::is_text_kind(c.children[i].kind));
        lemma_text_kept(c.children[i], ns);
    }
}

/// Runs end in the normal form where they end in the document.
proof fn lemma_run_same(c: tree::Cst, i: int, ns: Map<Seq<char>, Seq<char>>)
    requires
        c.kind == "content"@,
        0 <= i <= c.children.len(),
    ensures
        content::text_run(normalize::normalized_children(c, ns).skip(i)) == content::text_run(
            c.children.skip(i),
        ),
        content::run_text(
            normalize::normalized_children(c, ns).skip(i).take(
                content::text_run(c.children.skip(i)),
            ),
        ) == content::run_text(c.children.skip(i).take(content::text_run(c.children.skip(i)))),
{
    let all = normalize::normalized_children(c, ns);
    let s = all.skip(i);
    let t = c.children.skip(i);
    let r = content::text_run(t);
    lemma_run_ends(t);
    assert forall|k: int| 0 <= k < r implies content::is_text_kind(#[trigger] s[k].kind) by {
        assert(content::is_text_kind(t[k].kind));
    }
    assert(r < s.len() ==> s[r].kind == t[r].kind);
    content::lemma_text_run_is(s, r);
    assert forall|k: int| i <= k < i + r implies content::is_text_kind(
        (#[trigger] c.children[k]).kind,
    ) by {
        assert(t[k - i] == c.children[k]);
    }
    lemma_run_kept(c, i, r, ns);
    assert(s.take(r) =~= all.subrange(i, i + r));
    assert(t.take(r) =~= c.children.subrange(i, i + r));
}

proof fn lemma_same_content(
    a: tree::Cst,
    i: nat,
    m: Map<Seq<char>, Seq<char>>,
    b: tree::Cst,
    j: nat,
    n: Map<Seq<char>, Seq<char>>,
)
    requires
        a.kind == "content"@,
        b.kind == "content"@,
        same_content(a, i, m, b, j, n),
    ensures
        tree::shapes(content::merged(normalize::normalized_children(a, m).skip(i as int)))
            == tree::shapes(content::merged(normalize::normalized_children(b, n).skip(j as int))),
    decreases a, a.children.len() - i,
{
    normalize::lemma_kinds();
    let all = normalize::normalized_children(a, m);
    let bll = normalize::normalized_children(b, n);
    let s = all.skip(i as int);
    let t = bll.skip(j as int);
    lemma_run_same(a, i as int, m);
    lemma_run_same(b, j as int, n);
    let r = content::text_run(s);
    let q = content::text_run(t);
    lemma_merged_step(s);
    lemma_merged_step(t);
    shapes::lemma_merged_run(s.take(r), t.take(q));
    shapes::lemma_shapes_add(content::merged_run(s.take(r)), content::merged(s.skip(r)));
    shapes::lemma_shapes_add(content::merged_run(t.take(q)), content::merged(t.skip(q)));
    if r < s.len() {
        let k = i + r;
        let l = j + q;
        law_equivalent_documents(a.children[k], m, b.children[l], n);
        lemma_same_content(a, (k + 1) as nat, m, b, (l + 1) as nat, n);
        assert(s.skip(r + 1) =~= all.skip(k + 1));
        assert(t.skip(q + 1) =~= bll.skip(l + 1));
        shapes::lemma_shapes_add(seq![s[r]], content::merged(s.skip(r + 1)));
        shapes::lemma_shapes_add(seq![t[q]], content::merged(t.skip(q + 1)));
        assert(s[r] == normalize::normalized(a.children[k], m));
        assert(t[q] == normalize::normalized(b.children[l], n));
        assert(tree::shapes(seq![s[r]]) =~= tree::shapes(seq![t[q]]));
    } else {
        assert(s.skip(r) =~= Seq::<tree::Cst>::empty());
        assert(t.skip(q) =~= Seq::<tree::Cst>::empty());
    }
}

/// Documents that mean the same have normal forms of the same shape: the order of
/// attributes, the way in which text is written, and the choice of prefixes are lost.
pub proof fn law_equivalent_documents(
    a: tree::Cst,
    m: Map<Seq<char>, Seq<char>>,
    b: tree::Cst,
    n: Map<Seq<char>, Seq<char>>,
)
    requires
        equivalent(a, m, b, n),
    ensures
        tree::shape(normalize::normalized(a, m)) == tree::shape(normalize::normalized(b, n)),
    decreases a, a.children.len() + 1,
{
    if m == n && tree::shape(a) == tree::shape(b) {
        shapes::law_places_make_no_difference(a, b, m);
    } else {
        let s = normalize::normalized_children(a, m);
        let t = normalize::normalized_children(b, n);
        if normalize::is_tag(a.kind) {
            lemma_same_tag(a, m, b, n);
        } else if a.kind == "content"@ {
            lemma_same_content(a, 0, m, b, 0, n);
            assert(s.skip(0) =~= s);
            assert(t.skip(0) =~= t);
        } else {
            assert forall|i: int| 0 <= i < s.len() implies tree::shape(#[trigger] s[i])
                == tree::shape(t[i]) by {
                law_equivalent_documents(
                    a.children[i],
                    normalize::scope(a, m),
                    b.children[i],
                    normalize::scope(b, n),
                );
            }
            assert(tree::shapes(s) =~= tree::shapes(t));
        }
        shapes::lemma_shape_is(normalize::normalized(a, m), normalize::normalized(b, n));
    }
}

/// The attributes of an opening tag that are no namespace declarations, each in normal
/// form.
pub open spec fn normal_attributes(
    c: tree::Cst,
    ns: Map<Seq<char>, Seq<char>>,
) -> Seq<tree::Cst> {
    attributes::kept_attributes(c.children).map_values(
        |x: tree::Cst| normalize::normalized(x, ns),
    )
}

proof fn lemma_normal_attributes(a: tree::Cst, m: Map<Seq<char>, Seq<char>>)
    requires
        normalize::is_opening_tag(a.kind),
    ensures
        tree::shapes(normal_attributes(a, m)).to_multiset() == attributes::kept_attributes(
            tree::shapes(normalize::normalized(a, m).children),
        ).to_multiset(),
{
    let s = a.children.map_values(part(m));
    let k = attributes::kept_attributes(a.children);
    normalize::lemma_kinds();
    assert(normalize::all_resolved(normalize::normalized_children(a, m), m) =~= s);
    lemma_opening_tag(a.children, m);
    assert forall|i: int| 0 <= i < k.len() implies part(m)(#[trigger] k[i])
        == normalize::normalized(k[i], m) by {
        assert(attributes::is_attribute(k[i]));
        lemma_attribute_kept(k[i], m);
    }
    assert(k.map_values(part(m)) =~= normal_attributes(a, m));
    shapes::lemma_canonical(s);
    attribute_order::lemma_canonical_parts(tree::shapes(s));
    attribute_order::law_sorting(attributes::kept_attributes(tree::shapes(s)));
}

/// Tags whose attributes differ, in a name or in a value, have normal forms that differ.
pub proof fn law_attributes_make_a_difference(
    a: tree::Cst,
    m: Map<Seq<char>, Seq<char>>,
    b: tree::Cst,
    n: Map<Seq<char>, Seq<char>>,
)
    requires
        normalize::is_opening_tag(a.kind),
        normalize::is_opening_tag(b.kind),
        tree::shapes(normal_attributes(a, m)).to_multiset() != tree::shapes(
            normal_attributes(b, n),
        ).to_multiset(),
    ensures
        tree::shape(normalize::normalized(a, m)) != tree::shape(normalize::normalized(b, n)),
{
    lemma_normal_attributes(a, m);
    lemma_normal_attributes(b, n);
    tree::lemma_shape_children(normalize::normalized(a, m));
    tree::lemma_shape_children(normalize::normalized(b, n));
}

} // verus!
