//! What normalisation promises: attribute order, CDATA sections and namespace prefixes.

use crate::attributes;
use crate::content;
use crate::laws::attribute_order;
use crate::laws::equivalence;
use crate::laws::references;
use crate::laws::shapes;
use crate::namespaces;
use crate::normalize;
use crate::text;
use crate::tree;
use vstd::multiset::*;
use vstd::prelude::*;
use vstd::seq_lib::*;

verus! {

/// The prefix that an attribute declares, where it declares one.
pub open spec fn declared_prefix(c: tree::Cst) -> Option<Seq<char>> {
    match namespaces::declaration(c) {
        Some((prefix, _)) => Some(prefix),
        None => None,
    }
}

/// Whether no prefix is declared for two different URIs.
pub open spec fn declarations_agree(s: Seq<tree::Cst>) -> bool {
    forall|i: int, j: int|
        0 <= i < j < s.len() && declared_prefix(#[trigger] s[i]) is Some && declared_prefix(s[i])
            == declared_prefix(#[trigger] s[j]) ==> namespaces::declaration(s[i])
            == namespaces::declaration(s[j])
}

/// Every binding comes from a declaration, and every declaration binds its prefix.
pub proof fn law_declared_namespaces(s: Seq<tree::Cst>, prefix: Seq<char>)
    ensures
        namespaces::declared(s).contains_key(prefix) <==> exists|i: int|
            0 <= i < s.len() && declared_prefix(#[trigger] s[i]) == Some(prefix),
        namespaces::declared(s).contains_key(prefix) ==> exists|i: int|
            0 <= i < s.len() && namespaces::declaration(#[trigger] s[i]) == Some(
                (prefix, namespaces::declared(s)[prefix]),
            ),
    decreases s.len(),
{
    if s.len() > 0 {
        let t = s.drop_last();
        let n = s.len() - 1;
        law_declared_namespaces(t, prefix);
        if declared_prefix(s.last()) == Some(prefix) {
            assert(namespaces::declaration(s[n]) == Some(
                (prefix, namespaces::declared(s)[prefix]),
            ));
        } else if namespaces::declared(t).contains_key(prefix) {
            let i = choose|i: int|
                0 <= i < t.len() && namespaces::declaration(#[trigger] t[i]) == Some(
                    (prefix, namespaces::declared(t)[prefix]),
                );
            assert(s[i] == t[i]);
            assert(namespaces::declared(s)[prefix] == namespaces::declared(t)[prefix]);
        } else {
            assert forall|i: int|
                0 <= i < s.len() && declared_prefix(#[trigger] s[i]) == Some(
                    prefix,
                ) implies false by {
                if i < n {
                    assert(t[i] == s[i]);
                }
            }
        }
    }
}

/// Where no prefix is declared for two URIs, the order of the declarations makes no
/// difference.
pub proof fn lemma_declared_rearranged(x: Seq<tree::Cst>, y: Seq<tree::Cst>)
    requires
        x.to_multiset() == y.to_multiset(),
        declarations_agree(x),
    ensures
        namespaces::declared(x) == namespaces::declared(y),
{
    broadcast use group_to_multiset_ensures;

    let a = namespaces::declared(x);
    let b = namespaces::declared(y);
    assert forall|k: Seq<char>|
        #![trigger a.dom().contains(k)]
        #![trigger b.dom().contains(k)]
        #![trigger a[k]]
        a.dom().contains(k) == b.dom().contains(k) && (a.dom().contains(k) ==> a[k] == b[k]) by {
        law_declared_namespaces(x, k);
        law_declared_namespaces(y, k);
        if a.contains_key(k) {
            let i = choose|i: int|
                0 <= i < x.len() && namespaces::declaration(#[trigger] x[i]) == Some((k, a[k]));
            assert(x.contains(x[i]));
            assert(x.to_multiset().count(x[i]) > 0);
            assert(y.contains(x[i]));
            let j = choose|j: int| 0 <= j < y.len() && y[j] == x[i];
            assert(declared_prefix(y[j]) == Some(k));
            assert(b.contains_key(k));
        }
        if b.contains_key(k) {
            let j = choose|j: int|
                0 <= j < y.len() && namespaces::declaration(#[trigger] y[j]) == Some((k, b[k]));
            assert(y.contains(y[j]));
            assert(y.to_multiset().count(y[j]) > 0);
            assert(x.contains(y[j]));
            let l = choose|l: int| 0 <= l < x.len() && x[l] == y[j];
            assert(declared_prefix(x[l]) == Some(k));
            assert(a.contains_key(k));
            let i = choose|i: int|
                0 <= i < x.len() && namespaces::declaration(#[trigger] x[i]) == Some((k, a[k]));
            if i != l {
                assert(declared_prefix(x[i]) == declared_prefix(x[l]));
            }
        }
    }
    assert(a.dom() =~= b.dom());
    assert(a =~= b);
}

/// Filtering and counting may be done in either order.
pub proof fn lemma_filter_multiset(s: Seq<tree::Cst>, p: spec_fn(tree::Cst) -> bool)
    ensures
        s.filter(p).to_multiset() == s.to_multiset().filter(p),
    decreases s.len(),
{
    broadcast use group_to_multiset_ensures;

    reveal(Seq::filter);
    if s.len() > 0 {
        let t = s.drop_last();
        lemma_filter_multiset(t, p);
        assert(s =~= t.push(s.last()));
        assert(s.filter(p).to_multiset() =~= s.to_multiset().filter(p));
    } else {
        assert(s.filter(p).to_multiset() =~= s.to_multiset().filter(p));
    }
}

/// Whether an opening tag is written like another one with its attributes in some other
/// order.
pub open spec fn attributes_reordered(a: tree::Cst, b: tree::Cst) -> bool {
    &&& normalize::is_opening_tag(a.kind)
    &&& a.kind == b.kind
    &&& a.named == b.named
    &&& a.text == b.text
    &&& tree::shapes(a.children).to_multiset() == tree::shapes(b.children).to_multiset()
    &&& tree::shapes(attributes::others(a.children)) == tree::shapes(
        attributes::others(b.children),
    )
}

/// Whether the tag is as XML asks for: no tag in it, no attribute twice, no prefix
/// declared for two URIs.
pub open spec fn proper_tag(c: tree::Cst) -> bool {
    &&& forall|i: int| 0 <= i < c.children.len() ==> equivalence::plain(#[trigger] c.children[i])
    &&& attribute_order::distinct_names(attributes::kept_attributes(c.children))
    &&& declarations_agree(c.children)
}

/// A part of a tag means the same as another one of the same shape.
proof fn lemma_same_shape_part(x: tree::Cst, y: tree::Cst, ns: Map<Seq<char>, Seq<char>>)
    requires
        tree::shape(x) == tree::shape(y),
        equivalence::plain(x),
        equivalence::plain(y),
    ensures
        equivalence::same_part(x, ns, y, ns),
{
    tree::lemma_shape_children(x);
    tree::lemma_shape_children(y);
    assert(tree::shape(x).text == x.text && tree::shape(y).text == y.text);
    assert(tree::shape(x).kind == x.kind && tree::shape(y).kind == y.kind);
    assert(tree::shape(x).named == x.named && tree::shape(y).named == y.named);
}

/// Filtered trees come from the trees that were filtered.
proof fn lemma_plain_filtered(s: Seq<tree::Cst>, p: spec_fn(tree::Cst) -> bool)
    requires
        forall|i: int| 0 <= i < s.len() ==> equivalence::plain(#[trigger] s[i]),
    ensures
        forall|i: int|
            0 <= i < s.filter(p).len() ==> equivalence::plain(#[trigger] s.filter(p)[i]),
{
    let r = s.filter(p);
    assert forall|i: int| 0 <= i < r.len() implies equivalence::plain(#[trigger] r[i]) by {
        assert(r.contains(r[i]));
        s.lemma_filter_contains_rev(p, r[i]);
    }
}

/// Reordering attributes keeps a tag's meaning.
proof fn lemma_reordered_tag(a: tree::Cst, b: tree::Cst, ns: Map<Seq<char>, Seq<char>>)
    requires
        attributes_reordered(a, b),
        proper_tag(a),
        forall|i: int|
            0 <= i < b.children.len() ==> equivalence::plain(#[trigger] b.children[i]),
    ensures
        equivalence::equivalent(a, ns, b, ns),
        namespaces::declared(a.children) == namespaces::declared(b.children),
{
    let p = |c: tree::Cst| !attributes::is_attribute(c);
    let q = |c: tree::Cst| attributes::is_kept_attribute(c);
    let x = tree::shapes(a.children);
    let y = tree::shapes(b.children);
    lemma_plain_filtered(a.children, p);
    lemma_plain_filtered(b.children, p);
    lemma_plain_filtered(a.children, q);
    lemma_plain_filtered(b.children, q);
    let o = attributes::others(a.children);
    let u = attributes::others(b.children);
    assert(tree::shapes(o).len() == tree::shapes(u).len());
    assert forall|i: int| 0 <= i < o.len() implies equivalence::same_part(
        #[trigger] o[i],
        ns,
        u[i],
        ns,
    ) by {
        assert(tree::shapes(o)[i] == tree::shapes(u)[i]);
        lemma_same_shape_part(o[i], u[i], ns);
    }
    shapes::lemma_canonical(a.children);
    shapes::lemma_canonical(b.children);
    lemma_filter_multiset(x, q);
    lemma_filter_multiset(y, q);
    assert forall|i: int, j: int|
        0 <= i < j < x.len() && declared_prefix(#[trigger] x[i]) is Some && declared_prefix(x[i])
            == declared_prefix(#[trigger] x[j]) implies namespaces::declaration(x[i])
        == namespaces::declaration(x[j]) by {
        shapes::lemma_declaration(a.children[i]);
        shapes::lemma_declaration(a.children[j]);
        assert(declared_prefix(a.children[i]) == declared_prefix(a.children[j]));
    }
    lemma_declared_rearranged(x, y);
    shapes::lemma_declared(a.children);
    shapes::lemma_declared(b.children);
}

/// The order in which the attributes of an element are written makes no difference to
/// its normal form, the order of namespace declarations included.
pub proof fn law_attribute_order(
    a: tree::Cst,
    b: tree::Cst,
    k: int,
    ns: Map<Seq<char>, Seq<char>>,
)
    requires
        a.kind == "element"@,
        b.kind == "element"@,
        a.named == b.named,
        a.text == b.text,
        a.children.len() == b.children.len(),
        0 <= k < a.children.len(),
        forall|i: int|
            0 <= i < k ==> !normalize::is_opening_tag((#[trigger] a.children[i]).kind),
        attributes_reordered(a.children[k], b.children[k]),
        proper_tag(a.children[k]),
        proper_tag(b.children[k]),
        forall|i: int|
            0 <= i < a.children.len() && i != k ==> tree::shape(#[trigger] a.children[i])
                == tree::shape(b.children[i]),
    ensures
        tree::shape(normalize::normalized(a, ns)) == tree::shape(normalize::normalized(b, ns)),
{
    normalize::lemma_kinds();
    assert forall|i: int| 0 <= i < k implies !normalize::is_opening_tag(
        (#[trigger] b.children[i]).kind,
    ) by {
        assert(!normalize::is_opening_tag(a.children[i].kind));
        assert(tree::shape(a.children[i]).kind == tree::shape(b.children[i]).kind);
    }
    lemma_opening_tag_at(a.children, k);
    lemma_opening_tag_at(b.children, k);
    let inner = normalize::scope(a, ns);
    lemma_reordered_tag(a.children[k], b.children[k], inner);
    assert(normalize::scope(b, ns) == inner);
    assert forall|i: int| 0 <= i < a.children.len() implies equivalence::equivalent(
        #[trigger] a.children[i],
        inner,
        b.children[i],
        inner,
    ) by {
        if i != k {
            assert(tree::shape(a.children[i]) == tree::shape(b.children[i]));
        }
    }
    equivalence::law_equivalent_documents(a, ns, b, ns);
}

proof fn lemma_opening_tag_at(s: Seq<tree::Cst>, k: int)
    requires
        0 <= k < s.len(),
        normalize::is_opening_tag(s[k].kind),
        forall|i: int| 0 <= i < k ==> !normalize::is_opening_tag((#[trigger] s[i]).kind),
    ensures
        normalize::opening_tag(s) == Some(s[k]),
    decreases s.len(),
{
    if k > 0 {
        assert(!normalize::is_opening_tag(s[0].kind));
        let t = s.skip(1);
        assert forall|i: int| 0 <= i < k - 1 implies !normalize::is_opening_tag(
            (#[trigger] t[i]).kind,
        ) by {
            assert(t[i] == s[i + 1]);
        }
        lemma_opening_tag_at(t, k - 1);
    }
}

/// Element content that is text only has the same normal form as any other with the same
/// text, however the text is divided into character data, CDATA sections and references.
pub proof fn law_text_content(a: tree::Cst, b: tree::Cst, ns: Map<Seq<char>, Seq<char>>)
    requires
        a.kind == "content"@,
        b.kind == "content"@,
        a.named == b.named,
        a.text == b.text,
        forall|i: int|
            0 <= i < a.children.len() ==> content::is_text_kind((#[trigger] a.children[i]).kind),
        forall|i: int|
            0 <= i < b.children.len() ==> content::is_text_kind((#[trigger] b.children[i]).kind),
        content::run_text(a.children) == content::run_text(b.children),
    ensures
        tree::shape(normalize::normalized(a, ns)) == tree::shape(normalize::normalized(b, ns)),
{
    normalize::lemma_kinds();
    let m = a.children.len() as int;
    let n = b.children.len() as int;
    content::lemma_text_run_is(a.children, m);
    content::lemma_text_run_is(b.children, n);
    assert(a.children.skip(0) =~= a.children);
    assert(b.children.skip(0) =~= b.children);
    assert(a.children.take(m) =~= a.children);
    assert(b.children.take(n) =~= b.children);
    assert(equivalence::same_content(a, 0, ns, b, 0, ns));
    equivalence::law_equivalent_documents(a, ns, b, ns);
}

/// A CDATA section and the same text escaped have the same normal form.
pub proof fn law_cdata_and_escaped_text(
    a: tree::Cst,
    b: tree::Cst,
    t: Seq<char>,
    ns: Map<Seq<char>, Seq<char>>,
)
    requires
        a.kind == "content"@,
        b.kind == "content"@,
        a.named == b.named,
        a.text == b.text,
        a.children.len() == 1,
        a.children[0].kind == "CDSect"@,
        content::cdata(a.children[0]) == Some(t),
        b.children.len() == 1,
        b.children[0].kind == "CharData"@,
        b.children[0].text == Some(references::escaped(t)),
    ensures
        tree::shape(normalize::normalized(a, ns)) == tree::shape(normalize::normalized(b, ns)),
{
    reveal_strlit("CharData");
    reveal_strlit("CDSect");
    reveal_strlit("EntityRef");
    assert("CharData"@.len() == 8 && "CDSect"@.len() == 6 && "EntityRef"@.len() == 9);
    references::law_escaped_text_decodes_back(t);
    lemma_one_text(a.children);
    lemma_one_text(b.children);
    law_text_content(a, b, ns);
}

proof fn lemma_one_text(s: Seq<tree::Cst>)
    requires
        s.len() == 1,
    ensures
        content::run_text(s) == content::content_text(s[0]),
{
    assert(s.skip(1) =~= Seq::<tree::Cst>::empty());
    assert(content::run_text(s.skip(1)) =~= Seq::<char>::empty());
    assert(content::run_text(s) =~= content::content_text(s[0]));
}

/// A name with a prefix and the same name without one expand to the same name, where the
/// prefix and the default namespace stand for the same URI.
pub proof fn law_prefix_and_default_namespace(
    prefix: Seq<char>,
    local: Seq<char>,
    uri: Seq<char>,
    m: Map<Seq<char>, Seq<char>>,
    n: Map<Seq<char>, Seq<char>>,
)
    requires
        !prefix.contains(':'),
        !local.contains(':'),
        uri.len() > 0,
        m.contains_key(prefix),
        m[prefix] == uri,
        n.contains_key(Seq::empty()),
        n[Seq::empty()] == uri,
    ensures
        namespaces::qname(prefix + seq![':'] + local, m) == Some(namespaces::expanded(uri, local)),
        namespaces::qname(local, n) == Some(namespaces::expanded(uri, local)),
{
    let name = prefix + seq![':'] + local;
    let i = prefix.len() as int;
    assert forall|k: int| 0 <= k < i implies name[k] != ':' by {
        assert(prefix.contains(prefix[k]));
    }
    text::lemma_position_is(name, ':', i);
    assert(name.take(i) =~= prefix);
    assert(name.skip(i + 1) =~= local);
    assert forall|k: int| 0 <= k < local.len() implies local[k] != ':' by {
        assert(local.contains(local[k]));
    }
    text::lemma_position_is(local, ':', local.len() as int);
}

/// Whether two parts of tags are the same, but for names: where the first has one with
/// the prefix, the second has it without.
pub open spec fn renamed_part(x: tree::Cst, y: tree::Cst, prefix: Seq<char>) -> bool {
    &&& equivalence::plain(x)
    &&& equivalence::plain(y)
    &&& if x.kind == "Name"@ {
        &&& y.kind == x.kind
        &&& y.named == x.named
        &&& tree::shapes(y.children) == tree::shapes(x.children)
        &&& x.text is Some
        &&& y.text is Some
        &&& !y.text->0.contains(':')
        &&& x.text->0 == prefix + seq![':'] + y.text->0
    } else {
        tree::shape(y) == tree::shape(x)
    }
}

/// Whether parts of tags are the same but for the prefix of names, one by one.
pub open spec fn renamed_parts(
    s: Seq<tree::Cst>,
    t: Seq<tree::Cst>,
    prefix: Seq<char>,
) -> bool {
    &&& s.len() == t.len()
    &&& forall|i: int| 0 <= i < s.len() ==> renamed_part(#[trigger] s[i], t[i], prefix)
}

/// Whether two tags are the same but for the prefix of their names, for their namespace
/// declarations and for the order of their attributes.
pub open spec fn renamed_tag(x: tree::Cst, y: tree::Cst, prefix: Seq<char>) -> bool {
    &&& normalize::is_tag(x.kind)
    &&& x.kind == y.kind
    &&& x.named == y.named
    &&& x.text == y.text
    &&& if normalize::is_opening_tag(x.kind) {
        &&& renamed_parts(
            attributes::others(x.children),
            attributes::others(y.children),
            prefix,
        )
        &&& equivalence::same_attributes(
            attributes::kept_attributes(x.children),
            attributes::kept_attributes(y.children),
        )
    } else {
        renamed_parts(x.children, y.children, prefix)
    }
}

proof fn lemma_renamed_parts(
    s: Seq<tree::Cst>,
    t: Seq<tree::Cst>,
    prefix: Seq<char>,
    uri: Seq<char>,
    m: Map<Seq<char>, Seq<char>>,
    n: Map<Seq<char>, Seq<char>>,
)
    requires
        renamed_parts(s, t, prefix),
        !prefix.contains(':'),
        uri.len() > 0,
        m.contains_key(prefix),
        m[prefix] == uri,
        n.contains_key(Seq::empty()),
        n[Seq::empty()] == uri,
    ensures
        equivalence::same_parts(s, m, t, n),
{
    assert forall|i: int| 0 <= i < s.len() implies equivalence::same_part(
        #[trigger] s[i],
        m,
        t[i],
        n,
    ) by {
        assert(renamed_part(s[i], t[i], prefix));
        if s[i].kind == "Name"@ {
            law_prefix_and_default_namespace(prefix, t[i].text->0, uri, m, n);
        }
    }
}

/// An element whose names have a prefix, and the same element without it, have the same
/// normal form, where inside the first the prefix stands for the URI that is the default
/// namespace inside the second.
pub proof fn law_prefixed_element(
    a: tree::Cst,
    m: Map<Seq<char>, Seq<char>>,
    b: tree::Cst,
    n: Map<Seq<char>, Seq<char>>,
    prefix: Seq<char>,
    uri: Seq<char>,
)
    requires
        a.kind == "element"@,
        b.kind == "element"@,
        a.named == b.named,
        a.text == b.text,
        !prefix.contains(':'),
        uri.len() > 0,
        normalize::scope(a, m).contains_key(prefix),
        normalize::scope(a, m)[prefix] == uri,
        normalize::scope(b, n).contains_key(Seq::empty()),
        normalize::scope(b, n)[Seq::empty()] == uri,
        a.children.len() == b.children.len(),
        forall|i: int|
            0 <= i < a.children.len() ==> {
                ||| renamed_tag(#[trigger] a.children[i], b.children[i], prefix)
                ||| equivalence::equivalent(
                    a.children[i],
                    normalize::scope(a, m),
                    b.children[i],
                    normalize::scope(b, n),
                )
            },
    ensures
        equivalence::equivalent(a, m, b, n),
        tree::shape(normalize::normalized(a, m)) == tree::shape(normalize::normalized(b, n)),
{
    normalize::lemma_kinds();
    let inside = normalize::scope(a, m);
    let within = normalize::scope(b, n);
    assert forall|i: int| 0 <= i < a.children.len() implies equivalence::equivalent(
        #[trigger] a.children[i],
        inside,
        b.children[i],
        within,
    ) by {
        let x = a.children[i];
        let y = b.children[i];
        if renamed_tag(x, y, prefix) {
            if normalize::is_opening_tag(x.kind) {
                lemma_renamed_parts(
                    attributes::others(x.children),
                    attributes::others(y.children),
                    prefix,
                    uri,
                    inside,
                    within,
                );
            } else {
                lemma_renamed_parts(x.children, y.children, prefix, uri, inside, within);
            }
        }
    }
    equivalence::law_equivalent_documents(a, m, b, n);
}

/// A name whose prefix is not declared stays as it is.
pub proof fn law_undeclared_prefix(
    c: tree::Cst,
    prefix: Seq<char>,
    local: Seq<char>,
    ns: Map<Seq<char>, Seq<char>>,
)
    requires
        !prefix.contains(':'),
        c.text == Some(prefix + seq![':'] + local),
        !ns.contains_key(prefix),
    ensures
        namespaces::qname(c.text_or_empty(), ns) is None,
        normalize::resolved(c, ns) == c,
{
    let name = prefix + seq![':'] + local;
    let i = prefix.len() as int;
    assert forall|k: int| 0 <= k < i implies name[k] != ':' by {
        assert(prefix.contains(prefix[k]));
    }
    text::lemma_position_is(name, ':', i);
    assert(name.take(i) =~= prefix);
}

/// What an opening tag declares holds inside its element, in place of what is declared
/// around it; what it does not declare holds as around it.
pub proof fn law_scope_of_declarations(
    c: tree::Cst,
    ns: Map<Seq<char>, Seq<char>>,
    prefix: Seq<char>,
)
    requires
        c.kind == "element"@,
        normalize::opening_tag(c.children) is Some,
    ensures
        ({
            let declared = namespaces::declared(
                normalize::opening_tag(c.children)->0.children,
            );
            let inner = normalize::scope(c, ns);
            if declared.contains_key(prefix) {
                inner.contains_key(prefix) && inner[prefix] == declared[prefix]
            } else {
                inner.contains_key(prefix) == ns.contains_key(prefix) && (inner.contains_key(prefix)
                    ==> inner[prefix] == ns[prefix])
            }
        }),
{
}

/// Whether no opening tag in the tree declares a namespace.
pub open spec fn without_declarations(c: tree::Cst) -> bool
    decreases c,
{
    &&& forall|i: int|
        0 <= i < c.children.len() ==> without_declarations(#[trigger] c.children[i])
    &&& normalize::is_opening_tag(c.kind) ==> forall|i: int|
        0 <= i < c.children.len() && attributes::is_attribute(#[trigger] c.children[i])
            ==> !namespaces::is_declaration_name(attributes::attribute_name(c.children[i]))
}

/// Whether everything in the sequence is without declarations.
spec fn clear(s: Seq<tree::Cst>) -> bool {
    forall|i: int| 0 <= i < s.len() ==> without_declarations(#[trigger] s[i])
}

proof fn lemma_clear_merged(s: Seq<tree::Cst>)
    requires
        clear(s),
    ensures
        clear(content::merged(s)),
    decreases s.len(),
{
    if s.len() > 0 {
        if !content::is_text_kind(s[0].kind) {
            assert(without_declarations(s[0]));
            assert(clear(s.skip(1))) by {
                assert forall|i: int| 0 <= i < s.skip(1).len() implies without_declarations(
                    #[trigger] s.skip(1)[i],
                ) by {
                    assert(s.skip(1)[i] == s[i + 1]);
                }
            }
            lemma_clear_merged(s.skip(1));
        } else {
            let r = content::text_run(s);
            content::lemma_text_run_bounds(s);
            assert(clear(s.skip(r))) by {
                assert forall|i: int| 0 <= i < s.skip(r).len() implies without_declarations(
                    #[trigger] s.skip(r)[i],
                ) by {
                    assert(s.skip(r)[i] == s[i + r]);
                }
            }
            lemma_clear_merged(s.skip(r));
            reveal_strlit("CharData");
            reveal_strlit("STag");
            reveal_strlit("EmptyElemTag");
            assert("CharData"@.len() == 8);
            assert("STag"@.len() == 4);
            assert("EmptyElemTag"@.len() == 12);
            assert(clear(content::merged_run(s.take(r))));
        }
    }
}

proof fn lemma_clear_canonical(s: Seq<tree::Cst>)
    requires
        clear(s),
    ensures
        clear(attributes::canonical(s)),
{
    let p = |c: tree::Cst| !attributes::is_attribute(c);
    let q = |c: tree::Cst| attributes::is_kept_attribute(c);
    let o = s.filter(p);
    let k = s.filter(q);
    let r = attributes::sorted(k);
    assert forall|i: int| 0 <= i < o.len() implies without_declarations(#[trigger] o[i]) by {
        assert(o.contains(o[i]));
        s.lemma_filter_contains_rev(p, o[i]);
    }
    assert forall|i: int| 0 <= i < k.len() implies without_declarations(#[trigger] k[i]) by {
        assert(k.contains(k[i]));
        s.lemma_filter_contains_rev(q, k[i]);
    }
    attribute_order::lemma_sorted_contains(k);
    assert forall|i: int| 0 <= i < r.len() implies without_declarations(#[trigger] r[i]) by {
        assert(k.contains(r[i]));
    }
}

/// No namespace declaration is left in a normal form.
pub proof fn law_declarations_are_consumed(c: tree::Cst, ns: Map<Seq<char>, Seq<char>>)
    ensures
        without_declarations(normalize::normalized(c, ns)),
    decreases c,
{
    normalize::lemma_kinds();
    let s = normalize::normalized_children(c, ns);
    assert forall|i: int| 0 <= i < s.len() implies without_declarations(#[trigger] s[i]) by {
        law_declarations_are_consumed(c.children[i], normalize::scope(c, ns));
    }
    let t = normalize::all_resolved(s, ns);
    assert forall|i: int| 0 <= i < t.len() implies without_declarations(#[trigger] t[i]) by {
        assert(without_declarations(s[i]));
    }
    lemma_clear_canonical(t);
    lemma_clear_merged(s);
    attribute_order::law_canonical_order(t);
}

/// Whether text-level nodes are character data with text and without children, and no two
/// of them follow each other.
pub open spec fn text_is_merged(s: Seq<tree::Cst>) -> bool {
    &&& forall|i: int|
        0 <= i < s.len() && content::is_text_kind((#[trigger] s[i]).kind) ==> s[i].kind
            == "CharData"@ && s[i].named && s[i].text is Some && s[i].text->0.len() > 0
            && s[i].children.len() == 0
    &&& forall|i: int, j: int|
        0 <= i && j == i + 1 && j < s.len() ==> !(content::is_text_kind((#[trigger] s[i]).kind)
            && content::is_text_kind((#[trigger] s[j]).kind))
}

/// Merging leaves no two text-level nodes next to each other, and none without text.
pub proof fn law_merging_is_complete(s: Seq<tree::Cst>)
    ensures
        text_is_merged(content::merged(s)),
    decreases s.len(),
{
    let all = content::merged(s);
    equivalence::lemma_merged_step(s);
    let r = content::text_run(s);
    let head = content::merged_run(s.take(r));
    if r < s.len() {
        let rest = s.skip(r + 1);
        law_merging_is_complete(rest);
        let tail = content::merged(rest);
        lemma_not_text_at(s);
        assert(all =~= head + (seq![s[r]] + tail));
        let h = head.len() as int;
        assert(h <= 1);
        assert forall|i: int| h < i < all.len() implies #[trigger] all[i] == tail[i - h - 1] by {}
        assert(all[h] == s[r]);
        assert forall|i: int, j: int|
            0 <= i && j == i + 1 && j < all.len() implies !(content::is_text_kind(
            (#[trigger] all[i]).kind,
        ) && content::is_text_kind((#[trigger] all[j]).kind)) by {
            if i > h {
                assert(!(content::is_text_kind(tail[i - h - 1].kind) && content::is_text_kind(
                    tail[j - h - 1].kind,
                )));
            }
        }
        assert forall|i: int|
            0 <= i < all.len() && content::is_text_kind(
                (#[trigger] all[i]).kind,
            ) implies all[i].kind == "CharData"@ && all[i].named && all[i].text is Some
            && all[i].text->0.len() > 0 && all[i].children.len() == 0 by {
            if i > h {
                assert(content::is_text_kind(tail[i - h - 1].kind));
            }
        }
    } else {
        assert(s.skip(r) =~= Seq::<tree::Cst>::empty());
        assert(all =~= head);
    }
}

proof fn lemma_not_text_at(s: Seq<tree::Cst>)
    ensures
        content::text_run(s) < s.len() ==> !content::is_text_kind(s[content::text_run(s)].kind),
    decreases s.len(),
{
    if s.len() > 0 && content::is_text_kind(s[0].kind) {
        lemma_not_text_at(s.skip(1));
        content::lemma_text_run_bounds(s.skip(1));
    }
}

} // verus!
