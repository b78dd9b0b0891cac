//! What becomes of the attributes of a tag.

use crate::attributes;
use crate::laws::attribute_order;
use crate::laws::documents;
use crate::laws::merging;
use crate::namespaces;
use crate::text;
use crate::tree;
use vstd::multiset::*;
use vstd::prelude::*;
use vstd::seq_lib::*;
use vstd::string::*;

verus! {

/// Whether an attribute of this name declares a namespace: the name is `xmlns`, or begins
/// with `xmlns:`.
pub open spec fn declares(n: Seq<char>) -> bool {
    &&& n.len() >= 5
    &&& n[0] == 'x' && n[1] == 'm' && n[2] == 'l' && n[3] == 'n' && n[4] == 's'
    &&& n.len() == 5 || n[5] == ':'
}

/// The name of an attribute.
pub open spec fn name_of(c: tree::Cst) -> Seq<char> {
    match merging::lead(c.children, "Name"@) {
        Some(n) => n,
        None => Seq::empty(),
    }
}

/// Only `xmlns` and what begins with `xmlns:` declares a namespace.
pub proof fn law_declaration_names(n: Seq<char>)
    ensures
        namespaces::is_declaration_name(n) <==> declares(n),
{
    reveal_strlit("xmlns");
    reveal_strlit("xmlns:");
    assert("xmlns"@ =~= seq!['x', 'm', 'l', 'n', 's']);
    assert("xmlns:"@ =~= seq!['x', 'm', 'l', 'n', 's', ':']);
    if declares(n) {
        if n.len() == 5 {
            assert(n =~= "xmlns"@);
        } else {
            assert("xmlns:"@ =~= n.subrange(0, 6));
        }
    }
    if "xmlns:"@.is_prefix_of(n) {
        let p = n.subrange(0, 6);
        assert(p[0] == n[0] && p[1] == n[1] && p[2] == n[2] && p[3] == n[3] && p[4] == n[4]
            && p[5] == n[5]);
    }
}

proof fn lemma_kept(c: tree::Cst)
    ensures
        attributes::attribute_name(c) == name_of(c),
        attributes::is_kept_attribute(c) <==> c.kind == "Attribute"@ && !declares(name_of(c)),
{
    merging::law_lead(c.children, "Name"@);
    law_declaration_names(name_of(c));
}

/// In canonical order a tag has every one of its parts as often as before, but for the
/// attributes that declare namespaces, which it does not have.
pub proof fn law_only_declarations_are_dropped(s: Seq<tree::Cst>, x: tree::Cst)
    ensures
        attributes::canonical(s).to_multiset().count(x) == (if x.kind == "Attribute"@ && declares(
            name_of(x),
        ) {
            0
        } else {
            s.to_multiset().count(x)
        }),
{
    broadcast use {group_to_multiset_ensures, group_multiset_axioms};

    let p = |c: tree::Cst| !attributes::is_attribute(c);
    let q = |c: tree::Cst| attributes::is_kept_attribute(c);
    let o = attributes::others(s);
    let k = attributes::kept_attributes(s);
    lemma_kept(x);
    documents::lemma_filter_multiset(s, p);
    documents::lemma_filter_multiset(s, q);
    attribute_order::law_sorting(k);
    lemma_multiset_commutative(o, attributes::sorted(k));
}

/// The parts that are no attributes stay in their order.
pub proof fn law_other_parts_stay(s: Seq<tree::Cst>)
    ensures
        attributes::canonical(s).filter(|c: tree::Cst| c.kind != "Attribute"@) == s.filter(
            |c: tree::Cst| c.kind != "Attribute"@,
        ),
{
    let p = |c: tree::Cst| c.kind != "Attribute"@;
    let q = |c: tree::Cst| !attributes::is_attribute(c);
    assert(p =~= q);
    attribute_order::lemma_canonical_parts(s);
}

/// Behind an attribute there are only attributes, whose names do not come before its name.
pub proof fn law_order_in_a_tag(s: Seq<tree::Cst>, i: int, j: int)
    requires
        0 <= i < j < attributes::canonical(s).len(),
        attributes::canonical(s)[i].kind == "Attribute"@,
    ensures
        attributes::canonical(s)[j].kind == "Attribute"@,
        text::text_le(
            name_of(attributes::canonical(s)[i]),
            name_of(attributes::canonical(s)[j]),
        ),
{
    let r = attributes::canonical(s);
    attribute_order::law_canonical_order(s);
    lemma_kept(r[i]);
    lemma_kept(r[j]);
}

/// Attributes of one name stay in their order.
pub proof fn law_attributes_of_one_name(s: Seq<tree::Cst>, n: Seq<char>)
    requires
        !declares(n),
    ensures
        attributes::canonical(s).filter(|c: tree::Cst| c.kind == "Attribute"@ && name_of(c) == n)
            == s.filter(|c: tree::Cst| c.kind == "Attribute"@ && name_of(c) == n),
{
    let f = |c: tree::Cst| c.kind == "Attribute"@ && name_of(c) == n;
    let o = attributes::others(s);
    let k = attributes::kept_attributes(s);
    let r = attributes::sorted(k);
    Seq::filter_distributes_over_add(o, r, f);
    assert forall|i: int| 0 <= i < o.len() implies !f(#[trigger] o[i]) by {
        s.lemma_filter_pred(|c: tree::Cst| !attributes::is_attribute(c), i);
    }
    attribute_order::lemma_filter_none(o, f);
    assert forall|i: int| 0 <= i < k.len() implies (#[trigger] k[i]).kind == "Attribute"@ by {
        s.lemma_filter_pred(|c: tree::Cst| attributes::is_kept_attribute(c), i);
    }
    attribute_order::lemma_sorted_contains(k);
    assert forall|i: int| 0 <= i < r.len() implies (#[trigger] r[i]).kind == "Attribute"@ by {
        assert(k.contains(r[i]));
    }
    lemma_with_name(r, n);
    lemma_with_name(k, n);
    attribute_order::law_sorting_is_stable(k, n);
    lemma_filter_kept(s, n);
    assert(Seq::<tree::Cst>::empty() + r.filter(f) =~= r.filter(f));
}

proof fn lemma_with_name(s: Seq<tree::Cst>, n: Seq<char>)
    requires
        forall|i: int| 0 <= i < s.len() ==> (#[trigger] s[i]).kind == "Attribute"@,
    ensures
        attribute_order::with_name(s, n) == s.filter(
            |c: tree::Cst| c.kind == "Attribute"@ && name_of(c) == n,
        ),
    decreases s.len(),
{
    reveal(Seq::filter);
    if s.len() > 0 {
        let t = s.drop_last();
        assert forall|i: int| 0 <= i < t.len() implies (#[trigger] t[i]).kind
            == "Attribute"@ by {
            assert(t[i] == s[i]);
        }
        assert(s.last() == s[s.len() - 1]);
        lemma_with_name(t, n);
        lemma_kept(s.last());
    }
}

proof fn lemma_filter_kept(s: Seq<tree::Cst>, n: Seq<char>)
    requires
        !declares(n),
    ensures
        attributes::kept_attributes(s).filter(
            |c: tree::Cst| c.kind == "Attribute"@ && name_of(c) == n,
        ) == s.filter(|c: tree::Cst| c.kind == "Attribute"@ && name_of(c) == n),
    decreases s.len(),
{
    reveal(Seq::filter);
    let f = |c: tree::Cst| c.kind == "Attribute"@ && name_of(c) == n;
    if s.len() > 0 {
        let t = s.drop_last();
        lemma_filter_kept(t, n);
        lemma_kept(s.last());
        let k = attributes::kept_attributes(t);
        if attributes::is_kept_attribute(s.last()) {
            assert(attributes::kept_attributes(s) == k.push(s.last()));
            assert(k.push(s.last()).drop_last() =~= k);
        }
    }
}

/// A tag in canonical order is the same tag.
pub proof fn law_tag_is_the_same(c: tree::Cst)
    ensures
        attributes::canonical_tag(c) == (tree::Cst {
            kind: c.kind,
            named: c.named,
            text: c.text,
            start: c.start,
            end: c.end,
            children: attributes::canonical(c.children),
        }),
{
}

} // verus!
