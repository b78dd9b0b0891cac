//! Normalising twice is normalising once.

use crate::attributes;
use crate::content;
use crate::laws::attribute_order;
use crate::laws::documents;
use crate::laws::references;
use crate::namespaces;
use crate::normalize;
use crate::tree;
use vstd::prelude::*;

verus! {

/// Whether at most one of the nodes is a name.
pub open spec fn one_name(s: Seq<tree::Cst>) -> bool {
    forall|i: int, j: int|
        0 <= i < j < s.len() ==> !((#[trigger] s[i]).kind == "Name"@ && (#[trigger] s[j]).kind
            == "Name"@)
}

/// Whether no attribute in the tree has more than one name.
pub open spec fn attributes_have_one_name(c: tree::Cst) -> bool
    decreases c,
{
    &&& attributes::is_attribute(c) ==> one_name(c.children)
    &&& forall|i: int|
        0 <= i < c.children.len() ==> attributes_have_one_name(#[trigger] c.children[i])
}

/// Whether no character data in the tree have an ampersand.
pub open spec fn without_ampersand(c: tree::Cst) -> bool
    decreases c,
{
    &&& c.kind == "CharData"@ ==> !c.text_or_empty().contains('&')
    &&& forall|i: int| 0 <= i < c.children.len() ==> without_ampersand(#[trigger] c.children[i])
}

/// Whether the tree is built as a normal form is: opening tags are in canonical order and
/// declare nothing, the text of content is merged, attributes have one name.
pub open spec fn in_normal_form(c: tree::Cst) -> bool
    decreases c,
{
    &&& normalize::is_opening_tag(c.kind) ==> {
        &&& attributes::canonical(c.children) == c.children
        &&& forall|i: int|
            0 <= i < c.children.len() ==> namespaces::declaration(#[trigger] c.children[i]) is None
    }
    &&& c.kind == "content"@ ==> documents::text_is_merged(c.children)
    &&& attributes::is_attribute(c) ==> one_name(c.children)
    &&& forall|i: int| 0 <= i < c.children.len() ==> in_normal_form(#[trigger] c.children[i])
}

proof fn lemma_kinds()
    ensures
        !normalize::is_tag("Attribute"@),
        "Attribute"@ != "content"@,
        "Attribute"@ != "Name"@,
        !normalize::is_tag("content"@),
        !normalize::is_tag("CharData"@),
        "CharData"@ != "content"@,
        "CharData"@ != "Attribute"@,
        "CharData"@ != "CDSect"@,
        "CharData"@ != "EntityRef"@,
{
    reveal_strlit("Attribute");
    reveal_strlit("content");
    reveal_strlit("Name");
    reveal_strlit("CharData");
    reveal_strlit("CDSect");
    reveal_strlit("EntityRef");
    reveal_strlit("STag");
    reveal_strlit("ETag");
    reveal_strlit("EmptyElemTag");
    assert("Attribute"@.len() == 9);
    assert("content"@.len() == 7);
    assert("Name"@.len() == 4);
    assert("CharData"@.len() == 8);
    assert("CDSect"@.len() == 6);
    assert("EntityRef"@.len() == 9);
    assert("STag"@.len() == 4);
    assert("ETag"@.len() == 4);
    assert("EmptyElemTag"@.len() == 12);
}

proof fn lemma_first_of_kind(s: Seq<tree::Cst>, k: int)
    requires
        0 <= k < s.len(),
        s[k].kind == "Name"@,
        forall|i: int| 0 <= i < k ==> (#[trigger] s[i]).kind != "Name"@,
    ensures
        tree::first_of_kind(s, "Name"@) == Some(s[k]),
    decreases s.len(),
{
    if k > 0 {
        assert(s[0].kind != "Name"@);
        assert forall|i: int| 0 <= i < k - 1 implies (#[trigger] s.skip(1)[i]).kind
            != "Name"@ by {
            assert(s.skip(1)[i] == s[i + 1]);
        }
        lemma_first_of_kind(s.skip(1), k - 1);
    }
}

/// The last of the names, where there is at most one, is the first.
proof fn lemma_last_name(s: Seq<tree::Cst>)
    requires
        one_name(s),
    ensures
        namespaces::last_text(s, "Name"@) == (match tree::first_text(s, "Name"@) {
            Some(t) => t,
            None => Seq::empty(),
        }),
    decreases s.len(),
{
    if s.len() > 0 {
        let t = s.drop_last();
        let n = s.len() - 1;
        if s.last().kind == "Name"@ {
            assert forall|i: int| 0 <= i < n implies (#[trigger] s[i]).kind != "Name"@ by {
                assert(s[n].kind == "Name"@);
            }
            lemma_first_of_kind(s, n);
        } else {
            assert(one_name(t)) by {
                assert forall|i: int, j: int| 0 <= i < j < t.len() implies !((
                #[trigger] t[i]).kind == "Name"@ && (#[trigger] t[j]).kind == "Name"@) by {
                    assert(s[i] == t[i] && s[j] == t[j]);
                }
            }
            lemma_last_name(t);
            lemma_first_of_longer(t, s.last());
            assert(s =~= t.push(s.last()));
        }
    }
}

/// A node that is no name, added at the end, leaves the first name.
proof fn lemma_first_of_longer(s: Seq<tree::Cst>, c: tree::Cst)
    requires
        c.kind != "Name"@,
    ensures
        tree::first_of_kind(s.push(c), "Name"@) == tree::first_of_kind(s, "Name"@),
    decreases s.len(),
{
    if s.len() == 0 {
        assert(s.push(c).skip(1) =~= s);
    } else {
        assert(s.push(c)[0] == s[0]);
        assert(s.push(c).skip(1) =~= s.skip(1).push(c));
        lemma_first_of_longer(s.skip(1), c);
    }
}

/// Whether every tree of the sequence is in normal form.
spec fn all_in_normal_form(s: Seq<tree::Cst>) -> bool {
    forall|i: int| 0 <= i < s.len() ==> in_normal_form(#[trigger] s[i])
}

proof fn lemma_canonical(s: Seq<tree::Cst>)
    requires
        all_in_normal_form(s),
    ensures
        all_in_normal_form(attributes::canonical(s)),
        forall|i: int|
            0 <= i < attributes::canonical(s).len() ==> namespaces::declaration(
                #[trigger] attributes::canonical(s)[i],
            ) is None,
{
    let p = |c: tree::Cst| !attributes::is_attribute(c);
    let q = |c: tree::Cst| attributes::is_kept_attribute(c);
    let o = attributes::others(s);
    let k = attributes::kept_attributes(s);
    let r = attributes::canonical(s);
    attribute_order::lemma_sorted_contains(k);
    attribute_order::law_canonical_order(s);
    assert forall|i: int| 0 <= i < r.len() implies in_normal_form(#[trigger] r[i])
        && namespaces::declaration(r[i]) is None by {
        if i < o.len() {
            assert(r[i] == o[i]);
            assert(o.contains(o[i]));
            s.lemma_filter_contains_rev(p, o[i]);
        } else {
            let x = attributes::sorted(k)[i - o.len()];
            assert(r[i] == x);
            assert(k.contains(x));
            s.lemma_filter_contains_rev(q, x);
        }
        assert(s.contains(r[i]));
        let j = choose|j: int| 0 <= j < s.len() && s[j] == r[i];
        assert(in_normal_form(s[j]));
        if attributes::is_attribute(r[i]) {
            lemma_last_name(r[i].children);
        }
    }
}

proof fn lemma_merged(s: Seq<tree::Cst>)
    requires
        all_in_normal_form(s),
    ensures
        all_in_normal_form(content::merged(s)),
    decreases s.len(),
{
    if s.len() > 0 {
        content::lemma_text_run_bounds(s);
        let r = if content::is_text_kind(s[0].kind) {
            content::text_run(s)
        } else {
            1
        };
        let rest = s.skip(r);
        assert forall|i: int| 0 <= i < rest.len() implies in_normal_form(#[trigger] rest[i]) by {
            assert(rest[i] == s[i + r]);
        }
        lemma_merged(rest);
        lemma_kinds();
        if content::is_text_kind(s[0].kind) {
            let head = content::merged_run(s.take(r));
            assert forall|i: int| 0 <= i < head.len() implies in_normal_form(
                #[trigger] head[i],
            ) by {
                assert(head[i].kind == "CharData"@);
            }
        } else {
            assert(in_normal_form(s[0]));
        }
    }
}

/// Normalisation gives a tree that is built as a normal form is.
pub proof fn law_normal_form(c: tree::Cst, ns: Map<Seq<char>, Seq<char>>)
    requires
        attributes_have_one_name(c),
    ensures
        in_normal_form(normalize::normalized(c, ns)),
    decreases c,
{
    lemma_kinds();
    normalize::lemma_kinds();
    let s = normalize::normalized_children(c, ns);
    assert forall|i: int| 0 <= i < s.len() implies in_normal_form(#[trigger] s[i]) && s[i].kind
        == c.children[i].kind by {
        assert(attributes_have_one_name(c.children[i]));
        law_normal_form(c.children[i], normalize::scope(c, ns));
    }
    let t = normalize::all_resolved(s, ns);
    assert forall|i: int| 0 <= i < t.len() implies in_normal_form(#[trigger] t[i]) by {
        assert(in_normal_form(s[i]));
    }
    let r = normalize::normalized(c, ns);
    if normalize::is_opening_tag(c.kind) {
        lemma_canonical(t);
        attribute_order::law_canonical_order_stays(t);
    } else if c.kind == "content"@ {
        lemma_merged(s);
        documents::law_merging_is_complete(s);
    }
    if attributes::is_attribute(c) {
        assert forall|i: int, j: int| 0 <= i < j < r.children.len() implies !((
        #[trigger] r.children[i]).kind == "Name"@ && (#[trigger] r.children[j]).kind
            == "Name"@) by {
            assert(!(c.children[i].kind == "Name"@ && c.children[j].kind == "Name"@));
        }
    }
}

/// Nodes that declare nothing declare nothing together.
proof fn lemma_nothing_declared(s: Seq<tree::Cst>)
    requires
        forall|i: int| 0 <= i < s.len() ==> namespaces::declaration(#[trigger] s[i]) is None,
    ensures
        namespaces::declared(s) == Map::<Seq<char>, Seq<char>>::empty(),
    decreases s.len(),
{
    if s.len() > 0 {
        assert(namespaces::declaration(s[s.len() - 1]) is None);
        lemma_nothing_declared(s.drop_last());
    }
}

proof fn lemma_no_scope(s: Seq<tree::Cst>)
    requires
        all_in_normal_form(s),
    ensures
        normalize::inner_scope(s, Map::empty()) == Map::<Seq<char>, Seq<char>>::empty(),
    decreases s.len(),
{
    let none = Map::<Seq<char>, Seq<char>>::empty();
    assert(none.union_prefer_right(none) =~= none);
    if s.len() > 0 {
        if normalize::is_opening_tag(s[0].kind) {
            assert(in_normal_form(s[0]));
            lemma_nothing_declared(s[0].children);
        } else {
            assert forall|i: int| 0 <= i < s.skip(1).len() implies in_normal_form(
                #[trigger] s.skip(1)[i],
            ) by {
                assert(in_normal_form(s[i + 1]));
            }
            lemma_no_scope(s.skip(1));
        }
    }
}

/// Merged text without ampersands stays as it is.
proof fn lemma_merged_stays(s: Seq<tree::Cst>)
    requires
        documents::text_is_merged(s),
        forall|i: int| 0 <= i < s.len() ==> without_ampersand(#[trigger] s[i]),
    ensures
        content::merged(s) == s,
    decreases s.len(),
{
    if s.len() > 0 {
        let rest = s.skip(1);
        assert forall|i: int| 0 <= i < rest.len() implies rest[i] == #[trigger] s[i + 1] by {}
        assert(documents::text_is_merged(rest)) by {
            assert forall|i: int|
                0 <= i < rest.len() && content::is_text_kind(
                    (#[trigger] rest[i]).kind,
                ) implies rest[i].kind == "CharData"@ && rest[i].named && rest[i].text is Some
                && rest[i].text->0.len() > 0 && rest[i].children.len() == 0 by {
                assert(rest[i] == s[i + 1]);
            }
            assert forall|i: int, j: int|
                0 <= i && j == i + 1 && j < rest.len() implies !(content::is_text_kind(
                (#[trigger] rest[i]).kind,
            ) && content::is_text_kind((#[trigger] rest[j]).kind)) by {
                assert(rest[i] == s[i + 1] && rest[j] == s[j + 1]);
            }
        }
        assert forall|i: int| 0 <= i < rest.len() implies without_ampersand(
            #[trigger] rest[i],
        ) by {
            assert(without_ampersand(s[i + 1]));
        }
        lemma_merged_stays(rest);
        assert(s =~= seq![s[0]] + rest);
        if content::is_text_kind(s[0].kind) {
            lemma_kinds();
            assert(s.len() > 1 ==> !content::is_text_kind(s[1].kind));
            content::lemma_text_run_is(s, 1);
            assert(without_ampersand(s[0]));
            references::law_plain_text_is_kept(s[0].text_or_empty());
            let run = s.take(1);
            assert(run.skip(1) =~= Seq::<tree::Cst>::empty());
            assert(content::run_text(run.skip(1)) =~= Seq::<char>::empty());
            assert(content::run_text(run) =~= s[0].text->0);
            assert(content::run_start(run) == s[0].start);
            assert(s[0].children =~= Seq::<tree::Cst>::empty());
            assert(content::merged_run(run) =~= seq![s[0]]);
        }
    }
}

/// A tree in normal form whose character data have no ampersand is its own normal form.
pub proof fn law_normal_form_stays(c: tree::Cst)
    requires
        in_normal_form(c),
        without_ampersand(c),
    ensures
        normalize::normalized(c, Map::empty()) == c,
    decreases c,
{
    let none = Map::<Seq<char>, Seq<char>>::empty();
    lemma_no_scope(c.children);
    assert(normalize::scope(c, none) == none);
    let s = normalize::normalized_children(c, none);
    assert forall|i: int| 0 <= i < s.len() implies s[i] == c.children[i] by {
        assert(in_normal_form(c.children[i]));
        assert(without_ampersand(c.children[i]));
        law_normal_form_stays(c.children[i]);
    }
    assert(s =~= c.children);
    assert(normalize::all_resolved(s, none) =~= s);
    if c.kind == "content"@ {
        lemma_kinds();
        lemma_merged_stays(c.children);
    }
}

/// Where no attribute has more than one name, and no character data of the normal form
/// have an ampersand, normalising the normal form changes nothing: expanded names are not
/// expanded again, attributes stay in order, text stays merged.
pub proof fn law_normalising_twice(c: tree::Cst, ns: Map<Seq<char>, Seq<char>>)
    requires
        attributes_have_one_name(c),
        without_ampersand(normalize::normalized(c, ns)),
    ensures
        normalize::normalized(normalize::normalized(c, ns), Map::empty())
            == normalize::normalized(c, ns),
{
    law_normal_form(c, ns);
    law_normal_form_stays(normalize::normalized(c, ns));
}

} // verus!
