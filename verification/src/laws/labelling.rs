//! What the label of each node says.

use crate::hashed;
use crate::labels;
use crate::laws::words;
use crate::semantic;
use crate::text;
use vstd::prelude::*;
use vstd::string::*;

verus! {

/// The text of a node, or nothing.
pub open spec fn own_text(n: hashed::Hashed) -> Seq<char> {
    if n.text is Some {
        n.text->0
    } else {
        Seq::empty()
    }
}

/// The text of the first of the nodes that is of the kind.
pub open spec fn lead(s: Seq<hashed::Hashed>, kind: Seq<char>) -> Option<Seq<char>>
    decreases s.len(),
{
    if s.len() == 0 {
        None
    } else if lead(s.drop_last(), kind) is Some {
        lead(s.drop_last(), kind)
    } else if s.last().kind == kind {
        Some(own_text(s.last()))
    } else {
        None
    }
}

/// The text of the first node of a kind is that of the one before which there is none.
pub proof fn law_lead(s: Seq<hashed::Hashed>, kind: Seq<char>)
    ensures
        hashed::first_text(s, kind) == lead(s, kind),
    decreases s.len(),
{
    if s.len() > 0 {
        law_lead(s.drop_last(), kind);
        lemma_first_text_push(s.drop_last(), s.last(), kind);
        assert(s =~= s.drop_last().push(s.last()));
    }
}

proof fn lemma_first_text_push(s: Seq<hashed::Hashed>, c: hashed::Hashed, kind: Seq<char>)
    ensures
        hashed::first_text(s.push(c), kind) == (if hashed::first_text(s, kind) is Some {
            hashed::first_text(s, kind)
        } else if c.kind == kind {
            Some(own_text(c))
        } else {
            None
        }),
    decreases s.len(),
{
    if s.len() == 0 {
        assert(s.push(c).skip(1) =~= s);
    } else {
        assert(s.push(c)[0] == s[0]);
        assert(s.push(c).skip(1) =~= s.skip(1).push(c));
        lemma_first_text_push(s.skip(1), c, kind);
    }
}

/// The text, or nothing.
pub open spec fn or_nothing(t: Option<Seq<char>>) -> Seq<char> {
    if t is Some {
        t->0
    } else {
        Seq::empty()
    }
}

/// The name of an attribute.
pub open spec fn name_of(n: hashed::Hashed) -> Seq<char> {
    or_nothing(lead(n.children, "Name"@))
}

/// The value of an attribute without its quotation marks.
pub open spec fn value_of(n: hashed::Hashed) -> Seq<char> {
    text::unquoted(or_nothing(lead(n.children, "AttValue"@)))
}

/// The name and the value of an attribute are there where the nodes for them are.
pub proof fn law_name_and_value(n: hashed::Hashed)
    ensures
        labels::attribute_name(n) == lead(n.children, "Name"@),
        labels::attribute_value(n) is Some <==> lead(n.children, "AttValue"@) is Some,
        labels::attribute_value(n) is Some ==> labels::attribute_value(n)->0 == value_of(n),
{
    law_lead(n.children, "Name"@);
    law_lead(n.children, "AttValue"@);
}

/// The label of a leaf is its text, and that of a literal is the label it has.
pub proof fn law_leaves_and_literals(n: hashed::Hashed)
    ensures
        n.children.len() == 0 ==> labels::label(n) == own_text(n),
        n.children.len() > 0 && n.literal_label is Some ==> labels::label(n)
            == n.literal_label->0,
{
}

proof fn lemma_kinds()
    ensures
        "Attribute"@ != "XMLDecl"@,
        "Attribute"@ != "element"@,
        "XMLDecl"@ != "element"@,
{
    reveal_strlit("Attribute");
    reveal_strlit("XMLDecl");
    reveal_strlit("element");
    assert("Attribute"@.len() == 9);
    assert("XMLDecl"@.len() == 7 && "XMLDecl"@[0] == 'X');
    assert("element"@.len() == 7 && "element"@[0] == 'e');
}

/// Whether the label is made of what is under the node.
pub open spec fn labelled_by_parts(n: hashed::Hashed) -> bool {
    n.children.len() > 0 && n.literal_label is None
}

/// The label of an attribute is its name, and behind an equals sign all of its value; only
/// the name where the value is empty or the same.
pub proof fn law_attribute_label(n: hashed::Hashed)
    requires
        n.kind == "Attribute"@,
        labelled_by_parts(n),
    ensures
        value_of(n).len() == 0 || value_of(n) == name_of(n) ==> labels::label(n) == name_of(n),
        value_of(n).len() > 0 && value_of(n) != name_of(n) ==> {
            let k = name_of(n).len() as int;
            let l = labels::label(n);
            &&& l.len() == k + 1 + value_of(n).len()
            &&& l.take(k) == name_of(n)
            &&& l[k] == '='
            &&& l.skip(k + 1) == value_of(n)
        },
{
    lemma_kinds();
    law_name_and_value(n);
    words::law_quoted_value(Seq::empty());
    let l = labels::label(n);
    let k = name_of(n).len() as int;
    if value_of(n).len() > 0 && value_of(n) != name_of(n) {
        assert(l.take(k) =~= name_of(n));
        assert(l.skip(k + 1) =~= value_of(n));
    }
}

/// Attributes of one name whose values differ have labels that differ.
pub proof fn law_attribute_labels_differ(a: hashed::Hashed, b: hashed::Hashed)
    requires
        a.kind == "Attribute"@,
        b.kind == "Attribute"@,
        labelled_by_parts(a),
        labelled_by_parts(b),
        name_of(a) == name_of(b),
        value_of(a) != value_of(b),
        value_of(a).len() > 0,
        value_of(b).len() > 0,
        value_of(a) != name_of(a),
        value_of(b) != name_of(b),
    ensures
        labels::label(a) != labels::label(b),
{
    law_attribute_label(a);
    law_attribute_label(b);
}

/// The name in the first of the tags that has one.
pub open spec fn element_name(s: Seq<hashed::Hashed>) -> Option<Seq<char>>
    decreases s.len(),
{
    if s.len() == 0 {
        None
    } else if element_name(s.drop_last()) is Some {
        element_name(s.drop_last())
    } else if s.last().kind == "STag"@ || s.last().kind == "ETag"@ || s.last().kind
        == "EmptyElemTag"@ {
        lead(s.last().children, "Name"@)
    } else {
        None
    }
}

/// The name of an element is that in the first of its tags that has one.
pub proof fn law_element_name(s: Seq<hashed::Hashed>)
    ensures
        labels::tag_name(s) == element_name(s),
    decreases s.len(),
{
    if s.len() > 0 {
        law_element_name(s.drop_last());
        lemma_tag_name_push(s.drop_last(), s.last());
        assert(s =~= s.drop_last().push(s.last()));
    }
}

proof fn lemma_tag_name_push(s: Seq<hashed::Hashed>, c: hashed::Hashed)
    ensures
        labels::tag_name(s.push(c)) == (if labels::tag_name(s) is Some {
            labels::tag_name(s)
        } else if c.kind == "STag"@ || c.kind == "ETag"@ || c.kind == "EmptyElemTag"@ {
            lead(c.children, "Name"@)
        } else {
            None
        }),
    decreases s.len(),
{
    law_lead(c.children, "Name"@);
    if s.len() == 0 {
        assert(s.push(c).skip(1) =~= s);
        assert(labels::tag_name(s.push(c).skip(1)) is None);
    } else {
        assert(s.push(c)[0] == s[0]);
        assert(s.push(c).skip(1) =~= s.skip(1).push(c));
        lemma_tag_name_push(s.skip(1), c);
    }
}

/// The label of an element is its name, or its kind where it has none.
pub proof fn law_element_label(n: hashed::Hashed)
    ensures
        n.kind == "element"@ && labelled_by_parts(n) ==> labels::label(n) == (match element_name(
            n.children,
        ) {
            Some(name) => name,
            None => n.kind,
        }),
        semantic::element_label(n) == (match element_name(n.children) {
            Some(name) => name,
            None => seq!['e', 'l', 'e', 'm', 'e', 'n', 't'],
        }),
{
    lemma_kinds();
    law_element_name(n.children);
    reveal_strlit("element");
    assert("element"@ =~= seq!['e', 'l', 'e', 'm', 'e', 'n', 't']);
}

/// The label of any other node is its kind.
pub proof fn law_other_labels(n: hashed::Hashed)
    requires
        labelled_by_parts(n),
        n.kind != "element"@,
        n.kind != "Attribute"@,
        n.kind != "XMLDecl"@,
    ensures
        labels::label(n) == n.kind,
{
}

/// What the leaves of a tree say, in order, each trimmed, without those that say nothing.
pub open spec fn parts(n: hashed::Hashed) -> Seq<Seq<char>>
    decreases n, n.children.len() + 1,
{
    if n.children.len() > 0 {
        parts_up_to(n, n.children.len())
    } else if text::trimmed(own_text(n)) == Seq::<char>::empty() {
        Seq::empty()
    } else {
        seq![text::trimmed(own_text(n))]
    }
}

/// What the leaves under the first `i` children say.
pub open spec fn parts_up_to(n: hashed::Hashed, i: nat) -> Seq<Seq<char>>
    decreases n, i,
    when i <= n.children.len()
{
    if i == 0 {
        Seq::empty()
    } else {
        parts_up_to(n, (i - 1) as nat) + parts(n.children[i - 1])
    }
}

proof fn lemma_parts(n: hashed::Hashed)
    ensures
        labels::leaf_texts(n) == parts(n),
    decreases n, n.children.len() + 1,
{
    if n.children.len() > 0 {
        lemma_parts_up_to(n, n.children.len());
        let none = labels::leaf_texts_from(n, n.children.len());
        assert(none =~= Seq::<Seq<char>>::empty());
        assert(parts_up_to(n, n.children.len()) + none =~= parts_up_to(n, n.children.len()));
    } else {
        let t = text::trimmed(own_text(n));
        if t.len() == 0 {
            assert(t =~= Seq::<char>::empty());
        }
    }
}

proof fn lemma_parts_up_to(n: hashed::Hashed, i: nat)
    requires
        i <= n.children.len(),
    ensures
        parts_up_to(n, i) + labels::leaf_texts_from(n, i) == labels::leaf_texts_from(n, 0),
    decreases n, i,
{
    if i == 0 {
        assert(parts_up_to(n, 0) + labels::leaf_texts_from(n, 0) =~= labels::leaf_texts_from(
            n,
            0,
        ));
    } else {
        let j = (i - 1) as nat;
        lemma_parts_up_to(n, j);
        lemma_parts(n.children[i - 1]);
        assert(parts_up_to(n, i) + labels::leaf_texts_from(n, i) =~= parts_up_to(n, j)
            + labels::leaf_texts_from(n, j));
    }
}

/// The parts with a space between each two.
pub open spec fn spaced(s: Seq<Seq<char>>) -> Seq<char>
    decreases s.len(),
{
    if s.len() == 0 {
        Seq::empty()
    } else if s.len() == 1 {
        s[0]
    } else {
        s[0] + seq![' '] + spaced(s.skip(1))
    }
}

proof fn lemma_spaced(s: Seq<Seq<char>>)
    ensures
        labels::joined(s) == spaced(s),
    decreases s.len(),
{
    if s.len() > 1 {
        lemma_spaced(s.drop_last());
        lemma_spaced_push(s.drop_last(), s.last());
        assert(s =~= s.drop_last().push(s.last()));
    }
}

proof fn lemma_spaced_push(s: Seq<Seq<char>>, t: Seq<char>)
    requires
        s.len() > 0,
    ensures
        spaced(s.push(t)) == spaced(s) + seq![' '] + t,
    decreases s.len(),
{
    let r = s.push(t);
    if s.len() == 1 {
        assert(r.skip(1) =~= seq![t]);
        assert(spaced(r.skip(1)) == t);
        assert(spaced(r) =~= spaced(s) + seq![' '] + t);
    } else {
        assert(r.skip(1) =~= s.skip(1).push(t));
        lemma_spaced_push(s.skip(1), t);
        assert(spaced(r) =~= spaced(s) + seq![' '] + t);
    }
}

/// The label of an XML declaration is what its leaves say, with spaces between, up to 120
/// characters; its kind, where they say nothing.
pub proof fn law_declaration_label(n: hashed::Hashed)
    requires
        n.kind == "XMLDecl"@,
        labelled_by_parts(n),
    ensures
        parts(n).len() == 0 ==> labels::label(n) == n.kind,
        parts(n).len() > 0 && spaced(parts(n)).len() <= 120 ==> labels::label(n) == spaced(
            parts(n),
        ),
        parts(n).len() > 0 && spaced(parts(n)).len() > 120 ==> labels::label(n) == spaced(
            parts(n),
        ).take(120),
{
    lemma_parts(n);
    lemma_spaced(parts(n));
}

} // verus!
