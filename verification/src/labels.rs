//! Labels of the nodes of the semantic tree.

use crate::hashed;
use crate::hashed::HashedNode;
use crate::normalize;
use crate::text;
use vstd::prelude::*;
use vstd::string::*;

verus! {

/// How many characters of an XML declaration its label shows at most.
pub const DECLARATION_LABEL_LEN: usize = 120;

/// The name of an element: the text of the first `Name` in the first of its tags that
/// has one.
pub open spec fn tag_name(s: Seq<hashed::Hashed>) -> Option<Seq<char>>
    decreases s.len(),
{
    if s.len() == 0 {
        None
    } else if normalize::is_tag(s[0].kind) && hashed::first_text(
        s[0].children,
        "Name"@,
    ) is Some {
        hashed::first_text(s[0].children, "Name"@)
    } else {
        tag_name(s.skip(1))
    }
}

/// The name of an attribute.
pub open spec fn attribute_name(n: hashed::Hashed) -> Option<Seq<char>> {
    hashed::first_text(n.children, "Name"@)
}

/// The value of an attribute, without its quotation marks.
pub open spec fn attribute_value(n: hashed::Hashed) -> Option<Seq<char>> {
    match hashed::first_text(n.children, "AttValue"@) {
        Some(t) => Some(text::unquoted(t)),
        None => None,
    }
}

/// The text, or nothing where there is none.
pub open spec fn or_empty(t: Option<Seq<char>>) -> Seq<char> {
    match t {
        Some(x) => x,
        None => Seq::empty(),
    }
}

/// The trimmed texts of the leaves below a node (or of the node, where it is a leaf),
/// in order, without the blank ones.
pub open spec fn leaf_texts(n: hashed::Hashed) -> Seq<Seq<char>>
    decreases n, n.children.len() + 1,
{
    if n.children.len() == 0 {
        if text::trimmed(n.text_or_empty()).len() == 0 {
            Seq::empty()
        } else {
            seq![text::trimmed(n.text_or_empty())]
        }
    } else {
        leaf_texts_from(n, 0)
    }
}

/// The leaf texts of the children of `n` from the one at `i` on.
pub open spec fn leaf_texts_from(n: hashed::Hashed, i: nat) -> Seq<Seq<char>>
    decreases n, n.children.len() - i,
{
    if i < n.children.len() {
        leaf_texts(n.children[i as int]) + leaf_texts_from(n, i + 1)
    } else {
        Seq::empty()
    }
}

/// The parts, with a space between each two.
pub open spec fn joined(parts: Seq<Seq<char>>) -> Seq<char>
    decreases parts.len(),
{
    if parts.len() == 0 {
        Seq::empty()
    } else if parts.len() == 1 {
        parts[0]
    } else {
        joined(parts.drop_last()) + seq![' '] + parts.last()
    }
}

/// At most the first `n` of the characters.
pub open spec fn at_most(s: Seq<char>, n: nat) -> Seq<char> {
    if s.len() <= n {
        s
    } else {
        s.take(n as int)
    }
}

/// The label of an attribute: `name=value`, or only the name where the value is empty
/// or the same as the name.
pub open spec fn attribute_label(name: Seq<char>, value: Seq<char>) -> Seq<char> {
    if value.len() == 0 || value == name {
        name
    } else {
        name + seq!['='] + value
    }
}

/// The label of a node: the text of a leaf; the label of a literal; for an XML
/// declaration what it says, shortened; the name of an element; name and value of an
/// attribute; the kind of any other node.
pub open spec fn label(n: hashed::Hashed) -> Seq<char> {
    if n.children.len() == 0 {
        n.text_or_empty()
    } else if n.literal_label is Some {
        n.literal_label->0
    } else if n.kind == "XMLDecl"@ {
        if leaf_texts(n).len() == 0 {
            n.kind
        } else {
            at_most(joined(leaf_texts(n)), DECLARATION_LABEL_LEN as nat)
        }
    } else if n.kind == "element"@ {
        match tag_name(n.children) {
            Some(name) => name,
            None => n.kind,
        }
    } else if n.kind == "Attribute"@ {
        attribute_label(or_empty(attribute_name(n)), or_empty(attribute_value(n)))
    } else {
        n.kind
    }
}

/// The name of an element, from its `STag`, `ETag` or `EmptyElemTag`.
pub fn tag_name_of(element: &HashedNode) -> (r: Option<String>)
    ensures
        match r {
            Some(t) => tag_name(element@.children) == Some(t@),
            None => tag_name(element@.children) is None,
        },
{
    let ghost all = element@.children;
    let mut i: usize = 0;
    assert(all.skip(0) =~= all);
    while i < element.children.len()
        invariant
            i <= element.children@.len(),
            all == element@.children,
            tag_name(all.skip(i as int)) == tag_name(all),
        decreases element.children@.len() - i,
    {
        let child = &element.children[i];
        assert(all.skip(i as int)[0] == child@);
        if child.is_kind("STag") || child.is_kind("ETag") || child.is_kind("EmptyElemTag") {
            if let Some(name) = hashed::first_child_text(child, "Name") {
                return Some(name.to_owned());
            }
        }
        assert(all.skip(i as int).skip(1) =~= all.skip(i + 1));
        i = i + 1;
    }
    None
}

/// The value of an attribute, without its quotation marks.
pub fn attribute_value_of(node: &HashedNode) -> (r: Option<String>)
    ensures
        match r {
            Some(t) => attribute_value(node@) == Some(t@),
            None => attribute_value(node@) is None,
        },
{
    match hashed::first_child_text(node, "AttValue") {
        Some(value) => Some(text::trim_quotes(value)),
        None => None,
    }
}

/// The name of an attribute.
pub fn attribute_name_of(node: &HashedNode) -> (r: Option<String>)
    ensures
        match r {
            Some(t) => attribute_name(node@) == Some(t@),
            None => attribute_name(node@) is None,
        },
{
    match hashed::first_child_text(node, "Name") {
        Some(name) => Some(name.to_owned()),
        None => None,
    }
}

/// The characters of a sequence of strings.
pub open spec fn views(s: Seq<String>) -> Seq<Seq<char>> {
    s.map_values(|t: String| t@)
}

/// Adds the trimmed texts of the leaves of `node`, without the blank ones.
fn collect_leaf_texts(node: &HashedNode, out: &mut Vec<String>)
    ensures
        views(final(out)@) == views(old(out)@) + leaf_texts(node@),
    decreases node,
{
    let ghost before = views(out@);
    if node.is_leaf() {
        let t = text::trim(node.text_or_empty());
        if !t.as_str().is_empty() {
            out.push(t);
        }
        assert(views(out@) =~= before + leaf_texts(node@));
        return;
    }
    let mut i: usize = 0;
    while i < node.children.len()
        invariant
            i <= node.children@.len(),
            views(out@) + leaf_texts_from(node@, i as nat) == before + leaf_texts_from(node@, 0),
        decreases node.children@.len() - i,
    {
        let ghost so_far = views(out@);
        collect_leaf_texts(&node.children[i], out);
        assert(node@.children[i as int] == node.children@[i as int]@);
        assert(views(out@) + leaf_texts_from(node@, (i + 1) as nat) =~= so_far + leaf_texts_from(
            node@,
            i as nat,
        ));
        i = i + 1;
    }
    assert(views(out@) =~= views(out@) + leaf_texts_from(node@, i as nat));
}

/// The parts, with a space between each two.
fn join(parts: &Vec<String>) -> (r: String)
    ensures
        r@ == joined(views(parts@)),
{
    let ghost all = views(parts@);
    let mut r = String::new();
    let mut i: usize = 0;
    assert(all.take(0) =~= Seq::<Seq<char>>::empty());
    while i < parts.len()
        invariant
            i <= parts@.len(),
            all == views(parts@),
            r@ == joined(all.take(i as int)),
        decreases parts@.len() - i,
    {
        let ghost next = all.take(i + 1);
        let ghost so_far = r@;
        proof {
            assert(next.drop_last() =~= all.take(i as int));
            assert(next.last() == parts@[i as int]@);
        }
        if i > 0 {
            r.push(' ');
        }
        r.append(parts[i].as_str());
        if i == 0 {
            assert(r@ =~= next[0]);
        } else {
            assert(r@ =~= so_far + seq![' '] + next.last());
        }
        i = i + 1;
    }
    assert(all.take(i as int) =~= all);
    r
}

/// At most the first `n` characters of `s`.
fn shortened(s: &str, n: usize) -> (r: String)
    ensures
        r@ == at_most(s@, n as nat),
{
    let v = text::chars_of(s);
    let end: usize = if v.len() <= n {
        v.len()
    } else {
        n
    };
    let r = text::string_of(&v, 0, end);
    assert(r@ =~= at_most(s@, n as nat));
    r
}

/// The label of a node.
pub fn label_for(node: &HashedNode) -> (r: String)
    ensures
        r@ == label(node@),
{
    if node.is_leaf() {
        return node.text_or_empty().to_owned();
    }
    if let Some(label) = &node.literal_label {
        return label.clone();
    }
    if node.is_kind("XMLDecl") {
        let mut parts: Vec<String> = Vec::new();
        collect_leaf_texts(node, &mut parts);
        assert(views(parts@) =~= leaf_texts(node@));
        if parts.len() == 0 {
            node.node_type.clone()
        } else {
            shortened(join(&parts).as_str(), DECLARATION_LABEL_LEN)
        }
    } else if node.is_kind("element") {
        match tag_name_of(node) {
            Some(name) => name,
            None => node.node_type.clone(),
        }
    } else if node.is_kind("Attribute") {
        let mut name = match attribute_name_of(node) {
            Some(name) => name,
            None => String::new(),
        };
        let value = match attribute_value_of(node) {
            Some(value) => value,
            None => String::new(),
        };
        if !value.as_str().is_empty() && !text::same_text(value.as_str(), name.as_str()) {
            name.push('=');
            name.append(value.as_str());
        }
        assert(name@ =~= label(node@));
        name
    } else {
        node.node_type.clone()
    }
}

} // verus!
