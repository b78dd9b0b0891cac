//! What holds of every semantic tree.

use crate::entities;
use crate::hashed;
use crate::laws::references;
use crate::semantic;
use crate::text;
use vstd::prelude::*;

verus! {

/// Whether the ids of `s` are those of children of the node `id`, with the numbers
/// `numbers`, which grow.
pub open spec fn numbered(s: Seq<semantic::Semantic>, id: Seq<char>, numbers: Seq<nat>) -> bool {
    &&& s.len() == numbers.len()
    &&& forall|i: int|
        0 <= i < s.len() ==> (#[trigger] s[i]).id == semantic::child_id(id, numbers[i])
    &&& forall|i: int, j: int|
        0 <= i < j < s.len() ==> #[trigger] numbers[i] < #[trigger] numbers[j]
}

/// Whether a semantic tree is built as it should be: of semantic kinds and attributes
/// only, without trivia; attributes are leaves; ids extend the id of the parent by growing
/// numbers, which under an element count from zero without a gap.
pub open spec fn well_formed(t: semantic::Semantic) -> bool
    decreases t,
{
    &&& semantic::is_semantic_kind(t.kind) || t.kind == "attribute"@
    &&& !semantic::is_trivia(t.kind)
    &&& t.kind == "attribute"@ ==> t.children.len() == 0
    &&& exists|numbers: Seq<nat>| #[trigger] numbered(t.children, t.id, numbers)
    &&& t.kind == "element"@ ==> forall|i: int|
        0 <= i < t.children.len() ==> (#[trigger] t.children[i]).id == semantic::child_id(
            t.id,
            i as nat,
        )
    &&& forall|i: int| 0 <= i < t.children.len() ==> well_formed(#[trigger] t.children[i])
}

/// Whether the trees are well-formed and numbered from `count` on, without a gap.
spec fn fits(s: Seq<semantic::Semantic>, id: Seq<char>, count: nat) -> bool {
    forall|i: int|
        0 <= i < s.len() ==> well_formed(#[trigger] s[i]) && s[i].id == semantic::child_id(
            id,
            (count + i) as nat,
        )
}

proof fn lemma_fits_add(
    s: Seq<semantic::Semantic>,
    t: Seq<semantic::Semantic>,
    id: Seq<char>,
    count: nat,
)
    requires
        fits(s, id, count),
        fits(t, id, count + s.len()),
    ensures
        fits(s + t, id, count),
{
    let r = s + t;
    assert forall|i: int| 0 <= i < r.len() implies well_formed(#[trigger] r[i]) && r[i].id
        == semantic::child_id(id, (count + i) as nat) by {
        if i < s.len() {
            assert(r[i] == s[i]);
        } else {
            assert(r[i] == t[i - s.len()]);
        }
    }
}

proof fn lemma_kinds()
    ensures
        !semantic::is_trivia("attribute"@),
        !semantic::is_trivia("element"@),
        "attribute"@ != "element"@,
        !semantic::is_semantic_kind("attribute"@),
{
    reveal_strlit("attribute");
    reveal_strlit("element");
    reveal_strlit("Comment");
    reveal_strlit("PI");
    reveal_strlit("document");
    reveal_strlit("STag");
    reveal_strlit("ETag");
    reveal_strlit("EmptyElemTag");
    reveal_strlit("Attribute");
    reveal_strlit("Name");
    reveal_strlit("AttValue");
    reveal_strlit("CharData");
    reveal_strlit("XMLDecl");
    reveal_strlit("doctypedecl");
    reveal_strlit("prolog");
    assert("attribute"@.len() == 9 && "attribute"@[0] == 'a');
    assert("element"@.len() == 7 && "element"@[0] == 'e');
    assert("Comment"@.len() == 7 && "Comment"@[0] == 'C');
    assert("PI"@.len() == 2);
    assert("document"@.len() == 8);
    assert("STag"@.len() == 4);
    assert("ETag"@.len() == 4);
    assert("EmptyElemTag"@.len() == 12);
    assert("Attribute"@.len() == 9 && "Attribute"@[0] == 'A');
    assert("Name"@.len() == 4);
    assert("AttValue"@.len() == 8);
    assert("CharData"@.len() == 8);
    assert("XMLDecl"@.len() == 7);
    assert("doctypedecl"@.len() == 11);
    assert("prolog"@.len() == 6);
}

proof fn lemma_tag_attributes(tag: hashed::Hashed, j: nat, id: Seq<char>, count: nat)
    ensures
        fits(semantic::tag_attributes(tag, j, id, count), id, count),
        forall|i: int|
            0 <= i < semantic::tag_attributes(tag, j, id, count).len() ==> (
            #[trigger] semantic::tag_attributes(tag, j, id, count)[i]).kind == "attribute"@,
    decreases tag.children.len() - j,
{
    if j < tag.children.len() {
        let c = tag.children[j as int];
        if c.kind == "Attribute"@ {
            let a = semantic::attribute_node(c, semantic::child_id(id, count));
            lemma_kinds();
            assert(numbered(a.children, a.id, Seq::<nat>::empty()));
            assert(well_formed(a));
            lemma_tag_attributes(tag, j + 1, id, count + 1);
            lemma_fits_add(seq![a], semantic::tag_attributes(tag, j + 1, id, count + 1), id, count);
        } else {
            lemma_tag_attributes(tag, j + 1, id, count);
        }
    }
}

proof fn lemma_content_elements(content: hashed::Hashed, j: nat, id: Seq<char>, count: nat)
    ensures
        fits(semantic::content_elements(content, j, id, count), id, count),
        forall|i: int|
            0 <= i < semantic::content_elements(content, j, id, count).len() ==> (
            #[trigger] semantic::content_elements(content, j, id, count)[i]).kind == "element"@,
    decreases content, content.children.len() - j,
{
    if j < content.children.len() {
        let c = content.children[j as int];
        if c.kind == "element"@ {
            lemma_kinds();
            law_semantic_tree(c, semantic::child_id(id, count));
            let here = semantic::as_seq(semantic::semantic(c, semantic::child_id(id, count)));
            lemma_content_elements(content, j + 1, id, count + here.len());
            lemma_fits_add(
                here,
                semantic::content_elements(content, j + 1, id, count + here.len()),
                id,
                count,
            );
        } else {
            lemma_content_elements(content, j + 1, id, count);
        }
    }
}

proof fn lemma_contribution(c: hashed::Hashed, id: Seq<char>, count: nat)
    ensures
        fits(semantic::contribution(c, id, count), id, count),
    decreases c, c.children.len() + 3,
{
    if c.kind == "STag"@ || c.kind == "EmptyElemTag"@ {
        lemma_tag_attributes(c, 0, id, count);
    } else if c.kind == "ETag"@ {
    } else if c.kind == "content"@ {
        lemma_content_elements(c, 0, id, count);
    } else {
        law_semantic_tree(c, semantic::child_id(id, count));
    }
}

proof fn lemma_element_children(n: hashed::Hashed, i: nat, id: Seq<char>, count: nat)
    ensures
        fits(semantic::element_children(n, i, id, count), id, count),
    decreases n, n.children.len() - i,
{
    if i < n.children.len() {
        lemma_contribution(n.children[i as int], id, count);
        let here = semantic::contribution(n.children[i as int], id, count);
        lemma_element_children(n, i + 1, id, count + here.len());
        lemma_fits_add(
            here,
            semantic::element_children(n, i + 1, id, count + here.len()),
            id,
            count,
        );
    }
}

proof fn lemma_plain_children(n: hashed::Hashed, i: nat, id: Seq<char>) -> (numbers: Seq<nat>)
    ensures
        numbered(semantic::plain_children(n, i, id), id, numbers),
        forall|k: int| 0 <= k < numbers.len() ==> #[trigger] numbers[k] >= i,
        forall|k: int|
            0 <= k < semantic::plain_children(n, i, id).len() ==> well_formed(
                #[trigger] semantic::plain_children(n, i, id)[k],
            ),
    decreases n, n.children.len() - i,
{
    if i < n.children.len() {
        let rest = lemma_plain_children(n, i + 1, id);
        let s = semantic::plain_children(n, i + 1, id);
        law_semantic_tree(n.children[i as int], semantic::child_id(id, i));
        let here = semantic::as_seq(
            semantic::semantic(n.children[i as int], semantic::child_id(id, i)),
        );
        let r = here + s;
        if here.len() == 0 {
            assert(r =~= s);
            rest
        } else {
            let numbers = seq![i] + rest;
            assert forall|k: int| 0 <= k < r.len() implies well_formed(#[trigger] r[k]) && r[k].id
                == semantic::child_id(id, numbers[k]) by {
                if k > 0 {
                    assert(r[k] == s[k - 1]);
                    assert(numbers[k] == rest[k - 1]);
                }
            }
            assert forall|k: int, l: int| 0 <= k < l < r.len() implies #[trigger] numbers[k]
                < #[trigger] numbers[l] by {
                assert(numbers[l] == rest[l - 1]);
                if k > 0 {
                    assert(numbers[k] == rest[k - 1]);
                }
            }
            numbers
        }
    } else {
        Seq::empty()
    }
}

/// A node has a semantic tree exactly when its kind has a place there and is no trivia;
/// the tree has the given id, the kind and the hash of the node, and is well-formed.
pub proof fn law_semantic_tree(n: hashed::Hashed, id: Seq<char>)
    ensures
        semantic::semantic(n, id) is Some <==> semantic::is_semantic_kind(n.kind)
            && !semantic::is_trivia(n.kind),
        semantic::semantic(n, id) matches Some(t) ==> {
            &&& t.id == id
            &&& t.kind == n.kind
            &&& t.hash == n.hash
            &&& well_formed(t)
        },
    decreases n, n.children.len() + 2,
{
    lemma_kinds();
    if semantic::is_trivia(n.kind) {
    } else if n.kind == "element"@ {
        let t = semantic::element_node(n, id);
        lemma_element_children(n, 0, id, 0);
        let numbers = Seq::new(t.children.len(), |i: int| i as nat);
        assert(numbered(t.children, t.id, numbers));
    } else if semantic::is_semantic_kind(n.kind) {
        let numbers = lemma_plain_children(n, 0, id);
        let t = semantic::semantic(n, id)->0;
        assert(numbered(t.children, t.id, numbers));
    }
}

/// In an element of tags and content alone, only attributes and elements become children:
/// text shows in the hash of the element.
pub proof fn law_children_of_elements(n: hashed::Hashed, id: Seq<char>)
    requires
        forall|i: int|
            0 <= i < n.children.len() ==> {
                let kind = (#[trigger] n.children[i]).kind;
                kind == "STag"@ || kind == "EmptyElemTag"@ || kind == "ETag"@ || kind == "content"@
            },
    ensures
        forall|i: int|
            0 <= i < semantic::element_node(n, id).children.len() ==> {
                let kind = (#[trigger] semantic::element_node(n, id).children[i]).kind;
                kind == "attribute"@ || kind == "element"@
            },
{
    lemma_children_of_elements(n, 0, id, 0);
    assert(semantic::element_node(n, id).children == semantic::element_children(n, 0, id, 0));
}

proof fn lemma_children_of_elements(n: hashed::Hashed, i: nat, id: Seq<char>, count: nat)
    requires
        forall|i: int|
            0 <= i < n.children.len() ==> {
                let kind = (#[trigger] n.children[i]).kind;
                kind == "STag"@ || kind == "EmptyElemTag"@ || kind == "ETag"@ || kind == "content"@
            },
    ensures
        forall|k: int|
            0 <= k < semantic::element_children(n, i, id, count).len() ==> {
                let kind = (#[trigger] semantic::element_children(n, i, id, count)[k]).kind;
                kind == "attribute"@ || kind == "element"@
            },
    decreases n.children.len() - i,
{
    if i < n.children.len() {
        let c = n.children[i as int];
        let here = semantic::contribution(c, id, count);
        if c.kind == "STag"@ || c.kind == "EmptyElemTag"@ {
            lemma_tag_attributes(c, 0, id, count);
        } else if c.kind == "content"@ {
            lemma_content_elements(c, 0, id, count);
        }
        lemma_children_of_elements(n, i + 1, id, count + here.len());
        let rest = semantic::element_children(n, i + 1, id, count + here.len());
        let all = semantic::element_children(n, i, id, count);
        assert(all == here + rest);
        assert forall|k: int| 0 <= k < all.len() implies {
            let kind = (#[trigger] all[k]).kind;
            kind == "attribute"@ || kind == "element"@
        } by {
            if k < here.len() {
                assert(all[k] == here[k]);
            } else {
                assert(all[k] == rest[k - here.len()]);
            }
        }
    }
}

/// The ids in a semantic tree, parents before children.
pub open spec fn ids(t: semantic::Semantic) -> Seq<Seq<char>>
    decreases t, t.children.len() + 1,
{
    seq![t.id] + ids_from(t, 0)
}

/// The ids in the trees under a node, from the child at `i` on.
pub open spec fn ids_from(t: semantic::Semantic, i: nat) -> Seq<Seq<char>>
    decreases t, t.children.len() - i,
{
    if i < t.children.len() {
        ids(t.children[i as int]) + ids_from(t, i + 1)
    } else {
        Seq::empty()
    }
}

/// Whether `x` is the id of a node or of something under it.
pub open spec fn at_or_under(id: Seq<char>, x: Seq<char>) -> bool {
    id.is_prefix_of(x) && (x.len() == id.len() || x[id.len() as int] == '.')
}

/// A decimal numeral is not empty, and is of digits only.
proof fn lemma_decimal(k: nat)
    ensures
        text::decimal(k).len() > 0,
        forall|i: int| 0 <= i < text::decimal(k).len() ==> #[trigger] text::decimal(k)[i] != '.',
{
    references::lemma_numeral_value(k, 10);
    let d = text::decimal(k);
    assert forall|i: int| 0 <= i < d.len() implies #[trigger] d[i] != '.' by {
        assert(entities::digit_value(d[i], 10) is Some);
    }
}

/// Different numbers are written differently.
proof fn lemma_decimal_injective(k: nat, l: nat)
    requires
        text::decimal(k) == text::decimal(l),
    ensures
        k == l,
{
    references::lemma_numeral_value(k, 10);
    references::lemma_numeral_value(l, 10);
}

/// What is under one child is not under another.
proof fn lemma_apart(id: Seq<char>, k: nat, l: nat, x: Seq<char>)
    requires
        at_or_under(semantic::child_id(id, k), x),
        at_or_under(semantic::child_id(id, l), x),
    ensures
        k == l,
{
    let a = semantic::child_id(id, k);
    let b = semantic::child_id(id, l);
    let d = text::decimal(k);
    let e = text::decimal(l);
    let p = id.len() as int + 1;
    lemma_decimal(k);
    lemma_decimal(l);
    assert forall|i: int| 0 <= i < d.len() implies #[trigger] d[i] == x[p + i] by {
        assert(a[p + i] == d[i]);
    }
    assert forall|i: int| 0 <= i < e.len() implies #[trigger] e[i] == x[p + i] by {
        assert(b[p + i] == e[i]);
    }
    if d.len() < e.len() {
        assert(e[d.len() as int] == x[p + d.len()]);
        assert(false);
    }
    if e.len() < d.len() {
        assert(d[e.len() as int] == x[p + e.len()]);
        assert(false);
    }
    assert(d =~= e);
    lemma_decimal_injective(k, l);
}

/// The ids in a tree are at or under the id of its root.
proof fn lemma_ids_under(t: semantic::Semantic)
    requires
        well_formed(t),
    ensures
        forall|x: Seq<char>| ids(t).contains(x) ==> #[trigger] at_or_under(t.id, x),
    decreases t, t.children.len() + 1,
{
    assert forall|x: Seq<char>| ids(t).contains(x) implies #[trigger] at_or_under(t.id, x) by {
        let i = choose|i: int| 0 <= i < ids(t).len() && ids(t)[i] == x;
        if i > 0 {
            assert(ids_from(t, 0)[i - 1] == x);
            let j = lemma_ids_from(t, 0, x);
            let numbers = choose|numbers: Seq<nat>| #[trigger]
                numbered(t.children, t.id, numbers);
            let c = t.children[j].id;
            assert(c == semantic::child_id(t.id, numbers[j]));
            assert(c[t.id.len() as int] == '.');
            assert forall|k: int| 0 <= k < t.id.len() implies t.id[k] == #[trigger] x[k] by {
                assert(c[k] == x[k]);
            }
        }
    }
}

/// An id under a node is at or under one of its children.
proof fn lemma_ids_from(t: semantic::Semantic, i: nat, x: Seq<char>) -> (j: int)
    requires
        well_formed(t),
        ids_from(t, i).contains(x),
    ensures
        i <= j < t.children.len(),
        at_or_under(t.children[j].id, x),
    decreases t, t.children.len() - i,
{
    let s = ids_from(t, i);
    let k = choose|k: int| 0 <= k < s.len() && s[k] == x;
    let here = ids(t.children[i as int]);
    if k < here.len() {
        assert(here[k] == x);
        assert(well_formed(t.children[i as int]));
        lemma_ids_under(t.children[i as int]);
        i as int
    } else {
        assert(ids_from(t, i + 1)[k - here.len()] == x);
        lemma_ids_from(t, i + 1, x)
    }
}

/// No id occurs twice in a semantic tree.
pub proof fn law_ids_are_unique(t: semantic::Semantic)
    requires
        well_formed(t),
    ensures
        ids(t).no_duplicates(),
    decreases t, t.children.len() + 1,
{
    lemma_ids_from_unique(t, 0);
    let s = ids_from(t, 0);
    let numbers = choose|numbers: Seq<nat>| #[trigger] numbered(t.children, t.id, numbers);
    assert forall|i: int| 0 <= i < s.len() implies s[i] != t.id by {
        assert(s.contains(s[i]));
        let j = lemma_ids_from(t, 0, s[i]);
        assert(t.children[j].id == semantic::child_id(t.id, numbers[j]));
    }
    let r = ids(t);
    assert forall|i: int, j: int| 0 <= i < j < r.len() implies r[i] != r[j] by {
        assert(r[j] == s[j - 1]);
        if i > 0 {
            assert(r[i] == s[i - 1]);
        }
    }
}

proof fn lemma_ids_from_unique(t: semantic::Semantic, i: nat)
    requires
        well_formed(t),
    ensures
        ids_from(t, i).no_duplicates(),
    decreases t, t.children.len() - i,
{
    if i < t.children.len() {
        let c = t.children[i as int];
        assert(well_formed(c));
        law_ids_are_unique(c);
        lemma_ids_under(c);
        lemma_ids_from_unique(t, i + 1);
        let numbers = choose|numbers: Seq<nat>| #[trigger] numbered(t.children, t.id, numbers);
        let a = ids(c);
        let b = ids_from(t, i + 1);
        let r = ids_from(t, i);
        assert forall|k: int, l: int| 0 <= k < a.len() && 0 <= l < b.len() implies a[k]
            != b[l] by {
            assert(a.contains(a[k]));
            assert(b.contains(b[l]));
            assert(at_or_under(c.id, a[k]));
            let j = lemma_ids_from(t, i + 1, b[l]);
            assert(c.id == semantic::child_id(t.id, numbers[i as int]));
            assert(t.children[j].id == semantic::child_id(t.id, numbers[j]));
            assert(numbers[i as int] < numbers[j]);
            if a[k] == b[l] {
                lemma_apart(t.id, numbers[i as int], numbers[j], a[k]);
            }
        }
        assert forall|k: int, l: int| 0 <= k < l < r.len() implies r[k] != r[l] by {
            if l < a.len() {
                assert(r[k] == a[k] && r[l] == a[l]);
            } else if k >= a.len() {
                assert(r[k] == b[k - a.len()] && r[l] == b[l - a.len()]);
            } else {
                assert(r[k] == a[k] && r[l] == b[l - a.len()]);
            }
        }
    }
}

} // verus!
