//! Which nodes have a place in the semantic tree, and which place.

use crate::hashed;
use crate::labels;
use crate::laws::labelling;
use crate::semantic;
use crate::text;
use vstd::prelude::*;
use vstd::seq_lib::*;
use vstd::string::*;

verus! {

/// The kinds that have a place in the semantic tree.
pub open spec fn kinds_with_a_place() -> Seq<Seq<char>> {
    seq![
        "document"@,
        "element"@,
        "STag"@,
        "ETag"@,
        "EmptyElemTag"@,
        "Attribute"@,
        "Name"@,
        "AttValue"@,
        "CharData"@,
        "XMLDecl"@,
        "doctypedecl"@,
        "prolog"@,
    ]
}

/// These kinds have a place in the semantic tree, and no others. Comments and processing
/// instructions are trivia, and nothing else is.
pub proof fn law_kinds(kind: Seq<char>)
    ensures
        semantic::is_semantic_kind(kind) <==> kinds_with_a_place().contains(kind),
        semantic::is_trivia(kind) <==> seq!["Comment"@, "PI"@].contains(kind),
        semantic::is_semantic_kind(kind) ==> !semantic::is_trivia(kind),
{
    let w = kinds_with_a_place();
    let t = seq!["Comment"@, "PI"@];
    assert(w[0] == "document"@ && w[1] == "element"@ && w[2] == "STag"@ && w[3] == "ETag"@ && w[4]
        == "EmptyElemTag"@ && w[5] == "Attribute"@ && w[6] == "Name"@ && w[7] == "AttValue"@
        && w[8] == "CharData"@ && w[9] == "XMLDecl"@ && w[10] == "doctypedecl"@ && w[11]
        == "prolog"@);
    assert(w.len() == 12);
    assert(t[0] == "Comment"@ && t[1] == "PI"@);
    lemma_kinds();
}

proof fn lemma_kinds()
    ensures
        !semantic::is_semantic_kind("Comment"@),
        !semantic::is_semantic_kind("PI"@),
        "attribute"@ != "element"@,
        "ETag"@ != "STag"@,
        "ETag"@ != "EmptyElemTag"@,
        "content"@ != "STag"@,
        "content"@ != "EmptyElemTag"@,
        "content"@ != "ETag"@,
{
    reveal_strlit("Comment");
    reveal_strlit("PI");
    reveal_strlit("document");
    reveal_strlit("element");
    reveal_strlit("STag");
    reveal_strlit("ETag");
    reveal_strlit("EmptyElemTag");
    reveal_strlit("Attribute");
    reveal_strlit("Name");
    reveal_strlit("AttValue");
    reveal_strlit("CharData");
    reveal_strlit("XMLDecl");
    reveal_strlit("doctypedecl");
    reveal_strlit("prolog");
    reveal_strlit("attribute");
    reveal_strlit("content");
    assert("Comment"@.len() == 7 && "Comment"@[0] == 'C');
    assert("PI"@.len() == 2);
    assert("document"@.len() == 8);
    assert("element"@.len() == 7 && "element"@[0] == 'e');
    assert("STag"@.len() == 4 && "STag"@[0] == 'S');
    assert("ETag"@.len() == 4 && "ETag"@[0] == 'E');
    assert("EmptyElemTag"@.len() == 12);
    assert("Attribute"@.len() == 9);
    assert("Name"@.len() == 4);
    assert("AttValue"@.len() == 8);
    assert("CharData"@.len() == 8);
    assert("XMLDecl"@.len() == 7 && "XMLDecl"@[0] == 'X');
    assert("doctypedecl"@.len() == 11);
    assert("prolog"@.len() == 6);
    assert("attribute"@.len() == 9);
    assert("content"@.len() == 7);
}

/// Whether a node has a place of its own in the semantic tree.
pub open spec fn has_a_place(n: hashed::Hashed) -> bool {
    kinds_with_a_place().contains(n.kind)
}

/// A node has a semantic node exactly where its kind has a place. That has the given id,
/// and the kind, the hash and the place in the text that the node has. Its label is that
/// of the node; for an element, its name.
pub proof fn law_semantic_node(n: hashed::Hashed, id: Seq<char>)
    ensures
        semantic::semantic(n, id) is Some <==> has_a_place(n),
        has_a_place(n) ==> {
            let t = semantic::semantic(n, id)->0;
            &&& t.id == id
            &&& t.kind == n.kind
            &&& t.hash == n.hash
            &&& t.start == n.start
            &&& t.end == n.end
            &&& n.kind != "element"@ ==> t.label == labels::label(n)
            &&& n.kind == "element"@ ==> t.label == (match labelling::element_name(n.children) {
                Some(name) => name,
                None => n.kind,
            })
        },
{
    law_kinds(n.kind);
    assert(kinds_with_a_place()[1] == "element"@);
    law_kinds("element"@);
    labelling::law_element_name(n.children);
}

/// The id of the child number `i`: the id of the parent, a full stop, the number.
pub open spec fn numbered_id(id: Seq<char>, i: int) -> Seq<char> {
    id.push('.') + text::decimal(i as nat)
}

/// What a child of an element gives to the children of its semantic node, and whether it
/// gives them as attributes: an opening tag its attributes, content its elements, an end
/// tag nothing, anything else itself where it has a place.
pub open spec fn offered(c: hashed::Hashed) -> Seq<(hashed::Hashed, bool)> {
    if c.kind == "STag"@ || c.kind == "EmptyElemTag"@ {
        c.children.filter(|x: hashed::Hashed| x.kind == "Attribute"@).map_values(
            |x: hashed::Hashed| (x, true),
        )
    } else if c.kind == "ETag"@ {
        Seq::empty()
    } else if c.kind == "content"@ {
        c.children.filter(|x: hashed::Hashed| x.kind == "element"@).map_values(
            |x: hashed::Hashed| (x, false),
        )
    } else if has_a_place(c) {
        seq![(c, false)]
    } else {
        Seq::empty()
    }
}

/// What the children of an element give, one behind the other.
pub open spec fn promoted(s: Seq<hashed::Hashed>) -> Seq<(hashed::Hashed, bool)>
    decreases s.len(),
{
    if s.len() == 0 {
        Seq::empty()
    } else {
        promoted(s.drop_last()) + offered(s.last())
    }
}

/// The semantic node of what is given, with the id `id`.
pub open spec fn placed(p: (hashed::Hashed, bool), id: Seq<char>) -> semantic::Semantic {
    let (n, as_attribute) = p;
    if as_attribute {
        semantic::Semantic {
            id,
            kind: "attribute"@,
            label: labels::label(n),
            start: n.start,
            end: n.end,
            hash: n.hash,
            children: Seq::empty(),
        }
    } else {
        semantic::semantic(n, id)->0
    }
}

/// The semantic node of an attribute has its label, its hash and its place, and no
/// children.
pub proof fn law_attribute_node(n: hashed::Hashed, id: Seq<char>)
    ensures
        semantic::attribute_node(n, id) == placed((n, true), id),
{
}

/// The semantic nodes of what is given, numbered from `count` on.
spec fn all_placed(
    s: Seq<(hashed::Hashed, bool)>,
    id: Seq<char>,
    count: nat,
) -> Seq<semantic::Semantic> {
    Seq::new(s.len(), |i: int| placed(s[i], numbered_id(id, count + i)))
}

proof fn lemma_all_placed_add(
    s: Seq<(hashed::Hashed, bool)>,
    t: Seq<(hashed::Hashed, bool)>,
    id: Seq<char>,
    count: nat,
)
    ensures
        all_placed(s + t, id, count) == all_placed(s, id, count) + all_placed(
            t,
            id,
            count + s.len(),
        ),
{
    let r = all_placed(s, id, count) + all_placed(t, id, count + s.len());
    assert forall|i: int| 0 <= i < r.len() implies all_placed(s + t, id, count)[i] == r[i] by {
        if i >= s.len() {
            assert((s + t)[i] == t[i - s.len()]);
            assert(count + s.len() + (i - s.len()) == count + i);
        }
    }
    assert(all_placed(s + t, id, count) =~= r);
}

proof fn lemma_id(id: Seq<char>, i: nat)
    ensures
        semantic::child_id(id, i) == numbered_id(id, i as int),
{
    assert(semantic::child_id(id, i) =~= numbered_id(id, i as int));
}

proof fn lemma_one_placed(p: (hashed::Hashed, bool), id: Seq<char>, count: nat)
    ensures
        all_placed(seq![p], id, count) == seq![placed(p, semantic::child_id(id, count))],
{
    lemma_id(id, count);
    assert(all_placed(seq![p], id, count) =~= seq![placed(p, semantic::child_id(id, count))]);
}

proof fn lemma_tag_attributes(tag: hashed::Hashed, j: nat, id: Seq<char>, count: nat)
    requires
        j <= tag.children.len(),
    ensures
        semantic::tag_attributes(tag, j, id, count) == all_placed(
            tag.children.skip(j as int).filter(
                |x: hashed::Hashed| x.kind == "Attribute"@,
            ).map_values(|x: hashed::Hashed| (x, true)),
            id,
            count,
        ),
    decreases tag.children.len() - j,
{
    let f = |x: hashed::Hashed| x.kind == "Attribute"@;
    let g = |x: hashed::Hashed| (x, true);
    let s = tag.children.skip(j as int);
    reveal_with_fuel(Seq::filter, 2);
    if j < tag.children.len() {
        let c = tag.children[j as int];
        let t = tag.children.skip(j as int + 1);
        assert(s =~= seq![c] + t);
        Seq::filter_distributes_over_add(seq![c], t, f);
        assert(seq![c].drop_last() =~= Seq::<hashed::Hashed>::empty());
        let rest = t.filter(f).map_values(g);
        if f(c) {
            assert(seq![c].filter(f) =~= seq![c]);
            lemma_tag_attributes(tag, j + 1, id, count + 1);
            assert(s.filter(f).map_values(g) =~= seq![g(c)] + rest);
            lemma_all_placed_add(seq![g(c)], rest, id, count);
            lemma_one_placed(g(c), id, count);
        } else {
            assert(seq![c].filter(f) =~= Seq::<hashed::Hashed>::empty());
            lemma_tag_attributes(tag, j + 1, id, count);
            assert(s.filter(f).map_values(g) =~= rest);
        }
    } else {
        assert(s =~= Seq::<hashed::Hashed>::empty());
        assert(s.filter(f).map_values(g) =~= Seq::<(hashed::Hashed, bool)>::empty());
        assert(semantic::tag_attributes(tag, j, id, count) =~= all_placed(
            s.filter(f).map_values(g),
            id,
            count,
        ));
    }
}

proof fn lemma_content_elements(content: hashed::Hashed, j: nat, id: Seq<char>, count: nat)
    requires
        j <= content.children.len(),
    ensures
        semantic::content_elements(content, j, id, count) == all_placed(
            content.children.skip(j as int).filter(
                |x: hashed::Hashed| x.kind == "element"@,
            ).map_values(|x: hashed::Hashed| (x, false)),
            id,
            count,
        ),
    decreases content.children.len() - j,
{
    let f = |x: hashed::Hashed| x.kind == "element"@;
    let g = |x: hashed::Hashed| (x, false);
    let s = content.children.skip(j as int);
    reveal_with_fuel(Seq::filter, 2);
    if j < content.children.len() {
        let c = content.children[j as int];
        let t = content.children.skip(j as int + 1);
        assert(s =~= seq![c] + t);
        Seq::filter_distributes_over_add(seq![c], t, f);
        assert(seq![c].drop_last() =~= Seq::<hashed::Hashed>::empty());
        let rest = t.filter(f).map_values(g);
        if f(c) {
            assert(kinds_with_a_place()[1] == "element"@);
            law_semantic_node(c, semantic::child_id(id, count));
            assert(seq![c].filter(f) =~= seq![c]);
            lemma_content_elements(content, j + 1, id, count + 1);
            assert(s.filter(f).map_values(g) =~= seq![g(c)] + rest);
            lemma_all_placed_add(seq![g(c)], rest, id, count);
            lemma_one_placed(g(c), id, count);
        } else {
            assert(seq![c].filter(f) =~= Seq::<hashed::Hashed>::empty());
            lemma_content_elements(content, j + 1, id, count);
            assert(s.filter(f).map_values(g) =~= rest);
        }
    } else {
        assert(s =~= Seq::<hashed::Hashed>::empty());
        assert(s.filter(f).map_values(g) =~= Seq::<(hashed::Hashed, bool)>::empty());
        assert(semantic::content_elements(content, j, id, count) =~= all_placed(
            s.filter(f).map_values(g),
            id,
            count,
        ));
    }
}

proof fn lemma_contribution(c: hashed::Hashed, id: Seq<char>, count: nat)
    ensures
        semantic::contribution(c, id, count) == all_placed(offered(c), id, count),
{
    lemma_kinds();
    assert(c.children.skip(0) =~= c.children);
    if c.kind == "STag"@ || c.kind == "EmptyElemTag"@ {
        lemma_tag_attributes(c, 0, id, count);
    } else if c.kind == "ETag"@ {
        assert(semantic::contribution(c, id, count) =~= all_placed(offered(c), id, count));
    } else if c.kind == "content"@ {
        lemma_content_elements(c, 0, id, count);
    } else {
        law_semantic_node(c, semantic::child_id(id, count));
        lemma_one_placed((c, false), id, count);
        assert(semantic::contribution(c, id, count) =~= all_placed(offered(c), id, count));
    }
}

proof fn lemma_element_children(n: hashed::Hashed, i: nat, id: Seq<char>)
    requires
        i <= n.children.len(),
    ensures
        all_placed(promoted(n.children.take(i as int)), id, 0) + semantic::element_children(
            n,
            i,
            id,
            promoted(n.children.take(i as int)).len(),
        ) == semantic::element_children(n, 0, id, 0),
    decreases i,
{
    let s = n.children.take(i as int);
    if i == 0 {
        assert(promoted(s) =~= Seq::<(hashed::Hashed, bool)>::empty());
        assert(all_placed(promoted(s), id, 0) + semantic::element_children(n, 0, id, 0)
            =~= semantic::element_children(n, 0, id, 0));
    } else {
        let j = (i - 1) as nat;
        let t = n.children.take(j as int);
        let c = n.children[j as int];
        let count = promoted(t).len();
        lemma_element_children(n, j, id);
        assert(s.drop_last() =~= t);
        assert(s.last() == c);
        lemma_contribution(c, id, count);
        lemma_all_placed_add(promoted(t), offered(c), id, 0);
        let here = semantic::contribution(c, id, count);
        let rest = semantic::element_children(n, i, id, count + here.len());
        assert(here.len() == offered(c).len());
        assert(semantic::element_children(n, j, id, count) == here + rest);
        assert(all_placed(promoted(s), id, 0) + rest =~= all_placed(promoted(t), id, 0) + (here
            + rest));
    }
}

/// The children of the semantic node of an element are the attributes of its opening tag,
/// the elements of its content, and what else stands in it and has a place: all of them,
/// each once, in the order of the document, numbered from zero on.
pub proof fn law_children_of_an_element(n: hashed::Hashed, id: Seq<char>)
    ensures
        semantic::element_node(n, id).children.len() == promoted(n.children).len(),
        forall|i: int|
            0 <= i < promoted(n.children).len() ==> (#[trigger] semantic::element_node(
                n,
                id,
            ).children[i]) == placed(promoted(n.children)[i], numbered_id(id, i)),
        n.kind == "element"@ ==> semantic::semantic(n, id) == Some(semantic::element_node(n, id)),
        semantic::element_node(n, id).id == id,
        semantic::element_node(n, id).kind == "element"@,
        semantic::element_node(n, id).hash == n.hash,
        semantic::element_node(n, id).start == n.start,
        semantic::element_node(n, id).end == n.end,
        semantic::element_node(n, id).label == semantic::element_label(n),
{
    let k = n.children.len();
    lemma_element_children(n, k, id);
    assert(n.children.take(k as int) =~= n.children);
    let p = promoted(n.children);
    let r = semantic::element_node(n, id).children;
    assert(r == semantic::element_children(n, 0, id, 0));
    assert(semantic::element_children(n, k, id, p.len()) =~= Seq::<semantic::Semantic>::empty());
    assert(r =~= all_placed(p, id, 0));
    law_kinds("element"@);
    assert(kinds_with_a_place()[1] == "element"@);
}

proof fn lemma_promoted_add(s: Seq<hashed::Hashed>, t: Seq<hashed::Hashed>)
    ensures
        promoted(s + t) == promoted(s) + promoted(t),
    decreases t.len(),
{
    if t.len() == 0 {
        assert(s + t =~= s);
        assert(promoted(s) + promoted(t) =~= promoted(s));
    } else {
        lemma_promoted_add(s, t.drop_last());
        assert((s + t).drop_last() =~= s + t.drop_last());
        assert((s + t).last() == t.last());
        assert(promoted(s + t) =~= promoted(s) + promoted(t));
    }
}

proof fn lemma_promoted_tags(s: Seq<hashed::Hashed>)
    requires
        forall|i: int|
            0 <= i < s.len() ==> {
                let kind = (#[trigger] s[i]).kind;
                kind == "STag"@ || kind == "EmptyElemTag"@ || kind == "ETag"@
            },
    ensures
        forall|i: int| 0 <= i < promoted(s).len() ==> (#[trigger] promoted(s)[i]).1,
    decreases s.len(),
{
    if s.len() > 0 {
        let t = s.drop_last();
        assert forall|i: int| 0 <= i < t.len() implies {
            let kind = (#[trigger] t[i]).kind;
            kind == "STag"@ || kind == "EmptyElemTag"@ || kind == "ETag"@
        } by {
            assert(t[i] == s[i]);
        }
        lemma_promoted_tags(t);
        assert(s.last() == s[s.len() - 1]);
        let p = promoted(s);
        assert forall|i: int| 0 <= i < p.len() implies (#[trigger] p[i]).1 by {
            if i < promoted(t).len() {
                assert(p[i] == promoted(t)[i]);
            } else {
                assert(p[i] == offered(s.last())[i - promoted(t).len()]);
            }
        }
    }
}

/// In an element of tags and content, each element of the content is a child of the
/// semantic node, in the order of the document, with its hash, its place and its name.
/// They stand together, from the child number `at` on, and all other children are
/// attributes.
pub proof fn law_no_element_is_lost(n: hashed::Hashed, k: int, id: Seq<char>) -> (at: int)
    requires
        0 <= k < n.children.len(),
        n.children[k].kind == "content"@,
        forall|i: int|
            0 <= i < n.children.len() && i != k ==> {
                let kind = (#[trigger] n.children[i]).kind;
                kind == "STag"@ || kind == "EmptyElemTag"@ || kind == "ETag"@
            },
    ensures
        ({
            let elements = n.children[k].children.filter(
                |x: hashed::Hashed| x.kind == "element"@,
            );
            let r = semantic::element_node(n, id).children;
            &&& 0 <= at
            &&& at + elements.len() <= r.len()
            &&& forall|i: int|
                #![trigger r[at + i]]
                #![trigger elements[i]]
                0 <= i < elements.len() ==> r[at + i].kind == "element"@ && r[at + i].hash
                    == elements[i].hash && r[at + i].start == elements[i].start && r[at + i].end
                    == elements[i].end && r[at + i].label == semantic::element_label(elements[i])
            &&& forall|i: int|
                0 <= i < r.len() && !(at <= i < at + elements.len()) ==> (#[trigger] r[i]).kind
                    == "attribute"@
        }),
{
    lemma_kinds();
    let f = |x: hashed::Hashed| x.kind == "element"@;
    let c = n.children[k];
    let a = n.children.take(k);
    let b = n.children.skip(k + 1);
    let e = c.children.filter(f);
    let r = semantic::element_node(n, id).children;
    assert(n.children =~= a + (seq![c] + b));
    lemma_promoted_add(a, seq![c] + b);
    lemma_promoted_add(seq![c], b);
    assert(seq![c].drop_last() =~= Seq::<hashed::Hashed>::empty());
    assert(promoted(seq![c].drop_last()) =~= Seq::<(hashed::Hashed, bool)>::empty());
    assert(promoted(seq![c]) =~= offered(c));
    assert forall|i: int| 0 <= i < a.len() implies {
        let kind = (#[trigger] a[i]).kind;
        kind == "STag"@ || kind == "EmptyElemTag"@ || kind == "ETag"@
    } by {
        assert(a[i] == n.children[i]);
    }
    assert forall|i: int| 0 <= i < b.len() implies {
        let kind = (#[trigger] b[i]).kind;
        kind == "STag"@ || kind == "EmptyElemTag"@ || kind == "ETag"@
    } by {
        assert(b[i] == n.children[i + k + 1]);
    }
    lemma_promoted_tags(a);
    lemma_promoted_tags(b);
    law_children_of_an_element(n, id);
    let at = promoted(a).len() as int;
    let p = promoted(n.children);
    assert(p =~= promoted(a) + (offered(c) + promoted(b)));
    assert(offered(c).len() == e.len());
    assert forall|i: int|
        #![trigger r[at + i]]
        #![trigger e[i]]
        0 <= i < e.len() implies r[at + i].kind == "element"@ && r[at + i].hash == e[i].hash
        && r[at + i].start == e[i].start && r[at + i].end == e[i].end && r[at + i].label
        == semantic::element_label(e[i]) by {
        assert(p[at + i] == offered(c)[i]);
        assert(offered(c)[i] == (e[i], false));
        c.children.lemma_filter_pred(f, i);
        assert(r[at + i] == placed(p[at + i], numbered_id(id, at + i)));
        law_children_of_an_element(e[i], numbered_id(id, at + i));
    }
    assert forall|i: int| 0 <= i < r.len() && !(at <= i < at + e.len()) implies (
    #[trigger] r[i]).kind == "attribute"@ by {
        if i < at {
            assert(p[i] == promoted(a)[i]);
        } else {
            assert(p[i] == promoted(b)[i - at - e.len()]);
        }
        assert(r[i] == placed(p[i], numbered_id(id, i)));
    }
    at
}

/// The positions of the children that have a place.
pub open spec fn positions(n: hashed::Hashed) -> Seq<int> {
    Seq::new(n.children.len(), |i: int| i).filter(|i: int| has_a_place(n.children[i]))
}

proof fn lemma_plain_children(n: hashed::Hashed, j: nat, id: Seq<char>)
    requires
        j <= n.children.len(),
    ensures
        semantic::plain_children(n, j, id) == Seq::new(n.children.len(), |i: int| i).skip(
            j as int,
        ).filter(|i: int| has_a_place(n.children[i])).map_values(
            |i: int| semantic::semantic(n.children[i], numbered_id(id, i))->0,
        ),
    decreases n.children.len() - j,
{
    let f = |i: int| has_a_place(n.children[i]);
    let g = |i: int| semantic::semantic(n.children[i], numbered_id(id, i))->0;
    let all = Seq::new(n.children.len(), |i: int| i);
    let s = all.skip(j as int);
    reveal_with_fuel(Seq::filter, 2);
    if j < n.children.len() {
        let t = all.skip(j as int + 1);
        let one = seq![j as int];
        assert(s =~= one + t);
        Seq::filter_distributes_over_add(one, t, f);
        assert(one.drop_last() =~= Seq::<int>::empty());
        lemma_plain_children(n, j + 1, id);
        law_semantic_node(n.children[j as int], semantic::child_id(id, j));
        lemma_id(id, j);
        if f(j as int) {
            assert(one.filter(f) =~= one);
        } else {
            assert(one.filter(f) =~= Seq::<int>::empty());
        }
        assert(semantic::plain_children(n, j, id) =~= s.filter(f).map_values(g));
    } else {
        assert(s =~= Seq::<int>::empty());
        assert(semantic::plain_children(n, j, id) =~= s.filter(f).map_values(g));
    }
}

/// The children of the semantic node of anything but an element are those of its children
/// that have a place: all of them, in their order, each with its position in its id.
pub proof fn law_children_of_other_nodes(n: hashed::Hashed, id: Seq<char>)
    requires
        has_a_place(n),
        n.kind != "element"@,
    ensures
        ({
            let r = semantic::semantic(n, id)->0.children;
            &&& r.len() == positions(n).len()
            &&& forall|k: int|
                0 <= k < r.len() ==> (#[trigger] r[k]) == semantic::semantic(
                    n.children[positions(n)[k]],
                    numbered_id(id, positions(n)[k]),
                )->0
        }),
{
    law_kinds(n.kind);
    lemma_plain_children(n, 0, id);
    let all = Seq::new(n.children.len(), |i: int| i);
    assert(all.skip(0) =~= all);
}

} // verus!
