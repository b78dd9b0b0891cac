//! What text-level nodes say, and what they are merged into.

use crate::content;
use crate::entities;
use crate::laws::decoding;
use crate::laws::equivalence;
use crate::normalize;
use crate::tree;
use vstd::prelude::*;
use vstd::string::*;

verus! {

/// The text of a node, or nothing.
pub open spec fn own_text(c: tree::Cst) -> Seq<char> {
    if c.text is Some {
        c.text->0
    } else {
        Seq::empty()
    }
}

/// The text of the first of the nodes that is of the kind.
pub open spec fn lead(s: Seq<tree::Cst>, kind: Seq<char>) -> Option<Seq<char>>
    decreases s.len(),
{
    if s.len() == 0 {
        None
    } else if lead(s.drop_last(), kind) is Some {
        lead(s.drop_last(), kind)
    } else if s.last().kind == kind {
        Some(own_text(s.last()))
    } else {
        None
    }
}

/// The text of the first node of a kind is that of the one before which there is none.
pub proof fn law_lead(s: Seq<tree::Cst>, kind: Seq<char>)
    ensures
        tree::first_text(s, kind) == lead(s, kind),
    decreases s.len(),
{
    if s.len() > 0 {
        let t = s.drop_last();
        law_lead(t, kind);
        lemma_first_of_push(t, s.last(), kind);
        assert(s =~= t.push(s.last()));
    }
}

proof fn lemma_first_of_push(s: Seq<tree::Cst>, c: tree::Cst, kind: Seq<char>)
    ensures
        tree::first_of_kind(s.push(c), kind) == (if tree::first_of_kind(s, kind) is Some {
            tree::first_of_kind(s, kind)
        } else if c.kind == kind {
            Some(c)
        } else {
            None
        }),
    decreases s.len(),
{
    if s.len() == 0 {
        assert(s.push(c).skip(1) =~= s);
    } else {
        assert(s.push(c)[0] == s[0]);
        assert(s.push(c).skip(1) =~= s.skip(1).push(c));
        lemma_first_of_push(s.skip(1), c, kind);
    }
}

/// The first node of a kind is the one before which there is none of the kind; there is
/// no first one where there is none at all.
pub proof fn law_first_of_kind(s: Seq<tree::Cst>, kind: Seq<char>, k: int)
    requires
        0 <= k <= s.len(),
        k < s.len() ==> s[k].kind == kind,
        forall|i: int| 0 <= i < k ==> (#[trigger] s[i]).kind != kind,
    ensures
        tree::first_of_kind(s, kind) == (if k < s.len() {
            Some(s[k])
        } else {
            None
        }),
    decreases s.len(),
{
    if k > 0 {
        assert(s[0].kind != kind);
        let t = s.skip(1);
        assert forall|i: int| 0 <= i < k - 1 implies (#[trigger] t[i]).kind != kind by {
            assert(t[i] == s[i + 1]);
        }
        law_first_of_kind(t, kind, k - 1);
    }
}

/// The text of the node at `k`, with none of its kind before it, is the first of its kind.
pub proof fn law_lead_at(s: Seq<tree::Cst>, kind: Seq<char>, k: int)
    requires
        0 <= k < s.len(),
        s[k].kind == kind,
        forall|i: int| 0 <= i < k ==> (#[trigger] s[i]).kind != kind,
    ensures
        lead(s, kind) == Some(own_text(s[k])),
    decreases s.len(),
{
    let t = s.drop_last();
    if k < t.len() {
        assert(t[k] == s[k]);
        law_lead_at(t, kind, k);
    } else {
        assert forall|i: int| 0 <= i < t.len() implies (#[trigger] t[i]).kind != kind by {
            assert(t[i] == s[i]);
        }
        lemma_no_lead(t, kind);
    }
}

proof fn lemma_no_lead(s: Seq<tree::Cst>, kind: Seq<char>)
    requires
        forall|i: int| 0 <= i < s.len() ==> (#[trigger] s[i]).kind != kind,
    ensures
        lead(s, kind) is None,
    decreases s.len(),
{
    if s.len() > 0 {
        let t = s.drop_last();
        assert forall|i: int| 0 <= i < t.len() implies (#[trigger] t[i]).kind != kind by {
            assert(t[i] == s[i]);
        }
        assert(s.last() == s[s.len() - 1]);
        lemma_no_lead(t, kind);
    }
}

/// Character data, CDATA sections and entity references hold text.
pub open spec fn holds_text(c: tree::Cst) -> bool {
    c.kind == "CharData"@ || c.kind == "CDSect"@ || c.kind == "EntityRef"@
}

/// What a text-level node says: a CDATA section what stands in it, as it is; an entity
/// reference what the name stands for; character data their decoded text.
pub open spec fn said_by(c: tree::Cst) -> Seq<char> {
    if c.kind == "CDSect"@ {
        match lead(c.children, "CData"@) {
            Some(t) => t,
            None => Seq::empty(),
        }
    } else if c.kind == "EntityRef"@ {
        match lead(c.children, "Name"@) {
            Some(n) => entities::decoded(seq!['&'] + n + seq![';']),
            None => Seq::empty(),
        }
    } else {
        entities::decoded(own_text(c))
    }
}

/// What a run of text-level nodes says.
pub open spec fn said(s: Seq<tree::Cst>) -> Seq<char>
    decreases s.len(),
{
    if s.len() == 0 {
        Seq::empty()
    } else {
        said_by(s[0]) + said(s.skip(1))
    }
}

proof fn lemma_said(s: Seq<tree::Cst>)
    ensures
        content::run_text(s) == said(s),
    decreases s.len(),
{
    if s.len() > 0 {
        lemma_said_by(s[0]);
        lemma_said(s.skip(1));
    }
}

proof fn lemma_said_by(c: tree::Cst)
    ensures
        content::content_text(c) == said_by(c),
{
    law_lead(c.children, "CData"@);
    law_lead(c.children, "Name"@);
}

/// Anything but text is kept as it is, and nothing comes of nothing.
pub proof fn law_other_nodes_are_kept(c: tree::Cst)
    requires
        !holds_text(c),
    ensures
        content::merged(seq![c]) == seq![c],
        content::merged(Seq::empty()) == Seq::<tree::Cst>::empty(),
{
    assert(seq![c].skip(1) =~= Seq::<tree::Cst>::empty());
    assert(content::merged(seq![c].skip(1)) =~= Seq::<tree::Cst>::empty());
    assert(content::merged(seq![c]) =~= seq![c]);
}

/// Content is merged part by part, where no run of text is cut in two.
pub proof fn law_merging_part_by_part(a: Seq<tree::Cst>, b: Seq<tree::Cst>)
    requires
        a.len() == 0 || b.len() == 0 || !holds_text(a.last()) || !holds_text(b[0]),
    ensures
        content::merged(a + b) == content::merged(a) + content::merged(b),
    decreases a.len(),
{
    let s = a + b;
    if a.len() == 0 {
        assert(s =~= b);
        assert(content::merged(a) + content::merged(b) =~= content::merged(b));
    } else if b.len() == 0 {
        assert(s =~= a);
        assert(content::merged(a) + content::merged(b) =~= content::merged(a));
    } else if !holds_text(a[0]) {
        assert(s.skip(1) =~= a.skip(1) + b);
        assert(a.len() > 1 ==> a.skip(1).last() == a.last());
        law_merging_part_by_part(a.skip(1), b);
        assert(content::merged(s) =~= content::merged(a) + content::merged(b));
    } else {
        content::lemma_text_run_bounds(a);
        let r = content::text_run(a);
        lemma_run_is_text(a);
        assert forall|k: int| 0 <= k < r implies content::is_text_kind(
            #[trigger] s[k].kind,
        ) by {
            assert(s[k] == a[k]);
            assert(content::is_text_kind(a[k].kind));
        }
        if r < a.len() {
            assert(s[r] == a[r]);
        } else {
            assert(a.last() == a[a.len() - 1]);
            assert(content::is_text_kind(a[a.len() - 1].kind));
            assert(s[r] == b[0]);
        }
        content::lemma_text_run_is(s, r);
        assert(s.take(r) =~= a.take(r));
        assert(s.skip(r) =~= a.skip(r) + b);
        assert(a.skip(r).len() > 0 ==> a.skip(r).last() == a.last());
        law_merging_part_by_part(a.skip(r), b);
        assert(content::merged(s) =~= content::merged(a) + content::merged(b));
    }
}

proof fn lemma_run_is_text(s: Seq<tree::Cst>)
    ensures
        0 <= content::text_run(s) <= s.len(),
        forall|k: int|
            0 <= k < content::text_run(s) ==> content::is_text_kind(#[trigger] s[k].kind),
        content::text_run(s) < s.len() ==> !content::is_text_kind(s[content::text_run(s)].kind),
    decreases s.len(),
{
    if s.len() > 0 && content::is_text_kind(s[0].kind) {
        let t = s.skip(1);
        lemma_run_is_text(t);
        assert forall|k: int| 0 <= k < content::text_run(s) implies content::is_text_kind(
            #[trigger] s[k].kind,
        ) by {
            if k > 0 {
                assert(content::is_text_kind(t[k - 1].kind));
            }
        }
    }
}

/// A run of text that says nothing vanishes.
pub proof fn law_silent_run(s: Seq<tree::Cst>)
    requires
        forall|i: int| 0 <= i < s.len() ==> holds_text(#[trigger] s[i]),
        said(s).len() == 0,
    ensures
        content::merged(s) == Seq::<tree::Cst>::empty(),
{
    lemma_whole_run(s);
    lemma_said(s);
}

proof fn lemma_whole_run(s: Seq<tree::Cst>)
    requires
        forall|i: int| 0 <= i < s.len() ==> holds_text(#[trigger] s[i]),
    ensures
        content::merged(s) == content::merged_run(s),
{
    let n = s.len() as int;
    if n > 0 {
        assert forall|k: int| 0 <= k < n implies content::is_text_kind(#[trigger] s[k].kind) by {
            assert(holds_text(s[k]));
        }
        content::lemma_text_run_is(s, n);
        assert(s.take(n) =~= s);
        assert(s.skip(n) =~= Seq::<tree::Cst>::empty());
        assert(content::merged(s.skip(n)) =~= Seq::<tree::Cst>::empty());
        assert(content::merged(s) =~= content::merged_run(s));
    } else {
        assert(content::run_text(s) =~= Seq::<char>::empty());
        assert(content::merged(s) =~= content::merged_run(s));
    }
}

/// A run of text becomes one node of character data that says what its nodes say, one
/// behind the other. It reaches from the first node that says anything to the last node.
pub proof fn law_run_of_text(s: Seq<tree::Cst>, k: int)
    requires
        forall|i: int| 0 <= i < s.len() ==> holds_text(#[trigger] s[i]),
        0 <= k < s.len(),
        said_by(s[k]).len() > 0,
        forall|i: int| 0 <= i < k ==> said_by(#[trigger] s[i]).len() == 0,
    ensures
        content::merged(s) == seq![
            tree::Cst {
                kind: "CharData"@,
                named: true,
                text: Some(said(s)),
                start: s[k].start,
                end: s[s.len() - 1].end,
                children: Seq::empty(),
            },
        ],
        said(s).len() > 0,
{
    lemma_whole_run(s);
    lemma_said(s);
    lemma_run_start(s, k);
}

proof fn lemma_run_start(s: Seq<tree::Cst>, k: int)
    requires
        0 <= k < s.len(),
        said_by(s[k]).len() > 0,
        forall|i: int| 0 <= i < k ==> said_by(#[trigger] s[i]).len() == 0,
    ensures
        content::run_start(s) == s[k].start,
        said(s).len() > 0,
    decreases s.len(),
{
    lemma_said_by(s[0]);
    if k > 0 {
        assert(said_by(s[0]).len() == 0);
        let t = s.skip(1);
        assert forall|i: int| 0 <= i < k - 1 implies said_by(#[trigger] t[i]).len() == 0 by {
            assert(t[i] == s[i + 1]);
        }
        lemma_run_start(t, k - 1);
    }
}

/// The character that a predefined entity stands for, by its name.
pub open spec fn predefined(name: Seq<char>) -> Option<char> {
    if name == seq!['a', 'm', 'p'] {
        Some('&')
    } else if name == seq!['l', 't'] {
        Some('<')
    } else if name == seq!['g', 't'] {
        Some('>')
    } else if name == seq!['q', 'u', 'o', 't'] {
        Some('"')
    } else if name == seq!['a', 'p', 'o', 's'] {
        Some('\'')
    } else {
        None
    }
}

/// A reference to a predefined entity, with its semicolon and all, is that character.
proof fn lemma_predefined(name: Seq<char>)
    requires
        predefined(name) is Some,
    ensures
        entities::decoded(seq!['&'] + name + seq![';']) == seq![predefined(name)->0],
{
    let none = Seq::<char>::empty();
    decoding::law_predefined_entities(none);
    reveal_strlit("&amp;");
    reveal_strlit("&lt;");
    reveal_strlit("&gt;");
    reveal_strlit("&quot;");
    reveal_strlit("&apos;");
    let c = predefined(name)->0;
    let r = seq!['&'] + name + seq![';'];
    assert(entities::decoded(none) =~= none);
    assert(seq![c] + entities::decoded(none) =~= seq![c]);
    if c == '&' {
        assert("&amp;"@ + none =~= r);
    } else if c == '<' {
        assert("&lt;"@ + none =~= r);
    } else if c == '>' {
        assert("&gt;"@ + none =~= r);
    } else if c == '"' {
        assert("&quot;"@ + none =~= r);
    } else {
        assert("&apos;"@ + none =~= r);
    }
}

/// A node that refers to a predefined entity is merged to the one character that the
/// entity stands for.
pub proof fn law_entity_reference(c: tree::Cst, k: int, name: Seq<char>)
    requires
        c.kind == "EntityRef"@,
        0 <= k < c.children.len(),
        c.children[k].kind == "Name"@,
        c.children[k].text == Some(name),
        forall|i: int| 0 <= i < k ==> (#[trigger] c.children[i]).kind != "Name"@,
        predefined(name) is Some,
    ensures
        content::entity_text(c) == Some(seq![predefined(name)->0]),
        content::merged(seq![c]) == seq![
            tree::Cst {
                kind: "CharData"@,
                named: true,
                text: Some(seq![predefined(name)->0]),
                start: c.start,
                end: c.end,
                children: Seq::empty(),
            },
        ],
{
    lemma_text_kinds();
    law_lead_at(c.children, "Name"@, k);
    law_lead(c.children, "Name"@);
    lemma_predefined(name);
    let s = seq![c];
    assert(said_by(s[0]) == seq![predefined(name)->0]);
    assert(s.skip(1) =~= Seq::<tree::Cst>::empty());
    assert(said(s.skip(1)) =~= Seq::<char>::empty());
    assert(said(s) =~= seq![predefined(name)->0]);
    law_run_of_text(s, 0);
}

/// An entity reference has text where it has a name, and a CDATA section where it has
/// data: the first of each counts.
pub proof fn law_texts_of_nodes(c: tree::Cst)
    ensures
        content::cdata(c) == lead(c.children, "CData"@),
        content::entity_text(c) == (match lead(c.children, "Name"@) {
            Some(n) => Some(entities::decoded(seq!['&'] + n + seq![';'])),
            None => None,
        }),
{
    law_lead(c.children, "CData"@);
    law_lead(c.children, "Name"@);
}

/// The text of a CDATA section is that of its first `CData` child, as it is.
pub proof fn law_cdata_section(c: tree::Cst, k: int)
    requires
        c.kind == "CDSect"@,
        0 <= k < c.children.len(),
        c.children[k].kind == "CData"@,
        forall|i: int| 0 <= i < k ==> (#[trigger] c.children[i]).kind != "CData"@,
    ensures
        content::cdata(c) == Some(own_text(c.children[k])),
        said_by(c) == own_text(c.children[k]),
{
    law_lead_at(c.children, "CData"@, k);
    law_lead(c.children, "CData"@);
}

proof fn lemma_text_kinds()
    ensures
        "CharData"@ != "CDSect"@,
        "CharData"@ != "EntityRef"@,
        "EntityRef"@ != "CDSect"@,
        "content"@ != "element"@,
{
    reveal_strlit("CharData");
    reveal_strlit("CDSect");
    reveal_strlit("EntityRef");
    reveal_strlit("content");
    reveal_strlit("element");
    assert("CharData"@.len() == 8);
    assert("CDSect"@.len() == 6);
    assert("EntityRef"@.len() == 9);
    assert("content"@[0] == 'c');
    assert("element"@[0] == 'e');
}

/// Whether the nodes spell the text: stretches without an ampersand as character data,
/// characters with a meaning of their own as references to predefined entities, and
/// whatever there is as CDATA sections.
pub open spec fn spells(s: Seq<tree::Cst>, t: Seq<char>) -> bool
    decreases s.len(),
{
    if s.len() == 0 {
        t.len() == 0
    } else {
        let c = s[0];
        ||| {
            &&& c.kind == "CharData"@
            &&& c.text is Some
            &&& !c.text->0.contains('&')
            &&& c.text->0.is_prefix_of(t)
            &&& spells(s.skip(1), t.skip(c.text->0.len() as int))
        }
        ||| {
            &&& c.kind == "EntityRef"@
            &&& c.children.len() > 0
            &&& c.children[0].kind == "Name"@
            &&& c.children[0].text is Some
            &&& t.len() > 0
            &&& predefined(c.children[0].text->0) == Some(t[0])
            &&& spells(s.skip(1), t.skip(1))
        }
        ||| {
            &&& c.kind == "CDSect"@
            &&& c.children.len() > 0
            &&& c.children[0].kind == "CData"@
            &&& c.children[0].text is Some
            &&& c.children[0].text->0.is_prefix_of(t)
            &&& spells(s.skip(1), t.skip(c.children[0].text->0.len() as int))
        }
    }
}

proof fn lemma_spells(s: Seq<tree::Cst>, t: Seq<char>)
    requires
        spells(s, t),
    ensures
        said(s) == t,
        forall|i: int| 0 <= i < s.len() ==> holds_text(#[trigger] s[i]),
    decreases s.len(),
{
    if s.len() == 0 {
        assert(t =~= Seq::<char>::empty());
    } else {
        lemma_text_kinds();
        let c = s[0];
        let n = said_by(c).len() as int;
        assert(t.take(n) =~= said_by(c) && n <= t.len() && spells(s.skip(1), t.skip(n))) by {
            if c.kind == "CharData"@ {
                crate::laws::references::law_plain_text_is_kept(c.text->0);
                assert(t.take(n) =~= t.subrange(0, n));
            } else if c.kind == "EntityRef"@ {
                law_lead_at(c.children, "Name"@, 0);
                lemma_predefined(c.children[0].text->0);
                assert(t.take(1) =~= seq![t[0]]);
            } else {
                law_lead_at(c.children, "CData"@, 0);
                assert(t.take(n) =~= t.subrange(0, n));
            }
        }
        lemma_spells(s.skip(1), t.skip(n));
        assert(t =~= t.take(n) + t.skip(n));
        assert forall|i: int| 0 <= i < s.len() implies holds_text(#[trigger] s[i]) by {
            if i > 0 {
                assert(s.skip(1)[i - 1] == s[i]);
            }
        }
    }
}

/// Content that is text has one node of character data with all that its nodes say, or
/// none where they say nothing.
pub proof fn law_content_of_text(c: tree::Cst, ns: Map<Seq<char>, Seq<char>>)
    requires
        c.kind == "content"@,
        forall|i: int| 0 <= i < c.children.len() ==> holds_text(#[trigger] c.children[i]),
    ensures
        said(c.children).len() == 0 ==> normalize::normalized(c, ns).children.len() == 0,
        said(c.children).len() > 0 ==> {
            let r = normalize::normalized(c, ns).children;
            &&& r.len() == 1
            &&& r[0].kind == "CharData"@
            &&& r[0].named
            &&& r[0].text == Some(said(c.children))
            &&& r[0].children.len() == 0
            &&& r[0].end == c.children[c.children.len() - 1].end
        },
{
    normalize::lemma_kinds();
    let s = normalize::normalized_children(c, ns);
    assert forall|i: int| 0 <= i < s.len() implies holds_text(#[trigger] s[i]) && said_by(s[i])
        == said_by(c.children[i]) && s[i].end == c.children[i].end by {
        let x = c.children[i];
        assert(holds_text(x));
        equivalence::lemma_text_kept(x, normalize::scope(c, ns));
        lemma_said_by(x);
        lemma_said_by(s[i]);
    }
    lemma_said_same(s, c.children);
    if said(s).len() == 0 {
        law_silent_run(s);
    } else {
        lemma_whole_run(s);
        lemma_said(s);
        if s.len() == 0 {
            assert(said(s).len() == 0);
        }
    }
}

proof fn lemma_said_same(s: Seq<tree::Cst>, t: Seq<tree::Cst>)
    requires
        s.len() == t.len(),
        forall|i: int| 0 <= i < s.len() ==> said_by(#[trigger] s[i]) == said_by(t[i]),
    ensures
        said(s) == said(t),
    decreases s.len(),
{
    if s.len() > 0 {
        assert(said_by(s[0]) == said_by(t[0]));
        assert forall|i: int| 0 <= i < s.skip(1).len() implies said_by(#[trigger] s.skip(1)[i])
            == said_by(t.skip(1)[i]) by {
            assert(said_by(s[i + 1]) == said_by(t[i + 1]));
        }
        lemma_said_same(s.skip(1), t.skip(1));
    }
}

/// However a text is spelled (with references to predefined entities, in CDATA sections,
/// as character data), the normal form of the content is one node of character data with
/// that text.
pub proof fn law_spelling_makes_no_difference(
    c: tree::Cst,
    t: Seq<char>,
    ns: Map<Seq<char>, Seq<char>>,
)
    requires
        c.kind == "content"@,
        spells(c.children, t),
        t.len() > 0,
    ensures
        tree::shapes(normalize::normalized(c, ns).children) == seq![
            tree::Cst {
                kind: "CharData"@,
                named: true,
                text: Some(t),
                start: (0u32, 0u32),
                end: (0u32, 0u32),
                children: Seq::empty(),
            },
        ],
{
    lemma_spells(c.children, t);
    law_content_of_text(c, ns);
    let r = normalize::normalized(c, ns).children;
    assert(tree::shape(r[0]).children =~= Seq::<tree::Cst>::empty());
    assert(tree::shapes(r) =~= seq![
        tree::Cst {
            kind: "CharData"@,
            named: true,
            text: Some(t),
            start: (0u32, 0u32),
            end: (0u32, 0u32),
            children: Seq::empty(),
        },
    ]);
}

} // verus!
