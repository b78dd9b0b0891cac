//! Merging of the text-level children of element content.
//!
//! Character data, CDATA sections and entity references that follow each other are
//! merged into one character data node with decoded text, so that
//! `<![CDATA[a & b]]>` and `a &amp; b` give the same content.

use crate::entities;
use crate::tree;
use crate::tree::CstNode;
use vstd::prelude::*;
use vstd::string::*;

verus! {

/// Whether nodes of this kind hold text.
pub open spec fn is_text_kind(kind: Seq<char>) -> bool {
    kind == "CharData"@ || kind == "CDSect"@ || kind == "EntityRef"@
}

/// The text that a text-level node stands for: what a CDATA section holds, taken as it
/// is; the character of an entity reference; character data with its references
/// decoded.
pub open spec fn content_text(c: tree::Cst) -> Seq<char> {
    if c.kind == "CDSect"@ {
        match cdata(c) {
            Some(t) => t,
            None => Seq::empty(),
        }
    } else if c.kind == "EntityRef"@ {
        match entity_text(c) {
            Some(t) => t,
            None => Seq::empty(),
        }
    } else {
        entities::decoded(c.text_or_empty())
    }
}

/// The text of the `CData` child.
pub open spec fn cdata(c: tree::Cst) -> Option<Seq<char>> {
    tree::first_text(c.children, "CData"@)
}

/// The decoding of the reference to the entity that the `Name` child names.
pub open spec fn entity_text(c: tree::Cst) -> Option<Seq<char>> {
    match tree::first_text(c.children, "Name"@) {
        Some(name) => Some(entities::decoded(seq!['&'] + name + seq![';'])),
        None => None,
    }
}

/// How many text-level nodes stand at the start of `s`.
pub open spec fn text_run(s: Seq<tree::Cst>) -> int
    decreases s.len(),
{
    if s.len() > 0 && is_text_kind(s[0].kind) {
        1 + text_run(s.skip(1))
    } else {
        0
    }
}

/// The texts of the nodes of a run, one behind the other.
pub open spec fn run_text(run: Seq<tree::Cst>) -> Seq<char>
    decreases run.len(),
{
    if run.len() == 0 {
        Seq::empty()
    } else {
        content_text(run[0]) + run_text(run.skip(1))
    }
}

/// Where the text of a run starts: at its first node with any text.
pub open spec fn run_start(run: Seq<tree::Cst>) -> (u32, u32)
    decreases run.len(),
{
    if run.len() == 0 {
        (0, 0)
    } else if content_text(run[0]).len() > 0 {
        run[0].start
    } else {
        run_start(run.skip(1))
    }
}

/// What a run of text-level nodes is merged into: one character data node, or nothing
/// where the run has no text.
pub open spec fn merged_run(run: Seq<tree::Cst>) -> Seq<tree::Cst> {
    if run_text(run).len() == 0 {
        Seq::empty()
    } else {
        seq![
            tree::Cst {
                kind: "CharData"@,
                named: true,
                text: Some(run_text(run)),
                start: run_start(run),
                end: run.last().end,
                children: Seq::empty(),
            },
        ]
    }
}

/// `s` with each longest run of text-level nodes merged; the other nodes are kept, in
/// their order.
pub open spec fn merged(s: Seq<tree::Cst>) -> Seq<tree::Cst>
    decreases s.len(),
{
    if s.len() == 0 {
        Seq::empty()
    } else if !is_text_kind(s[0].kind) {
        seq![s[0]] + merged(s.skip(1))
    } else {
        proof {
            lemma_text_run_bounds(s);
        }
        merged_run(s.take(text_run(s))) + merged(s.skip(text_run(s)))
    }
}

/// A run lies within the sequence, and is not empty where a text-level node comes
/// first.
pub proof fn lemma_text_run_bounds(s: Seq<tree::Cst>)
    ensures
        0 <= text_run(s) <= s.len(),
        s.len() > 0 && is_text_kind(s[0].kind) ==> text_run(s) > 0,
    decreases s.len(),
{
    if s.len() > 0 && is_text_kind(s[0].kind) {
        lemma_text_run_bounds(s.skip(1));
    }
}

/// A run ends before the first node that is not text-level.
pub proof fn lemma_text_run_is(s: Seq<tree::Cst>, n: int)
    requires
        0 <= n <= s.len(),
        forall|k: int| 0 <= k < n ==> is_text_kind(#[trigger] s[k].kind),
        n < s.len() ==> !is_text_kind(s[n].kind),
    ensures
        text_run(s) == n,
    decreases s.len(),
{
    if n > 0 {
        assert forall|k: int| 0 <= k < n - 1 implies is_text_kind(
            #[trigger] s.skip(1)[k].kind,
        ) by {
            assert(s.skip(1)[k] == s[k + 1]);
        }
        lemma_text_run_is(s.skip(1), n - 1);
    }
}

/// A node added to a run adds its text at the end, and fixes where the text starts if
/// there was none before.
pub proof fn lemma_run_push(run: Seq<tree::Cst>, c: tree::Cst)
    ensures
        run_text(run.push(c)) == run_text(run) + content_text(c),
        run_text(run).len() > 0 ==> run_start(run.push(c)) == run_start(run),
        run_text(run).len() == 0 && content_text(c).len() > 0 ==> run_start(run.push(c))
            == c.start,
    decreases run.len(),
{
    let more = run.push(c);
    if run.len() == 0 {
        assert(more.skip(1) =~= run);
        assert(run_text(run) =~= Seq::<char>::empty());
        assert(run_text(more) == content_text(more[0]) + run_text(more.skip(1)));
        assert(run_text(more) =~= content_text(c));
        assert(run_text(run) + content_text(c) =~= content_text(c));
    } else {
        assert(more.skip(1) =~= run.skip(1).push(c));
        lemma_run_push(run.skip(1), c);
        assert(run_text(more) =~= run_text(run) + content_text(c));
    }
}

/// The text of a CDATA section: that of its `CData` child.
pub fn cdata_text(node: &CstNode) -> (r: Option<String>)
    ensures
        match r {
            Some(t) => cdata(node@) == Some(t@),
            None => cdata(node@) is None,
        },
{
    match tree::first_child(node, "CData") {
        Some(child) => Some(child.text_or_empty().to_owned()),
        None => None,
    }
}

/// The text that an entity reference stands for.
pub fn entity_ref_text(node: &CstNode) -> (r: Option<String>)
    ensures
        match r {
            Some(t) => entity_text(node@) == Some(t@),
            None => entity_text(node@) is None,
        },
{
    match tree::first_child(node, "Name") {
        Some(child) => {
            let mut reference = String::new();
            reference.push('&');
            reference.append(child.text_or_empty());
            reference.push(';');
            assert(reference@ =~= seq!['&'] + child@.text_or_empty() + seq![';']);
            Some(entities::decode_xml_entities(reference.as_str()))
        },
        None => None,
    }
}

/// The text that a text-level node stands for.
fn text_of(node: &CstNode) -> (r: String)
    ensures
        r@ == content_text(node@),
{
    if node.is_kind("CDSect") {
        match cdata_text(node) {
            Some(t) => t,
            None => String::new(),
        }
    } else if node.is_kind("EntityRef") {
        match entity_ref_text(node) {
            Some(t) => t,
            None => String::new(),
        }
    } else {
        entities::decode_xml_entities(node.text_or_empty())
    }
}

/// A character data node with the given text, which has no children.
fn char_data(text: String, start: (u32, u32), end: (u32, u32)) -> (r: CstNode)
    ensures
        r@ == (tree::Cst {
            kind: "CharData"@,
            named: true,
            text: Some(text@),
            start,
            end,
            children: Seq::empty(),
        }),
{
    let r = CstNode {
        node_type: "CharData".to_owned(),
        named: true,
        text: Some(text),
        start_line: start.0,
        start_col: start.1,
        end_line: end.0,
        end_col: end.1,
        children: Vec::new(),
    };
    assert(r@.children =~= Seq::<tree::Cst>::empty());
    r
}

/// Merges the text-level nodes (`CharData`, `CDSect`, `EntityRef`) that follow each
/// other into single `CharData` nodes with decoded text.
pub fn normalize_content_children(children: &[CstNode]) -> (r: Vec<CstNode>)
    ensures
        tree::models(r@) == merged(tree::models(children@)),
{
    let mut result: Vec<CstNode> = Vec::new();
    let mut merged_text = String::new();
    let mut merged_start: (u32, u32) = (0, 0);
    let mut merged_end: (u32, u32) = (0, 0);
    let ghost all = tree::models(children@);
    let ghost mut from: int = 0;
    let mut i: usize = 0;
    proof {
        assert(all.skip(0) =~= all);
        assert(all.subrange(0, 0) =~= Seq::<tree::Cst>::empty());
        assert(tree::models(result@) + merged(all) =~= merged(all));
    }
    while i < children.len()
        invariant
            all == tree::models(children@),
            0 <= from <= i <= children@.len(),
            forall|k: int| from <= k < i ==> is_text_kind(#[trigger] all[k].kind),
            tree::models(result@) + merged(all.skip(from)) == merged(all),
            merged_text@ == run_text(all.subrange(from, i as int)),
            merged_text@.len() > 0 ==> merged_start == run_start(all.subrange(from, i as int)),
            from < i ==> merged_end == all[i - 1].end,
        decreases children@.len() - i,
    {
        let child = &children[i];
        let ghost run = all.subrange(from, i as int);
        assert(child@ == all[i as int]);
        if child.is_kind("CharData") || child.is_kind("CDSect") || child.is_kind("EntityRef") {
            let text = text_of(child);
            if merged_text.as_str().is_empty() {
                merged_start = (child.start_line, child.start_col);
            }
            merged_text.append(text.as_str());
            merged_end = (child.end_line, child.end_col);
            proof {
                lemma_run_push(run, child@);
                assert(all.subrange(from, i + 1) =~= run.push(child@));
            }
        } else {
            proof {
                lemma_flush(all, from, i as int);
                assert(all.skip(i as int).skip(1) =~= all.skip(i + 1));
                assert(all.subrange(i + 1, i + 1) =~= Seq::<tree::Cst>::empty());
            }
            let ghost done = tree::models(result@);
            if !merged_text.as_str().is_empty() {
                let node = char_data(merged_text, merged_start, merged_end);
                proof {
                    tree::lemma_models_push(result@, node);
                }
                result.push(node);
                merged_text = String::new();
            }
            assert(tree::models(result@) =~= done + merged_run(run));
            let copy = child.clone();
            proof {
                tree::lemma_models_push(result@, copy);
            }
            result.push(copy);
            proof {
                assert(tree::models(result@) + merged(all.skip(i + 1)) =~= done + (merged_run(run)
                    + (seq![child@] + merged(all.skip(i + 1)))));
                from = i + 1;
            }
        }
        i = i + 1;
    }
    proof {
        lemma_flush(all, from, i as int);
        assert(all.skip(i as int) =~= Seq::<tree::Cst>::empty());
    }
    let ghost done = tree::models(result@);
    if !merged_text.as_str().is_empty() {
        let node = char_data(merged_text, merged_start, merged_end);
        proof {
            tree::lemma_models_push(result@, node);
        }
        result.push(node);
    }
    assert(tree::models(result@) =~= done + merged_run(all.subrange(from, i as int)));
    assert(merged_run(all.subrange(from, i as int)) + merged(all.skip(i as int)) =~= merged_run(
        all.subrange(from, i as int),
    ));
    result
}

/// Where the run that starts at `from` ends at `to`, merging goes on behind `to`.
proof fn lemma_flush(all: Seq<tree::Cst>, from: int, to: int)
    requires
        0 <= from <= to <= all.len(),
        forall|k: int| from <= k < to ==> is_text_kind(#[trigger] all[k].kind),
        to < all.len() ==> !is_text_kind(all[to].kind),
    ensures
        merged(all.skip(from)) == merged_run(all.subrange(from, to)) + merged(all.skip(to)),
{
    let s = all.skip(from);
    if from == to {
        assert(all.subrange(from, to) =~= Seq::<tree::Cst>::empty());
        assert(merged_run(all.subrange(from, to)) + merged(s) =~= merged(s));
    } else {
        assert forall|k: int| 0 <= k < to - from implies is_text_kind(#[trigger] s[k].kind) by {
            assert(s[k] == all[k + from]);
        }
        lemma_text_run_is(s, to - from);
        assert(s.take(to - from) =~= all.subrange(from, to));
        assert(s.skip(to - from) =~= all.skip(to));
        assert(s[0] == all[from]);
    }
}

} // verus!
