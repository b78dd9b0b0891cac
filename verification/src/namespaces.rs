//! Namespace declarations and the resolution of qualified names.

use crate::text;
use crate::tree;
use crate::tree::CstNode;
use vstd::prelude::*;
use vstd::string::*;

verus! {

/// The namespaces in scope: a map from prefix to URI. The empty prefix stands for the
/// default namespace.
#[derive(Debug)]
pub struct Namespaces {
    /// Of two bindings of one prefix, the later one holds.
    bindings: Vec<(String, String)>,
}

/// The map that a sequence of bindings makes, where a later binding replaces an
/// earlier one of the same prefix.
pub open spec fn bound(bindings: Seq<(String, String)>) -> Map<Seq<char>, Seq<char>>
    decreases bindings.len(),
{
    if bindings.len() == 0 {
        Map::empty()
    } else {
        bound(bindings.drop_last()).insert(bindings.last().0@, bindings.last().1@)
    }
}

impl View for Namespaces {
    type V = Map<Seq<char>, Seq<char>>;

    closed spec fn view(&self) -> Map<Seq<char>, Seq<char>> {
        bound(self.bindings@)
    }
}

impl Namespaces {
    /// No namespace is in scope.
    pub fn new() -> (r: Self)
        ensures
            r@ == Map::<Seq<char>, Seq<char>>::empty(),
    {
        Namespaces { bindings: Vec::new() }
    }

    /// Binds `prefix` to `uri`, in place of what it was bound to.
    pub fn insert(&mut self, prefix: String, uri: String)
        ensures
            final(self)@ == old(self)@.insert(prefix@, uri@),
    {
        let ghost before = self.bindings@;
        self.bindings.push((prefix, uri));
        assert(self.bindings@.drop_last() =~= before);
    }

    /// The URI that `prefix` is bound to.
    pub fn get(&self, prefix: &str) -> (r: Option<&str>)
        ensures
            match r {
                Some(uri) => self@.contains_key(prefix@) && self@[prefix@] == uri@,
                None => !self@.contains_key(prefix@),
            },
    {
        let mut i: usize = self.bindings.len();
        assert(self.bindings@.take(i as int) =~= self.bindings@);
        while i > 0
            invariant
                i <= self.bindings@.len(),
                bound(self.bindings@.take(i as int)).contains_key(prefix@) == self@.contains_key(
                    prefix@,
                ),
                bound(self.bindings@.take(i as int))[prefix@] == self@[prefix@],
            decreases i,
        {
            let ghost seen = self.bindings@.take(i as int);
            assert(seen.drop_last() =~= self.bindings@.take(i - 1));
            i = i - 1;
            assert(seen.last() == self.bindings@[i as int]);
            if text::same_text(self.bindings[i].0.as_str(), prefix) {
                return Some(self.bindings[i].1.as_str());
            }
        }
        None
    }

    /// Binds every prefix that `other` binds, as `other` does.
    pub fn extend(&mut self, other: &Namespaces)
        ensures
            final(self)@ == old(self)@.union_prefer_right(other@),
    {
        let ghost before = self@;
        let mut i: usize = 0;
        proof {
            assert(other.bindings@.take(0) =~= Seq::<(String, String)>::empty());
            assert(before =~= before.union_prefer_right(bound(other.bindings@.take(0))));
        }
        while i < other.bindings.len()
            invariant
                i <= other.bindings@.len(),
                self@ == before.union_prefer_right(bound(other.bindings@.take(i as int))),
            decreases other.bindings@.len() - i,
        {
            let ghost seen = other.bindings@.take(i + 1);
            assert(seen.drop_last() =~= other.bindings@.take(i as int));
            self.insert(other.bindings[i].0.clone(), other.bindings[i].1.clone());
            assert(self@ =~= before.union_prefer_right(bound(seen)));
            i = i + 1;
        }
        assert(other.bindings@.take(i as int) =~= other.bindings@);
    }
}

impl Clone for Namespaces {
    fn clone(&self) -> (r: Self)
        ensures
            r@ == self@,
    {
        let mut r = Namespaces::new();
        r.extend(self);
        assert(r@ =~= self@);
        r
    }
}

/// The text of the last of the trees that is of the given kind, empty where there is
/// none.
pub open spec fn last_text(s: Seq<tree::Cst>, kind: Seq<char>) -> Seq<char>
    decreases s.len(),
{
    if s.len() == 0 {
        Seq::empty()
    } else if s.last().kind == kind {
        s.last().text_or_empty()
    } else {
        last_text(s.drop_last(), kind)
    }
}

/// Whether an attribute of this name declares a namespace.
pub open spec fn is_declaration_name(name: Seq<char>) -> bool {
    name == "xmlns"@ || "xmlns:"@.is_prefix_of(name)
}

/// The prefix and the URI that an attribute declares.
pub open spec fn declaration(c: tree::Cst) -> Option<(Seq<char>, Seq<char>)> {
    let name = last_text(c.children, "Name"@);
    let value = text::unquoted(last_text(c.children, "AttValue"@));
    if c.kind != "Attribute"@ {
        None
    } else if "xmlns:"@.is_prefix_of(name) {
        Some((name.skip(6), value))
    } else if name == "xmlns"@ {
        Some((Seq::empty(), value))
    } else {
        None
    }
}

/// The namespaces that the attributes among `s` declare; of two declarations of one
/// prefix the later one holds.
pub open spec fn declared(s: Seq<tree::Cst>) -> Map<Seq<char>, Seq<char>>
    decreases s.len(),
{
    if s.len() == 0 {
        Map::empty()
    } else {
        match declaration(s.last()) {
            Some((prefix, uri)) => declared(s.drop_last()).insert(prefix, uri),
            None => declared(s.drop_last()),
        }
    }
}

/// The expanded form of a qualified name.
pub open spec fn expanded(uri: Seq<char>, local: Seq<char>) -> Seq<char> {
    seq!['{'] + uri + seq!['}'] + local
}

/// The expanded form of `name` in the given namespaces: a prefixed name takes the URI of
/// its prefix, another one the default namespace, unless that is empty. `None` where
/// there is no such namespace.
pub open spec fn qname(name: Seq<char>, ns: Map<Seq<char>, Seq<char>>) -> Option<Seq<char>> {
    match text::split_at_first(name, ':') {
        Some((prefix, local)) => if ns.contains_key(prefix) {
            Some(expanded(ns[prefix], local))
        } else {
            None
        },
        None => if ns.contains_key(Seq::empty()) && ns[Seq::empty()].len() > 0 {
            Some(expanded(ns[Seq::empty()], name))
        } else {
            None
        },
    }
}

/// The namespaces that the `Attribute` nodes among a tag's children declare.
pub fn extract_namespace_decls(children: &[CstNode]) -> (r: Namespaces)
    ensures
        r@ == declared(tree::models(children@)),
{
    let ghost all = tree::models(children@);
    let mut decls = Namespaces::new();
    let mut i: usize = 0;
    assert(all.take(0) =~= Seq::<tree::Cst>::empty());
    while i < children.len()
        invariant
            i <= children@.len(),
            all == tree::models(children@),
            decls@ == declared(all.take(i as int)),
        decreases children@.len() - i,
    {
        let child = &children[i];
        proof {
            assert(all.take(i + 1).drop_last() =~= all.take(i as int));
            assert(all.take(i + 1).last() == child@);
        }
        if let Some((prefix, uri)) = declaration_of(child) {
            decls.insert(prefix, uri);
        }
        i = i + 1;
    }
    assert(all.take(i as int) =~= all);
    decls
}

/// The prefix and the URI that an attribute declares.
fn declaration_of(child: &CstNode) -> (r: Option<(String, String)>)
    ensures
        match r {
            Some((prefix, uri)) => declaration(child@) == Some((prefix@, uri@)),
            None => declaration(child@) is None,
        },
{
    if !child.is_kind("Attribute") {
        return None;
    }
    proof {
        reveal_strlit("");
        reveal_strlit("xmlns:");
        reveal_strlit("Name");
        reveal_strlit("AttValue");
        assert(""@ =~= Seq::<char>::empty());
        assert(text::unquoted(Seq::<char>::empty()) =~= Seq::<char>::empty());
        tree::lemma_children(*child);
        assert("Name"@.len() != "AttValue"@.len());
    }
    let ghost parts = child@.children;
    let mut name: &str = "";
    let mut value: &str = "";
    let mut j: usize = 0;
    assert(parts.take(0) =~= Seq::<tree::Cst>::empty());
    while j < child.children.len()
        invariant
            j <= child.children@.len(),
            parts == tree::models(child.children@),
            "Name"@ != "AttValue"@,
            name@ == last_text(parts.take(j as int), "Name"@),
            value@ == last_text(parts.take(j as int), "AttValue"@),
        decreases child.children@.len() - j,
    {
        let part = &child.children[j];
        proof {
            assert(parts.take(j + 1).drop_last() =~= parts.take(j as int));
            assert(parts.take(j + 1).last() == part@);
        }
        if part.is_kind("Name") {
            name = part.text_or_empty();
        } else if part.is_kind("AttValue") {
            value = part.text_or_empty();
        }
        j = j + 1;
    }
    assert(parts.take(j as int) =~= parts);
    let v = text::chars_of(name);
    if text::begins_with(&v, "xmlns:") {
        let prefix = text::string_of(&v, 6, v.len());
        Some((prefix, text::trim_quotes(value)))
    } else if text::same_text(name, "xmlns") {
        Some((String::new(), text::trim_quotes(value)))
    } else {
        None
    }
}

/// The string `{uri}local`.
fn expand(uri: &str, local: &str) -> (r: String)
    ensures
        r@ == expanded(uri@, local@),
{
    let mut r = String::new();
    r.push('{');
    r.append(uri);
    r.push('}');
    r.append(local);
    assert(r@ =~= expanded(uri@, local@));
    r
}

/// Resolves a name such as `a:item` to its expanded form, such as `{http://x}item`.
/// `None` where the namespaces in scope give it none, so that the name stays as it is.
pub fn resolve_qname(name: &str, ns_context: &Namespaces) -> (r: Option<String>)
    ensures
        match r {
            Some(x) => qname(name@, ns_context@) == Some(x@),
            None => qname(name@, ns_context@) is None,
        },
{
    proof {
        reveal_strlit("");
        assert(""@ =~= Seq::<char>::empty());
    }
    if let Some((prefix, local)) = text::split_once(name, 0x3A) {
        match ns_context.get(prefix) {
            Some(uri) => Some(expand(uri, local)),
            None => None,
        }
    } else {
        match ns_context.get("") {
            Some(uri) => if !uri.is_empty() {
                Some(expand(uri, name))
            } else {
                None
            },
            None => None,
        }
    }
}

} // verus!
