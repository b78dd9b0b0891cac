//! Namespace declarations and expanded names, by the characters they are written with.

use crate::laws::merging;
use crate::laws::words;
use crate::namespaces;
use crate::text;
use crate::tree;
use vstd::prelude::*;
use vstd::string::*;

verus! {

/// An expanded name is the whole URI in braces, then the local name.
pub proof fn law_expanded_name(uri: Seq<char>, local: Seq<char>)
    ensures
        namespaces::expanded(uri, local).len() == uri.len() + local.len() + 2,
        namespaces::expanded(uri, local)[0] == '{',
        namespaces::expanded(uri, local).subrange(1, 1 + uri.len() as int) == uri,
        namespaces::expanded(uri, local)[1 + uri.len() as int] == '}',
        namespaces::expanded(uri, local).skip(2 + uri.len() as int) == local,
{
    let e = namespaces::expanded(uri, local);
    assert(e.subrange(1, 1 + uri.len() as int) =~= uri);
    assert(e.skip(2 + uri.len() as int) =~= local);
}

/// Expanded names are the same only for the same namespace and the same local name.
pub proof fn law_expanded_names_differ(
    u: Seq<char>,
    k: Seq<char>,
    v: Seq<char>,
    l: Seq<char>,
)
    requires
        !u.contains('}'),
        !v.contains('}'),
        namespaces::expanded(u, k) == namespaces::expanded(v, l),
    ensures
        u == v,
        k == l,
{
    law_expanded_name(u, k);
    law_expanded_name(v, l);
    let e = namespaces::expanded(u, k);
    if u.len() < v.len() {
        assert(e.subrange(1, 1 + v.len() as int)[u.len() as int] == e[1 + u.len() as int]);
        assert(v.contains(v[u.len() as int]));
    }
    if v.len() < u.len() {
        assert(e.subrange(1, 1 + u.len() as int)[v.len() as int] == e[1 + v.len() as int]);
        assert(u.contains(u[v.len() as int]));
    }
}

/// A name with a prefix takes the namespace of the prefix, and stays where there is none.
pub proof fn law_prefixed_name(
    prefix: Seq<char>,
    local: Seq<char>,
    ns: Map<Seq<char>, Seq<char>>,
)
    requires
        !prefix.contains(':'),
    ensures
        namespaces::qname(prefix + seq![':'] + local, ns) == (if ns.contains_key(prefix) {
            Some(seq!['{'] + ns[prefix] + seq!['}'] + local)
        } else {
            None
        }),
{
    words::law_split(prefix, ':', local);
}

/// A name without a prefix takes the default namespace, and stays where there is none or
/// an empty one.
pub proof fn law_unprefixed_name(name: Seq<char>, ns: Map<Seq<char>, Seq<char>>)
    requires
        !name.contains(':'),
    ensures
        namespaces::qname(name, ns) == (if ns.contains_key(Seq::empty()) && ns[Seq::empty()]
            != Seq::<char>::empty() {
            Some(seq!['{'] + ns[Seq::empty()] + seq!['}'] + name)
        } else {
            None
        }),
{
    words::law_split(name, ':', Seq::empty());
    if ns[Seq::empty()].len() == 0 {
        assert(ns[Seq::empty()] =~= Seq::<char>::empty());
    }
}

/// The text of the last of the nodes that is of the kind.
pub open spec fn trail(s: Seq<tree::Cst>, kind: Seq<char>) -> Option<Seq<char>>
    decreases s.len(),
{
    if s.len() == 0 {
        None
    } else if trail(s.skip(1), kind) is Some {
        trail(s.skip(1), kind)
    } else if s[0].kind == kind {
        Some(merging::own_text(s[0]))
    } else {
        None
    }
}

/// The text, or nothing.
pub open spec fn or_nothing(t: Option<Seq<char>>) -> Seq<char> {
    if t is Some {
        t->0
    } else {
        Seq::empty()
    }
}

proof fn lemma_trail(s: Seq<tree::Cst>, kind: Seq<char>)
    ensures
        namespaces::last_text(s, kind) == or_nothing(trail(s, kind)),
    decreases s.len(),
{
    if s.len() > 0 {
        lemma_trail(s.drop_last(), kind);
        lemma_trail_push(s.drop_last(), s.last(), kind);
        assert(s =~= s.drop_last().push(s.last()));
    }
}

proof fn lemma_trail_push(s: Seq<tree::Cst>, c: tree::Cst, kind: Seq<char>)
    ensures
        trail(s.push(c), kind) == (if c.kind == kind {
            Some(merging::own_text(c))
        } else {
            trail(s, kind)
        }),
    decreases s.len(),
{
    if s.len() == 0 {
        assert(s.push(c).skip(1) =~= s);
    } else {
        assert(s.push(c)[0] == s[0]);
        assert(s.push(c).skip(1) =~= s.skip(1).push(c));
        lemma_trail_push(s.skip(1), c, kind);
    }
}

/// The only node of a kind is the last of its kind.
pub proof fn law_trail_at(s: Seq<tree::Cst>, kind: Seq<char>, k: int)
    requires
        0 <= k < s.len(),
        s[k].kind == kind,
        forall|i: int| k < i < s.len() ==> (#[trigger] s[i]).kind != kind,
    ensures
        trail(s, kind) == Some(merging::own_text(s[k])),
    decreases s.len(),
{
    let t = s.skip(1);
    if k > 0 {
        assert forall|i: int| k - 1 < i < t.len() implies (#[trigger] t[i]).kind != kind by {
            assert(t[i] == s[i + 1]);
        }
        law_trail_at(t, kind, k - 1);
    } else {
        assert forall|i: int| 0 <= i < t.len() implies (#[trigger] t[i]).kind != kind by {
            assert(t[i] == s[i + 1]);
        }
        lemma_no_trail(t, kind);
    }
}

proof fn lemma_no_trail(s: Seq<tree::Cst>, kind: Seq<char>)
    requires
        forall|i: int| 0 <= i < s.len() ==> (#[trigger] s[i]).kind != kind,
    ensures
        trail(s, kind) is None,
    decreases s.len(),
{
    if s.len() > 0 {
        assert(s[0].kind != kind);
        assert forall|i: int| 0 <= i < s.skip(1).len() implies (#[trigger] s.skip(1)[i]).kind
            != kind by {
            assert(s.skip(1)[i] == s[i + 1]);
        }
        lemma_no_trail(s.skip(1), kind);
    }
}

/// Whether the attribute declares the prefix: its name is `xmlns:` and the prefix, or
/// `xmlns` for the empty prefix.
pub open spec fn declares_prefix(c: tree::Cst, prefix: Seq<char>) -> bool {
    let name = or_nothing(trail(c.children, "Name"@));
    &&& c.kind == "Attribute"@
    &&& name == seq!['x', 'm', 'l', 'n', 's', ':'] + prefix || (name == seq![
        'x',
        'm',
        'l',
        'n',
        's',
    ] && prefix == Seq::<char>::empty())
}

/// The value of the attribute, without its quotation marks.
pub open spec fn value_of(c: tree::Cst) -> Seq<char> {
    text::unquoted(or_nothing(trail(c.children, "AttValue"@)))
}

proof fn lemma_declaration(c: tree::Cst, prefix: Seq<char>)
    ensures
        declares_prefix(c, prefix) <==> namespaces::declaration(c) == Some((prefix, value_of(c))),
        match namespaces::declaration(c) {
            Some((_, uri)) => uri == value_of(c),
            None => true,
        },
{
    lemma_trail(c.children, "Name"@);
    lemma_trail(c.children, "AttValue"@);
    reveal_strlit("xmlns");
    reveal_strlit("xmlns:");
    let name = or_nothing(trail(c.children, "Name"@));
    let x = seq!['x', 'm', 'l', 'n', 's', ':'];
    assert("xmlns"@ =~= seq!['x', 'm', 'l', 'n', 's']);
    assert("xmlns:"@ =~= x);
    if name == x + prefix {
        assert(name.subrange(0, 6) =~= x);
        assert(name.skip(6) =~= prefix);
    }
    if x.is_prefix_of(name) {
        assert(name =~= x + name.skip(6));
    }
}

/// The declaration of a prefix that no later one replaces holds: the prefix is bound to
/// the value of the attribute.
pub proof fn law_last_declaration_holds(s: Seq<tree::Cst>, i: int, prefix: Seq<char>)
    requires
        0 <= i < s.len(),
        declares_prefix(s[i], prefix),
        forall|j: int| i < j < s.len() ==> !declares_prefix(#[trigger] s[j], prefix),
    ensures
        namespaces::declared(s).contains_key(prefix),
        namespaces::declared(s)[prefix] == value_of(s[i]),
    decreases s.len(),
{
    let t = s.drop_last();
    lemma_declaration(s.last(), prefix);
    if i < t.len() {
        assert(s.last() == s[s.len() - 1]);
        assert(!declares_prefix(s.last(), prefix));
        assert(t[i] == s[i]);
        assert forall|j: int| i < j < t.len() implies !declares_prefix(
            #[trigger] t[j],
            prefix,
        ) by {
            assert(t[j] == s[j]);
        }
        law_last_declaration_holds(t, i, prefix);
    }
}

/// A prefix that no attribute declares is not bound.
pub proof fn law_nothing_else_is_declared(s: Seq<tree::Cst>, prefix: Seq<char>)
    requires
        forall|j: int| 0 <= j < s.len() ==> !declares_prefix(#[trigger] s[j], prefix),
    ensures
        !namespaces::declared(s).contains_key(prefix),
    decreases s.len(),
{
    if s.len() > 0 {
        let t = s.drop_last();
        lemma_declaration(s.last(), prefix);
        assert(!declares_prefix(s[s.len() - 1], prefix));
        assert forall|j: int| 0 <= j < t.len() implies !declares_prefix(
            #[trigger] t[j],
            prefix,
        ) by {
            assert(t[j] == s[j]);
        }
        law_nothing_else_is_declared(t, prefix);
    }
}

} // verus!
