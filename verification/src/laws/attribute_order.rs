//! Laws of the canonical order of attributes.

use crate::attributes;
use crate::namespaces;
use crate::text;
use crate::tree;
use vstd::prelude::*;
use vstd::seq_lib::*;

verus! {

/// Whether no two of the attributes have the same name.
pub open spec fn distinct_names(s: Seq<tree::Cst>) -> bool {
    forall|i: int, j: int|
        0 <= i < j < s.len() ==> attributes::attribute_name(#[trigger] s[i])
            != attributes::attribute_name(#[trigger] s[j])
}

/// Filtering keeps everything that fits.
proof fn lemma_filter_all<A>(s: Seq<A>, p: spec_fn(A) -> bool)
    requires
        forall|i: int| 0 <= i < s.len() ==> p(#[trigger] s[i]),
    ensures
        s.filter(p) == s,
    decreases s.len(),
{
    reveal(Seq::filter);
    if s.len() > 0 {
        lemma_filter_all(s.drop_last(), p);
        assert(s =~= s.drop_last().push(s.last()));
    }
}

/// Filtering drops everything that does not fit.
pub proof fn lemma_filter_none<A>(s: Seq<A>, p: spec_fn(A) -> bool)
    requires
        forall|i: int| 0 <= i < s.len() ==> !p(#[trigger] s[i]),
    ensures
        s.filter(p) == Seq::<A>::empty(),
    decreases s.len(),
{
    reveal(Seq::filter);
    if s.len() > 0 {
        lemma_filter_none(s.drop_last(), p);
    } else {
        assert(s =~= Seq::<A>::empty());
    }
}

/// What filtering keeps fits.
proof fn lemma_filter_fits<A>(s: Seq<A>, p: spec_fn(A) -> bool)
    ensures
        forall|i: int| 0 <= i < s.filter(p).len() ==> p(#[trigger] s.filter(p)[i]),
        forall|i: int| 0 <= i < s.filter(p).len() ==> s.contains(#[trigger] s.filter(p)[i]),
{
    assert forall|i: int| 0 <= i < s.filter(p).len() implies p(#[trigger] s.filter(p)[i]) by {
        s.lemma_filter_pred(p, i);
    }
    assert forall|i: int| 0 <= i < s.filter(p).len() implies s.contains(
        #[trigger] s.filter(p)[i],
    ) by {
        assert(s.filter(p).contains(s.filter(p)[i]));
        s.lemma_filter_contains_rev(p, s.filter(p)[i]);
    }
}

/// Filtering what was mapped is mapping what was filtered, where the filters agree.
pub proof fn lemma_filter_map<A>(
    s: Seq<A>,
    f: spec_fn(A) -> A,
    p: spec_fn(A) -> bool,
)
    requires
        forall|i: int| 0 <= i < s.len() ==> p(f(#[trigger] s[i])) == p(s[i]),
    ensures
        s.map_values(f).filter(p) == s.filter(p).map_values(f),
    decreases s.len(),
{
    reveal(Seq::filter);
    let m = s.map_values(f);
    if s.len() > 0 {
        let t = s.drop_last();
        assert forall|i: int| 0 <= i < t.len() implies p(f(#[trigger] t[i])) == p(t[i]) by {
            assert(t[i] == s[i]);
        }
        lemma_filter_map(t, f, p);
        assert(m.drop_last() =~= t.map_values(f));
        assert(m.last() == f(s.last()));
        assert(p(f(s[s.len() - 1])) == p(s[s.len() - 1]));
        if p(s.last()) {
            assert(t.filter(p).push(s.last()).map_values(f) =~= t.filter(p).map_values(f).push(
                f(s.last()),
            ));
        }
    } else {
        assert(m =~= s);
        assert(s.filter(p).map_values(f) =~= m.filter(p));
    }
}

/// What is at least as late as each of the parts is so of what they make together.
proof fn lemma_insertion_bound(s: Seq<tree::Cst>, c: tree::Cst, b: tree::Cst)
    requires
        forall|i: int| 0 <= i < s.len() ==> attributes::name_le(#[trigger] s[i], b),
        attributes::name_le(c, b),
    ensures
        forall|i: int|
            0 <= i < attributes::insertion(s, c).len() ==> attributes::name_le(
                #[trigger] attributes::insertion(s, c)[i],
                b,
            ),
    decreases s.len(),
{
    if s.len() > 0 && !attributes::name_le(s.last(), c) {
        let t = s.drop_last();
        assert forall|i: int| 0 <= i < t.len() implies attributes::name_le(#[trigger] t[i], b) by {
            assert(t[i] == s[i]);
        }
        lemma_insertion_bound(t, c, b);
        let r = attributes::insertion(s, c);
        assert forall|i: int| 0 <= i < r.len() implies attributes::name_le(#[trigger] r[i], b) by {
            if i < r.len() - 1 {
                assert(r[i] == attributes::insertion(t, c)[i]);
            } else {
                assert(r[i] == s[s.len() - 1]);
            }
        }
    }
}

/// Insertion into a sorted sequence gives a sorted one, which holds what it was made of.
proof fn lemma_insertion(s: Seq<tree::Cst>, c: tree::Cst)
    requires
        attributes::is_sorted(s),
    ensures
        attributes::is_sorted(attributes::insertion(s, c)),
        attributes::insertion(s, c).to_multiset() == s.to_multiset().insert(c),
    decreases s.len(),
{
    broadcast use group_to_multiset_ensures;

    let r = attributes::insertion(s, c);
    text::lemma_text_le_refl(attributes::attribute_name(c));
    if s.len() == 0 || attributes::name_le(s.last(), c) {
        assert forall|i: int, j: int| 0 <= i <= j < r.len() implies attributes::name_le(
            #[trigger] r[i],
            #[trigger] r[j],
        ) by {
            if j < s.len() {
                assert(attributes::name_le(s[i], s[j]));
            } else if i < s.len() {
                assert(attributes::name_le(s[i], s[s.len() - 1]));
                text::lemma_text_le_trans(
                    attributes::attribute_name(s[i]),
                    attributes::attribute_name(s.last()),
                    attributes::attribute_name(c),
                );
            }
        }
    } else {
        let t = s.drop_last();
        assert(attributes::is_sorted(t)) by {
            assert forall|i: int, j: int| 0 <= i <= j < t.len() implies attributes::name_le(
                #[trigger] t[i],
                #[trigger] t[j],
            ) by {
                assert(attributes::name_le(s[i], s[j]));
            }
        }
        lemma_insertion(t, c);
        text::lemma_text_le_total(
            attributes::attribute_name(s.last()),
            attributes::attribute_name(c),
        );
        assert forall|i: int| 0 <= i < t.len() implies attributes::name_le(
            #[trigger] t[i],
            s.last(),
        ) by {
            assert(attributes::name_le(s[i], s[s.len() - 1]));
        }
        lemma_insertion_bound(t, c, s.last());
        let u = attributes::insertion(t, c);
        assert forall|i: int, j: int| 0 <= i <= j < r.len() implies attributes::name_le(
            #[trigger] r[i],
            #[trigger] r[j],
        ) by {
            if j < u.len() {
                assert(attributes::name_le(u[i], u[j]));
            } else if i < u.len() {
                assert(attributes::name_le(u[i], s.last()));
            } else {
                text::lemma_text_le_refl(attributes::attribute_name(s.last()));
            }
        }
        assert(s =~= t.push(s.last()));
        assert(r.to_multiset() =~= s.to_multiset().insert(c));
    }
}

/// Sorting puts the names in order, and neither adds nor drops an attribute.
pub proof fn law_sorting(s: Seq<tree::Cst>)
    ensures
        attributes::is_sorted(attributes::sorted(s)),
        attributes::sorted(s).to_multiset() == s.to_multiset(),
    decreases s.len(),
{
    broadcast use group_to_multiset_ensures;

    if s.len() > 0 {
        law_sorting(s.drop_last());
        lemma_insertion(attributes::sorted(s.drop_last()), s.last());
        assert(s =~= s.drop_last().push(s.last()));
    }
}

/// The attributes of the given name.
pub open spec fn with_name(s: Seq<tree::Cst>, name: Seq<char>) -> Seq<tree::Cst>
    decreases s.len(),
{
    if s.len() == 0 {
        s
    } else if attributes::attribute_name(s.last()) == name {
        with_name(s.drop_last(), name).push(s.last())
    } else {
        with_name(s.drop_last(), name)
    }
}

/// Sorting keeps attributes of the same name in the order in which they were written.
pub proof fn law_sorting_is_stable(s: Seq<tree::Cst>, name: Seq<char>)
    ensures
        with_name(attributes::sorted(s), name) == with_name(s, name),
    decreases s.len(),
{
    if s.len() > 0 {
        law_sorting_is_stable(s.drop_last(), name);
        let r = attributes::sorted(s.drop_last());
        lemma_insertion_is_stable(r, s.last(), name);
        assert(r.push(s.last()).drop_last() =~= r);
    }
}

proof fn lemma_insertion_is_stable(s: Seq<tree::Cst>, c: tree::Cst, name: Seq<char>)
    ensures
        with_name(attributes::insertion(s, c), name) == with_name(s.push(c), name),
    decreases s.len(),
{
    let whole = s.push(c);
    assert(whole.drop_last() =~= s);
    if s.len() > 0 && !attributes::name_le(s.last(), c) {
        let t = s.drop_last();
        lemma_insertion_is_stable(t, c, name);
        let r = attributes::insertion(s, c);
        assert(r.drop_last() =~= attributes::insertion(t, c));
        assert(r.last() == s.last());
        assert(t.push(c).drop_last() =~= t);
        text::lemma_text_le_refl(attributes::attribute_name(c));
        reveal_with_fuel(with_name, 3);
        assert(whole.last() == c);
    }
}

/// What is sorted already stays as it is.
pub proof fn law_sorted_stays(s: Seq<tree::Cst>)
    requires
        attributes::is_sorted(s),
    ensures
        attributes::sorted(s) == s,
    decreases s.len(),
{
    if s.len() > 0 {
        let t = s.drop_last();
        assert forall|i: int, j: int| 0 <= i <= j < t.len() implies attributes::name_le(
            #[trigger] t[i],
            #[trigger] t[j],
        ) by {
            assert(attributes::name_le(s[i], s[j]));
        }
        law_sorted_stays(t);
        if t.len() > 0 {
            assert(attributes::name_le(s[t.len() - 1], s[s.len() - 1]));
            assert(t.last() == s[t.len() - 1]);
        }
        assert(s =~= t.push(s.last()));
    }
}

/// Everything in a sorted sequence comes from the sequence that was sorted.
pub proof fn lemma_sorted_contains(s: Seq<tree::Cst>)
    ensures
        forall|i: int|
            0 <= i < attributes::sorted(s).len() ==> s.contains(
                #[trigger] attributes::sorted(s)[i],
            ),
        attributes::sorted(s).len() == s.len(),
{
    broadcast use group_to_multiset_ensures;

    law_sorting(s);
    let r = attributes::sorted(s);
    assert forall|i: int| 0 <= i < r.len() implies s.contains(#[trigger] r[i]) by {
        assert(r.contains(r[i]));
        assert(r.to_multiset().count(r[i]) > 0);
    }
    assert(r.to_multiset().len() == r.len());
    assert(s.to_multiset().len() == s.len());
}

/// What canonical order leaves of a tag's parts.
pub proof fn lemma_canonical_parts(s: Seq<tree::Cst>)
    ensures
        attributes::others(attributes::canonical(s)) == attributes::others(s),
        attributes::kept_attributes(attributes::canonical(s)) == attributes::sorted(
            attributes::kept_attributes(s),
        ),
{
    let p = |c: tree::Cst| !attributes::is_attribute(c);
    let q = |c: tree::Cst| attributes::is_kept_attribute(c);
    let o = attributes::others(s);
    let k = attributes::kept_attributes(s);
    let r = attributes::sorted(k);
    lemma_filter_fits(s, p);
    lemma_filter_fits(s, q);
    lemma_sorted_contains(k);
    assert forall|i: int| 0 <= i < r.len() implies q(#[trigger] r[i]) by {
        let j = choose|j: int| 0 <= j < k.len() && k[j] == r[i];
        assert(q(k[j]));
    }
    assert forall|i: int| 0 <= i < r.len() implies !p(#[trigger] r[i]) by {
        assert(q(r[i]));
    }
    assert forall|i: int| 0 <= i < o.len() implies p(#[trigger] o[i]) && !q(o[i]) by {
        assert(p(o[i]));
    }
    Seq::filter_distributes_over_add(o, r, p);
    Seq::filter_distributes_over_add(o, r, q);
    lemma_filter_all(o, p);
    lemma_filter_none(r, p);
    lemma_filter_none(o, q);
    lemma_filter_all(r, q);
    assert(o + Seq::<tree::Cst>::empty() =~= o);
    assert(Seq::<tree::Cst>::empty() + r =~= r);
}

/// A tag in canonical order stays as it is.
pub proof fn law_canonical_order_stays(s: Seq<tree::Cst>)
    ensures
        attributes::canonical(attributes::canonical(s)) == attributes::canonical(s),
{
    lemma_canonical_parts(s);
    law_sorting(attributes::kept_attributes(s));
    law_sorted_stays(attributes::sorted(attributes::kept_attributes(s)));
}

/// A tag in canonical order has no namespace declarations, and has its attributes last.
pub proof fn law_canonical_order(s: Seq<tree::Cst>)
    ensures
        forall|i: int|
            #![trigger attributes::canonical(s)[i]]
            0 <= i < attributes::canonical(s).len() && attributes::is_attribute(
                attributes::canonical(s)[i],
            ) ==> !namespaces::is_declaration_name(
                attributes::attribute_name(attributes::canonical(s)[i]),
            ),
        forall|i: int, j: int|
            #![trigger attributes::canonical(s)[i], attributes::canonical(s)[j]]
            0 <= i < j < attributes::canonical(s).len() && attributes::is_attribute(
                attributes::canonical(s)[i],
            ) ==> attributes::is_attribute(attributes::canonical(s)[j]) && attributes::name_le(
                attributes::canonical(s)[i],
                attributes::canonical(s)[j],
            ),
{
    let p = |c: tree::Cst| !attributes::is_attribute(c);
    let q = |c: tree::Cst| attributes::is_kept_attribute(c);
    let o = attributes::others(s);
    let k = attributes::kept_attributes(s);
    let r = attributes::sorted(k);
    let all = attributes::canonical(s);
    lemma_filter_fits(s, p);
    lemma_filter_fits(s, q);
    lemma_sorted_contains(k);
    law_sorting(k);
    assert forall|i: int| 0 <= i < r.len() implies q(#[trigger] r[i]) by {
        let j = choose|j: int| 0 <= j < k.len() && k[j] == r[i];
        assert(q(k[j]));
    }
    assert forall|i: int| 0 <= i < all.len() implies (if i < o.len() {
        p(#[trigger] all[i])
    } else {
        q(all[i])
    }) by {
        if i < o.len() {
            assert(p(o[i]));
        } else {
            assert(q(r[i - o.len()]));
        }
    }
    assert forall|i: int, j: int|
        #![trigger all[i], all[j]]
        0 <= i < j < all.len() && attributes::is_attribute(all[i]) implies attributes::is_attribute(
        all[j],
    ) && attributes::name_le(all[i], all[j]) by {
        assert(i >= o.len());
        assert(attributes::name_le(r[i - o.len()], r[j - o.len()]));
    }
}

/// Sorted sequences that hold the same attributes, no two of one name, are the same.
proof fn lemma_sorted_unique(x: Seq<tree::Cst>, y: Seq<tree::Cst>)
    requires
        attributes::is_sorted(x),
        attributes::is_sorted(y),
        x.to_multiset() == y.to_multiset(),
        distinct_names(x),
    ensures
        x == y,
    decreases x.len(),
{
    broadcast use group_to_multiset_ensures;

    assert(x.len() == x.to_multiset().len());
    assert(y.len() == y.to_multiset().len());
    if x.len() == 0 {
        assert(x =~= y);
    } else {
        let a = x.last();
        let b = y.last();
        let n = x.len() - 1;
        assert(x.contains(x[n]));
        assert(y.contains(y[n]));
        assert(x.to_multiset().count(a) > 0);
        assert(y.to_multiset().count(b) > 0);
        assert(y.contains(a));
        assert(x.contains(b));
        let j = choose|j: int| 0 <= j < y.len() && y[j] == a;
        let k = choose|k: int| 0 <= k < x.len() && x[k] == b;
        assert(attributes::name_le(y[j], y[n]));
        assert(attributes::name_le(x[k], x[n]));
        text::lemma_text_le_antisym(attributes::attribute_name(a), attributes::attribute_name(b));
        assert(k == n);
        assert(a == b);
        let s = x.drop_last();
        let t = y.drop_last();
        assert(x =~= s.push(a));
        assert(y =~= t.push(b));
        assert(s.to_multiset() =~= x.to_multiset().remove(a)) by {
            assert(x.remove(n) =~= s);
        }
        assert(t.to_multiset() =~= y.to_multiset().remove(b)) by {
            assert(y.remove(n) =~= t);
        }
        assert forall|i: int, j: int| 0 <= i <= j < s.len() implies attributes::name_le(
            #[trigger] s[i],
            #[trigger] s[j],
        ) by {
            assert(attributes::name_le(x[i], x[j]));
        }
        assert forall|i: int, j: int| 0 <= i <= j < t.len() implies attributes::name_le(
            #[trigger] t[i],
            #[trigger] t[j],
        ) by {
            assert(attributes::name_le(y[i], y[j]));
        }
        assert forall|i: int, j: int| 0 <= i < j < s.len() implies attributes::attribute_name(
            #[trigger] s[i],
        ) != attributes::attribute_name(#[trigger] s[j]) by {
            assert(attributes::attribute_name(x[i]) != attributes::attribute_name(x[j]));
        }
        lemma_sorted_unique(s, t);
    }
}

/// Attributes of different names are sorted in the same way, in whatever order they were
/// written.
pub proof fn law_order_of_attributes_is_lost(s: Seq<tree::Cst>, t: Seq<tree::Cst>)
    requires
        s.to_multiset() == t.to_multiset(),
        distinct_names(s),
    ensures
        attributes::sorted(s) == attributes::sorted(t),
{
    law_sorting(s);
    law_sorting(t);
    let r = attributes::sorted(s);
    lemma_sorted_distinct(s);
    lemma_sorted_unique(r, attributes::sorted(t));
}

/// Sorting gives no name twice that was there once.
proof fn lemma_sorted_distinct(s: Seq<tree::Cst>)
    requires
        distinct_names(s),
    ensures
        distinct_names(attributes::sorted(s)),
    decreases s.len(),
{
    if s.len() > 0 {
        let t = s.drop_last();
        assert forall|i: int, j: int| 0 <= i < j < t.len() implies attributes::attribute_name(
            #[trigger] t[i],
        ) != attributes::attribute_name(#[trigger] t[j]) by {
            assert(attributes::attribute_name(s[i]) != attributes::attribute_name(s[j]));
        }
        lemma_sorted_distinct(t);
        lemma_sorted_contains(t);
        let r = attributes::sorted(t);
        let c = s.last();
        assert forall|i: int| 0 <= i < r.len() implies attributes::attribute_name(
            #[trigger] r[i],
        ) != attributes::attribute_name(c) by {
            let j = choose|j: int| 0 <= j < t.len() && t[j] == r[i];
            assert(s[j] == t[j]);
            assert(attributes::attribute_name(s[j]) != attributes::attribute_name(
                s[s.len() - 1],
            ));
        }
        lemma_insertion_distinct(r, c);
    }
}

proof fn lemma_insertion_distinct(s: Seq<tree::Cst>, c: tree::Cst)
    requires
        distinct_names(s),
        forall|i: int|
            0 <= i < s.len() ==> attributes::attribute_name(#[trigger] s[i])
                != attributes::attribute_name(c),
    ensures
        distinct_names(attributes::insertion(s, c)),
        forall|i: int|
            0 <= i < attributes::insertion(s, c).len() ==> s.push(c).contains(
                #[trigger] attributes::insertion(s, c)[i],
            ),
    decreases s.len(),
{
    let r = attributes::insertion(s, c);
    let whole = s.push(c);
    if s.len() == 0 || attributes::name_le(s.last(), c) {
        assert forall|i: int, j: int| 0 <= i < j < r.len() implies attributes::attribute_name(
            #[trigger] r[i],
        ) != attributes::attribute_name(#[trigger] r[j]) by {
            if j < s.len() {
                assert(attributes::attribute_name(s[i]) != attributes::attribute_name(s[j]));
            } else {
                assert(attributes::attribute_name(s[i]) != attributes::attribute_name(c));
            }
        }
    } else {
        let t = s.drop_last();
        assert forall|i: int, j: int| 0 <= i < j < t.len() implies attributes::attribute_name(
            #[trigger] t[i],
        ) != attributes::attribute_name(#[trigger] t[j]) by {
            assert(attributes::attribute_name(s[i]) != attributes::attribute_name(s[j]));
        }
        assert forall|i: int| 0 <= i < t.len() implies attributes::attribute_name(
            #[trigger] t[i],
        ) != attributes::attribute_name(c) by {
            assert(t[i] == s[i]);
        }
        lemma_insertion_distinct(t, c);
        let u = attributes::insertion(t, c);
        let n = s.len() - 1;
        assert forall|i: int| 0 <= i < u.len() implies whole.contains(#[trigger] u[i])
            && attributes::attribute_name(u[i]) != attributes::attribute_name(s[n]) by {
            let k = choose|k: int| 0 <= k < t.push(c).len() && t.push(c)[k] == u[i];
            if k < t.len() {
                assert(u[i] == s[k]);
                assert(whole[k] == s[k]);
                assert(attributes::attribute_name(s[k]) != attributes::attribute_name(s[n]));
            } else {
                assert(whole[s.len() as int] == c);
                assert(attributes::attribute_name(s[n]) != attributes::attribute_name(c));
            }
        }
        assert forall|i: int| 0 <= i < r.len() implies whole.contains(#[trigger] r[i]) by {
            if i < u.len() {
                assert(r[i] == u[i]);
            } else {
                assert(r[i] == s[n]);
                assert(whole[n] == s[n]);
            }
        }
        assert forall|i: int, j: int| 0 <= i < j < r.len() implies attributes::attribute_name(
            #[trigger] r[i],
        ) != attributes::attribute_name(#[trigger] r[j]) by {
            if j < u.len() {
                assert(attributes::attribute_name(u[i]) != attributes::attribute_name(u[j]));
            } else {
                assert(r[i] == u[i]);
            }
        }
    }
}

/// A change that leaves the names alone may be made before or after sorting.
pub proof fn lemma_sorted_map(s: Seq<tree::Cst>, f: spec_fn(tree::Cst) -> tree::Cst)
    requires
        forall|i: int|
            0 <= i < s.len() ==> attributes::attribute_name(f(#[trigger] s[i]))
                == attributes::attribute_name(s[i]),
    ensures
        attributes::sorted(s.map_values(f)) == attributes::sorted(s).map_values(f),
    decreases s.len(),
{
    let m = s.map_values(f);
    if s.len() > 0 {
        let t = s.drop_last();
        assert forall|i: int| 0 <= i < t.len() implies attributes::attribute_name(
            f(#[trigger] t[i]),
        ) == attributes::attribute_name(t[i]) by {
            assert(t[i] == s[i]);
        }
        lemma_sorted_map(t, f);
        assert(m.drop_last() =~= t.map_values(f));
        let r = attributes::sorted(t);
        lemma_sorted_contains(t);
        assert forall|i: int| 0 <= i < r.len() implies attributes::attribute_name(
            f(#[trigger] r[i]),
        ) == attributes::attribute_name(r[i]) by {
            let j = choose|j: int| 0 <= j < t.len() && t[j] == r[i];
            assert(attributes::attribute_name(f(t[j])) == attributes::attribute_name(t[j]));
        }
        assert(attributes::attribute_name(f(s[s.len() - 1])) == attributes::attribute_name(
            s[s.len() - 1],
        ));
        lemma_insertion_map(r, s.last(), f);
    } else {
        assert(attributes::sorted(m) =~= attributes::sorted(s).map_values(f));
    }
}

proof fn lemma_insertion_map(
    s: Seq<tree::Cst>,
    c: tree::Cst,
    f: spec_fn(tree::Cst) -> tree::Cst,
)
    requires
        forall|i: int|
            0 <= i < s.len() ==> attributes::attribute_name(f(#[trigger] s[i]))
                == attributes::attribute_name(s[i]),
        attributes::attribute_name(f(c)) == attributes::attribute_name(c),
    ensures
        attributes::insertion(s.map_values(f), f(c)) == attributes::insertion(s, c).map_values(f),
    decreases s.len(),
{
    let m = s.map_values(f);
    if s.len() == 0 || attributes::name_le(s.last(), c) {
        if s.len() > 0 {
            assert(m.last() == f(s[s.len() - 1]));
        }
        assert(m.push(f(c)) =~= s.push(c).map_values(f));
    } else {
        let t = s.drop_last();
        assert forall|i: int| 0 <= i < t.len() implies attributes::attribute_name(
            f(#[trigger] t[i]),
        ) == attributes::attribute_name(t[i]) by {
            assert(t[i] == s[i]);
        }
        lemma_insertion_map(t, c, f);
        assert(m.last() == f(s[s.len() - 1]));
        assert(m.drop_last() =~= t.map_values(f));
        let u = attributes::insertion(t, c);
        assert(u.map_values(f).push(f(s.last())) =~= u.push(s.last()).map_values(f));
    }
}

} // verus!
