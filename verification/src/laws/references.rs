//! Laws of the decoding of references.

use crate::entities;
use crate::text;
use vstd::prelude::*;
use vstd::string::*;

verus! {

/// The reference that stands for a character which has a meaning of its own in XML; any
/// other character as it is.
pub open spec fn escaped_char(c: char) -> Seq<char> {
    if c == '&' {
        "&amp;"@
    } else if c == '<' {
        "&lt;"@
    } else if c == '>' {
        "&gt;"@
    } else if c == '"' {
        "&quot;"@
    } else if c == '\'' {
        "&apos;"@
    } else {
        seq![c]
    }
}

/// A text with each of its characters escaped.
pub open spec fn escaped(s: Seq<char>) -> Seq<char>
    decreases s.len(),
{
    if s.len() == 0 {
        Seq::empty()
    } else {
        escaped_char(s[0]) + escaped(s.skip(1))
    }
}

/// The reference with the given body.
pub open spec fn reference_to(entity: Seq<char>) -> Seq<char> {
    seq!['&'] + entity + seq![';']
}

/// A reference in front of a text is decoded by itself.
pub proof fn law_reference_decodes(entity: Seq<char>, rest: Seq<char>)
    requires
        !entity.contains(';'),
        entities::entity_char(entity) is Some,
    ensures
        entities::decoded(reference_to(entity) + rest) == seq![
            entities::entity_char(entity)->0,
        ] + entities::decoded(rest),
{
    let s = reference_to(entity) + rest;
    let tail = s.skip(1);
    let n = entity.len() as int;
    assert(tail =~= entity + seq![';'] + rest);
    assert forall|k: int| 0 <= k < n implies tail[k] != ';' by {
        assert(tail[k] == entity[k]);
        assert(entity.contains(entity[k]));
    }
    text::lemma_position_is(tail, ';', n);
    assert(tail.take(n) =~= entity);
    assert(tail.skip(n + 1) =~= rest);
}

/// A text without an ampersand is its own decoding.
pub proof fn law_plain_text_is_kept(s: Seq<char>)
    requires
        !s.contains('&'),
    ensures
        entities::decoded(s) == s,
    decreases s.len(),
{
    if s.len() > 0 {
        assert(s.contains(s[0]));
        assert forall|k: int| 0 <= k < s.skip(1).len() implies s.skip(1)[k] != '&' by {
            assert(s.contains(s[k + 1]));
        }
        law_plain_text_is_kept(s.skip(1));
        assert(s =~= seq![s[0]] + s.skip(1));
    }
}

/// An escaped text decodes to the text.
pub proof fn law_escaped_text_decodes_back(s: Seq<char>)
    ensures
        entities::decoded(escaped(s)) == s,
    decreases s.len(),
{
    if s.len() > 0 {
        let rest = escaped(s.skip(1));
        let c = s[0];
        law_escaped_text_decodes_back(s.skip(1));
        assert(s =~= seq![c] + s.skip(1));
        reveal_strlit("amp");
        reveal_strlit("lt");
        reveal_strlit("gt");
        reveal_strlit("quot");
        reveal_strlit("apos");
        reveal_strlit("&amp;");
        reveal_strlit("&lt;");
        reveal_strlit("&gt;");
        reveal_strlit("&quot;");
        reveal_strlit("&apos;");
        if c == '&' {
            assert("&amp;"@ =~= reference_to("amp"@));
            law_reference_decodes("amp"@, rest);
        } else if c == '<' {
            assert("&lt;"@ =~= reference_to("lt"@));
            law_reference_decodes("lt"@, rest);
        } else if c == '>' {
            assert("&gt;"@ =~= reference_to("gt"@));
            assert("gt"@[0] == 'g');
            law_reference_decodes("gt"@, rest);
        } else if c == '"' {
            assert("&quot;"@ =~= reference_to("quot"@));
            assert("quot"@[0] == 'q');
            law_reference_decodes("quot"@, rest);
        } else if c == '\'' {
            assert("&apos;"@ =~= reference_to("apos"@));
            assert("apos"@.len() == 4);
            assert("apos"@[0] == 'a');
            law_reference_decodes("apos"@, rest);
        } else {
            let e = seq![c] + rest;
            assert(e.skip(1) =~= rest);
        }
    }
}

/// A numeral written with the digits of a radix has the value it was written for.
pub proof fn lemma_numeral_value(n: nat, radix: nat)
    requires
        radix == 10 || radix == 16,
    ensures
        entities::digits_value(text::numeral(n, radix), radix) == Some(n),
        text::numeral(n, radix).len() > 0,
        forall|k: int|
            0 <= k < text::numeral(n, radix).len() ==> entities::digit_value(
                #[trigger] text::numeral(n, radix)[k],
                radix,
            ) is Some,
    decreases n,
{
    let d = text::numeral(n, radix);
    if n < radix {
        assert(d.drop_last() =~= Seq::<char>::empty());
        assert(entities::digits_value(d.drop_last(), radix) == Some(0nat));
        assert(0 * radix == 0);
    } else {
        text::lemma_quotient_smaller(n, radix);
        lemma_numeral_value(n / radix, radix);
        let high = text::numeral(n / radix, radix);
        assert(d.drop_last() =~= high);
        assert(entities::digit_value(d.last(), radix) == Some(n % radix));
        assert((n / radix) * radix + n % radix == n) by (nonlinear_arith)
            requires
                radix > 0,
        ;
        assert forall|k: int| 0 <= k < d.len() implies entities::digit_value(
            #[trigger] d[k],
            radix,
        ) is Some by {
            if k < high.len() {
                assert(d[k] == high[k]);
            }
        }
    }
}

/// Every part of a numeral is a digit.
proof fn lemma_all_digits(d: Seq<char>, radix: nat)
    requires
        entities::digits_value(d, radix) is Some,
    ensures
        forall|k: int|
            0 <= k < d.len() ==> entities::digit_value(#[trigger] d[k], radix) is Some,
    decreases d.len(),
{
    if d.len() > 0 {
        let high = d.drop_last();
        lemma_all_digits(high, radix);
        assert forall|k: int| 0 <= k < d.len() implies entities::digit_value(
            #[trigger] d[k],
            radix,
        ) is Some by {
            if k < high.len() {
                assert(d[k] == high[k]);
            }
        }
    }
}

/// A numeric reference stands for the character whose code its digits write, in decimal
/// and in hexadecimal, with leading zeros and in either case.
pub proof fn law_digits_of_a_reference(c: char, d: Seq<char>)
    requires
        d.len() > 0,
    ensures
        entities::digits_value(d, 10) == Some(c as nat) ==> entities::decoded(
            reference_to("#"@ + d),
        ) == seq![c],
        entities::digits_value(d, 16) == Some(c as nat) ==> entities::decoded(
            reference_to("#x"@ + d),
        ) == seq![c],
{
    reveal_strlit("#");
    reveal_strlit("#x");
    reveal_strlit("amp");
    reveal_strlit("lt");
    reveal_strlit("gt");
    reveal_strlit("quot");
    reveal_strlit("apos");
    assert("amp"@[0] == 'a' && "lt"@[0] == 'l' && "gt"@[0] == 'g' && "quot"@[0] == 'q'
        && "apos"@[0] == 'a');
    let none = Seq::<char>::empty();
    assert(seq![c] + entities::decoded(none) =~= seq![c]);
    if entities::digits_value(d, 10) == Some(c as nat) {
        lemma_all_digits(d, 10);
        let e = "#"@ + d;
        assert(e[0] == '#');
        assert(e[1] == d[0]);
        assert(e.skip(1) =~= d);
        assert("#"@ =~= e.subrange(0, 1));
        assert(!"#x"@.is_prefix_of(e)) by {
            assert("#x"@[1] == 'x');
            assert(e.subrange(0, 2)[1] == e[1]);
        }
        assert forall|k: int| 0 <= k < e.len() implies e[k] != ';' by {
            if k > 0 {
                assert(e[k] == d[k - 1]);
            }
        }
        law_reference_decodes(e, none);
        assert(reference_to(e) + none =~= reference_to(e));
    }
    if entities::digits_value(d, 16) == Some(c as nat) {
        lemma_all_digits(d, 16);
        let e = "#x"@ + d;
        assert(e[0] == '#' && e[1] == 'x');
        assert(e.skip(2) =~= d);
        assert("#x"@ =~= e.subrange(0, 2));
        assert forall|k: int| 0 <= k < e.len() implies e[k] != ';' by {
            if k > 1 {
                assert(e[k] == d[k - 2]);
            }
        }
        law_reference_decodes(e, none);
        assert(reference_to(e) + none =~= reference_to(e));
    }
}

/// Hexadecimal digits in upper case.
pub open spec fn upper_case(d: Seq<char>) -> Seq<char> {
    d.map_values(
        |c: char|
            if 'a' <= c <= 'f' {
                (c as nat - 'a' as nat + 'A' as nat) as char
            } else {
                c
            },
    )
}

/// The case of hexadecimal digits makes no difference to their value.
proof fn lemma_upper_case(d: Seq<char>)
    ensures
        upper_case(d).len() == d.len(),
        entities::digits_value(upper_case(d), 16) == entities::digits_value(d, 16),
    decreases d.len(),
{
    if d.len() > 0 {
        lemma_upper_case(d.drop_last());
        assert(upper_case(d).drop_last() =~= upper_case(d.drop_last()));
    }
}

/// What a numeric reference with the code of a character stands for, in decimal and in
/// hexadecimal of either case.
pub proof fn law_numeric_references(c: char)
    ensures
        entities::decoded(reference_to("#"@ + text::numeral(c as nat, 10))) == seq![c],
        entities::decoded(reference_to("#x"@ + text::numeral(c as nat, 16))) == seq![c],
        entities::decoded(reference_to("#x"@ + upper_case(text::numeral(c as nat, 16))))
            == seq![c],
{
    let dec = text::numeral(c as nat, 10);
    let hex = text::numeral(c as nat, 16);
    lemma_numeral_value(c as nat, 10);
    lemma_numeral_value(c as nat, 16);
    lemma_upper_case(hex);
    law_digits_of_a_reference(c, dec);
    law_digits_of_a_reference(c, hex);
    law_digits_of_a_reference(c, upper_case(hex));
}

/// A reference to an entity that is not known stays as it is written.
pub proof fn law_unknown_reference_is_kept(entity: Seq<char>)
    requires
        !entity.contains(';'),
        !entity.contains('&'),
        entities::entity_char(entity) is None,
    ensures
        entities::decoded(reference_to(entity)) == reference_to(entity),
{
    let s = reference_to(entity);
    let tail = s.skip(1);
    let n = entity.len() as int;
    assert(tail =~= entity + seq![';']);
    assert forall|k: int| 0 <= k < n implies tail[k] != ';' by {
        assert(tail[k] == entity[k]);
        assert(entity.contains(entity[k]));
    }
    text::lemma_position_is(tail, ';', n);
    assert(tail.take(n) =~= entity);
    assert forall|k: int| 0 <= k < tail.len() implies tail[k] != '&' by {
        if k < n {
            assert(entity.contains(entity[k]));
        }
    }
    law_plain_text_is_kept(tail);
    assert(s =~= seq!['&'] + tail);
}

} // verus!
