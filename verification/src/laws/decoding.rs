//! What every reference decodes to, in terms of the characters it is written with.

use crate::entities;
use crate::laws::words;
use vstd::prelude::*;
use vstd::string::*;

verus! {

/// Text up to the next ampersand is kept.
pub proof fn law_text_before_a_reference(p: Seq<char>, s: Seq<char>)
    requires
        !p.contains('&'),
    ensures
        entities::decoded(p + s) == p + entities::decoded(s),
    decreases p.len(),
{
    if p.len() == 0 {
        assert(p + s =~= s);
        assert(p + entities::decoded(s) =~= entities::decoded(s));
    } else {
        let q = p.skip(1);
        assert(p.contains(p[0]));
        assert forall|k: int| 0 <= k < q.len() implies q[k] != '&' by {
            assert(p.contains(p[k + 1]));
        }
        law_text_before_a_reference(q, s);
        assert((p + s).skip(1) =~= q + s);
        assert(p + entities::decoded(s) =~= seq![p[0]] + (q + entities::decoded(s)));
    }
}

/// An ampersand that no semicolon follows is kept.
pub proof fn law_ampersand_alone(s: Seq<char>)
    requires
        !s.contains(';'),
    ensures
        entities::decoded(seq!['&'] + s) == seq!['&'] + entities::decoded(s),
{
    let t = seq!['&'] + s;
    assert(t.skip(1) =~= s);
    words::law_split(s, ';', Seq::empty());
}

/// What a reference that can be decoded, or cannot, makes of the text.
proof fn lemma_reference(e: Seq<char>, rest: Seq<char>)
    requires
        !e.contains(';'),
    ensures
        match entities::entity_char(e) {
            Some(c) => entities::decoded(seq!['&'] + e + seq![';'] + rest) == seq![c]
                + entities::decoded(rest),
            None => entities::decoded(seq!['&'] + e + seq![';'] + rest) == seq!['&']
                + entities::decoded(e + seq![';'] + rest),
        },
{
    let s = seq!['&'] + e + seq![';'] + rest;
    assert(s.skip(1) =~= e + seq![';'] + rest);
    words::law_split(e, ';', rest);
}

/// The names of the predefined entities are five different texts.
proof fn lemma_names()
    ensures
        "amp"@ == seq!['a', 'm', 'p'],
        "lt"@ == seq!['l', 't'],
        "gt"@ == seq!['g', 't'],
        "quot"@ == seq!['q', 'u', 'o', 't'],
        "apos"@ == seq!['a', 'p', 'o', 's'],
        "#x"@ == seq!['#', 'x'],
        "#"@ == seq!['#'],
{
    reveal_strlit("amp");
    reveal_strlit("lt");
    reveal_strlit("gt");
    reveal_strlit("quot");
    reveal_strlit("apos");
    reveal_strlit("#x");
    reveal_strlit("#");
    assert("amp"@ =~= seq!['a', 'm', 'p']);
    assert("lt"@ =~= seq!['l', 't']);
    assert("gt"@ =~= seq!['g', 't']);
    assert("quot"@ =~= seq!['q', 'u', 'o', 't']);
    assert("apos"@ =~= seq!['a', 'p', 'o', 's']);
    assert("#x"@ =~= seq!['#', 'x']);
    assert("#"@ =~= seq!['#']);
}

/// Each predefined entity stands for its character, and what follows is decoded by itself.
pub proof fn law_predefined_entities(rest: Seq<char>)
    ensures
        entities::decoded("&amp;"@ + rest) == seq!['&'] + entities::decoded(rest),
        entities::decoded("&lt;"@ + rest) == seq!['<'] + entities::decoded(rest),
        entities::decoded("&gt;"@ + rest) == seq!['>'] + entities::decoded(rest),
        entities::decoded("&quot;"@ + rest) == seq!['"'] + entities::decoded(rest),
        entities::decoded("&apos;"@ + rest) == seq!['\''] + entities::decoded(rest),
{
    lemma_names();
    reveal_strlit("&amp;");
    reveal_strlit("&lt;");
    reveal_strlit("&gt;");
    reveal_strlit("&quot;");
    reveal_strlit("&apos;");
    lemma_reference("amp"@, rest);
    lemma_reference("lt"@, rest);
    lemma_reference("gt"@, rest);
    lemma_reference("quot"@, rest);
    lemma_reference("apos"@, rest);
    assert("gt"@[0] != "lt"@[0]);
    assert("apos"@.len() == 4 && "apos"@[0] != "quot"@[0]);
    assert("&amp;"@ + rest =~= seq!['&'] + "amp"@ + seq![';'] + rest);
    assert("&lt;"@ + rest =~= seq!['&'] + "lt"@ + seq![';'] + rest);
    assert("&gt;"@ + rest =~= seq!['&'] + "gt"@ + seq![';'] + rest);
    assert("&quot;"@ + rest =~= seq!['&'] + "quot"@ + seq![';'] + rest);
    assert("&apos;"@ + rest =~= seq!['&'] + "apos"@ + seq![';'] + rest);
}

/// A reference to any other name is kept.
pub proof fn law_other_entities(e: Seq<char>, rest: Seq<char>)
    requires
        !e.contains(';'),
        e != seq!['a', 'm', 'p'],
        e != seq!['l', 't'],
        e != seq!['g', 't'],
        e != seq!['q', 'u', 'o', 't'],
        e != seq!['a', 'p', 'o', 's'],
        e.len() > 0 ==> e[0] != '#',
    ensures
        entities::decoded(seq!['&'] + e + seq![';'] + rest) == seq!['&'] + entities::decoded(
            e + seq![';'] + rest,
        ),
{
    lemma_names();
    assert(!"#"@.is_prefix_of(e)) by {
        if "#"@.is_prefix_of(e) {
            assert(e.subrange(0, 1)[0] == e[0]);
        }
    }
    assert(!"#x"@.is_prefix_of(e)) by {
        if "#x"@.is_prefix_of(e) {
            assert(e.subrange(0, 2)[0] == e[0]);
        }
    }
    lemma_reference(e, rest);
}

/// The value of a hexadecimal digit.
pub open spec fn hex_digit(c: char) -> Option<nat> {
    match c {
        '0' => Some(0),
        '1' => Some(1),
        '2' => Some(2),
        '3' => Some(3),
        '4' => Some(4),
        '5' => Some(5),
        '6' => Some(6),
        '7' => Some(7),
        '8' => Some(8),
        '9' => Some(9),
        'a' | 'A' => Some(10),
        'b' | 'B' => Some(11),
        'c' | 'C' => Some(12),
        'd' | 'D' => Some(13),
        'e' | 'E' => Some(14),
        'f' | 'F' => Some(15),
        _ => None,
    }
}

/// The value of hexadecimal digits.
pub open spec fn hex_value(d: Seq<char>) -> nat
    decreases d.len(),
{
    if d.len() == 0 {
        0
    } else {
        16 * hex_value(d.drop_last()) + hex_digit(d.last())->0
    }
}

/// The code of a character: up to 0x10FFFF, without the surrogates.
pub open spec fn is_code(v: nat) -> bool {
    v < 0xD800 || 0xE000 <= v <= 0x10FFFF
}

proof fn lemma_decimal_digits(d: Seq<char>)
    ensures
        (forall|k: int| 0 <= k < d.len() ==> '0' <= #[trigger] d[k] <= '9')
            ==> entities::digits_value(d, 10) == Some(words::value(d)),
        (exists|k: int| 0 <= k < d.len() && !('0' <= #[trigger] d[k] <= '9'))
            ==> entities::digits_value(d, 10) is None,
    decreases d.len(),
{
    if d.len() > 0 {
        let t = d.drop_last();
        lemma_decimal_digits(t);
        assert(d.last() == d[d.len() - 1]);
        if forall|k: int| 0 <= k < d.len() ==> '0' <= #[trigger] d[k] <= '9' {
            assert forall|k: int| 0 <= k < t.len() implies '0' <= #[trigger] t[k] <= '9' by {
                assert(t[k] == d[k]);
            }
        }
        if exists|k: int| 0 <= k < d.len() && !('0' <= #[trigger] d[k] <= '9') {
            let k = choose|k: int| 0 <= k < d.len() && !('0' <= #[trigger] d[k] <= '9');
            if k < t.len() {
                assert(!('0' <= t[k] <= '9'));
            }
        }
    }
}

proof fn lemma_hex_digit(c: char)
    ensures
        entities::digit_value(c, 16) == hex_digit(c),
{
}

proof fn lemma_hex_digits(d: Seq<char>)
    ensures
        (forall|k: int| 0 <= k < d.len() ==> hex_digit(#[trigger] d[k]) is Some)
            ==> entities::digits_value(d, 16) == Some(hex_value(d)),
        (exists|k: int| 0 <= k < d.len() && hex_digit(#[trigger] d[k]) is None)
            ==> entities::digits_value(d, 16) is None,
    decreases d.len(),
{
    if d.len() > 0 {
        let t = d.drop_last();
        lemma_hex_digits(t);
        lemma_hex_digit(d.last());
        assert(d.last() == d[d.len() - 1]);
        if forall|k: int| 0 <= k < d.len() ==> hex_digit(#[trigger] d[k]) is Some {
            assert forall|k: int| 0 <= k < t.len() implies hex_digit(#[trigger] t[k]) is Some by {
                assert(t[k] == d[k]);
            }
        }
        if exists|k: int| 0 <= k < d.len() && hex_digit(#[trigger] d[k]) is None {
            let k = choose|k: int| 0 <= k < d.len() && hex_digit(#[trigger] d[k]) is None;
            if k < t.len() {
                assert(hex_digit(t[k]) is None);
            }
        }
    }
}

proof fn lemma_decimal_entity(d: Seq<char>)
    requires
        d.len() > 0 ==> d[0] != 'x',
    ensures
        entities::entity_char(seq!['#'] + d) == entities::char_with_code(entities::number(d, 10)),
{
    lemma_names();
    let e = seq!['#'] + d;
    assert(e[0] == '#');
    assert(e.subrange(0, 1) =~= seq!['#']);
    assert(e.skip(1) =~= d);
    assert("amp"@[0] == 'a' && "lt"@[0] == 'l' && "gt"@[0] == 'g' && "quot"@[0] == 'q'
        && "apos"@[0] == 'a');
    assert(!"#x"@.is_prefix_of(e)) by {
        if "#x"@.is_prefix_of(e) {
            assert(e.subrange(0, 2)[1] == e[1]);
            assert("#x"@[1] == 'x');
            assert(e[1] == d[0]);
        }
    }
}

proof fn lemma_hex_entity(d: Seq<char>)
    ensures
        entities::entity_char(seq!['#', 'x'] + d) == entities::char_with_code(
            entities::number(d, 16),
        ),
{
    lemma_names();
    let e = seq!['#', 'x'] + d;
    assert(e[0] == '#');
    assert(e.subrange(0, 2) =~= seq!['#', 'x']);
    assert(e.skip(2) =~= d);
    assert("amp"@[0] == 'a' && "lt"@[0] == 'l' && "gt"@[0] == 'g' && "quot"@[0] == 'q'
        && "apos"@[0] == 'a');
}

/// A sign before a numeral: a plus, or nothing.
pub open spec fn is_sign(s: Seq<char>) -> bool {
    s == Seq::<char>::empty() || s == seq!['+']
}

/// A decimal reference stands for the character whose code its digits write; where that is
/// no character, it is kept.
pub proof fn law_decimal_reference(sign: Seq<char>, d: Seq<char>, rest: Seq<char>)
    requires
        is_sign(sign),
        d.len() > 0,
        forall|k: int| 0 <= k < d.len() ==> '0' <= #[trigger] d[k] <= '9',
    ensures
        ({
            let e = seq!['#'] + (sign + d);
            let whole = seq!['&'] + e + seq![';'] + rest;
            if is_code(words::value(d)) {
                entities::decoded(whole) == seq![words::value(d) as char] + entities::decoded(rest)
            } else {
                entities::decoded(whole) == seq!['&'] + entities::decoded(e + seq![';'] + rest)
            }
        }),
{
    let n = sign + d;
    let e = seq!['#'] + n;
    lemma_decimal_digits(d);
    assert(d[0] != '+' && d[0] != 'x');
    if sign.len() == 0 {
        assert(n =~= d);
    } else {
        assert(n[0] == '+');
        assert(n.skip(1) =~= d);
    }
    assert(entities::number(n, 10) == Some(words::value(d)));
    lemma_decimal_entity(n);
    assert forall|k: int| 0 <= k < e.len() implies e[k] != ';' by {
        if k > sign.len() {
            assert(e[k] == d[k - 1 - sign.len()]);
        }
    }
    lemma_reference(e, rest);
}

/// A hexadecimal reference stands for the character whose code its digits write, in either
/// case; where that is no character, it is kept.
pub proof fn law_hexadecimal_reference(sign: Seq<char>, d: Seq<char>, rest: Seq<char>)
    requires
        is_sign(sign),
        d.len() > 0,
        forall|k: int| 0 <= k < d.len() ==> hex_digit(#[trigger] d[k]) is Some,
    ensures
        ({
            let e = seq!['#', 'x'] + (sign + d);
            let whole = seq!['&'] + e + seq![';'] + rest;
            if is_code(hex_value(d)) {
                entities::decoded(whole) == seq![hex_value(d) as char] + entities::decoded(rest)
            } else {
                entities::decoded(whole) == seq!['&'] + entities::decoded(e + seq![';'] + rest)
            }
        }),
{
    let n = sign + d;
    let e = seq!['#', 'x'] + n;
    lemma_hex_digits(d);
    assert(hex_digit(d[0]) is Some);
    if sign.len() == 0 {
        assert(n =~= d);
    } else {
        assert(n[0] == '+');
        assert(n.skip(1) =~= d);
    }
    assert(entities::number(n, 16) == Some(hex_value(d)));
    lemma_hex_entity(n);
    assert forall|k: int| 0 <= k < e.len() implies e[k] != ';' by {
        if k > sign.len() + 1 {
            assert(e[k] == d[k - 2 - sign.len()]);
        }
    }
    lemma_reference(e, rest);
}

/// A numeric reference without digits, or with something else among them, is kept.
pub proof fn law_malformed_numbers(sign: Seq<char>, d: Seq<char>, rest: Seq<char>)
    requires
        is_sign(sign),
        !d.contains(';'),
        sign.len() == 0 && d.len() > 0 ==> d[0] != '+',
    ensures
        (sign.len() == 0 && d.len() > 0 ==> d[0] != 'x') && (d.len() == 0 || (exists|k: int|
            0 <= k < d.len() && !('0' <= #[trigger] d[k] <= '9'))) ==> {
            let e = seq!['#'] + (sign + d);
            entities::decoded(seq!['&'] + e + seq![';'] + rest) == seq!['&'] + entities::decoded(
                e + seq![';'] + rest,
            )
        },
        d.len() == 0 || (exists|k: int| 0 <= k < d.len() && hex_digit(#[trigger] d[k]) is None)
            ==> {
            let e = seq!['#', 'x'] + (sign + d);
            entities::decoded(seq!['&'] + e + seq![';'] + rest) == seq!['&'] + entities::decoded(
                e + seq![';'] + rest,
            )
        },
{
    let n = sign + d;
    lemma_decimal_digits(d);
    lemma_hex_digits(d);
    if sign.len() == 0 {
        assert(n =~= d);
    } else {
        assert(n[0] == '+');
        assert(n.skip(1) =~= d);
    }
    if sign.len() == 0 && d.len() > 0 ==> d[0] != 'x' {
        lemma_decimal_entity(n);
    }
    lemma_hex_entity(n);
    let e = seq!['#'] + n;
    let f = seq!['#', 'x'] + n;
    assert forall|k: int| 0 <= k < e.len() implies e[k] != ';' by {
        if k > sign.len() {
            assert(d.contains(d[k - 1 - sign.len()]));
        }
    }
    assert forall|k: int| 0 <= k < f.len() implies f[k] != ';' by {
        if k > sign.len() + 1 {
            assert(d.contains(d[k - 2 - sign.len()]));
        }
    }
    lemma_reference(e, rest);
    lemma_reference(f, rest);
}

} // verus!
