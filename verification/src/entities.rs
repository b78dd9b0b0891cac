//! Decoding of XML entity and character references.

use crate::text;
use vstd::prelude::*;
use vstd::string::*;
use vstd::utf8::*;

verus! {

/// `char::from_u32`: the character with the given code, where the code is a Unicode
/// scalar value; `None` for a surrogate and for anything above 0x10FFFF.
pub assume_specification[ char::from_u32 ](v: u32) -> (r: Option<char>)
    ensures
        r == (if is_scalar(v) { Some(v as char) } else { None::<char> }),
;

/// The value of `c` as a digit in the given radix (ten or sixteen).
pub open spec fn digit_value(c: char, radix: nat) -> Option<nat> {
    if '0' <= c <= '9' {
        Some((c as nat - '0' as nat) as nat)
    } else if radix == 16 && 'a' <= c <= 'f' {
        Some((c as nat - 'a' as nat + 10) as nat)
    } else if radix == 16 && 'A' <= c <= 'F' {
        Some((c as nat - 'A' as nat + 10) as nat)
    } else {
        None
    }
}

/// The number that a sequence of digits writes in the given radix; the empty
/// sequence writes zero. `None` where something is not a digit.
pub open spec fn digits_value(d: Seq<char>, radix: nat) -> Option<nat>
    decreases d.len(),
{
    if d.len() == 0 {
        Some(0)
    } else {
        match (digits_value(d.drop_last(), radix), digit_value(d.last(), radix)) {
            (Some(high), Some(low)) => Some(high * radix + low),
            _ => None,
        }
    }
}

/// The number written by `d`: an optional `+`, then at least one digit.
pub open spec fn number(d: Seq<char>, radix: nat) -> Option<nat> {
    let digits = if d.len() > 0 && d[0] == '+' { d.skip(1) } else { d };
    if digits.len() == 0 {
        None
    } else {
        digits_value(digits, radix)
    }
}

/// The character whose code is the given number.
pub open spec fn char_with_code(code: Option<nat>) -> Option<char> {
    match code {
        Some(v) => if v <= 0x10FFFF && !(0xD800 <= v <= 0xDFFF) {
            Some(v as char)
        } else {
            None
        },
        None => None,
    }
}

/// The character that the reference `&entity;` stands for: one of the five
/// predefined entities, or a numeric character reference.
pub open spec fn entity_char(entity: Seq<char>) -> Option<char> {
    if entity == "amp"@ {
        Some('&')
    } else if entity == "lt"@ {
        Some('<')
    } else if entity == "gt"@ {
        Some('>')
    } else if entity == "quot"@ {
        Some('"')
    } else if entity == "apos"@ {
        Some('\'')
    } else if "#x"@.is_prefix_of(entity) {
        char_with_code(number(entity.skip(2), 16))
    } else if "#"@.is_prefix_of(entity) {
        char_with_code(number(entity.skip(1), 10))
    } else {
        None
    }
}

/// The character that a reference at the start of `s` (just behind its `&`) stands
/// for, and what follows the reference.
pub open spec fn reference(s: Seq<char>) -> Option<(char, Seq<char>)> {
    match text::split_at_first(s, ';') {
        Some((entity, after)) => match entity_char(entity) {
            Some(c) => Some((c, after)),
            None => None,
        },
        None => None,
    }
}

/// `s` with every reference that can be decoded replaced by its character. Whatever
/// is no such reference stays as it is.
pub open spec fn decoded(s: Seq<char>) -> Seq<char>
    decreases s.len(),
{
    if s.len() == 0 {
        Seq::empty()
    } else if s[0] == '&' {
        match reference(s.skip(1)) {
            Some((c, after)) => {
                proof {
                    text::lemma_position(s.skip(1), ';');
                }
                seq![c] + decoded(after)
            },
            None => seq![s[0]] + decoded(s.skip(1)),
        }
    } else {
        seq![s[0]] + decoded(s.skip(1))
    }
}

/// The byte length of the character whose encoding starts with `byte`; 1 for a byte
/// that starts no encoding.
pub open spec fn char_width(byte: u8) -> int {
    if 0xC0 <= byte <= 0xDF {
        2
    } else if 0xE0 <= byte <= 0xEF {
        3
    } else if 0xF0 <= byte <= 0xF7 {
        4
    } else {
        1
    }
}

/// The byte length of the character whose encoding starts with `byte`.
pub fn utf8_char_len(byte: u8) -> (n: usize)
    ensures
        n == char_width(byte),
{
    assert(byte >> 5 == 0b110 <==> 0xC0 <= byte <= 0xDF) by (bit_vector);
    assert(byte >> 4 == 0b1110 <==> 0xE0 <= byte <= 0xEF) by (bit_vector);
    assert(byte >> 3 == 0b11110 <==> 0xF0 <= byte <= 0xF7) by (bit_vector);
    if byte < 0x80 {
        1
    } else if byte >> 5 == 0b110 {
        2
    } else if byte >> 4 == 0b1110 {
        3
    } else if byte >> 3 == 0b11110 {
        4
    } else {
        1
    }
}

/// The value of `c` as a digit in radix ten or sixteen.
fn digit_of(c: char, radix: u32) -> (r: Option<u32>)
    requires
        radix == 10 || radix == 16,
    ensures
        match r {
            Some(v) => digit_value(c, radix as nat) == Some(v as nat) && v < radix,
            None => digit_value(c, radix as nat) is None,
        },
{
    if '0' <= c && c <= '9' {
        Some(c as u32 - '0' as u32)
    } else if radix == 16 && 'a' <= c && c <= 'f' {
        Some(c as u32 - 'a' as u32 + 10)
    } else if radix == 16 && 'A' <= c && c <= 'F' {
        Some(c as u32 - 'A' as u32 + 10)
    } else {
        None
    }
}

/// A sequence whose start is no number is none as a whole, and one whose start is
/// large is large as a whole.
proof fn lemma_digits_prefix(d: Seq<char>, i: int, radix: nat)
    requires
        0 <= i <= d.len(),
        radix >= 1,
    ensures
        digits_value(d.take(i), radix) is None ==> digits_value(d, radix) is None,
        digits_value(d, radix) is Some ==> digits_value(d.take(i), radix)->0 <= digits_value(
            d,
            radix,
        )->0,
    decreases d.len(),
{
    if i == d.len() {
        assert(d.take(i) =~= d);
    } else {
        lemma_digits_prefix(d.drop_last(), i, radix);
        assert(d.drop_last().take(i) =~= d.take(i));
        if digits_value(d, radix) is Some {
            let high = digits_value(d.drop_last(), radix)->0;
            assert(high <= high * radix) by (nonlinear_arith)
                requires
                    radix >= 1,
            ;
        }
    }
}

/// The number that the characters of `v` from `from` on write in radix ten or
/// sixteen, where it fits in 32 bits.
fn parse_number(v: &Vec<char>, from: usize, radix: u32) -> (r: Option<u32>)
    requires
        from <= v@.len(),
        radix == 10 || radix == 16,
    ensures
        match r {
            Some(n) => number(v@.skip(from as int), radix as nat) == Some(n as nat),
            None => match number(v@.skip(from as int), radix as nat) {
                Some(n) => n > u32::MAX,
                None => true,
            },
        },
{
    let ghost d = v@.skip(from as int);
    let start: usize = if from < v.len() && v[from] == '+' {
        from + 1
    } else {
        from
    };
    let ghost digits = v@.skip(start as int);
    assert(digits =~= if d.len() > 0 && d[0] == '+' {
        d.skip(1)
    } else {
        d
    });
    if start == v.len() {
        return None;
    }
    let mut value: u32 = 0;
    let mut i: usize = start;
    assert(digits.take(0) =~= Seq::<char>::empty());
    while i < v.len()
        invariant
            start <= i <= v@.len(),
            digits == v@.skip(start as int),
            digits.len() > 0,
            number(d, radix as nat) == digits_value(digits, radix as nat),
            d == v@.skip(from as int),
            radix == 10 || radix == 16,
            digits_value(digits.take(i - start), radix as nat) == Some(value as nat),
        decreases v@.len() - i,
    {
        let ghost next = digits.take(i - start + 1);
        proof {
            assert(next.drop_last() =~= digits.take(i - start));
            assert(next.last() == v@[i as int]);
            lemma_digits_prefix(digits, i - start + 1, radix as nat);
        }
        let digit: u32 = match digit_of(v[i], radix) {
            Some(x) => x,
            None => {
                return None;
            },
        };
        let wide: u64 = value as u64 * radix as u64 + digit as u64;
        assert(digits_value(next, radix as nat) == Some(wide as nat));
        if wide > 0xFFFF_FFFF {
            return None;
        }
        value = wide as u32;
        i = i + 1;
    }
    assert(digits.take(i - start) =~= digits);
    Some(value)
}

/// The character that the reference `&entity;` stands for.
fn decode_entity(entity: &str) -> (r: Option<char>)
    ensures
        r == entity_char(entity@),
{
    proof {
        reveal_strlit("#x");
        reveal_strlit("#");
    }
    if text::same_text(entity, "amp") {
        return Some('&');
    }
    if text::same_text(entity, "lt") {
        return Some('<');
    }
    if text::same_text(entity, "gt") {
        return Some('>');
    }
    if text::same_text(entity, "quot") {
        return Some('"');
    }
    if text::same_text(entity, "apos") {
        return Some('\'');
    }
    let v = text::chars_of(entity);
    if text::begins_with(&v, "#x") {
        match parse_number(&v, 2, 16) {
            Some(code) => char::from_u32(code),
            None => None,
        }
    } else if text::begins_with(&v, "#") {
        match parse_number(&v, 1, 10) {
            Some(code) => char::from_u32(code),
            None => None,
        }
    } else {
        None
    }
}

/// Cutting a text behind its first character.
pub proof fn lemma_first_char(s: Seq<char>)
    requires
        s.len() > 0,
    ensures
        encode_utf8(s).len() > 0,
        char_width(encode_utf8(s)[0]) == encode_utf8(s.take(1)).len(),
        encode_utf8(s)[0] == 0x26 <==> s[0] == '&',
        is_char_boundary(encode_utf8(s), char_width(encode_utf8(s)[0])),
        encode_utf8(s).subrange(0, char_width(encode_utf8(s)[0])) == encode_utf8(s.take(1)),
        encode_utf8(s).subrange(
            char_width(encode_utf8(s)[0]),
            encode_utf8(s).len() as int,
        ) == encode_utf8(s.skip(1)),
{
    encode_utf8_first_scalar(s);
    assert(s =~= s.take(1) + s.skip(1));
    text::lemma_boundary(s.take(1), s.skip(1));
    let bytes = encode_utf8(s);
    assert(s.take(1).drop_first() =~= Seq::<char>::empty());
    assert(encode_utf8(s.take(1).drop_first()) =~= Seq::<u8>::empty());
    assert(encode_utf8(s.take(1)) =~= encode_scalar(s[0] as u32));
    if bytes[0] == 0x26 {
        let k = text::lemma_ascii_byte(s, 0);
        if k > 0 {
            encode_utf8_first_scalar(s.take(k));
        }
    }
    if s[0] == '&' {
        text::lemma_ascii_unit(0x26);
        assert(s.take(1) =~= seq!['&']);
    }
}

/// Decodes the predefined entities and the numeric character references of `s` to
/// the characters they stand for. Text that is no such reference is kept.
pub fn decode_xml_entities(s: &str) -> (r: String)
    ensures
        r@ == decoded(s@),
{
    let mut result = String::new();
    let mut rest = s;
    while rest.as_bytes().len() > 0
        invariant
            result@ + decoded(rest@) == decoded(s@),
        ensures
            rest@.len() == 0,
        decreases rest@.len(),
    {
        let bytes = rest.as_bytes();
        let width = utf8_char_len(bytes[0]);
        proof {
            if rest@.len() == 0 {
                assert(encode_utf8(rest@) =~= Seq::<u8>::empty());
            }
            lemma_first_char(rest@);
        }
        let (head, tail) = rest.split_at(width);
        proof {
            text::lemma_same_encoding(head@, rest@.take(1));
            text::lemma_same_encoding(tail@, rest@.skip(1));
            text::lemma_position(tail@, ';');
        }
        let ghost before = result@;
        if bytes[0] == 0x26 {
            if let Some((entity, after)) = text::split_once(tail, 0x3B) {
                if let Some(c) = decode_entity(entity) {
                    result.push(c);
                    assert(before.push(c) + decoded(after@) =~= before + (seq![c] + decoded(
                        after@,
                    )));
                    rest = after;
                    continue;
                }
            }
        }
        result.append(head);
        assert(before + head@ + decoded(tail@) =~= before + (seq![rest@[0]] + decoded(tail@)));
        rest = tail;
    }
    assert(result@ + decoded(rest@) =~= result@);
    result
}

} // verus!
