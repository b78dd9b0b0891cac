//! Text helpers: comparison, cutting and building of strings, each stated over
//! the characters of the string.

use vstd::prelude::*;
use vstd::string::*;
use vstd::utf8::*;

verus! {

/// `String::push`: appends the given character to the end of the string.
pub assume_specification[ String::push ](s: &mut String, c: char)
    ensures
        final(s)@ == old(s)@.push(c),
;

/// Whether two strings hold the same characters.
pub fn same_text(a: &str, b: &str) -> (r: bool)
    ensures
        r == (a@ == b@),
{
    let x = a.as_bytes();
    let y = b.as_bytes();
    proof {
        encode_utf8_decode_utf8(a@);
        encode_utf8_decode_utf8(b@);
    }
    if x.len() != y.len() {
        return false;
    }
    let mut i: usize = 0;
    while i < x.len()
        invariant
            x@ == encode_utf8(a@),
            y@ == encode_utf8(b@),
            x@.len() == y@.len(),
            i <= x@.len(),
            forall|k: int| 0 <= k < i ==> x@[k] == y@[k],
        decreases x@.len() - i,
    {
        if x[i] != y[i] {
            return false;
        }
        i = i + 1;
    }
    assert(x@ =~= y@);
    true
}

/// The characters of a string, in order.
pub fn chars_of(s: &str) -> (r: Vec<char>)
    ensures
        r@ == s@,
{
    let mut r: Vec<char> = Vec::new();
    for c in it: s.chars()
        invariant
            r@ == it.seq().take(it.index() as int),
            it.seq() == s@,
    {
        r.push(c);
    }
    r
}

/// The string that holds the characters of `v` from `from` up to `to`.
pub fn string_of(v: &Vec<char>, from: usize, to: usize) -> (r: String)
    requires
        from <= to <= v@.len(),
    ensures
        r@ == v@.subrange(from as int, to as int),
{
    let mut r = String::new();
    let mut i: usize = from;
    while i < to
        invariant
            from <= i <= to <= v@.len(),
            r@ == v@.subrange(from as int, i as int),
        decreases to - i,
    {
        r.push(v[i]);
        i = i + 1;
    }
    r
}

/// Whether the characters of `s` begin with those of `prefix`.
pub fn begins_with(s: &Vec<char>, prefix: &str) -> (r: bool)
    ensures
        r == prefix@.is_prefix_of(s@),
{
    let p = chars_of(prefix);
    if s.len() < p.len() {
        return false;
    }
    let mut i: usize = 0;
    while i < p.len()
        invariant
            p@ == prefix@,
            i <= p@.len() <= s@.len(),
            forall|k: int| 0 <= k < i ==> p@[k] == s@[k],
        decreases p@.len() - i,
    {
        if s[i] != p[i] {
            assert(s@.subrange(0, p@.len() as int)[i as int] != p@[i as int]);
            return false;
        }
        i = i + 1;
    }
    assert(p@ =~= s@.subrange(0, p@.len() as int));
    true
}

/// Whether the characters of `s` end with those of `suffix`.
pub fn ends_with(s: &str, suffix: &str) -> (r: bool)
    ensures
        r == suffix@.is_suffix_of(s@),
{
    let v = chars_of(s);
    let p = chars_of(suffix);
    if v.len() < p.len() {
        return false;
    }
    let gap: usize = v.len() - p.len();
    let mut i: usize = 0;
    while i < p.len()
        invariant
            p@ == suffix@,
            v@ == s@,
            gap + p@.len() == v.len(),
            i <= p@.len(),
            forall|k: int| 0 <= k < i ==> p@[k] == v@[k + gap],
        decreases p@.len() - i,
    {
        if v[gap + i] != p[i] {
            assert(v@.subrange(gap as int, v@.len() as int)[i as int] != p@[i as int]);
            return false;
        }
        i = i + 1;
    }
    assert(p@ =~= v@.subrange(gap as int, v@.len() as int));
    true
}

/// The index of the first `c` in `s`, or the length of `s` where there is none.
pub open spec fn position(s: Seq<char>, c: char) -> int
    decreases s.len(),
{
    if s.len() == 0 || s[0] == c {
        0
    } else {
        1 + position(s.skip(1), c)
    }
}

/// The parts of `s` before and after its first `c`.
pub open spec fn split_at_first(s: Seq<char>, c: char) -> Option<(Seq<char>, Seq<char>)> {
    let i = position(s, c);
    if i < s.len() {
        Some((s.take(i), s.skip(i + 1)))
    } else {
        None
    }
}

/// What `position` means: nothing before it is `c`, and it holds `c` or is the end.
pub proof fn lemma_position(s: Seq<char>, c: char)
    ensures
        0 <= position(s, c) <= s.len(),
        forall|k: int| 0 <= k < position(s, c) ==> s[k] != c,
        position(s, c) < s.len() ==> s[position(s, c)] == c,
    decreases s.len(),
{
    if s.len() != 0 && s[0] != c {
        lemma_position(s.skip(1), c);
        assert forall|k: int| 0 <= k < position(s, c) implies s[k] != c by {
            if k > 0 {
                assert(s.skip(1)[k - 1] == s[k]);
            }
        }
    }
}

/// The index that has `c` with none before it is the position of `c`.
pub proof fn lemma_position_is(s: Seq<char>, c: char, i: int)
    requires
        0 <= i <= s.len(),
        forall|k: int| 0 <= k < i ==> s[k] != c,
        i < s.len() ==> s[i] == c,
    ensures
        position(s, c) == i,
{
    lemma_position(s, c);
}

/// Encoding distributes over concatenation.
pub proof fn lemma_encode_concat(a: Seq<char>, b: Seq<char>)
    ensures
        encode_utf8(a + b) == encode_utf8(a) + encode_utf8(b),
    decreases a.len(),
{
    if a.len() == 0 {
        assert(a + b =~= b);
    } else {
        assert((a + b).drop_first() =~= a.drop_first() + b);
        lemma_encode_concat(a.drop_first(), b);
    }
}

/// The place where the encodings of two parts meet is a character boundary.
pub proof fn lemma_boundary(a: Seq<char>, b: Seq<char>)
    ensures
        is_char_boundary(encode_utf8(a + b), encode_utf8(a).len() as int),
        encode_utf8(a + b).subrange(0, encode_utf8(a).len() as int) == encode_utf8(a),
        encode_utf8(a + b).subrange(
            encode_utf8(a).len() as int,
            encode_utf8(a + b).len() as int,
        ) == encode_utf8(b),
    decreases a.len(),
{
    lemma_encode_concat(a, b);
    encode_utf8_valid_utf8(a + b);
    let bytes = encode_utf8(a + b);
    if a.len() != 0 {
        encode_utf8_first_scalar(a + b);
        assert((a + b).drop_first() =~= a.drop_first() + b);
        assert(pop_first_scalar(bytes) =~= encode_utf8(a.drop_first() + b));
        lemma_boundary(a.drop_first(), b);
    }
}

/// A byte below 0x80 in an encoding is an ASCII character on a boundary.
pub proof fn lemma_ascii_byte(s: Seq<char>, j: int) -> (k: int)
    requires
        0 <= j < encode_utf8(s).len(),
        encode_utf8(s)[j] < 0x80,
    ensures
        0 <= k < s.len(),
        encode_utf8(s.take(k)).len() == j,
        s[k] == encode_utf8(s)[j] as char,
    decreases s.len(),
{
    let bytes = encode_utf8(s);
    encode_utf8_first_scalar(s);
    let c = s[0] as u32;
    char_is_scalar(s[0]);
    if j == 0 {
        let b = bytes[0];
        assert(codepoint_width_1(b) == b) by (bit_vector)
            requires
                b < 0x80,
        ;
        assert(s.take(0) =~= Seq::empty());
        assert(is_leading_byte_width_1(b));
        assert(c == b as u32);
        char_u32_cast(s[0], c);
        0
    } else {
        let n = encode_scalar(c).len() as int;
        assert(n <= j);
        let k = lemma_ascii_byte(s.drop_first(), j - n);
        assert(s.take(k + 1).drop_first() =~= s.drop_first().take(k));
        assert(bytes[j] == encode_utf8(s.drop_first())[j - n]);
        k + 1
    }
}

/// Splits `s` around the first occurrence of the ASCII character `byte`.
pub fn split_once<'a>(s: &'a str, byte: u8) -> (r: Option<(&'a str, &'a str)>)
    requires
        byte < 0x80,
    ensures
        match r {
            Some((before, after)) => split_at_first(s@, byte as char) == Some((before@, after@)),
            None => split_at_first(s@, byte as char) is None,
        },
{
    let bytes = s.as_bytes();
    let mut j: usize = 0;
    while j < bytes.len()
        invariant
            bytes@ == encode_utf8(s@),
            byte < 0x80,
            j <= bytes@.len(),
            forall|k: int| 0 <= k < j ==> bytes@[k] != byte,
        decreases bytes@.len() - j,
    {
        if bytes[j] == byte {
            let ghost k = lemma_ascii_byte(s@, j as int);
            let ghost before = s@.take(k);
            let ghost rest = s@.skip(k);
            proof {
                assert(s@ =~= before + rest);
                lemma_boundary(before, rest);
                lemma_absent(before, byte, bytes@);
                lemma_position_is(s@, byte as char, k);
                assert(rest =~= seq![byte as char] + s@.skip(k + 1));
                lemma_ascii_unit(byte);
                lemma_boundary(seq![byte as char], s@.skip(k + 1));
            }
            let (head, tail) = s.split_at(j);
            let (_, after) = tail.split_at(1);
            proof {
                lemma_same_encoding(head@, before);
                lemma_same_encoding(tail@, rest);
                lemma_same_encoding(after@, s@.skip(k + 1));
            }
            return Some((head, after));
        }
        j = j + 1;
    }
    proof {
        assert(bytes@ =~= bytes@.subrange(0, bytes@.len() as int));
        lemma_absent(s@, byte, bytes@);
        lemma_position_is(s@, byte as char, s@.len() as int);
    }
    None
}

/// Only equal texts have equal encodings.
pub proof fn lemma_same_encoding(a: Seq<char>, b: Seq<char>)
    requires
        encode_utf8(a) == encode_utf8(b),
    ensures
        a == b,
{
    encode_utf8_decode_utf8(a);
    encode_utf8_decode_utf8(b);
}

/// An ASCII character is encoded as one byte, its own code.
pub proof fn lemma_ascii_unit(byte: u8)
    requires
        byte < 0x80,
    ensures
        encode_utf8(seq![byte as char]) == seq![byte],
{
    let one = seq![byte as char];
    assert(one.drop_first() =~= Seq::<char>::empty());
    let c = byte as char as u32;
    assert(leading_byte_width_1(c) == byte) by (bit_vector)
        requires
            c == byte,
            byte < 0x80,
    ;
    assert(encode_utf8(one.drop_first()) =~= Seq::<u8>::empty());
    assert(encode_utf8(one) =~= seq![byte]);
}

/// Where an ASCII byte is missing from the start of an encoding, the character is
/// missing from the text encoded there.
proof fn lemma_absent(s: Seq<char>, byte: u8, bytes: Seq<u8>)
    requires
        byte < 0x80,
        encode_utf8(s).len() <= bytes.len(),
        encode_utf8(s) == bytes.subrange(0, encode_utf8(s).len() as int),
        forall|k: int| 0 <= k < encode_utf8(s).len() ==> bytes[k] != byte,
    ensures
        forall|k: int| 0 <= k < s.len() ==> s[k] != byte as char,
{
    assert forall|k: int| 0 <= k < s.len() implies s[k] != byte as char by {
        if s[k] == byte as char {
            let before = s.take(k);
            let after = s.skip(k + 1);
            assert(s =~= before + (seq![s[k]] + after));
            lemma_encode_concat(before, seq![s[k]] + after);
            lemma_encode_concat(seq![s[k]], after);
            lemma_ascii_unit(byte);
            let j = encode_utf8(before).len() as int;
            assert(encode_utf8(s)[j] == byte);
            assert(bytes[j] == encode_utf8(s)[j]);
        }
    }
}

/// The digit with the given value: `0` to `9`, then `a` to `f`.
pub open spec fn digit(v: nat) -> char {
    if v < 10 {
        ('0' as nat + v) as char
    } else {
        ('a' as nat + v - 10) as char
    }
}

/// The digits of `n` in the given radix (at most sixteen), most significant first,
/// without leading zeros.
pub open spec fn numeral(n: nat, radix: nat) -> Seq<char>
    decreases n,
{
    if n < radix || radix < 2 {
        seq![digit(n)]
    } else {
        proof {
            lemma_quotient_smaller(n, radix);
        }
        numeral(n / radix, radix).push(digit(n % radix))
    }
}

/// Division by at least two makes a positive number smaller.
pub proof fn lemma_quotient_smaller(n: nat, radix: nat)
    requires
        radix >= 2,
        n >= radix,
    ensures
        n / radix < n,
{
    assert(n / radix < n) by (nonlinear_arith)
        requires
            radix >= 2,
            n >= radix,
    ;
}

/// `n` written in decimal.
pub open spec fn decimal(n: nat) -> Seq<char> {
    numeral(n, 10)
}

/// Appends `n`, written in decimal.
pub fn push_decimal(s: &mut String, n: usize)
    ensures
        final(s)@ == old(s)@ + decimal(n as nat),
    decreases n,
{
    let ghost before = s@;
    if n >= 10 {
        push_decimal(s, n / 10);
    }
    let ghost middle = s@;
    let code: u8 = 48 + (n % 10) as u8;
    s.push(code as char);
    assert(code as char == digit((n % 10) as nat));
    assert(s@ =~= before + decimal(n as nat));
}

/// `s` without the quotation marks at its start and at its end.
pub open spec fn unquoted(s: Seq<char>) -> Seq<char>
    decreases s.len(),
{
    if s.len() > 0 && s[0] == '"' {
        unquoted(s.skip(1))
    } else if s.len() > 0 && s.last() == '"' {
        unquoted(s.drop_last())
    } else {
        s
    }
}

/// The Unicode characters with the property White_Space.
pub open spec fn is_white_space(c: char) -> bool {
    ||| '\u{9}' <= c <= '\u{D}'
    ||| c == '\u{20}'
    ||| c == '\u{85}'
    ||| c == '\u{A0}'
    ||| c == '\u{1680}'
    ||| '\u{2000}' <= c <= '\u{200A}'
    ||| c == '\u{2028}'
    ||| c == '\u{2029}'
    ||| c == '\u{202F}'
    ||| c == '\u{205F}'
    ||| c == '\u{3000}'
}

/// `s` without the white space at its start and at its end.
pub open spec fn trimmed(s: Seq<char>) -> Seq<char>
    decreases s.len(),
{
    if s.len() > 0 && is_white_space(s[0]) {
        trimmed(s.skip(1))
    } else if s.len() > 0 && is_white_space(s.last()) {
        trimmed(s.drop_last())
    } else {
        s
    }
}

/// `s` without the quotation marks at its start and at its end.
pub fn trim_quotes(s: &str) -> (r: String)
    ensures
        r@ == unquoted(s@),
{
    let v = chars_of(s);
    let mut from: usize = 0;
    let mut to: usize = v.len();
    assert(v@.subrange(0, v@.len() as int) =~= v@);
    while from < to && v[from] == '"'
        invariant
            from <= to <= v@.len(),
            v@ == s@,
            unquoted(v@.subrange(from as int, to as int)) == unquoted(s@),
        decreases to - from,
    {
        assert(v@.subrange(from as int, to as int).skip(1) =~= v@.subrange(
            from + 1,
            to as int,
        ));
        from = from + 1;
    }
    while from < to && v[to - 1] == '"'
        invariant
            from <= to <= v@.len(),
            v@ == s@,
            from < to ==> v@[from as int] != '"',
            unquoted(v@.subrange(from as int, to as int)) == unquoted(s@),
        decreases to - from,
    {
        assert(v@.subrange(from as int, to as int).drop_last() =~= v@.subrange(
            from as int,
            to - 1,
        ));
        to = to - 1;
    }
    string_of(&v, from, to)
}

/// Whether `c` has the Unicode property White_Space.
pub fn white_space(c: char) -> (r: bool)
    ensures
        r == is_white_space(c),
{
    ('\u{9}' <= c && c <= '\u{D}') || c == '\u{20}' || c == '\u{85}' || c == '\u{A0}' || c
        == '\u{1680}' || ('\u{2000}' <= c && c <= '\u{200A}') || c == '\u{2028}' || c
        == '\u{2029}' || c == '\u{202F}' || c == '\u{205F}' || c == '\u{3000}'
}

/// `s` without the white space at its start and at its end.
pub fn trim(s: &str) -> (r: String)
    ensures
        r@ == trimmed(s@),
{
    let v = chars_of(s);
    let mut from: usize = 0;
    let mut to: usize = v.len();
    assert(v@.subrange(0, v@.len() as int) =~= v@);
    while from < to && white_space(v[from])
        invariant
            from <= to <= v@.len(),
            v@ == s@,
            trimmed(v@.subrange(from as int, to as int)) == trimmed(s@),
        decreases to - from,
    {
        assert(v@.subrange(from as int, to as int).skip(1) =~= v@.subrange(
            from + 1,
            to as int,
        ));
        from = from + 1;
    }
    while from < to && white_space(v[to - 1])
        invariant
            from <= to <= v@.len(),
            v@ == s@,
            from < to ==> !is_white_space(v@[from as int]),
            trimmed(v@.subrange(from as int, to as int)) == trimmed(s@),
        decreases to - from,
    {
        assert(v@.subrange(from as int, to as int).drop_last() =~= v@.subrange(
            from as int,
            to - 1,
        ));
        to = to - 1;
    }
    string_of(&v, from, to)
}

/// Whether `a` comes before `b`, or is equal to it, in the lexicographic order of
/// code points.
pub open spec fn text_le(a: Seq<char>, b: Seq<char>) -> bool
    decreases a.len(),
{
    if a.len() == 0 {
        true
    } else if b.len() == 0 {
        false
    } else if a[0] == b[0] {
        text_le(a.skip(1), b.skip(1))
    } else {
        a[0] < b[0]
    }
}

/// Whether `a` comes before `b`, or is equal to it, in the lexicographic order of
/// code points.
pub fn not_after(a: &str, b: &str) -> (r: bool)
    ensures
        r == text_le(a@, b@),
{
    let x = chars_of(a);
    let y = chars_of(b);
    let mut i: usize = 0;
    assert(a@.skip(0) =~= a@);
    assert(b@.skip(0) =~= b@);
    while i < x.len() && i < y.len()
        invariant
            x@ == a@,
            y@ == b@,
            i <= x@.len(),
            i <= y@.len(),
            text_le(a@.skip(i as int), b@.skip(i as int)) == text_le(a@, b@),
        decreases x@.len() - i,
    {
        if x[i] != y[i] {
            return x[i] < y[i];
        }
        assert(a@.skip(i as int).skip(1) =~= a@.skip(i + 1));
        assert(b@.skip(i as int).skip(1) =~= b@.skip(i + 1));
        i = i + 1;
    }
    i == x.len()
}

/// The order is reflexive.
pub proof fn lemma_text_le_refl(a: Seq<char>)
    ensures
        text_le(a, a),
    decreases a.len(),
{
    if a.len() > 0 {
        lemma_text_le_refl(a.skip(1));
    }
}

/// The order is total.
pub proof fn lemma_text_le_total(a: Seq<char>, b: Seq<char>)
    ensures
        text_le(a, b) || text_le(b, a),
    decreases a.len(),
{
    if a.len() > 0 && b.len() > 0 && a[0] == b[0] {
        lemma_text_le_total(a.skip(1), b.skip(1));
    }
}

/// The order is transitive.
pub proof fn lemma_text_le_trans(a: Seq<char>, b: Seq<char>, c: Seq<char>)
    requires
        text_le(a, b),
        text_le(b, c),
    ensures
        text_le(a, c),
    decreases a.len(),
{
    if a.len() > 0 && b.len() > 0 && c.len() > 0 && a[0] == b[0] && b[0] == c[0] {
        lemma_text_le_trans(a.skip(1), b.skip(1), c.skip(1));
    }
}

/// The order is antisymmetric.
pub proof fn lemma_text_le_antisym(a: Seq<char>, b: Seq<char>)
    requires
        text_le(a, b),
        text_le(b, a),
    ensures
        a == b,
    decreases a.len(),
{
    if a.len() > 0 && b.len() > 0 {
        lemma_text_le_antisym(a.skip(1), b.skip(1));
        assert(a =~= seq![a[0]] + a.skip(1));
        assert(b =~= seq![b[0]] + b.skip(1));
    } else {
        assert(a =~= b);
    }
}

} // verus!
