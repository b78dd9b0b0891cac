//! What the helpers on texts give, in terms of the characters.

use crate::entities;
use crate::text;
use vstd::prelude::*;
use vstd::string::*;
use vstd::utf8::*;

verus! {

/// Removing quotation marks takes away all those at the start and at the end, and nothing
/// else.
pub proof fn law_unquoted(s: Seq<char>) -> (r: (int, int))
    ensures
        0 <= r.0 <= r.1 <= s.len(),
        text::unquoted(s) == s.subrange(r.0, r.1),
        forall|k: int| 0 <= k < r.0 ==> s[k] == '"',
        forall|k: int| r.1 <= k < s.len() ==> s[k] == '"',
        r.0 < r.1 ==> s[r.0] != '"' && s[r.1 - 1] != '"',
    decreases s.len(),
{
    if s.len() > 0 && s[0] == '"' {
        let t = s.skip(1);
        let (a, b) = law_unquoted(t);
        assert(t.subrange(a, b) =~= s.subrange(a + 1, b + 1));
        assert forall|k: int| 0 <= k < a + 1 implies s[k] == '"' by {
            if k > 0 {
                assert(t[k - 1] == s[k]);
            }
        }
        assert forall|k: int| b + 1 <= k < s.len() implies s[k] == '"' by {
            assert(t[k - 1] == s[k]);
        }
        (a + 1, b + 1)
    } else if s.len() > 0 && s.last() == '"' {
        let t = s.drop_last();
        let (a, b) = law_unquoted(t);
        assert(t.subrange(a, b) =~= s.subrange(a, b));
        assert forall|k: int| 0 <= k < a implies s[k] == '"' by {
            assert(t[k] == s[k]);
        }
        assert forall|k: int| b <= k < s.len() implies s[k] == '"' by {
            if k < t.len() {
                assert(t[k] == s[k]);
            }
        }
        (a, b)
    } else {
        assert(s.subrange(0, s.len() as int) =~= s);
        (0, s.len() as int)
    }
}

/// A value between quotation marks comes out whole, where it has none at its ends.
pub proof fn law_quoted_value(v: Seq<char>)
    requires
        v.len() > 0 ==> v[0] != '"' && v.last() != '"',
    ensures
        text::unquoted(seq!['"'] + v + seq!['"']) == v,
        text::unquoted(v) == v,
{
    let s = seq!['"'] + v + seq!['"'];
    let t = v + seq!['"'];
    assert(s.skip(1) =~= t);
    assert(t.drop_last() =~= v);
    assert(text::unquoted(v) == v);
    if v.len() > 0 {
        assert(t[0] == v[0]);
        assert(t.last() == '"');
        assert(text::unquoted(t) == text::unquoted(t.drop_last()));
    } else {
        assert(t.skip(1) =~= v);
        assert(text::unquoted(t) == text::unquoted(t.skip(1)));
    }
    assert(text::unquoted(s) == text::unquoted(s.skip(1)));
}

/// The white space characters, by their codes.
pub open spec fn white_space_codes() -> Seq<u32> {
    seq![
        9u32, 10, 11, 12, 13, 32, 0x85, 0xA0, 0x1680, 0x2000, 0x2001, 0x2002, 0x2003, 0x2004,
        0x2005, 0x2006, 0x2007, 0x2008, 0x2009, 0x200A, 0x2028, 0x2029, 0x202F, 0x205F, 0x3000,
    ]
}

/// These characters are white space, and no others.
pub proof fn law_white_space(c: char)
    ensures
        text::is_white_space(c) <==> white_space_codes().contains(c as u32),
{
    let w = white_space_codes();
    let v = c as u32;
    if text::is_white_space(c) {
        let k: int = if v <= 13 {
            v - 9
        } else if v == 32 {
            5
        } else if v == 0x85 {
            6
        } else if v == 0xA0 {
            7
        } else if v == 0x1680 {
            8
        } else if v <= 0x200A {
            9 + (v - 0x2000)
        } else if v == 0x2028 {
            20
        } else if v == 0x2029 {
            21
        } else if v == 0x202F {
            22
        } else if v == 0x205F {
            23
        } else {
            24
        };
        assert(w[k] == v);
    }
}

/// Trimming takes away all white space at the start and at the end, and nothing else.
pub proof fn law_trimmed(s: Seq<char>) -> (r: (int, int))
    ensures
        0 <= r.0 <= r.1 <= s.len(),
        text::trimmed(s) == s.subrange(r.0, r.1),
        forall|k: int| 0 <= k < r.0 ==> text::is_white_space(#[trigger] s[k]),
        forall|k: int| r.1 <= k < s.len() ==> text::is_white_space(#[trigger] s[k]),
        r.0 < r.1 ==> !text::is_white_space(s[r.0]) && !text::is_white_space(s[r.1 - 1]),
    decreases s.len(),
{
    if s.len() > 0 && text::is_white_space(s[0]) {
        let t = s.skip(1);
        let (a, b) = law_trimmed(t);
        assert(t.subrange(a, b) =~= s.subrange(a + 1, b + 1));
        assert forall|k: int| 0 <= k < a + 1 implies text::is_white_space(#[trigger] s[k]) by {
            if k > 0 {
                assert(t[k - 1] == s[k]);
            }
        }
        assert forall|k: int| b + 1 <= k < s.len() implies text::is_white_space(
            #[trigger] s[k],
        ) by {
            assert(t[k - 1] == s[k]);
        }
        (a + 1, b + 1)
    } else if s.len() > 0 && text::is_white_space(s.last()) {
        let t = s.drop_last();
        let (a, b) = law_trimmed(t);
        assert(t.subrange(a, b) =~= s.subrange(a, b));
        assert forall|k: int| 0 <= k < a implies text::is_white_space(#[trigger] s[k]) by {
            assert(t[k] == s[k]);
        }
        assert forall|k: int| b <= k < s.len() implies text::is_white_space(#[trigger] s[k]) by {
            if k < t.len() {
                assert(t[k] == s[k]);
            }
        }
        (a, b)
    } else {
        assert(s.subrange(0, s.len() as int) =~= s);
        (0, s.len() as int)
    }
}

/// Texts are ordered by the first character in which they differ, and the start of a text
/// comes before the text.
pub proof fn law_text_order(a: Seq<char>, b: Seq<char>, k: int)
    requires
        0 <= k <= a.len(),
        k <= b.len(),
        forall|i: int| 0 <= i < k ==> a[i] == b[i],
    ensures
        k == a.len() ==> text::text_le(a, b),
        k < a.len() && k == b.len() ==> !text::text_le(a, b),
        k < a.len() && k < b.len() && a[k] != b[k] ==> text::text_le(a, b) == (a[k] < b[k]),
    decreases k,
{
    if k > 0 {
        assert(a[0] == b[0]);
        assert forall|i: int| 0 <= i < k - 1 implies a.skip(1)[i] == b.skip(1)[i] by {
            assert(a[i + 1] == b[i + 1]);
        }
        law_text_order(a.skip(1), b.skip(1), k - 1);
    }
}

/// The value of decimal digits.
pub open spec fn value(d: Seq<char>) -> nat
    decreases d.len(),
{
    if d.len() == 0 {
        0
    } else {
        (10 * value(d.drop_last()) + (d.last() as nat - 48)) as nat
    }
}

/// A number in decimal is of digits only, has its value, and has no leading zero.
pub proof fn law_decimal(n: nat)
    ensures
        text::decimal(n).len() > 0,
        forall|k: int|
            0 <= k < text::decimal(n).len() ==> '0' <= #[trigger] text::decimal(n)[k] <= '9',
        value(text::decimal(n)) == n,
        text::decimal(n).len() > 1 ==> text::decimal(n)[0] != '0',
    decreases n,
{
    let d = text::decimal(n);
    if n < 10 {
        assert(d.drop_last() =~= Seq::<char>::empty());
        assert(value(d.drop_last()) == 0);
    } else {
        text::lemma_quotient_smaller(n, 10);
        law_decimal(n / 10);
        let high = text::decimal(n / 10);
        assert(d.drop_last() =~= high);
        assert forall|k: int| 0 <= k < d.len() implies '0' <= #[trigger] d[k] <= '9' by {
            if k < high.len() {
                assert(d[k] == high[k]);
            }
        }
        assert(d[0] == high[0]);
        if high.len() == 1 && high[0] == '0' {
            assert(high.drop_last() =~= Seq::<char>::empty());
            assert(value(high.drop_last()) == 0);
            assert(value(high) == 0);
        }
    }
}

/// A text is cut at the first of the characters; where there is none, not at all.
pub proof fn law_split(a: Seq<char>, c: char, b: Seq<char>)
    requires
        !a.contains(c),
    ensures
        text::split_at_first(a + seq![c] + b, c) == Some((a, b)),
        text::split_at_first(a, c) is None,
{
    let s = a + seq![c] + b;
    let n = a.len() as int;
    assert forall|k: int| 0 <= k < n implies s[k] != c && a[k] != c by {
        assert(a.contains(a[k]));
    }
    text::lemma_position_is(s, c, n);
    text::lemma_position_is(a, c, n);
    assert(s.take(n) =~= a);
    assert(s.skip(n + 1) =~= b);
}

/// The first byte of an encoding tells how many bytes its first character takes, by the
/// bits it begins with. A byte that begins with none of these counts for one.
pub proof fn law_char_width(s: Seq<char>, byte: u8)
    ensures
        s.len() > 0 ==> encode_utf8(s).len() > 0 && entities::char_width(encode_utf8(s)[0])
            == encode_utf8(s.take(1)).len(),
        byte < 0xC0 || byte >= 0xF8 ==> entities::char_width(byte) == 1,
        0xC0 <= byte < 0xE0 ==> entities::char_width(byte) == 2,
        0xE0 <= byte < 0xF0 ==> entities::char_width(byte) == 3,
        0xF0 <= byte < 0xF8 ==> entities::char_width(byte) == 4,
{
    if s.len() > 0 {
        entities::lemma_first_char(s);
    }
}

} // verus!
