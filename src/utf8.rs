//! Lenient decoding of the first UTF-8 scalar of a byte string.
use vstd::prelude::*;

verus! {

/// A continuation byte of a UTF-8 sequence.
pub open spec fn is_continuation(b: u8) -> bool {
    0x80 <= b <= 0xBF
}

/// The byte that follows a lead byte of a multi-byte sequence, with the narrower ranges that
/// exclude overlong forms, surrogates and values past U+10FFFF.
pub open spec fn second_byte_ok(lead: u8, b: u8) -> bool {
    if lead == 0xE0 {
        0xA0 <= b <= 0xBF
    } else if lead == 0xED {
        0x80 <= b <= 0x9F
    } else if lead == 0xF0 {
        0x90 <= b <= 0xBF
    } else if lead == 0xF4 {
        0x80 <= b <= 0x8F
    } else {
        is_continuation(b)
    }
}

/// The length of the well-formed UTF-8 sequence at the start of `s`, or 0 where `s` does not
/// start with one.
pub open spec fn scalar_len(s: Seq<u8>) -> nat {
    if s.len() == 0 {
        0
    } else if s[0] < 0x80 {
        1
    } else if 0xC2 <= s[0] <= 0xDF {
        if s.len() >= 2 && is_continuation(s[1]) {
            2
        } else {
            0
        }
    } else if 0xE0 <= s[0] <= 0xEF {
        if s.len() >= 3 && second_byte_ok(s[0], s[1]) && is_continuation(s[2]) {
            3
        } else {
            0
        }
    } else if 0xF0 <= s[0] <= 0xF4 {
        if s.len() >= 4 && second_byte_ok(s[0], s[1]) && is_continuation(s[2])
            && is_continuation(s[3]) {
            4
        } else {
            0
        }
    } else {
        0
    }
}

/// The code point that the well-formed sequence at the start of `s` encodes.
pub open spec fn scalar_value(s: Seq<u8>) -> int {
    let n = scalar_len(s);
    if n == 1 {
        s[0] as int
    } else if n == 2 {
        (s[0] - 0xC0) * 64 + (s[1] - 0x80)
    } else if n == 3 {
        (s[0] - 0xE0) * 4096 + (s[1] - 0x80) * 64 + (s[2] - 0x80)
    } else {
        (s[0] - 0xF0) * 262144 + (s[1] - 0x80) * 4096 + (s[2] - 0x80) * 64 + (s[3] - 0x80)
    }
}

/// A Unicode scalar value: a code point that is not a surrogate.
pub open spec fn is_scalar(cp: int) -> bool {
    (0 <= cp < 0xD800) || (0xE000 <= cp <= 0x10FFFF)
}

/// The code point of `c`.
pub open spec fn code_point(c: char) -> int {
    c as int
}

/// The character whose code point is `cp`.
pub open spec fn char_of(cp: int) -> char {
    choose|c: char| #[trigger] code_point(c) == cp
}

/// The first character of `s` as a lenient decoder counts it: a well-formed sequence, or a
/// single byte where the input is not well-formed there. `None` on empty input.
pub open spec fn first_char_len(s: Seq<u8>) -> Option<nat> {
    if s.len() == 0 {
        None
    } else if scalar_len(s) > 0 {
        Some(scalar_len(s))
    } else {
        Some(1)
    }
}

/// The first character of `s` where `s` starts with a well-formed UTF-8 sequence.
pub open spec fn first_scalar(s: Seq<u8>) -> Option<char> {
    if scalar_len(s) > 0 {
        Some(char_of(scalar_value(s)))
    } else {
        None
    }
}

/// Relies on char::from_u32: `Some` exactly for Unicode scalar values, holding the character
/// with that code point.
#[verifier::external_body]
fn char_from_u32(cp: u32) -> (r: Option<char>)
    ensures
        is_scalar(cp as int) ==> r is Some,
        r matches Some(c) ==> c as int == cp as int,
{
    char::from_u32(cp)
}

pub proof fn lemma_scalar_value_is_scalar(s: Seq<u8>)
    requires
        scalar_len(s) > 0,
    ensures
        is_scalar(scalar_value(s)),
        scalar_len(s) <= s.len(),
{
}

/// The length of the well-formed sequence at the start of `s`, or 0.
pub fn scalar_len_exec(s: &[u8]) -> (n: usize)
    ensures
        n == scalar_len(s@),
{
    let len = s.len();
    if len == 0 {
        return 0;
    }
    let b0 = s[0];
    if b0 < 0x80 {
        1
    } else if 0xC2 <= b0 && b0 <= 0xDF {
        if len >= 2 && 0x80 <= s[1] && s[1] <= 0xBF {
            2
        } else {
            0
        }
    } else if 0xE0 <= b0 && b0 <= 0xF4 {
        if len < 3 {
            return 0;
        }
        let b1 = s[1];
        let second = if b0 == 0xE0 {
            0xA0 <= b1 && b1 <= 0xBF
        } else if b0 == 0xED {
            0x80 <= b1 && b1 <= 0x9F
        } else if b0 == 0xF0 {
            0x90 <= b1 && b1 <= 0xBF
        } else if b0 == 0xF4 {
            0x80 <= b1 && b1 <= 0x8F
        } else {
            0x80 <= b1 && b1 <= 0xBF
        };
        if !second || !(0x80 <= s[2] && s[2] <= 0xBF) {
            0
        } else if b0 <= 0xEF {
            3
        } else if len >= 4 && 0x80 <= s[3] && s[3] <= 0xBF {
            4
        } else {
            0
        }
    } else {
        0
    }
}

/// The length in bytes of the first character of `string`, decoding leniently: a byte that does
/// not start a well-formed sequence counts as a character of length 1.
pub fn length_of_first_char(string: &[u8]) -> (r: Option<usize>)
    ensures
        r matches Some(n) ==> first_char_len(string@) == Some(n as nat),
        r is None <==> first_char_len(string@) is None,
{
    if string.len() == 0 {
        None
    } else {
        let n = scalar_len_exec(string);
        if n > 0 {
            Some(n)
        } else {
            Some(1)
        }
    }
}

/// The first character of `string` and its length in bytes, where `string` starts with a
/// well-formed UTF-8 sequence.
pub fn first_scalar_exec(string: &[u8]) -> (r: Option<(char, usize)>)
    ensures
        r is Some <==> scalar_len(string@) > 0,
        r matches Some((c, n)) ==> n == scalar_len(string@) && first_scalar(string@) == Some(c)
            && c as int == scalar_value(string@),
{
    let n = scalar_len_exec(string);
    if n == 0 {
        return None;
    }
    let cp: u32 = if n == 1 {
        string[0] as u32
    } else if n == 2 {
        (string[0] as u32 - 0xC0) * 64 + (string[1] as u32 - 0x80)
    } else if n == 3 {
        (string[0] as u32 - 0xE0) * 4096 + (string[1] as u32 - 0x80) * 64 + (string[2] as u32
            - 0x80)
    } else {
        (string[0] as u32 - 0xF0) * 262144 + (string[1] as u32 - 0x80) * 4096 + (string[2] as u32
            - 0x80) * 64 + (string[3] as u32 - 0x80)
    };
    proof {
        lemma_scalar_value_is_scalar(string@);
    }
    match char_from_u32(cp) {
        Some(c) => {
            assert(code_point(c) == scalar_value(string@));
            assert(code_point(char_of(scalar_value(string@))) == scalar_value(string@));
            assert(first_scalar(string@) == Some(c));
            Some((c, n))
        },
        None => None,
    }
}

} // verus!
