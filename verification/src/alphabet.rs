//! The byte alphabet: a fixed bijection between the 256 byte values and 256
//! visible Unicode code points.

use vstd::prelude::*;
use vstd::utf8::is_scalar;

verus! {

/// Number of bytes that have no visible code point of their own.
pub const EXCLUDED_BYTES: u32 = 68;

/// First code point handed out to the bytes that are not kept as they are.
pub const SHIFTED_BASE: u32 = 256;

/// True for the bytes that stand for themselves: printable ASCII and printable
/// Latin-1 without the soft hyphen.
pub open spec fn is_direct_byte(b: int) -> bool {
    33 <= b <= 126 || 161 <= b <= 172 || 174 <= b <= 255
}

/// Number of bytes below `b` that do not stand for themselves, that is the
/// index of `b` in the sorted list of those bytes when `b` is one of them.
pub open spec fn excluded_below(b: int) -> int
    decreases b,
{
    if b <= 0 {
        0
    } else if is_direct_byte(b - 1) {
        excluded_below(b - 1)
    } else {
        excluded_below(b - 1) + 1
    }
}

/// The code point that stands for byte `b`.
pub open spec fn byte_to_char_spec(b: u8) -> char {
    if is_direct_byte(b as int) {
        b as char
    } else {
        (SHIFTED_BASE + excluded_below(b as int)) as char
    }
}

/// True when `c` stands for some byte.
pub open spec fn in_alphabet(c: char) -> bool {
    exists|b: u8| byte_to_char_spec(b) == c
}

/// The byte that `c` stands for, if any.
pub open spec fn char_to_byte_spec(c: char) -> Option<u8> {
    if in_alphabet(c) {
        Some(choose|b: u8| byte_to_char_spec(b) == c)
    } else {
        None
    }
}

/// Closed form of `excluded_below` on the byte range.
pub proof fn lemma_excluded_below(b: int)
    requires
        0 <= b <= 256,
    ensures
        excluded_below(b) == if b <= 33 {
            b
        } else if b <= 127 {
            33
        } else if b <= 161 {
            b - 94
        } else if b <= 173 {
            67
        } else {
            68
        },
    decreases b,
{
    if b > 0 {
        lemma_excluded_below(b - 1);
    }
}

/// `char::from_u32`: the `char` with the given scalar value, and `None` for a
/// number that is no Unicode scalar value.
#[verifier::external_body]
fn char_from_u32(v: u32) -> (r: Option<char>)
    ensures
        r == if is_scalar(v) {
            Some(v as char)
        } else {
            None::<char>
        },
{
    char::from_u32(v)
}

/// The visible code point of a byte.
pub fn byte_to_char(b: u8) -> (c: char)
    ensures
        c == byte_to_char_spec(b),
{
    proof {
        lemma_excluded_below(b as int);
    }
    if (33 <= b && b <= 126) || (161 <= b && b <= 172) || 174 <= b {
        b as char
    } else {
        let k: u32 = if b <= 32 {
            b as u32
        } else if b <= 160 {
            b as u32 - 94
        } else {
            67
        };
        match char_from_u32(SHIFTED_BASE + k) {
            Some(c) => c,
            None => b as char,
        }
    }
}

/// Closed form of the code point of a byte.
pub proof fn lemma_byte_to_char_value(b: u8)
    ensures
        byte_to_char_spec(b) as int == if is_direct_byte(b as int) {
            b as int
        } else if b <= 32 {
            256 + b
        } else if b <= 160 {
            b + 162
        } else {
            323
        },
{
    lemma_excluded_below(b as int);
}

/// Two bytes with the same code point are the same byte, and every code point
/// of the alphabet is mapped back to the byte it stands for.
pub proof fn lemma_char_to_byte_inverts(b: u8)
    ensures
        char_to_byte_spec(byte_to_char_spec(b)) == Some(b),
{
    let c = byte_to_char_spec(b);
    assert(in_alphabet(c));
    let b2 = choose|b2: u8| byte_to_char_spec(b2) == c;
    lemma_byte_to_char_value(b);
    lemma_byte_to_char_value(b2);
}

/// A code point is mapped to a byte only if it is that byte's code point.
pub proof fn lemma_byte_to_char_inverts(c: char)
    ensures
        char_to_byte_spec(c) matches Some(b) ==> byte_to_char_spec(b) == c,
        char_to_byte_spec(c) is Some <==> in_alphabet(c),
{
}

/// No code point of the alphabet is a space, so none is white space and the
/// alphabet can be stored and matched safely.
pub proof fn lemma_alphabet_is_visible(b: u8)
    ensures
        33 <= byte_to_char_spec(b) as int <= 323,
        byte_to_char_spec(b) as int != 127,
        !(128 <= byte_to_char_spec(b) as int <= 160),
        byte_to_char_spec(b) as int != 173,
{
    lemma_byte_to_char_value(b);
}

/// The byte that a visible code point stands for; `None` for a code point
/// outside the alphabet.
pub fn char_to_byte(c: char) -> (r: Option<u8>)
    ensures
        r == char_to_byte_spec(c),
{
    let v: u32 = c as u32;
    let candidate: Option<u8> = if (33 <= v && v <= 126) || (161 <= v && v <= 172) || (174 <= v
        && v <= 255) {
        Some(v as u8)
    } else if SHIFTED_BASE <= v && v < SHIFTED_BASE + EXCLUDED_BYTES {
        let k: u32 = v - SHIFTED_BASE;
        if k <= 32 {
            Some(k as u8)
        } else if k <= 66 {
            Some((k + 94) as u8)
        } else {
            Some(173u8)
        }
    } else {
        None
    };
    proof {
        match candidate {
            Some(b) => {
                lemma_byte_to_char_value(b);
                assert(byte_to_char_spec(b) == c);
                lemma_char_to_byte_inverts(b);
            },
            None => {
                assert forall|b: u8| byte_to_char_spec(b) != c by {
                    lemma_byte_to_char_value(b);
                }
            },
        }
    }
    candidate
}

} // verus!
