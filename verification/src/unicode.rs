//! UTF-16 surrogate code units: how to tell them apart and how to join a pair.
use vstd::prelude::*;

verus! {

/// The character that stands in for a code unit that cannot be decoded.
pub const REPLACEMENT: char = '\u{FFFD}';

/// A code unit in `[0xD800, 0xDC00)`: the first half of a pair.
pub open spec fn lead_surrogate(cu: u16) -> bool {
    0xD800 <= cu < 0xDC00
}

/// A code unit in `[0xDC00, 0xE000)`: the second half of a pair.
pub open spec fn trail_surrogate(cu: u16) -> bool {
    0xDC00 <= cu < 0xE000
}

/// The code point that a lead and a trail surrogate stand for together:
/// the ten low bits of each, side by side, above the basic plane.
pub open spec fn surrogate_code_point(lead: u16, trail: u16) -> int {
    0x1_0000 + (lead - 0xD800) * 0x400 + (trail - 0xDC00)
}

/// Whether an integer is a Unicode scalar value, that is, the code of a `char`.
pub open spec fn scalar_value(i: int) -> bool {
    0 <= i <= 0xD7FF || 0xE000 <= i <= 0x10_FFFF
}

/// `char::from_u32` of std: the character with the given code, if the code is
/// that of a Unicode scalar value, and `None` for a surrogate or a code
/// above `0x10FFFF`.
pub assume_specification[ char::from_u32 ](i: u32) -> (r: Option<char>)
    ensures
        scalar_value(i as int) ==> r == Some(i as char),
        !scalar_value(i as int) ==> r is None,
;

pub fn is_lead_surrogate(cu: u16) -> (b: bool)
    ensures
        b == lead_surrogate(cu),
{
    0xD800 <= cu && cu < 0xDC00
}

pub fn is_trail_surrogate(cu: u16) -> (b: bool)
    ensures
        b == trail_surrogate(cu),
{
    0xDC00 <= cu && cu < 0xE000
}

/// Joins a surrogate pair into the one character it encodes.
pub fn compose_surrogates(ls: u16, ts: u16) -> (c: char)
    requires
        lead_surrogate(ls),
        trail_surrogate(ts),
    ensures
        c as int == surrogate_code_point(ls, ts),
        0x1_0000 <= c as int <= 0x10_FFFF,
{
    let hi: u32 = (ls - 0xD800) as u32;
    let lo: u32 = (ts - 0xDC00) as u32;
    assert((hi << 10 | lo) == hi * 0x400 + lo) by (bit_vector)
        requires
            hi < 0x400,
            lo < 0x400,
    ;
    char::from_u32(((hi << 10) | lo) + 0x1_0000).unwrap()
}

} // verus!
