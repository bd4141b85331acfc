//! Character classification for leaked password characters.

use vstd::prelude::*;

verus! {

/// The glyph a masked password field shows in place of a real character
/// (U+25CF, a black circle), as it appears in the scanned dumps.
pub const MASK_CHAR: char = '\u{25CF}';

/// A UTF-16 code unit accepted as a leaked password character: printable
/// ASCII, the Latin-1 Supplement together with Latin Extended-A and -B, or
/// Latin Extended Additional. Everything else is treated as noise.
pub open spec fn spec_valid_unit(u: int) -> bool {
    (0x20 <= u && u <= 0x7E) || (0xA0 <= u && u <= 0x2AF) || (0x1E00 <= u && u <= 0x1EFF)
}

/// A character whose scalar value lies in one of the accepted ranges.
pub open spec fn valid_char(c: char) -> bool {
    spec_valid_unit(c as u32 as int)
}

/// A character from the common printable set used as the fallback guess
/// domain for positions without any observation.
pub open spec fn common_char(c: char) -> bool {
    0x20 <= c as u32 && c as u32 <= 0x7E
}

/// Whether a code unit lies in one of the accepted ranges.
pub fn is_valid_unit(u: u16) -> (r: bool)
    ensures
        r == spec_valid_unit(u as int),
{
    (0x20 <= u && u <= 0x7E) || (0xA0 <= u && u <= 0x2AF) || (0x1E00 <= u && u <= 0x1EFF)
}

/// Relies on char::from_u32 of std: it returns the character with the given
/// scalar value, and None exactly when the value is a surrogate or above the
/// Unicode maximum.
pub assume_specification[ char::from_u32 ](v: u32) -> (r: Option<char>)
    ensures
        r is Some <==> (v < 0xD800 || (0xE000 <= v && v <= 0x10FFFF)),
        r is Some ==> r->0 as u32 == v,
;

/// Turns a code unit that lies in one of the accepted ranges into the
/// character it denotes.
pub fn unit_to_char(u: u16) -> (c: char)
    requires
        spec_valid_unit(u as int),
    ensures
        c as u32 == u as u32,
        valid_char(c),
{
    char::from_u32(u as u32).unwrap()
}

} // verus!
