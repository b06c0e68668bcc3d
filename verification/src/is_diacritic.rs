use vstd::prelude::*;

verus! {

/// First code point of the combining diacritical marks block.
pub const MARKS_FIRST: u32 = 0x0300;

/// Last code point of the combining diacritical marks block.
pub const MARKS_LAST: u32 = 0x036f;

/// Whether `ch` lies in the combining diacritical marks block.
pub open spec fn is_mark(ch: char) -> bool {
    0x0300 <= ch as u32 <= 0x036f
}

/// Tells whether `ch` is a combining diacritical mark.
pub fn is_diacritic(ch: char) -> (r: bool)
    ensures
        r == is_mark(ch),
{
    let cp: u32 = ch as u32;
    MARKS_FIRST <= cp && cp <= MARKS_LAST
}

} // verus!
