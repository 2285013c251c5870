//! Recognising the AArch64 hint instructions that mark points of interest in a guest.

use vstd::prelude::*;

verus! {

/// Fixed bits of a `HINT #imm` instruction.
pub const HINT_OPCODE: u32 = 0b1101_0101_0000_0011_0010_0000_0001_1111;

/// Bits that are fixed in every `HINT #imm` instruction.
pub const HINT_MASK: u32 = 0b1111_1111_1111_1111_1111_0000_0001_1111;

/// Hints above this value are markers.
pub const MARKER_HINT_MIN: u32 = 90;

/// The marker value of an instruction word: its hint immediate when it is a hint above
/// `MARKER_HINT_MIN`.
pub open spec fn marker_of(literal: u32) -> Option<u32> {
    if literal & HINT_MASK == HINT_OPCODE && (literal >> 5u32) & 0x7f > MARKER_HINT_MIN {
        Some((literal >> 5u32) & 0x7f)
    } else {
        None
    }
}

/// The marker value of an instruction word, if it is a marker hint.
pub fn marker_hint(literal: u32) -> (r: Option<u32>)
    ensures
        r == marker_of(literal),
{
    if (literal & HINT_MASK) == HINT_OPCODE {
        let hint_value = (literal >> 5) & 0b1111111;
        if hint_value > MARKER_HINT_MIN {
            return Some(hint_value);
        }
    }
    None
}

} // verus!
