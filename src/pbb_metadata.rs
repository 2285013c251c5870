//! The word handed to an instruction callback: a partial basic block's physical address and
//! instruction count, packed into one 64-bit word.

use vstd::prelude::*;

verus! {

/// Bits [59:0] hold the physical address.
pub const PA_MASK: u64 = 0x0fff_ffff_ffff_ffff;

/// A partial basic block: its physical address and its number of instructions (1 to 16).
#[derive(Clone, Copy, PartialEq, Eq, Structural, Debug)]
pub struct PBBMetadata {
    pub physical_addr: u64,
    pub instruction_count: u8,
}

/// The packed word: bits [63:60] hold the instruction count less one, bits [59:0] the address.
pub open spec fn packed(physical_addr: u64, instruction_count: u8) -> u64 {
    ((((instruction_count - 1) as u64) & 0xf) << 60u64) | physical_addr
}

impl PBBMetadata {
    /// The physical address in a packed word.
    pub fn get_pa(encoding: u64) -> (r: u64)
        ensures
            r == encoding & PA_MASK,
            r <= PA_MASK,
    {
        let r = encoding & PA_MASK;
        assert(encoding & 0x0fff_ffff_ffff_ffffu64 <= 0x0fff_ffff_ffff_ffffu64) by (bit_vector);
        r
    }

    /// The instruction count in a packed word.
    pub fn get_instruction_count(encoding: u64) -> (r: u8)
        ensures
            r == (encoding >> 60u64) + 1,
            1 <= r <= 16,
    {
        assert(encoding >> 60u64 <= 15) by (bit_vector);
        ((encoding >> 60) as u8) + 1
    }

    /// Unpacks a word.
    pub fn from(encoding: u64) -> (r: Self)
        ensures
            r.physical_addr == encoding & PA_MASK,
            r.instruction_count == (encoding >> 60u64) + 1,
    {
        PBBMetadata {
            physical_addr: Self::get_pa(encoding),
            instruction_count: Self::get_instruction_count(encoding),
        }
    }

    /// Packs the metadata into one word.
    pub fn encode(&self) -> (r: u64)
        requires
            1 <= self.instruction_count <= 16,
            self.physical_addr <= PA_MASK,
        ensures
            r == packed(self.physical_addr, self.instruction_count),
    {
        let shifted = (((self.instruction_count - 1) & 0xf) as u64) << 60;
        let pa = self.physical_addr;
        let c = (self.instruction_count - 1) as u64;
        assert(((c & 0xf) << 60u64) == ((((c as u8) & 0xf) as u64) << 60u64)) by (bit_vector)
            requires
                c <= 15,
        ;
        shifted | pa
    }
}

/// Unpacking a packed word gives back the address and the instruction count.
pub proof fn lemma_pbb_round_trip(physical_addr: u64, instruction_count: u8)
    requires
        1 <= instruction_count <= 16,
        physical_addr <= PA_MASK,
    ensures
        packed(physical_addr, instruction_count) & PA_MASK == physical_addr,
        (packed(physical_addr, instruction_count) >> 60u64) + 1 == instruction_count,
{
    let c = (instruction_count - 1) as u64;
    let w = packed(physical_addr, instruction_count);
    assert(w == ((c & 0xf) << 60u64) | physical_addr);
    assert((((c & 0xf) << 60u64) | physical_addr) & 0x0fff_ffff_ffff_ffffu64 == physical_addr)
        by (bit_vector)
        requires
            physical_addr <= 0x0fff_ffff_ffff_ffffu64,
    ;
    assert((((c & 0xf) << 60u64) | physical_addr) >> 60u64 == c) by (bit_vector)
        requires
            physical_addr <= 0x0fff_ffff_ffff_ffffu64,
            c <= 15,
    ;
}

} // verus!
