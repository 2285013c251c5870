//! One record of a memory trace, as 18 little-endian bytes.

use vstd::prelude::*;

verus! {

/// A traced access: block, time, direction and core.
#[derive(Clone, Copy, PartialEq, Eq, Structural, Debug)]
pub struct TraceEntry {
    pub block_id: u64,
    pub timestamp: u64,
    pub is_read: bool,
    pub core_id: u8,
}

/// The eight little-endian bytes of `x`.
pub open spec fn le_bytes(x: u64) -> Seq<u8> {
    seq![
        x as u8,
        (x >> 8u64) as u8,
        (x >> 16u64) as u8,
        (x >> 24u64) as u8,
        (x >> 32u64) as u8,
        (x >> 40u64) as u8,
        (x >> 48u64) as u8,
        (x >> 56u64) as u8,
    ]
}

/// The value of eight little-endian bytes.
pub open spec fn from_le(s: Seq<u8>) -> u64 {
    (s[0] as u64) | ((s[1] as u64) << 8u64) | ((s[2] as u64) << 16u64) | ((s[3] as u64) << 24u64)
        | ((s[4] as u64) << 32u64) | ((s[5] as u64) << 40u64) | ((s[6] as u64) << 48u64) | ((
    s[7] as u64) << 56u64)
}

/// The bytes of a record: block id, timestamp, a read flag (1 or 0) and the core id.
pub open spec fn record_bytes(e: TraceEntry) -> Seq<u8> {
    le_bytes(e.block_id) + le_bytes(e.timestamp) + seq![
        if e.is_read {
            1u8
        } else {
            0u8
        },
        e.core_id,
    ]
}

/// The record that 18 bytes hold; any flag byte other than 1 reads as a write.
pub open spec fn record_of(b: Seq<u8>) -> TraceEntry {
    TraceEntry {
        block_id: from_le(b.subrange(0, 8)),
        timestamp: from_le(b.subrange(8, 16)),
        is_read: b[16] == 1,
        core_id: b[17],
    }
}

/// Reading back the bytes of a value gives the value.
pub proof fn lemma_le_round_trip(x: u64)
    ensures
        from_le(le_bytes(x)) == x,
{
    assert(((x as u8) as u64) | ((((x >> 8u64) as u8) as u64) << 8u64) | ((((x >> 16u64) as u8) as u64)
        << 16u64) | ((((x >> 24u64) as u8) as u64) << 24u64) | ((((x >> 32u64) as u8) as u64)
        << 32u64) | ((((x >> 40u64) as u8) as u64) << 40u64) | ((((x >> 48u64) as u8) as u64)
        << 48u64) | ((((x >> 56u64) as u8) as u64) << 56u64) == x) by (bit_vector);
}

/// Decoding the bytes of a record gives the record.
pub proof fn lemma_record_round_trip(e: TraceEntry)
    ensures
        record_bytes(e).len() == 18,
        record_of(record_bytes(e)) == e,
{
    let b = record_bytes(e);
    lemma_le_round_trip(e.block_id);
    lemma_le_round_trip(e.timestamp);
    assert(b.subrange(0, 8) =~= le_bytes(e.block_id));
    assert(b.subrange(8, 16) =~= le_bytes(e.timestamp));
}

impl TraceEntry {
    /// The 18 bytes of this record.
    pub fn serialize(&self) -> (r: [u8; 18])
        ensures
            r@ == record_bytes(*self),
    {
        let b = self.block_id;
        let t = self.timestamp;
        let r = [
            #[verifier::truncate] (b as u8),
            #[verifier::truncate] ((b >> 8) as u8),
            #[verifier::truncate] ((b >> 16) as u8),
            #[verifier::truncate] ((b >> 24) as u8),
            #[verifier::truncate] ((b >> 32) as u8),
            #[verifier::truncate] ((b >> 40) as u8),
            #[verifier::truncate] ((b >> 48) as u8),
            #[verifier::truncate] ((b >> 56) as u8),
            #[verifier::truncate] (t as u8),
            #[verifier::truncate] ((t >> 8) as u8),
            #[verifier::truncate] ((t >> 16) as u8),
            #[verifier::truncate] ((t >> 24) as u8),
            #[verifier::truncate] ((t >> 32) as u8),
            #[verifier::truncate] ((t >> 40) as u8),
            #[verifier::truncate] ((t >> 48) as u8),
            #[verifier::truncate] ((t >> 56) as u8),
            if self.is_read {
                1
            } else {
                0
            },
            self.core_id,
        ];
        proof {
            assert(r@ =~= record_bytes(*self));
        }
        r
    }

    /// The record that 18 bytes hold.
    pub fn from_bytes(buffer: &[u8; 18]) -> (r: Self)
        ensures
            r == record_of(buffer@),
    {
        let block_id = (buffer[0] as u64) | ((buffer[1] as u64) << 8) | ((buffer[2] as u64) << 16)
            | ((buffer[3] as u64) << 24) | ((buffer[4] as u64) << 32) | ((buffer[5] as u64) << 40)
            | ((buffer[6] as u64) << 48) | ((buffer[7] as u64) << 56);
        let timestamp = (buffer[8] as u64) | ((buffer[9] as u64) << 8) | ((buffer[10] as u64) << 16)
            | ((buffer[11] as u64) << 24) | ((buffer[12] as u64) << 32) | ((buffer[13] as u64)
            << 40) | ((buffer[14] as u64) << 48) | ((buffer[15] as u64) << 56);
        TraceEntry { block_id, timestamp, is_read: buffer[16] == 1, core_id: buffer[17] }
    }
}

} // verus!
