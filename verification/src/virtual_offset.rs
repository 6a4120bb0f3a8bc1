//! Composite file positions into a block-compressed stream.
//!
//! A virtual offset packs a 48-bit compressed-block offset and a 16-bit
//! offset within that block's decompressed content into one `u64`.
//! Plain numeric ordering of the packed value is file-position ordering.

use vstd::prelude::*;

use crate::error::IndexError;

verus! {

/// Largest representable compressed-block offset (48 bits).
pub const MAX_BLOCK_OFFSET: u64 = 0x0000_FFFF_FFFF_FFFF;

/// Largest representable within-block offset (16 bits).
pub const MAX_IN_BLOCK_OFFSET: u64 = 0xFFFF;

/// A composite position: `(block_offset << 16) | in_block_offset`.
#[derive(Clone, Copy, Debug, PartialEq, Eq, Structural)]
pub struct VirtualOffset {
    pub value: u64,
}

/// The packed form of a block offset and a within-block offset.
pub open spec fn spec_pack(block_offset: u64, in_block_offset: u64) -> u64
    recommends
        block_offset <= MAX_BLOCK_OFFSET,
        in_block_offset <= MAX_IN_BLOCK_OFFSET,
{
    (block_offset * 0x10000 + in_block_offset) as u64
}

impl VirtualOffset {
    /// The smallest virtual offset: block 0, byte 0.
    pub fn zero() -> (r: VirtualOffset)
        ensures
            r.value == 0,
    {
        VirtualOffset { value: 0 }
    }

    /// Packs the two components, rejecting any that exceeds its bit width.
    pub fn encode(block_offset: u64, in_block_offset: u64) -> (r: Result<VirtualOffset, IndexError>)
        ensures
            block_offset <= MAX_BLOCK_OFFSET && in_block_offset <= MAX_IN_BLOCK_OFFSET ==> r
                == Ok::<VirtualOffset, IndexError>(
                VirtualOffset { value: spec_pack(block_offset, in_block_offset) },
            ),
            !(block_offset <= MAX_BLOCK_OFFSET && in_block_offset <= MAX_IN_BLOCK_OFFSET) ==> r
                == Err::<VirtualOffset, IndexError>(IndexError::EncodingOverflow),
    {
        if block_offset <= MAX_BLOCK_OFFSET && in_block_offset <= MAX_IN_BLOCK_OFFSET {
            proof {
                assert(block_offset * 0x10000 + in_block_offset <= 0xFFFF_FFFF_FFFF_FFFF) by (nonlinear_arith)
                    requires
                        block_offset <= 0x0000_FFFF_FFFF_FFFF,
                        in_block_offset <= 0xFFFF,
                ;
            }
            Ok(VirtualOffset { value: block_offset * 0x10000 + in_block_offset })
        } else {
            Err(IndexError::EncodingOverflow)
        }
    }

    /// Unpacks into `(block_offset, in_block_offset)`.
    pub fn decode(self) -> (r: (u64, u64))
        ensures
            r.0 == self.value >> 16,
            r.1 == self.value & 0xFFFF,
            r.0 <= MAX_BLOCK_OFFSET,
            r.1 <= MAX_IN_BLOCK_OFFSET,
    {
        proof {
            let v = self.value;
            assert(v >> 16 <= 0x0000_FFFF_FFFF_FFFF && v & 0xFFFF <= 0xFFFF) by (bit_vector);
        }
        (self.value >> 16, self.value & 0xFFFF)
    }

    /// Numeric comparison; this is exactly file-position ordering.
    pub fn le(self, other: VirtualOffset) -> (r: bool)
        ensures
            r == (self.value <= other.value),
    {
        self.value <= other.value
    }
}

/// Decoding inverts encoding: the two components are recovered exactly.
pub proof fn lemma_pack_unpack(block_offset: u64, in_block_offset: u64)
    requires
        block_offset <= MAX_BLOCK_OFFSET,
        in_block_offset <= MAX_IN_BLOCK_OFFSET,
    ensures
        spec_pack(block_offset, in_block_offset) >> 16 == block_offset,
        spec_pack(block_offset, in_block_offset) & 0xFFFF == in_block_offset,
{
    let b = block_offset;
    let i = in_block_offset;
    assert(b <= 0x0000_FFFF_FFFF_FFFF && i <= 0xFFFF ==> ((b * 0x10000 + i) as u64) >> 16 == b
        && ((b * 0x10000 + i) as u64) & 0xFFFF == i) by (bit_vector);
}

} // verus!
