//! The CRC32 checksum that guards every record, behind one trusted wrapper.

use vstd::prelude::*;

verus! {

/// The CRC32 (IEEE) checksum of a byte sequence. The checksum is a function
/// of the bytes alone, so the same bytes always give the same value; what
/// the value is, only the checksum implementation knows.
pub uninterp spec fn crc32_of(data: Seq<u8>) -> u32;

/// Relies on `crc32fast::hash`: it computes the CRC32 (IEEE) checksum of
/// the given bytes, a pure function of its input.
#[verifier::external_body]
pub fn crc32(data: &[u8]) -> (r: u32)
    ensures
        r == crc32_of(data@),
{
    crc32fast::hash(data)
}

} // verus!
