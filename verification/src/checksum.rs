//! The checksum by which hash-partitioned collections spread their keys.

use vstd::prelude::*;

verus! {

/// The CRC-32 checksum of a byte string, as `crc32fast` computes it.
pub uninterp spec fn crc32(bytes: Seq<u8>) -> u32;

/// Calls `crc32fast::hash`. The checksum depends on the bytes alone; the
/// contract gives it its name and claims nothing else of it.
#[verifier::external_body]
pub(crate) fn crc32_of(bytes: &[u8]) -> (sum: u32)
    ensures
        sum == crc32(bytes@),
{
    crc32fast::hash(bytes)
}

} // verus!
