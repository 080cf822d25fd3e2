//! CRC-32 (IEEE) checksums, computed by the `crc32fast` crate.
use vstd::prelude::*;

verus! {

/// The CRC-32 (IEEE 802.3, reflected, as used by zip and 7z) of a byte string.
pub uninterp spec fn crc32(bytes: Seq<u8>) -> u32;

/// CRC-32 of `buf`.
///
/// Calls `crc32fast::hash`, which computes the CRC-32 of its whole argument
/// in one go; the contract names that result [`crc32`] of the bytes.
#[verifier::external_body]
pub(crate) fn crc32_of(buf: &[u8]) -> (h: u32)
    ensures
        h == crc32(buf@),
{
    crc32fast::hash(buf)
}

} // verus!
