//! The CRC32 checksum, computed by the `crc32fast` crate.

use vstd::prelude::*;

verus! {

/// The CRC32 (IEEE) checksum of a byte sequence, as `crc32fast::hash`
/// computes it.
pub uninterp spec fn crc32_of(b: Seq<u8>) -> u32;

/// Calls `crc32fast::hash`, whose result depends on the bytes alone.
#[verifier::external_body]
pub(crate) fn crc32(b: &[u8]) -> (r: u32)
    ensures
        r == crc32_of(b@),
{
    crc32fast::hash(b)
}

/// Continues a checksum over more bytes: `crc32fast::Hasher` made by
/// `new_with_initial` with the checksum so far, then `update` and `finalize`.
/// The hasher's state is the checksum itself, so whatever bytes gave `crc`,
/// the result is the checksum of those bytes followed by `b`.
#[verifier::external_body]
pub(crate) fn crc32_resume(crc: u32, b: &[u8]) -> (r: u32)
    ensures
        forall|a: Seq<u8>| crc == crc32_of(a) ==> r == #[trigger] crc32_of(a + b@),
{
    let mut hasher = crc32fast::Hasher::new_with_initial(crc);
    hasher.update(b);
    hasher.finalize()
}

} // verus!
