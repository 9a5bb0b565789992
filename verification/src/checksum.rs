//! The integrity tag of a record: CRC-64 with the ECMA polynomial,
//! computed by the `crc` crate. The contracts name the result; nothing
//! below states how it is computed.

use vstd::prelude::*;

verus! {

/// The CRC-64/ECMA checksum of `bytes`: a function of the bytes alone.
pub uninterp spec fn crc64_of(bytes: Seq<u8>) -> u64;

/// Relies on crc::crc64::checksum_ecma: one pass of the CRC-64/ECMA
/// digest (initial value 0, no final xor) over `bytes`, a pure function
/// of the bytes. Incremental `Digest` writes fold to the same value, so
/// this matches a digest fed the same bytes in pieces.
#[verifier::external_body]
pub(crate) fn crc64(bytes: &[u8]) -> (r: u64)
    ensures
        r == crc64_of(bytes@),
{
    crc::crc64::checksum_ecma(bytes)
}

} // verus!
