//! The CRC-32 checksum that protects each log record.

use vstd::prelude::*;

verus! {

/// The CRC-32 (IEEE 802.3 polynomial, reflected, initial value and final
/// xor `0xffff_ffff`) that `crc32fast` computes over `bytes`. It depends on
/// the bytes alone.
pub uninterp spec fn crc32(bytes: Seq<u8>) -> u32;

/// Calls `crc32fast::hash`, which feeds `bytes` to a fresh
/// `crc32fast::Hasher` and returns its `finalize()`. The contract claims only
/// that the result is the checksum of exactly these bytes.
#[verifier::external_body]
pub(crate) fn crc32_of(bytes: &[u8]) -> (c: u32)
    ensures
        c == crc32(bytes@),
{
    crc32fast::hash(bytes)
}

} // verus!
