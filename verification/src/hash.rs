//! The hash functions that other crates compute.

use vstd::prelude::*;

verus! {

/// The CRC-32/ISO-HDLC checksum of bytes.
pub uninterp spec fn iso_hdlc(bytes: Seq<u8>) -> u32;

/// The CRC32C (Castagnoli) checksum of bytes.
pub uninterp spec fn castagnoli(bytes: Seq<u8>) -> u32;

/// The XXH3 64-bit hash of bytes under a seed.
pub uninterp spec fn xxh3(bytes: Seq<u8>, seed: u64) -> u64;

/// `crc32fast::hash`: the checksum depends on the bytes alone, and is called
/// [`iso_hdlc`] in contracts. Which number it is for given bytes is not said.
#[verifier::external_body]
pub(crate) fn crc_iso_hdlc(bytes: &[u8]) -> (r: u32)
    ensures
        r == iso_hdlc(bytes@),
{
    crc32fast::hash(bytes)
}

/// `crc32c::crc32c`: the checksum depends on the bytes alone, and is called
/// [`castagnoli`] in contracts. Which number it is for given bytes is not said.
#[verifier::external_body]
pub(crate) fn crc_castagnoli(bytes: &[u8]) -> (r: u32)
    ensures
        r == castagnoli(bytes@),
{
    crc32c::crc32c(bytes)
}

/// `xxhash_rust::xxh3::xxh3_64_with_seed`: the hash depends on the bytes and
/// the seed alone, and is called [`xxh3`] in contracts. Which number it is for
/// given bytes is not said.
#[verifier::external_body]
pub(crate) fn xxh3_64(bytes: &[u8], seed: u64) -> (r: u64)
    ensures
        r == xxh3(bytes@, seed),
{
    xxhash_rust::xxh3::xxh3_64_with_seed(bytes, seed)
}

} // verus!
