use vstd::prelude::*;

verus! {

/// The IEEE CRC-32 of a byte sequence.
pub uninterp spec fn crc32_of(b: Seq<u8>) -> u32;

/// The 64-bit XXH3 hash of a byte sequence, with the default seed.
pub uninterp spec fn xxh3_of(b: Seq<u8>) -> u64;

/// Relies on `crc32fast::hash`: the IEEE CRC-32 of the bytes, which depends
/// on the bytes alone.
#[verifier::external_body]
pub(crate) fn crc32(b: &[u8]) -> (r: u32)
    ensures
        r == crc32_of(b@),
{
    crc32fast::hash(b)
}

/// Relies on `xxhash_rust::xxh3::xxh3_64`: the hash depends on the bytes alone.
#[verifier::external_body]
pub fn strong_tail_hash(stream_bytes: &[u8]) -> (r: u64)
    ensures
        r == xxh3_of(stream_bytes@),
{
    xxhash_rust::xxh3::xxh3_64(stream_bytes)
}

} // verus!
