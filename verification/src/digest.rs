//! Digests of payloads and of tensor names.

use vstd::prelude::*;
use vstd::string::*;

verus! {

/// The BLAKE3 digest of a byte string.
pub uninterp spec fn blake3_digest(input: Seq<u8>) -> [u8; 32];

/// The seedless 64-bit XXH3 hash of a byte string.
pub uninterp spec fn xxh3_hash(input: Seq<u8>) -> u64;

/// Calls `blake3::hash` and takes the digest out as bytes. Claimed of it: the digest is a
/// function of the input bytes alone.
#[verifier::external_body]
pub(crate) fn hash_payload(payload: &[u8]) -> (digest: [u8; 32])
    ensures
        digest == blake3_digest(payload@),
{
    *blake3::hash(payload).as_bytes()
}

/// Calls `xxhash_rust::xxh3::xxh3_64`. Claimed of it: the hash is a function of the input
/// bytes alone.
#[verifier::external_body]
pub(crate) fn hash_bytes(input: &[u8]) -> (hash: u64)
    ensures
        hash == xxh3_hash(input@),
{
    xxhash_rust::xxh3::xxh3_64(input)
}

/// The hash that the index records for a tensor name: that of its UTF-8 bytes.
pub open spec fn name_hash_of(name: Seq<char>) -> u64 {
    xxh3_hash(vstd::utf8::encode_utf8(name))
}

/// The hash that the index records for a tensor name.
pub fn name_hash(name: &str) -> (hash: u64)
    ensures
        hash == name_hash_of(name@),
{
    hash_bytes(name.as_bytes())
}

} // verus!
