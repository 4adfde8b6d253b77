//! Digests of the hash functions of the multihash table.

use crate::cid::MAX_DIGEST_LEN;
use vstd::prelude::*;

verus! {

/// The code of SHA-256 in the multihash table.
pub const SHA2_256: u64 = 0x12;

/// The length of a SHA-256 digest in bytes.
pub const SHA2_256_LEN: usize = 32;

/// The code of BLAKE2b-256 in the multihash table.
pub const BLAKE2B_256: u64 = 0xb220;

/// The length of a BLAKE2b-256 digest in bytes.
pub const BLAKE2B_256_LEN: usize = 32;

/// The digest of `data` under the hash function with the given code in the
/// multihash table, as `multihash_codetable` computes it; `None` where it
/// knows no hash function with that code.
pub uninterp spec fn multihash_digest(code: u64, data: Seq<u8>) -> Option<Seq<u8>>;

/// Calls `Code::try_from` of `multihash_codetable` on the code and `digest`
/// on the hash function found, and copies the digest out of the multihash.
/// The contract names the result and claims that no digest is longer than
/// the 64 bytes that a multihash holds, and that SHA-256 and BLAKE2b-256
/// are among the hash functions and have digests of 32 bytes.
#[verifier::external_body]
pub(crate) fn digest_with(code: u64, data: &[u8]) -> (r: Option<Vec<u8>>)
    ensures
        match r {
            Some(digest) => multihash_digest(code, data@) == Some(digest@),
            None => multihash_digest(code, data@) is None,
        },
        r matches Some(digest) ==> digest@.len() <= MAX_DIGEST_LEN && (code == SHA2_256
            ==> digest@.len() == SHA2_256_LEN) && (code == BLAKE2B_256 ==> digest@.len()
            == BLAKE2B_256_LEN),
        r is None ==> code != SHA2_256 && code != BLAKE2B_256,
{
    match multihash_codetable::Code::try_from(code) {
        Ok(hash) => Some(multihash_codetable::MultihashDigest::digest(&hash, data).digest().to_vec()),
        Err(_) => None,
    }
}

} // verus!
