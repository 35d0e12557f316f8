use vstd::prelude::*;

use crate::types::ContentDigest;

verus! {

/// The 32-byte Blake2b digest of a byte string. The digest itself is left
/// unspecified: it is a fixed function of the input bytes alone, and the
/// engine's contracts only ever compare digests for equality.
pub uninterp spec fn digest_of(data: Seq<u8>) -> Seq<u8>;

/// Relies on sp_crypto_hashing::blake2_256: a 256-bit Blake2b digest,
/// determined by the input bytes alone, returned as a 32-byte array.
#[verifier::external_body]
fn blake2_256_digest(data: &Vec<u8>) -> (r: Vec<u8>)
    ensures
        r@ == digest_of(data@),
        r@.len() == 32,
{
    sp_crypto_hashing::blake2_256(data.as_slice()).to_vec()
}

/// Compute the content digest of a byte string.
pub fn hash_bytes(data: &Vec<u8>) -> (r: ContentDigest)
    ensures
        r@ == digest_of(data@),
        r.wf(),
{
    let bytes = blake2_256_digest(data);
    ContentDigest::from_bytes(bytes)
}

} // verus!
