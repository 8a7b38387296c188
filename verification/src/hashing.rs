//! The two hash functions of the cryptosystem, both from `sha3`.

use vstd::prelude::*;
use sha3::digest::{ExtendableOutput, Update, XofReader};
use sha3::{Digest, Sha3_512, Shake256};
use crate::errors::NoiseError;

verus! {

/// The SHA3-512 digest of a byte string.
pub uninterp spec fn sha3_512(data: Seq<u8>) -> Seq<u8>;

/// The first `length` bytes of the SHAKE256 output for a byte string.
pub uninterp spec fn shake256_output(data: Seq<u8>, length: nat) -> Seq<u8>;

/// The number of bytes that seed the noise generator.
pub const SEED_LENGTH: usize = 32;

/// The number of bytes of the digest that is signed.
pub const DIGEST_LENGTH: usize = 64;

/// Calls `Sha3_512::digest`: the digest of `data`, which is a function of
/// the bytes of `data` alone and has 64 bytes.
#[verifier::external_body]
pub(crate) fn sha3_512_digest(data: &[u8]) -> (digest: Vec<u8>)
    ensures
        digest@ == sha3_512(data@),
        digest@.len() == 64,
{
    Sha3_512::digest(data).to_vec()
}

/// Feeds `data` to `Shake256` with `update` and reads `length` bytes from
/// the reader that `finalize_xof` gives: a function of the bytes of `data`
/// and of `length` alone.
#[verifier::external_body]
pub(crate) fn shake256_digest(data: &[u8], length: usize) -> (digest: Vec<u8>)
    ensures
        digest@ == shake256_output(data@, length as nat),
        digest@.len() == length,
{
    let mut hasher = Shake256::default();
    Update::update(&mut hasher, data);
    let mut digest = vec![0u8; length];
    hasher.finalize_xof().read(&mut digest);
    digest
}

/// The seed that a digest gives: its first 32 bytes. A digest that is
/// shorter gives none.
pub fn seed_from_digest(digest: &[u8]) -> (out: Result<Vec<u8>, NoiseError>)
    ensures
        out is Ok <==> digest@.len() >= SEED_LENGTH,
        out matches Err(e) ==> e == NoiseError::InvalidHashOutput,
        out matches Ok(seed) ==> seed@ == digest@.subrange(0, SEED_LENGTH as int),
{
    if digest.len() < SEED_LENGTH {
        return Err(NoiseError::InvalidHashOutput);
    }
    let mut seed: Vec<u8> = Vec::new();
    let mut i: usize = 0;
    while i < SEED_LENGTH
        invariant
            i <= SEED_LENGTH <= digest@.len(),
            seed@ == digest@.subrange(0, i as int),
        decreases SEED_LENGTH - i,
    {
        seed.push(digest[i]);
        assert(digest@.subrange(0, i as int).push(digest@[i as int]) =~= digest@.subrange(
            0,
            i + 1,
        ));
        i += 1;
    }
    Ok(seed)
}

} // verus!
