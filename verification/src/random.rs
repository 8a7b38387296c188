//! The random source of the library: a ChaCha20 generator from `rand_chacha`,
//! carried through verified code as an opaque value.

use vstd::prelude::*;
use vstd::arithmetic::power2::pow2;
use num_bigint::{BigUint, RandBigInt};
use rand::Rng;
use rand::SeedableRng;
use rand_chacha::ChaCha20Rng;
use crate::bignat::BigNat;

verus! {

/// `rand_chacha::ChaCha20Rng`, declared so that it can stand in signatures.
/// Nothing of its state is visible to the verifier.
#[verifier::external_type_specification]
#[verifier::external_body]
pub struct ExChaCha20Rng(ChaCha20Rng);

/// Calls `ChaCha20Rng::from_entropy`, which seeds a fresh generator from the
/// operating system, and panics where the system gives no entropy. Nothing
/// is claimed of the generator that comes back.
#[verifier::external_body]
pub(crate) fn entropy_rng() -> (rng: ChaCha20Rng) {
    ChaCha20Rng::from_entropy()
}

/// Calls `Rng::gen_range` on the inclusive range `0..=upper`. The range is
/// never empty, so the call does not panic; the draw lies in the range.
#[verifier::external_body]
pub(crate) fn random_index(rng: &mut ChaCha20Rng, upper: usize) -> (j: usize)
    ensures
        j <= upper,
{
    rng.gen_range(0..=upper)
}

/// Calls `RandBigInt::gen_biguint_below`, which panics on a zero bound and
/// otherwise draws a number below the bound.
#[verifier::external_body]
pub(crate) fn random_below(rng: &mut ChaCha20Rng, bound: &BigNat) -> (drawn: BigNat)
    requires
        bound@ > 0,
    ensures
        drawn@ < bound@,
{
    let bound = BigUint::from_bytes_be(&bound.bytes);
    BigNat { bytes: rng.gen_biguint_below(&bound).to_bytes_be() }
}

/// Calls `RandBigInt::gen_biguint_range`, which panics unless the lower bound
/// is below the upper one, and otherwise draws a number from the lower bound
/// up to, but not including, the upper one.
#[verifier::external_body]
pub(crate) fn random_in_range(rng: &mut ChaCha20Rng, low: &BigNat, high: &BigNat) -> (drawn: BigNat)
    requires
        low@ < high@,
    ensures
        low@ <= drawn@ < high@,
{
    let low = BigUint::from_bytes_be(&low.bytes);
    let high = BigUint::from_bytes_be(&high.bytes);
    BigNat { bytes: rng.gen_biguint_range(&low, &high).to_bytes_be() }
}

/// Calls `RandBigInt::gen_biguint`, which draws a number of at most `bits`
/// bits.
#[verifier::external_body]
pub(crate) fn random_bits(rng: &mut ChaCha20Rng, bits: usize) -> (drawn: BigNat)
    ensures
        drawn@ < pow2(bits as nat),
{
    BigNat { bytes: rng.gen_biguint(bits as u64).to_bytes_be() }
}

} // verus!
