//! Natural numbers of any size. A number is held as big-endian bytes, so that
//! its value is plain to the verifier; the arithmetic itself is done by
//! `num_bigint`, one call per operation.
//!
//! The functions here that call `num_bigint` are not verified: what they
//! ensure is what `num_bigint` documents. Each reads its arguments with
//! `BigUint::from_bytes_be`, which takes any byte string as the number it
//! spells, and writes its result with `BigUint::to_bytes_be`.

use vstd::prelude::*;
use vstd::arithmetic::power::pow;
use vstd::std_specs::cmp::PartialEqSpecImpl;
use num_bigint::BigUint;
use crate::encoding::{be_nat, canonical_bytes};

verus! {

/// A natural number, as a big-endian byte string. Any string is a number:
/// zero bytes in front are allowed, and the empty string is zero.
#[derive(Debug)]
pub struct BigNat {
    pub bytes: Vec<u8>,
}

impl View for BigNat {
    type V = nat;

    open spec fn view(&self) -> nat {
        be_nat(self.bytes@)
    }
}

impl Clone for BigNat {
    fn clone(&self) -> (copy: Self)
        ensures
            copy.bytes@ == self.bytes@,
            copy@ == self@,
    {
        BigNat { bytes: self.bytes.clone() }
    }
}

impl PartialEq for BigNat {
    /// Two numbers are equal when their values are, whatever their strings.
    fn eq(&self, other: &BigNat) -> (same: bool) {
        big_eq(self, other)
    }
}

impl PartialEqSpecImpl for BigNat {
    open spec fn obeys_eq_spec() -> bool {
        true
    }

    open spec fn eq_spec(&self, other: &BigNat) -> bool {
        self@ == other@
    }
}

impl BigNat {
    /// The number that `bytes` spells, most significant byte first.
    pub fn from_bytes_be(bytes: &[u8]) -> (number: BigNat)
        ensures
            number.bytes@ == bytes@,
            number@ == be_nat(bytes@),
    {
        let mut copy: Vec<u8> = Vec::new();
        let mut i: usize = 0;
        while i < bytes.len()
            invariant
                i <= bytes.len(),
                copy@ == bytes@.subrange(0, i as int),
            decreases bytes.len() - i,
        {
            copy.push(bytes[i]);
            assert(bytes@.subrange(0, i as int).push(bytes@[i as int]) =~= bytes@.subrange(
                0,
                i + 1,
            ));
            i += 1;
        }
        assert(bytes@.subrange(0, bytes@.len() as int) =~= bytes@);
        BigNat { bytes: copy }
    }

    /// The number `value`.
    pub fn from_u64(value: u64) -> (number: BigNat)
        ensures
            number@ == value,
    {
        big_from_u64(value)
    }

    /// Whether the number is zero.
    pub fn is_zero(&self) -> (zero: bool)
        ensures
            zero == (self@ == 0),
    {
        big_eq(self, &big_from_u64(0))
    }

    /// Whether the number is smaller than `other`.
    pub fn is_less_than(&self, other: &BigNat) -> (less: bool)
        ensures
            less == (self@ < other@),
    {
        big_lt(self, other)
    }

    /// The shortest big-endian string of the number; zero gives one zero byte.
    pub fn to_bytes_be(&self) -> (bytes: Vec<u8>)
        ensures
            bytes@ == canonical_bytes(self@),
    {
        big_to_bytes_be(self)
    }
}

/// Calls `BigUint::from` on a `u64`: the number has that value.
#[verifier::external_body]
pub(crate) fn big_from_u64(value: u64) -> (number: BigNat)
    ensures
        number@ == value,
{
    BigNat { bytes: BigUint::from(value).to_bytes_be() }
}

/// Calls `BigUint::to_bytes_be`, which gives the digits in base 256 without
/// zero bytes in front, and the single byte 0 for zero.
#[verifier::external_body]
pub(crate) fn big_to_bytes_be(number: &BigNat) -> (bytes: Vec<u8>)
    ensures
        bytes@ == canonical_bytes(number@),
{
    BigUint::from_bytes_be(&number.bytes).to_bytes_be()
}

/// Calls `==` of `BigUint`: true exactly when the two values are equal.
#[verifier::external_body]
pub(crate) fn big_eq(left: &BigNat, right: &BigNat) -> (same: bool)
    ensures
        same == (left@ == right@),
{
    BigUint::from_bytes_be(&left.bytes) == BigUint::from_bytes_be(&right.bytes)
}

/// Calls `<` of `BigUint`: true exactly when the left value is the smaller.
#[verifier::external_body]
pub(crate) fn big_lt(left: &BigNat, right: &BigNat) -> (less: bool)
    ensures
        less == (left@ < right@),
{
    BigUint::from_bytes_be(&left.bytes) < BigUint::from_bytes_be(&right.bytes)
}

/// Calls `+` of `BigUint`: the sum.
#[verifier::external_body]
pub(crate) fn big_add(left: &BigNat, right: &BigNat) -> (sum: BigNat)
    ensures
        sum@ == left@ + right@,
{
    let sum = BigUint::from_bytes_be(&left.bytes) + BigUint::from_bytes_be(&right.bytes);
    BigNat { bytes: sum.to_bytes_be() }
}

/// Calls `-` of `BigUint`, which panics when the right value is the larger;
/// otherwise it gives the difference.
#[verifier::external_body]
pub(crate) fn big_sub(left: &BigNat, right: &BigNat) -> (difference: BigNat)
    requires
        right@ <= left@,
    ensures
        difference@ == left@ - right@,
{
    let difference = BigUint::from_bytes_be(&left.bytes) - BigUint::from_bytes_be(&right.bytes);
    BigNat { bytes: difference.to_bytes_be() }
}

/// Calls `*` of `BigUint`: the product.
#[verifier::external_body]
pub(crate) fn big_mul(left: &BigNat, right: &BigNat) -> (product: BigNat)
    ensures
        product@ == left@ * right@,
{
    let product = BigUint::from_bytes_be(&left.bytes) * BigUint::from_bytes_be(&right.bytes);
    BigNat { bytes: product.to_bytes_be() }
}

/// Calls `/` of `BigUint`, which panics on a zero divisor; otherwise it gives
/// the quotient, rounded down.
#[verifier::external_body]
pub(crate) fn big_div(left: &BigNat, right: &BigNat) -> (quotient: BigNat)
    requires
        right@ > 0,
    ensures
        quotient@ == left@ / right@,
{
    let quotient = BigUint::from_bytes_be(&left.bytes) / BigUint::from_bytes_be(&right.bytes);
    BigNat { bytes: quotient.to_bytes_be() }
}

/// Calls `%` of `BigUint`, which panics on a zero divisor; otherwise it gives
/// the remainder.
#[verifier::external_body]
pub(crate) fn big_rem(left: &BigNat, right: &BigNat) -> (remainder: BigNat)
    requires
        right@ > 0,
    ensures
        remainder@ == left@ % right@,
{
    let remainder = BigUint::from_bytes_be(&left.bytes) % BigUint::from_bytes_be(&right.bytes);
    BigNat { bytes: remainder.to_bytes_be() }
}

/// Calls `BigUint::modpow`, which panics on a zero modulus; otherwise it
/// gives the power reduced by the modulus.
#[verifier::external_body]
pub(crate) fn big_modpow(base: &BigNat, exponent: &BigNat, modulus: &BigNat) -> (power: BigNat)
    requires
        modulus@ > 0,
    ensures
        power@ == pow(base@ as int, exponent@) % (modulus@ as int),
{
    let base = BigUint::from_bytes_be(&base.bytes);
    let exponent = BigUint::from_bytes_be(&exponent.bytes);
    let modulus = BigUint::from_bytes_be(&modulus.bytes);
    BigNat { bytes: base.modpow(&exponent, &modulus).to_bytes_be() }
}

} // verus!
