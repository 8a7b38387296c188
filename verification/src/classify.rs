//! Classes of primes, and the quadratic form whose values are looked at for
//! them.

use vstd::prelude::*;
use crate::bignat::{big_add, big_div, big_from_u64, big_lt, big_mul, big_sub, BigNat};
use crate::number_theory::is_prime;
use crate::primality::{is_probably_prime, may_be_accepted, may_be_refused};

verus! {

/// A class that a number can fall in.
#[derive(Debug, Clone, Copy, PartialEq, Eq, Structural)]
pub enum PrimeClass {
    /// Twice the number plus one passes the primality test.
    Germain,
    /// The number is above 2, and half of the number less one passes the
    /// primality test.
    Safe,
    /// The number itself passes the primality test.
    Prime,
}

/// The number of rounds of the primality test in a classification.
pub const CLASSIFY_ROUNDS: usize = 20;

/// The value of the quadratic form at a point.
pub open spec fn quadratic_form(x: nat, y: nat, z: nat) -> nat {
    5 * x * x + 7 * x * y + 11 * y * y + 23 * x * z + 47 * y * z + 83 * z * z + 107
}

/// The classes, in the order Germain, Safe, Prime, for which the flag is set.
pub open spec fn class_list(germain: bool, safe: bool, prime: bool) -> Seq<PrimeClass> {
    (if germain {
        seq![PrimeClass::Germain]
    } else {
        seq![]
    }) + (if safe {
        seq![PrimeClass::Safe]
    } else {
        seq![]
    }) + (if prime {
        seq![PrimeClass::Prime]
    } else {
        seq![]
    })
}

impl PrimeClass {
    /// The name of the class.
    pub fn name(&self) -> (text: &'static str)
        ensures
            text@ == match self {
                PrimeClass::Germain => "Germain"@,
                PrimeClass::Safe => "Safe"@,
                PrimeClass::Prime => "Prime"@,
            },
    {
        match self {
            PrimeClass::Germain => "Germain",
            PrimeClass::Safe => "Safe",
            PrimeClass::Prime => "Prime",
        }
    }
}

/// Computes `5x^2 + 7xy + 11y^2 + 23xz + 47yz + 83z^2 + 107`.
pub fn compute_n(x: &BigNat, y: &BigNat, z: &BigNat) -> (n: BigNat)
    ensures
        n@ == quadratic_form(x@, y@, z@),
{
    let xx = big_mul(&big_mul(&big_from_u64(5), x), x);
    let xy = big_mul(&big_mul(&big_from_u64(7), x), y);
    let yy = big_mul(&big_mul(&big_from_u64(11), y), y);
    let xz = big_mul(&big_mul(&big_from_u64(23), x), z);
    let yz = big_mul(&big_mul(&big_from_u64(47), y), z);
    let zz = big_mul(&big_mul(&big_from_u64(83), z), z);
    let sum = big_add(&big_add(&big_add(&xx, &xy), &big_add(&yy, &xz)), &big_add(&yz, &zz));
    big_add(&sum, &big_from_u64(107))
}

/// What the test for the class Germain can give for `p`: it is the
/// primality test on twice `p` plus one.
pub open spec fn germain_outcome(p: nat, germain: bool) -> bool {
    if germain {
        may_be_accepted(2 * p + 1, CLASSIFY_ROUNDS as nat)
    } else {
        may_be_refused(2 * p + 1, CLASSIFY_ROUNDS as nat)
    }
}

/// What the test for the class Safe can give for `p`: nothing up to 2 is
/// safe, and above it is the primality test on half of `p` less one.
pub open spec fn safe_outcome(p: nat, safe: bool) -> bool {
    if p <= 2 {
        !safe
    } else if safe {
        may_be_accepted(((p - 1) / 2) as nat, CLASSIFY_ROUNDS as nat)
    } else {
        may_be_refused(((p - 1) / 2) as nat, CLASSIFY_ROUNDS as nat)
    }
}

/// What the test for the class Prime can give for `p`.
pub open spec fn prime_outcome(p: nat, prime: bool) -> bool {
    if prime {
        may_be_accepted(p, CLASSIFY_ROUNDS as nat)
    } else {
        may_be_refused(p, CLASSIFY_ROUNDS as nat)
    }
}

/// Whether twice `p` plus one passes the primality test. It does where it is
/// a prime.
pub fn is_germain_prime(p: &BigNat) -> (germain: bool)
    ensures
        germain_outcome(p@, germain),
        is_prime(2 * p@ + 1) ==> germain,
{
    let q = big_add(&big_mul(p, &big_from_u64(2)), &big_from_u64(1));
    is_probably_prime(&q, CLASSIFY_ROUNDS)
}

/// Whether `p` is above 2 and half of `p` less one passes the primality
/// test. It does where that half is a prime.
pub fn is_safe_prime(p: &BigNat) -> (safe: bool)
    ensures
        safe_outcome(p@, safe),
        p@ > 2 && is_prime(((p@ - 1) / 2) as nat) ==> safe,
{
    let two = big_from_u64(2);
    if !big_lt(&two, p) {
        return false;
    }
    let q = big_div(&big_sub(p, &big_from_u64(1)), &two);
    is_probably_prime(&q, CLASSIFY_ROUNDS)
}

/// The list of the classes for the given outcomes of the three tests.
pub fn classes_of(germain: bool, safe: bool, prime: bool) -> (classes: Vec<PrimeClass>)
    ensures
        classes@ == class_list(germain, safe, prime),
{
    let mut classes: Vec<PrimeClass> = Vec::new();
    if germain {
        classes.push(PrimeClass::Germain);
    }
    if safe {
        classes.push(PrimeClass::Safe);
    }
    if prime {
        classes.push(PrimeClass::Prime);
    }
    assert(classes@ =~= class_list(germain, safe, prime));
    classes
}

/// The classes that `p` falls in, by the three tests. A prime is always
/// classed as one.
pub fn classify_prime(p: &BigNat) -> (classes: Vec<PrimeClass>)
    ensures
        exists|germain: bool, safe: bool, prime: bool|
            {
                &&& classes@ == #[trigger] class_list(germain, safe, prime)
                &&& germain_outcome(p@, germain)
                &&& safe_outcome(p@, safe)
                &&& prime_outcome(p@, prime)
                &&& is_prime(2 * p@ + 1) ==> germain
                &&& p@ > 2 && is_prime(((p@ - 1) / 2) as nat) ==> safe
                &&& is_prime(p@) ==> prime
            },
{
    let germain = is_germain_prime(p);
    let safe = is_safe_prime(p);
    let prime = is_probably_prime(p, CLASSIFY_ROUNDS);
    classes_of(germain, safe, prime)
}

} // verus!
