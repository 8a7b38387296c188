//! Threshold secret sharing over a prime modulus: a secret is the constant
//! term of a random polynomial, a share is a point of it, and the secret is
//! found again from enough shares by interpolation at zero.

use vstd::prelude::*;
use vstd::arithmetic::div_mod::{
    lemma_add_mod_noop, lemma_mod_add_multiples_vanish, lemma_mul_mod_noop_general,
    lemma_mul_mod_noop_left, lemma_mul_mod_noop_right, lemma_small_mod, lemma_sub_mod_noop,
    lemma_add_mod_noop_right, lemma_mod_self_0,
};
use vstd::arithmetic::power::pow;
use rand_chacha::ChaCha20Rng;
use crate::bignat::{big_add, big_from_u64, big_modpow, big_mul, big_rem, big_sub, BigNat};
use crate::number_theory::is_prime;
use crate::primality::{
    is_probably_prime_with, may_be_accepted, may_be_refused, lemma_prime_is_never_refused,
    PRIME_TEST_ROUNDS,
};
use crate::random::{entropy_rng, random_below};

verus! {

/// The values of a sequence of numbers.
pub open spec fn values(numbers: Seq<BigNat>) -> Seq<nat> {
    numbers.map_values(|n: BigNat| n@)
}

/// The shares as pairs of an index and a value.
pub open spec fn share_points(shares: Seq<(usize, BigNat)>) -> Seq<(nat, nat)> {
    shares.map_values(|share: (usize, BigNat)| (share.0 as nat, share.1@))
}

/// The polynomial with the given coefficients, constant term first, at `x`.
pub open spec fn poly_eval(coefficients: Seq<nat>, x: int) -> int
    decreases coefficients.len(),
{
    if coefficients.len() == 0 {
        0
    } else {
        poly_eval(coefficients.drop_last(), x) + coefficients.last() * pow(
            x,
            (coefficients.len() - 1) as nat,
        )
    }
}

/// The value `steps` places after `start` on the circle of the residues of
/// `modulus`.
pub open spec fn stepped(start: nat, modulus: nat, steps: nat) -> nat
    decreases steps,
{
    if steps == 0 {
        start
    } else {
        (stepped(start, modulus, (steps - 1) as nat) + 1) % modulus
    }
}

/// `value` is what the walk from `raw` along the circle can end at: the
/// primality test can accept it, and can refuse every number that was
/// stepped over on the way. No prime is among those.
pub open spec fn adjusted(raw: nat, modulus: nat, value: nat) -> bool {
    &&& may_be_accepted(value, PRIME_TEST_ROUNDS as nat)
    &&& exists|steps: nat|
        {
            &&& value == #[trigger] stepped(raw, modulus, steps)
            &&& forall|j: nat|
                j < steps ==> may_be_refused(
                    #[trigger] stepped(raw, modulus, j),
                    PRIME_TEST_ROUNDS as nat,
                )
        }
}

/// The walk steps over no prime.
pub proof fn lemma_adjusted_passes_no_prime(raw: nat, modulus: nat, value: nat)
    requires
        adjusted(raw, modulus, value),
    ensures
        exists|steps: nat|
            {
                &&& value == #[trigger] stepped(raw, modulus, steps)
                &&& forall|j: nat| j < steps ==> !is_prime(#[trigger] stepped(raw, modulus, j))
            },
        is_prime(raw) ==> value == raw,
{
    let steps = choose|steps: nat|
        {
            &&& value == #[trigger] stepped(raw, modulus, steps)
            &&& forall|j: nat|
                j < steps ==> may_be_refused(
                    #[trigger] stepped(raw, modulus, j),
                    PRIME_TEST_ROUNDS as nat,
                )
        };
    assert forall|j: nat| j < steps implies !is_prime(#[trigger] stepped(raw, modulus, j)) by {
        if is_prime(stepped(raw, modulus, j)) {
            lemma_prime_is_never_refused(stepped(raw, modulus, j), PRIME_TEST_ROUNDS as nat);
        }
    }
    if is_prime(raw) && steps > 0 {
        assert(stepped(raw, modulus, 0) == raw);
    }
}

/// The product of the indices of all points before `upto` but point `i`.
pub open spec fn product_of_others(points: Seq<(nat, nat)>, i: int, upto: nat) -> int
    decreases upto,
{
    if upto == 0 {
        1
    } else {
        let j = upto - 1;
        let rest = product_of_others(points, i, j as nat);
        if j == i {
            rest
        } else {
            rest * points[j].0
        }
    }
}

/// The product of the differences between the index of point `i` and those
/// of all other points before `upto`.
pub open spec fn product_of_differences(points: Seq<(nat, nat)>, i: int, upto: nat) -> int
    decreases upto,
{
    if upto == 0 {
        1
    } else {
        let j = upto - 1;
        let rest = product_of_differences(points, i, j as nat);
        if j == i {
            rest
        } else {
            rest * (points[j].0 - points[i].0)
        }
    }
}

/// The weight of point `i` in the interpolation at zero: the product of the
/// other indices, times the inverse of the product of the differences, which
/// is that product to the power `modulus - 2`.
pub open spec fn basis_at_zero(points: Seq<(nat, nat)>, i: int, modulus: nat) -> int {
    product_of_others(points, i, points.len()) * pow(
        product_of_differences(points, i, points.len()) % (modulus as int),
        (modulus - 2) as nat,
    )
}

/// The sum of the values of the points before `upto`, each with its weight.
pub open spec fn interpolation_sum(points: Seq<(nat, nat)>, modulus: nat, upto: nat) -> int
    decreases upto,
{
    if upto == 0 {
        0
    } else {
        interpolation_sum(points, modulus, (upto - 1) as nat) + points[upto - 1].1 * basis_at_zero(
            points,
            upto - 1,
            modulus,
        )
    }
}

/// The value at zero of the polynomial through the points, modulo `modulus`.
pub open spec fn interpolate_at_zero(points: Seq<(nat, nat)>, modulus: nat) -> nat {
    (interpolation_sum(points, modulus, points.len()) % (modulus as int)) as nat
}

/// The polynomial with the given coefficients at `x`, reduced by the
/// modulus.
pub fn evaluate_polynomial(coefficients: &Vec<BigNat>, x: usize, modulus: &BigNat) -> (y: BigNat)
    requires
        modulus@ > 0,
    ensures
        y@ == poly_eval(values(coefficients@), x as int) % (modulus@ as int),
{
    let ghost m = modulus@ as int;
    let ghost all = values(coefficients@);
    let x_big = big_from_u64(x as u64);
    let mut y = big_rem(&big_from_u64(0), modulus);
    let mut i: usize = 0;
    while i < coefficients.len()
        invariant
            i <= coefficients.len(),
            m == modulus@ > 0,
            x_big@ == x,
            all == values(coefficients@),
            y@ == poly_eval(all.subrange(0, i as int), x as int) % m,
        decreases coefficients.len() - i,
    {
        let ghost before = poly_eval(all.subrange(0, i as int), x as int);
        let ghost power = pow(x as int, i as nat);
        let ghost c = coefficients[i as int]@ as int;
        let term = big_mul(&coefficients[i], &big_modpow(&x_big, &big_from_u64(i as u64), modulus));
        y = big_rem(&big_add(&y, &term), modulus);
        proof {
            assert(all.subrange(0, i + 1).drop_last() =~= all.subrange(0, i as int));
            assert(all.subrange(0, i + 1).last() == c);
            let reduced_term = c * (power % m);
            lemma_mul_mod_noop_right(c, power, m);
            lemma_add_mod_noop_right(reduced_term, before, m);
            lemma_add_mod_noop_right(before, reduced_term, m);
            lemma_add_mod_noop_right(before, c * power, m);
        }
        i += 1;
    }
    assert(all.subrange(0, coefficients@.len() as int) =~= all);
    y
}

/// The shares of a polynomial: its values at 1, 2, .., `shares`, each
/// reduced by the modulus and paired with its index.
pub fn polynomial_shares(coefficients: &Vec<BigNat>, shares: usize, modulus: &BigNat) -> (out: Vec<
    (usize, BigNat),
>)
    requires
        modulus@ > 0,
    ensures
        out@.len() == shares,
        forall|i: int|
            0 <= i < shares ==> (#[trigger] out@[i]).0 == i + 1 && out@[i].1@ == poly_eval(
                values(coefficients@),
                i + 1,
            ) % (modulus@ as int),
{
    let mut out: Vec<(usize, BigNat)> = Vec::new();
    let mut i: usize = 0;
    while i < shares
        invariant
            i <= shares,
            modulus@ > 0,
            out@.len() == i,
            forall|k: int|
                0 <= k < i ==> (#[trigger] out@[k]).0 == k + 1 && out@[k].1@ == poly_eval(
                    values(coefficients@),
                    k + 1,
                ) % (modulus@ as int),
        decreases shares - i,
    {
        let x: usize = i + 1;
        let y = evaluate_polynomial(coefficients, x, modulus);
        out.push((x, y));
        i += 1;
    }
    out
}

/// How many steps on the circle lie between `value` and 2, where the walk
/// surely ends.
pub open spec fn steps_to_two(value: nat, modulus: nat) -> nat {
    if value >= modulus {
        modulus + 3
    } else if value <= 2 {
        (2 - value) as nat
    } else {
        (modulus - value + 2) as nat
    }
}

/// Steps from `start` along the circle of the residues of `modulus` to the
/// first number that passes the primality test.
pub fn next_probable_prime(start: BigNat, modulus: &BigNat, rng: &mut ChaCha20Rng) -> (found:
    BigNat)
    requires
        modulus@ > 2,
    ensures
        adjusted(start@, modulus@, found@),
{
    let one = big_from_u64(1);
    let ghost first = start@;
    let ghost mut steps: nat = 0;
    let mut value = start;
    while !is_probably_prime_with(&value, PRIME_TEST_ROUNDS, rng)
        invariant
            one@ == 1,
            modulus@ > 2,
            value@ == stepped(first, modulus@, steps),
            forall|j: nat|
                j < steps ==> may_be_refused(
                    #[trigger] stepped(first, modulus@, j),
                    PRIME_TEST_ROUNDS as nat,
                ),
        decreases steps_to_two(value@, modulus@),
    {
        proof {
            if value@ + 1 < modulus@ {
                lemma_small_mod(value@ + 1, modulus@);
            } else if value@ + 1 == modulus@ {
                lemma_mod_self_0(modulus@ as int);
            }
            steps = steps + 1;
        }
        value = big_rem(&big_add(&value, &one), modulus);
    }
    value
}

/// Splits a secret into shares with the random source handed in. The secret
/// is the constant term of a polynomial whose other `threshold - 1`
/// coefficients are drawn below the modulus; share `i` is the value of the
/// polynomial at `i`, stepped on to the next number that passes the
/// primality test.
pub fn shamir_split_shares_with(
    rng: &mut ChaCha20Rng,
    secret: &BigNat,
    threshold: usize,
    shares: usize,
    modulus: &BigNat,
) -> (out: Vec<(usize, BigNat)>)
    requires
        threshold > 1,
        shares >= threshold,
        modulus@ > 2,
    ensures
        out@.len() == shares,
        forall|i: int| 0 <= i < shares ==> (#[trigger] out@[i]).0 == i + 1,
        exists|coefficients: Seq<nat>|
            {
                &&& coefficients.len() == threshold
                &&& coefficients[0] == secret@
                &&& forall|k: int| 1 <= k < threshold ==> #[trigger] coefficients[k] < modulus@
                &&& forall|i: int|
                    0 <= i < shares ==> adjusted(
                        (poly_eval(coefficients, i + 1) % (modulus@ as int)) as nat,
                        modulus@,
                        (#[trigger] out@[i]).1@,
                    )
            },
{
    let mut coefficients: Vec<BigNat> = Vec::new();
    coefficients.push(secret.clone());
    let mut k: usize = 1;
    while k < threshold
        invariant
            1 <= k <= threshold,
            modulus@ > 2,
            coefficients@.len() == k,
            coefficients@[0]@ == secret@,
            forall|j: int| 1 <= j < k ==> (#[trigger] coefficients@[j])@ < modulus@,
        decreases threshold - k,
    {
        coefficients.push(random_below(rng, modulus));
        k += 1;
    }
    let ghost chosen = values(coefficients@);
    let raw = polynomial_shares(&coefficients, shares, modulus);
    let mut out: Vec<(usize, BigNat)> = Vec::new();
    let mut i: usize = 0;
    while i < shares
        invariant
            i <= shares,
            modulus@ > 2,
            raw@.len() == shares,
            chosen == values(coefficients@),
            forall|j: int|
                0 <= j < shares ==> (#[trigger] raw@[j]).0 == j + 1 && raw@[j].1@ == poly_eval(
                    chosen,
                    j + 1,
                ) % (modulus@ as int),
            out@.len() == i,
            forall|j: int| 0 <= j < i ==> (#[trigger] out@[j]).0 == j + 1,
            forall|j: int|
                0 <= j < i ==> adjusted(
                    (poly_eval(chosen, j + 1) % (modulus@ as int)) as nat,
                    modulus@,
                    (#[trigger] out@[j]).1@,
                ),
        decreases shares - i,
    {
        let x = raw[i].0;
        let prime_y = next_probable_prime(raw[i].1.clone(), modulus, rng);
        out.push((x, prime_y));
        i += 1;
    }
    proof {
        assert(chosen.len() == threshold);
        assert(chosen[0] == secret@);
        assert forall|j: int| 1 <= j < threshold implies #[trigger] chosen[j] < modulus@ by {
            assert(coefficients@[j]@ < modulus@);
        }
    }
    out
}

/// Splits a secret into shares, with a random source of its own that is
/// seeded afresh.
pub fn shamir_split_shares(
    secret: &BigNat,
    threshold: usize,
    shares: usize,
    modulus: &BigNat,
) -> (out: Vec<(usize, BigNat)>)
    requires
        threshold > 1,
        shares >= threshold,
        modulus@ > 2,
    ensures
        out@.len() == shares,
        forall|i: int| 0 <= i < shares ==> (#[trigger] out@[i]).0 == i + 1,
        exists|coefficients: Seq<nat>|
            {
                &&& coefficients.len() == threshold
                &&& coefficients[0] == secret@
                &&& forall|k: int| 1 <= k < threshold ==> #[trigger] coefficients[k] < modulus@
                &&& forall|i: int|
                    0 <= i < shares ==> adjusted(
                        (poly_eval(coefficients, i + 1) % (modulus@ as int)) as nat,
                        modulus@,
                        (#[trigger] out@[i]).1@,
                    )
            },
{
    let mut rng = entropy_rng();
    shamir_split_shares_with(&mut rng, secret, threshold, shares, modulus)
}

/// What the report on a share can be: its index, and an outcome that the
/// primality test can give for its value.
pub open spec fn share_outcome(share: (usize, BigNat), outcome: (usize, bool)) -> bool {
    &&& outcome.0 == share.0
    &&& if outcome.1 {
        may_be_accepted(share.1@, PRIME_TEST_ROUNDS as nat)
    } else {
        may_be_refused(share.1@, PRIME_TEST_ROUNDS as nat)
    }
}

/// Tests the value of every share for primality: the outcome stands at the
/// place of the share, beside its index. A share whose value is a prime is
/// reported as one.
pub fn verify_share_primality(shares: &[(usize, BigNat)]) -> (outcomes: Vec<(usize, bool)>)
    ensures
        outcomes@.len() == shares@.len(),
        forall|i: int|
            0 <= i < shares@.len() ==> share_outcome(shares@[i], #[trigger] outcomes@[i]) && (
            is_prime(shares@[i].1@) ==> outcomes@[i].1),
{
    let mut rng = entropy_rng();
    let mut outcomes: Vec<(usize, bool)> = Vec::new();
    let mut i: usize = 0;
    while i < shares.len()
        invariant
            i <= shares@.len(),
            outcomes@.len() == i,
            forall|k: int|
                0 <= k < i ==> share_outcome(shares@[k], #[trigger] outcomes@[k]) && (is_prime(
                    shares@[k].1@,
                ) ==> outcomes@[k].1),
        decreases shares.len() - i,
    {
        let probable = is_probably_prime_with(&shares[i].1, PRIME_TEST_ROUNDS, &mut rng);
        outcomes.push((shares[i].0, probable));
        i += 1;
    }
    outcomes
}

/// The index of `share`, reduced by the modulus.
fn reduced_index(share: &(usize, BigNat), modulus: &BigNat) -> (x: BigNat)
    requires
        modulus@ > 0,
    ensures
        x@ == share.0 as nat % modulus@,
{
    big_rem(&big_from_u64(share.0 as u64), modulus)
}

/// The weight of share `i` in the interpolation at zero, reduced by the
/// modulus.
fn reduced_basis(shares: &[(usize, BigNat)], i: usize, modulus: &BigNat) -> (weight: BigNat)
    requires
        modulus@ >= 2,
        i < shares@.len(),
    ensures
        weight@ == basis_at_zero(share_points(shares@), i as int, modulus@) % (modulus@ as int),
{
    let ghost points = share_points(shares@);
    let ghost m = modulus@ as int;
    let xi = reduced_index(&shares[i], modulus);
    let mut numerator = big_from_u64(1);
    let mut denominator = big_from_u64(1);
    proof {
        lemma_small_mod(1, modulus@);
    }
    let count = shares.len();
    let mut j: usize = 0;
    while j < count
        invariant
            j <= count == shares@.len(),
            i < count,
            points == share_points(shares@),
            m == modulus@ >= 2,
            xi@ == points[i as int].0 % modulus@,
            numerator@ == product_of_others(points, i as int, j as nat) % m,
            denominator@ == product_of_differences(points, i as int, j as nat) % m,
        decreases count - j,
    {
        if i != j {
            let ghost others = product_of_others(points, i as int, j as nat);
            let ghost differences = product_of_differences(points, i as int, j as nat);
            let ghost x_i = points[i as int].0 as int;
            let ghost x_j = points[j as int].0 as int;
            let xj = big_from_u64(shares[j].0 as u64);
            let xj_reduced = big_rem(&xj, modulus);
            let diff = big_rem(&big_sub(&big_add(&xj_reduced, modulus), &xi), modulus);
            numerator = big_rem(&big_mul(&numerator, &xj), modulus);
            denominator = big_rem(&big_mul(&denominator, &diff), modulus);
            proof {
                lemma_mod_add_multiples_vanish(x_j % m - x_i % m, m);
                lemma_sub_mod_noop(x_j, x_i, m);
                assert(diff@ == (x_j - x_i) % m);
                lemma_mul_mod_noop_left(others, x_j, m);
                lemma_mul_mod_noop_general(differences, x_j - x_i, m);
            }
        }
        j += 1;
    }
    let exponent = big_sub(modulus, &big_from_u64(2));
    let inverse = big_modpow(&denominator, &exponent, modulus);
    proof {
        let others = product_of_others(points, i as int, count as nat);
        let differences = product_of_differences(points, i as int, count as nat);
        lemma_mul_mod_noop_general(others, pow(differences % m, exponent@), m);
    }
    big_rem(&big_mul(&numerator, &inverse), modulus)
}

/// Finds the secret again from `threshold` shares, by Lagrange interpolation
/// at zero over the indices and values of the shares as they are handed in.
pub fn shamir_reconstruct(
    shares: &[(usize, BigNat)],
    modulus: &BigNat,
    threshold: usize,
) -> (secret: BigNat)
    requires
        modulus@ >= 2,
        shares@.len() == threshold,
    ensures
        secret@ == interpolate_at_zero(share_points(shares@), modulus@),
{
    let ghost points = share_points(shares@);
    let ghost m = modulus@ as int;
    let mut reconstructed = big_from_u64(0);
    let mut i: usize = 0;
    while i < threshold
        invariant
            i <= threshold == shares@.len(),
            points == share_points(shares@),
            m == modulus@ >= 2,
            reconstructed@ == interpolation_sum(points, modulus@, i as nat) % m,
        decreases threshold - i,
    {
        let ghost sum = interpolation_sum(points, modulus@, i as nat);
        let ghost basis = basis_at_zero(points, i as int, modulus@);
        let ghost y = points[i as int].1 as int;
        let weight = reduced_basis(shares, i, modulus);
        let term = big_rem(&big_mul(&weight, &shares[i].1), modulus);
        reconstructed = big_rem(&big_add(&reconstructed, &term), modulus);
        proof {
            lemma_mul_mod_noop_left(basis, y, m);
            assert(basis * y == y * basis) by (nonlinear_arith);
            lemma_add_mod_noop(sum, y * basis, m);
        }
        i += 1;
    }
    reconstructed
}

} // verus!
