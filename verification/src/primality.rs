//! The Miller-Rabin test, and the search for a probable prime.

use vstd::prelude::*;
use vstd::arithmetic::div_mod::{lemma_mod_equivalence, lemma_small_mod};
use vstd::arithmetic::power::{
    pow, lemma_pow_mod_noop, lemma_pow_multiplies, lemma_square_is_pow2,
};
use vstd::arithmetic::power2::{
    pow2, lemma_pow2_unfold, lemma_pow2_strictly_increases, lemma2_to64,
};
use rand_chacha::ChaCha20Rng;
use crate::bignat::{
    big_add, big_div, big_eq, big_from_u64, big_lt, big_modpow, big_rem, big_sub, BigNat,
};
use crate::encoding::{radix_pow, lemma_be_nat_bound, lemma_radix_pow_is_pow2};
use crate::number_theory::{divides, is_prime, lemma_fermat, lemma_prime_divides_factor};
use crate::random::{entropy_rng, random_bits, random_in_range};

verus! {

/// The largest odd divisor of a positive number.
pub open spec fn odd_part(m: nat) -> nat
    decreases m,
{
    if m == 0 || m % 2 == 1 {
        m
    } else {
        odd_part(m / 2)
    }
}

/// How often 2 divides a positive number.
pub open spec fn twos(m: nat) -> nat
    decreases m,
{
    if m == 0 || m % 2 == 1 {
        0
    } else {
        1 + twos(m / 2)
    }
}

/// One round of the test on `n` with the base `a`, where `n - 1` is
/// `2^s * d`: the round passes when `a^d` is 1 modulo `n`, or one of
/// `a^d, a^(2d), .., a^(2^(s-1) d)` is `n - 1` modulo `n`.
pub open spec fn round_passes(n: nat, d: nat, s: nat, a: nat) -> bool {
    ||| pow(a as int, d) % (n as int) == 1
    ||| exists|r: nat| r < s && #[trigger] pow(a as int, d * pow2(r)) % (n as int) == n - 1
}

/// One round of the test on `n` with the base `a`.
pub open spec fn witness_passes(n: nat, a: nat) -> bool {
    round_passes(n, odd_part((n - 1) as nat), twos((n - 1) as nat), a)
}

/// Every base lies in `2..n`, and the round on `n` passes with each of them.
pub open spec fn all_rounds_pass(n: nat, bases: Seq<nat>) -> bool {
    forall|i: int|
        0 <= i < bases.len() ==> 2 <= #[trigger] bases[i] < n && witness_passes(n, bases[i])
}

/// The test with `k` rounds can accept `n`: it is 2 or 3, or it is an odd
/// number above 3 and there are `k` bases with which the rounds pass.
pub open spec fn may_be_accepted(n: nat, k: nat) -> bool {
    ||| n == 2
    ||| n == 3
    ||| n > 3 && n % 2 == 1 && exists|bases: Seq<nat>|
        bases.len() == k && #[trigger] all_rounds_pass(n, bases)
}

/// The test with `k` rounds can refuse `n`: it is below 2, or it is an even
/// number above 2, or it is an odd number above 3, there is a round to run,
/// and there is a base with which the round fails.
pub open spec fn may_be_refused(n: nat, k: nat) -> bool {
    ||| n <= 1
    ||| n > 2 && n % 2 == 0
    ||| n > 3 && n % 2 == 1 && k > 0 && exists|a: nat|
        2 <= a < n && !#[trigger] witness_passes(n, a)
}

/// A positive number is its odd part times a power of two.
pub proof fn lemma_odd_part(m: nat)
    requires
        m > 0,
    ensures
        m == pow2(twos(m)) * odd_part(m),
        odd_part(m) % 2 == 1,
    decreases m,
{
    lemma2_to64();
    if m % 2 == 1 {
        assert(pow2(0) * m == m) by (nonlinear_arith)
            requires
                pow2(0) == 1,
        ;
    } else {
        let half = m / 2;
        lemma_odd_part(half);
        lemma_pow2_unfold(twos(m));
        assert(twos(m) == twos(half) + 1);
        assert(odd_part(m) == odd_part(half));
        assert((2 * pow2(twos(half))) * odd_part(half) == 2 * (pow2(twos(half)) * odd_part(half)))
            by (nonlinear_arith);
    }
}

/// A number below 256 to the `len` is divided by 2 fewer than `8 * len`
/// times.
proof fn lemma_twos_bound(m: nat, len: nat)
    requires
        0 < m < radix_pow(len),
    ensures
        twos(m) < 8 * len,
{
    lemma_odd_part(m);
    lemma_radix_pow_is_pow2(len);
    if twos(m) >= 8 * len {
        if twos(m) > 8 * len {
            lemma_pow2_strictly_increases(8 * len, twos(m));
        }
        assert(pow2(twos(m)) * odd_part(m) >= pow2(twos(m))) by (nonlinear_arith)
            requires
                odd_part(m) >= 1,
        ;
    }
}

/// Modulo a prime `n`, a power of `a` that is 1 after `r` squarings was 1 to
/// begin with, or was `n - 1` before one of the squarings.
proof fn lemma_square_roots_of_one(n: nat, d: nat, r: nat, a: nat)
    requires
        is_prime(n),
        pow(a as int, d * pow2(r)) % (n as int) == 1,
    ensures
        round_passes(n, d, r, a),
    decreases r,
{
    let m = n as int;
    let base = a as int;
    lemma2_to64();
    if r == 0 {
        assert(d * pow2(0) == d) by (nonlinear_arith)
            requires
                pow2(0) == 1,
        ;
    } else {
        let before = (r - 1) as nat;
        let e = d * pow2(before);
        let b = pow(base, e) % m;
        lemma_pow2_unfold(r);
        assert(d * pow2(r) == e * 2) by (nonlinear_arith)
            requires
                e == d * pow2(before),
                pow2(r) == 2 * pow2(before),
        ;
        lemma_pow_multiplies(base, e, 2);
        lemma_pow_mod_noop(pow(base, e), 2, m);
        lemma_square_is_pow2(b);
        assert((b * b) % m == 1);
        lemma_small_mod(1, n);
        lemma_mod_equivalence(b * b, 1, m);
        assert((b - 1) * (b + 1) == b * b - 1) by (nonlinear_arith);
        lemma_prime_divides_factor(b - 1, b + 1, n);
        if (b - 1) % m == 0 {
            lemma_mod_equivalence(b, 1, m);
            lemma_small_mod(b as nat, n);
            assert(b == 1);
            lemma_square_roots_of_one(n, d, before, a);
            if pow(base, d) % m != 1 {
                let j = choose|j: nat|
                    j < before && #[trigger] pow(base, d * pow2(j)) % m == n - 1;
                assert(j < r && pow(base, d * pow2(j)) % m == n - 1);
            }
        } else {
            if b + 1 < m {
                lemma_small_mod((b + 1) as nat, n);
            }
            assert(b == n - 1);
            assert(before < r && pow(base, d * pow2(before)) % m == n - 1);
        }
    }
}

/// Every round of the test passes on a prime above 2, whatever base between
/// 0 and the prime it is run with.
pub proof fn lemma_prime_passes(n: nat, a: nat)
    requires
        is_prime(n),
        n > 2,
        0 < a < n,
    ensures
        witness_passes(n, a),
{
    let m = (n - 1) as nat;
    lemma_odd_part(m);
    lemma_small_mod(a, n);
    lemma_fermat(a as int, n);
    assert(odd_part(m) * pow2(twos(m)) == m) by (nonlinear_arith)
        requires
            m == pow2(twos(m)) * odd_part(m),
    ;
    lemma_square_roots_of_one(n, odd_part(m), twos(m), a);
}

/// The test never refuses a prime, however many rounds it runs.
pub proof fn lemma_prime_is_never_refused(n: nat, k: nat)
    requires
        is_prime(n),
    ensures
        !may_be_refused(n, k),
{
    if n > 2 && n % 2 == 0 {
        assert(divides(2, n));
    }
    if n > 3 && n % 2 == 1 {
        assert forall|a: nat| 2 <= a < n implies #[trigger] witness_passes(n, a) by {
            lemma_prime_passes(n, a);
        }
    }
}

/// Splits a positive number into its odd part and the count of its factors 2.
fn split_powers_of_two(m: &BigNat) -> (out: (BigNat, u128))
    requires
        m@ > 0,
    ensures
        out.0@ == odd_part(m@),
        out.1 == twos(m@),
{
    let two = big_from_u64(2);
    let zero = big_from_u64(0);
    let mut d = m.clone();
    let mut s: u128 = 0;
    let width = m.bytes.len();
    proof {
        lemma_be_nat_bound(m.bytes@);
        lemma_twos_bound(m@, width as nat);
    }
    while big_eq(&big_rem(&d, &two), &zero)
        invariant
            two@ == 2,
            zero@ == 0,
            d@ > 0,
            odd_part(d@) == odd_part(m@),
            s + twos(d@) == twos(m@),
            twos(m@) < 8 * usize::MAX,
        decreases d@,
    {
        d = big_div(&d, &two);
        s = s + 1;
    }
    (d, s)
}

/// One round of the test on `n` with the base `a`.
pub fn miller_rabin_round(n: &BigNat, a: &BigNat) -> (pass: bool)
    requires
        n@ >= 2,
    ensures
        pass == witness_passes(n@, a@),
{
    let one = big_from_u64(1);
    let n_minus_one = big_sub(n, &one);
    let (d, s) = split_powers_of_two(&n_minus_one);
    witness_round(n, &n_minus_one, &d, s, a)
}

/// One round of the test, with the parts of `n - 1` at hand.
fn witness_round(n: &BigNat, n_minus_one: &BigNat, d: &BigNat, s: u128, a: &BigNat) -> (pass: bool)
    requires
        n@ >= 2,
        n_minus_one@ == n@ - 1,
    ensures
        pass == round_passes(n@, d@, s as nat, a@),
{
    let one = big_from_u64(1);
    let two = big_from_u64(2);
    let ghost base = a@ as int;
    let ghost modulus = n@ as int;
    let mut x = big_modpow(a, d, n);
    if big_eq(&x, &one) {
        return true;
    }
    if s == 0 {
        return false;
    }
    proof {
        lemma2_to64();
        assert(d@ * pow2(0) == d@) by (nonlinear_arith)
            requires
                pow2(0) == 1,
        ;
    }
    if big_eq(&x, n_minus_one) {
        return true;
    }
    let mut r: u128 = 1;
    while r < s
        invariant
            1 <= r <= s,
            n@ >= 2,
            two@ == 2,
            base == a@,
            modulus == n@,
            n_minus_one@ == n@ - 1,
            pow(base, d@) % modulus != 1,
            x@ == pow(base, d@ * pow2((r - 1) as nat)) % modulus,
            forall|j: nat| j < r ==> #[trigger] pow(base, d@ * pow2(j)) % modulus != n@ - 1,
        decreases s - r,
    {
        let ghost before = d@ * pow2((r - 1) as nat);
        x = big_modpow(&x, &two, n);
        proof {
            lemma_pow2_unfold(r as nat);
            assert(d@ * pow2(r as nat) == before * 2) by (nonlinear_arith)
                requires
                    before == d@ * pow2((r - 1) as nat),
                    pow2(r as nat) == 2 * pow2((r - 1) as nat),
            ;
            lemma_pow_mod_noop(pow(base, before), 2, modulus);
            lemma_pow_multiplies(base, before, 2);
        }
        if big_eq(&x, n_minus_one) {
            return true;
        }
        r = r + 1;
    }
    false
}

/// The test with the random source handed in. Numbers up to 1 and even
/// numbers above 2 are refused, 2 and 3 are accepted, and any other number
/// goes through `k` rounds, each with a base drawn from `2..n`; the first
/// round that fails ends the test. So the outcome is fixed for numbers below
/// 4, for even numbers, for primes, and where no round is run; for any other
/// number it depends on the bases that are drawn.
pub fn is_probably_prime_with(n: &BigNat, k: usize, rng: &mut ChaCha20Rng) -> (probable: bool)
    ensures
        probable ==> may_be_accepted(n@, k as nat),
        !probable ==> may_be_refused(n@, k as nat),
        is_prime(n@) ==> probable,
{
    let one = big_from_u64(1);
    let two = big_from_u64(2);
    let three = big_from_u64(3);
    if !big_lt(&one, n) {
        return false;
    }
    if big_eq(n, &two) || big_eq(n, &three) {
        return true;
    }
    if big_eq(&big_rem(n, &two), &big_from_u64(0)) {
        assert(divides(2, n@));
        return false;
    }
    let n_minus_one = big_sub(n, &one);
    let (d, s) = split_powers_of_two(&n_minus_one);
    let ghost mut bases: Seq<nat> = Seq::empty();
    let mut round: usize = 0;
    while round < k
        invariant
            round <= k,
            n@ > 3,
            two@ == 2,
            n_minus_one@ == n@ - 1,
            d@ == odd_part((n@ - 1) as nat),
            s == twos((n@ - 1) as nat),
            bases.len() == round,
            all_rounds_pass(n@, bases),
        decreases k - round,
    {
        let a = random_in_range(rng, &two, n);
        if !witness_round(n, &n_minus_one, &d, s, &a) {
            assert(!witness_passes(n@, a@));
            proof {
                if is_prime(n@) {
                    lemma_prime_passes(n@, a@);
                }
            }
            return false;
        }
        proof {
            bases = bases.push(a@);
        }
        round += 1;
    }
    true
}

/// The test, with a random source of its own that is seeded afresh.
pub fn is_probably_prime(n: &BigNat, k: usize) -> (probable: bool)
    ensures
        probable ==> may_be_accepted(n@, k as nat),
        !probable ==> may_be_refused(n@, k as nat),
        is_prime(n@) ==> probable,
{
    let mut rng = entropy_rng();
    is_probably_prime_with(n, k, &mut rng)
}

/// The number of rounds of the test on a candidate.
pub const PRIME_TEST_ROUNDS: usize = 10;

/// Draws an odd number of at most `bits` bits: a random number, raised by
/// one where it is even.
pub fn prime_candidate(rng: &mut ChaCha20Rng, bits: usize) -> (candidate: BigNat)
    ensures
        candidate@ % 2 == 1,
        bits >= 1 ==> candidate@ < pow2(bits as nat),
        bits == 0 ==> candidate@ == 1,
{
    let drawn = random_bits(rng, bits);
    proof {
        lemma2_to64();
        if bits >= 1 {
            lemma_pow2_unfold(bits as nat);
        }
    }
    if big_eq(&big_rem(&drawn, &big_from_u64(2)), &big_from_u64(0)) {
        big_add(&drawn, &big_from_u64(1))
    } else {
        drawn
    }
}

/// A number that `prime_candidate` can give for `bits`: an odd number below
/// 2 to the `bits`, which without any bit is 1.
pub open spec fn is_candidate(candidate: nat, bits: nat) -> bool {
    &&& candidate % 2 == 1
    &&& bits >= 1 ==> candidate < pow2(bits)
    &&& bits == 0 ==> candidate == 1
}

/// Every one of the numbers is a candidate for `bits` that the test on a
/// candidate can refuse.
pub open spec fn all_refused(tried: Seq<nat>, bits: nat) -> bool {
    forall|i: int|
        0 <= i < tried.len() ==> is_candidate(#[trigger] tried[i], bits) && may_be_refused(
            tried[i],
            PRIME_TEST_ROUNDS as nat,
        )
}

/// What a search through up to `attempts` candidates can give. With fewer
/// than two bits it gives nothing. Else there is a run of candidates that the
/// test refused: where a number is found, the run is shorter than `attempts`
/// and the number is a further candidate, which the test can accept; where
/// none is found, the run has `attempts` candidates.
pub open spec fn search_outcome(bits: nat, attempts: nat, found: Option<nat>) -> bool {
    if bits <= 1 {
        found is None
    } else {
        exists|tried: Seq<nat>|
            {
                &&& #[trigger] all_refused(tried, bits)
                &&& match found {
                    Some(p) => {
                        &&& tried.len() < attempts
                        &&& is_candidate(p, bits)
                        &&& may_be_accepted(p, PRIME_TEST_ROUNDS as nat)
                    },
                    None => tried.len() == attempts,
                }
            }
    }
}

/// Draws up to `attempts` candidates of at most `bits` bits and gives the
/// first that passes the test. With fewer than two bits the only candidate is
/// 1, and nothing is found.
pub fn find_probable_prime(rng: &mut ChaCha20Rng, bits: usize, attempts: u64) -> (found: Option<
    BigNat,
>)
    ensures
        attempts == 0 || bits <= 1 ==> found is None,
        found matches Some(p) ==> p@ >= 3 && p@ % 2 == 1 && p@ < pow2(bits as nat)
            && may_be_accepted(p@, PRIME_TEST_ROUNDS as nat),
        match found {
            Some(p) => search_outcome(bits as nat, attempts as nat, Some(p@)),
            None => search_outcome(bits as nat, attempts as nat, None::<nat>),
        },
{
    if bits <= 1 {
        return None;
    }
    let ghost mut refused: Seq<nat> = Seq::empty();
    let mut tried: u64 = 0;
    while tried < attempts
        invariant
            tried <= attempts,
            bits >= 2,
            refused.len() == tried,
            all_refused(refused, bits as nat),
        decreases attempts - tried,
    {
        let candidate = prime_candidate(rng, bits);
        if is_probably_prime_with(&candidate, PRIME_TEST_ROUNDS, rng) {
            assert(search_outcome(bits as nat, attempts as nat, Some(candidate@))) by {
                assert(all_refused(refused, bits as nat));
            }
            return Some(candidate);
        }
        proof {
            refused = refused.push(candidate@);
        }
        tried += 1;
    }
    assert(search_outcome(bits as nat, attempts as nat, None::<nat>)) by {
        assert(all_refused(refused, bits as nat));
    }
    None
}

/// Steps down from `start` through the odd numbers to the first that passes
/// the test on a candidate. The walk begins at `start` itself where that is
/// odd, at the number before it where it is even, and at 3 where `start` is
/// below 3; it ends at 3 at the latest, which always passes.
pub fn probable_prime_at_or_below(start: &BigNat, rng: &mut ChaCha20Rng) -> (found: BigNat)
    ensures
        found@ >= 3,
        found@ % 2 == 1,
        start@ < 3 ==> found@ == 3,
        start@ >= 3 ==> found@ <= start@,
        may_be_accepted(found@, PRIME_TEST_ROUNDS as nat),
        forall|v: nat|
            found@ < v <= start@ && v % 2 == 1 ==> #[trigger] may_be_refused(
                v,
                PRIME_TEST_ROUNDS as nat,
            ),
{
    let two = big_from_u64(2);
    let three = big_from_u64(3);
    let mut value = if big_lt(start, &three) {
        three
    } else if big_eq(&big_rem(start, &two), &big_from_u64(0)) {
        big_sub(start, &big_from_u64(1))
    } else {
        start.clone()
    };
    while !is_probably_prime_with(&value, PRIME_TEST_ROUNDS, rng)
        invariant
            two@ == 2,
            value@ >= 3,
            value@ % 2 == 1,
            start@ < 3 ==> value@ == 3,
            start@ >= 3 ==> value@ <= start@,
            forall|v: nat|
                value@ < v <= start@ && v % 2 == 1 ==> #[trigger] may_be_refused(
                    v,
                    PRIME_TEST_ROUNDS as nat,
                ),
        decreases value@,
    {
        value = big_sub(&value, &two);
    }
    value
}

/// Searches for a probable prime of at most `bits` bits, with a random source
/// of its own that is seeded afresh. Candidates are drawn and tested until
/// one passes. Should `u64::MAX` candidates fail, one more is drawn, and the
/// search steps down from it through the odd numbers; so a number is found
/// whenever there are two bits or more.
pub fn generate_large_prime(bits: usize) -> (found: Option<BigNat>)
    ensures
        found is Some <==> bits >= 2,
        found matches Some(p) ==> p@ >= 3 && is_candidate(p@, bits as nat) && may_be_accepted(
            p@,
            PRIME_TEST_ROUNDS as nat,
        ),
{
    if bits <= 1 {
        return None;
    }
    let mut rng = entropy_rng();
    match find_probable_prime(&mut rng, bits, u64::MAX) {
        Some(prime) => Some(prime),
        None => {
            let candidate = prime_candidate(&mut rng, bits);
            proof {
                lemma2_to64();
                if bits > 2 {
                    lemma_pow2_strictly_increases(2, bits as nat);
                }
            }
            Some(probable_prime_at_or_below(&candidate, &mut rng))
        },
    }
}

} // verus!
