//! Arithmetic modulo a prime: inverses, Euclid's lemma, and Fermat's little
//! theorem.

use vstd::prelude::*;
use vstd::arithmetic::div_mod::{
    lemma_fundamental_div_mod, lemma_mod_bound, lemma_mod_equivalence,
    lemma_mod_multiples_vanish, lemma_mul_mod_noop_general, lemma_small_mod,
};
use vstd::arithmetic::power::pow;

verus! {

/// `d` divides `n`.
pub open spec fn divides(d: nat, n: nat) -> bool {
    d > 0 && n % d == 0
}

/// `p` is a prime: at least 2, and divided by no number strictly between 1
/// and itself.
pub open spec fn is_prime(p: nat) -> bool {
    p >= 2 && forall|d: nat| 1 < d < p ==> !#[trigger] divides(d, p)
}

/// Every number strictly between 0 and a prime has an inverse modulo the
/// prime.
pub proof fn lemma_inverse_exists(a: int, p: nat) -> (x: int)
    requires
        is_prime(p),
        0 < a < p,
    ensures
        0 <= x < p,
        (a * x) % (p as int) == 1,
    decreases a,
{
    let m = p as int;
    if a == 1 {
        lemma_small_mod(1, p);
        1
    } else {
        let q = m / a;
        let r = m % a;
        assert(!divides(a as nat, p));
        lemma_fundamental_div_mod(m, a);
        let xr = lemma_inverse_exists(r, p);
        let raw = -q * xr;
        let x = raw % m;
        lemma_mul_mod_noop_general(a, raw, m);
        assert(a * raw == m * (-xr) + r * xr) by (nonlinear_arith)
            requires
                raw == -q * xr,
                m == a * q + r,
        ;
        lemma_mod_multiples_vanish(-xr, r * xr, m);
        x
    }
}

/// Euclid's lemma: a prime that divides a product divides a factor.
pub proof fn lemma_prime_divides_factor(a: int, b: int, p: nat)
    requires
        is_prime(p),
        (a * b) % (p as int) == 0,
    ensures
        a % (p as int) == 0 || b % (p as int) == 0,
{
    let m = p as int;
    if a % m != 0 {
        lemma_mod_bound(a, m);
        let a1 = a % m;
        let x = lemma_inverse_exists(a1, p);
        lemma_mul_mod_noop_general(a, b, m);
        assert((a1 * b) % m == 0);
        lemma_mul_mod_noop_general(a1 * b, x, m);
        assert(((a1 * b) * x) % m == 0) by {
            assert(((a1 * b) % m) * x == 0) by (nonlinear_arith)
                requires
                    (a1 * b) % m == 0,
            ;
            lemma_small_mod(0, p);
        }
        assert((a1 * b) * x == b * (a1 * x)) by (nonlinear_arith);
        lemma_mul_mod_noop_general(b, a1 * x, m);
        assert(b * ((a1 * x) % m) == b) by (nonlinear_arith)
            requires
                (a1 * x) % m == 1,
        ;
    }
}

/// A factor that the prime does not divide can be cancelled from a
/// congruence.
pub proof fn lemma_cancel(a: int, b: int, c: int, p: nat)
    requires
        is_prime(p),
        a % (p as int) != 0,
        (a * b) % (p as int) == (a * c) % (p as int),
    ensures
        b % (p as int) == c % (p as int),
{
    let m = p as int;
    lemma_mod_equivalence(a * b, a * c, m);
    assert(a * b - a * c == a * (b - c)) by (nonlinear_arith);
    lemma_prime_divides_factor(a, b - c, p);
    lemma_mod_equivalence(b, c, m);
}

/// The factorial.
pub open spec fn factorial(n: nat) -> int
    decreases n,
{
    if n == 0 {
        1
    } else {
        factorial((n - 1) as nat) * n
    }
}

/// The product of `g(1), g(2), .., g(n)`.
pub open spec fn product_upto(g: spec_fn(int) -> int, n: nat) -> int
    decreases n,
{
    if n == 0 {
        1
    } else {
        product_upto(g, (n - 1) as nat) * g(n as int)
    }
}

/// `g` maps `1..=n` into itself, and no two of them to the same number.
pub open spec fn injective_into(g: spec_fn(int) -> int, n: nat) -> bool {
    &&& forall|k: int| 1 <= k <= n ==> 1 <= #[trigger] g(k) <= n
    &&& forall|j: int, k: int|
        1 <= j <= n && 1 <= k <= n && #[trigger] g(j) == #[trigger] g(k) ==> j == k
}

/// `g` has the value `v` somewhere on `1..=n`.
pub open spec fn reaches(g: spec_fn(int) -> int, n: nat, v: int) -> bool {
    exists|k: int| 1 <= k <= n && #[trigger] g(k) == v
}

/// Two functions that agree on `1..=n` have the same product there.
proof fn lemma_product_of_equal(g: spec_fn(int) -> int, h: spec_fn(int) -> int, n: nat)
    requires
        forall|k: int| 1 <= k <= n ==> #[trigger] g(k) == h(k),
    ensures
        product_upto(g, n) == product_upto(h, n),
    decreases n,
{
    if n > 0 {
        lemma_product_of_equal(g, h, (n - 1) as nat);
        assert(g(n as int) == h(n as int));
    }
}

/// Where `h` is `g` but for one place `at`, at which `g` has `high` and `h`
/// has `low`, the products of the two over `1..=n` differ by just those
/// factors.
proof fn lemma_product_with_one_change(
    g: spec_fn(int) -> int,
    h: spec_fn(int) -> int,
    n: nat,
    at: int,
    low: int,
    high: int,
)
    requires
        1 <= at,
        g(at) == high,
        h(at) == low,
        forall|k: int| 1 <= k <= n && k != at ==> #[trigger] g(k) == h(k),
    ensures
        at <= n ==> product_upto(h, n) * high == product_upto(g, n) * low,
        at > n ==> product_upto(h, n) == product_upto(g, n),
    decreases n,
{
    if n > 0 {
        let before = (n - 1) as nat;
        lemma_product_with_one_change(g, h, before, at, low, high);
        let ph = product_upto(h, before);
        let pg = product_upto(g, before);
        if at == n {
            assert((ph * low) * high == (ph * high) * low) by (nonlinear_arith);
        } else if at < n {
            let f = g(n as int);
            assert(h(n as int) == f);
            assert((ph * f) * high == (pg * f) * low) by (nonlinear_arith)
                requires
                    ph * high == pg * low,
            ;
        } else {
            assert(g(n as int) == h(n as int));
        }
    }
}

/// A function that maps `1..=n` into itself without repetition reaches every
/// one of them, and the product of its values there is the factorial of `n`.
pub proof fn lemma_permutation_product(g: spec_fn(int) -> int, n: nat)
    requires
        injective_into(g, n),
    ensures
        product_upto(g, n) == factorial(n),
        forall|v: int| 1 <= v <= n ==> #[trigger] reaches(g, n, v),
    decreases n,
{
    if n > 0 {
        let top = n as int;
        let before = (n - 1) as nat;
        let v = g(top);
        let h = |k: int|
            {
                let y = g(k);
                if y == v {
                    top
                } else if y == top {
                    v
                } else {
                    y
                }
            };
        assert forall|k: int| 1 <= k <= before implies 1 <= #[trigger] h(k) <= before by {
            assert(1 <= g(k) <= n);
            assert(g(k) != v);
        }
        assert forall|j: int, k: int|
            1 <= j <= before && 1 <= k <= before && #[trigger] h(j) == #[trigger] h(k) implies j
            == k by {
            assert(g(j) != v && g(k) != v);
            assert(g(j) == g(k));
        }
        lemma_permutation_product(h, before);
        if v == top {
            assert forall|k: int| 1 <= k <= before implies #[trigger] g(k) == h(k) by {
                assert(g(k) != v);
            }
            lemma_product_of_equal(g, h, before);
            assert forall|w: int| 1 <= w <= n implies #[trigger] reaches(g, n, w) by {
                if w == top {
                    assert(g(top) == w);
                } else {
                    assert(reaches(h, before, w));
                    let k = choose|k: int| 1 <= k <= before && #[trigger] h(k) == w;
                    assert(g(k) != v);
                    assert(g(k) == w);
                }
            }
        } else {
            assert(reaches(h, before, v));
            let at = choose|k: int| 1 <= k <= before && #[trigger] h(k) == v;
            assert(g(at) != v);
            assert(g(at) == top);
            assert forall|k: int| 1 <= k <= before && k != at implies #[trigger] g(k) == h(k) by {
                assert(g(k) != v);
                assert(g(k) != g(at));
            }
            lemma_product_with_one_change(g, h, before, at, v, top);
            assert forall|w: int| 1 <= w <= n implies #[trigger] reaches(g, n, w) by {
                if w == top {
                    assert(g(at) == w);
                } else if w == v {
                    assert(g(top) == w);
                } else {
                    assert(reaches(h, before, w));
                    let k = choose|k: int| 1 <= k <= before && #[trigger] h(k) == w;
                    assert(g(k) != v);
                    assert(g(k) == w);
                }
            }
        }
    }
}

/// The function that takes `k` to `a * k` reduced by `p`.
pub open spec fn scaled(a: int, p: nat) -> spec_fn(int) -> int {
    |k: int| (a * k) % (p as int)
}

/// The product of the first `n` multiples of `a`, each reduced by `p`, is
/// congruent to `a` to the `n` times the factorial of `n`.
proof fn lemma_scaled_product(a: int, n: nat, p: nat)
    requires
        p > 0,
    ensures
        product_upto(scaled(a, p), n) % (p as int) == (pow(a, n) * factorial(n)) % (p as int),
    decreases n,
{
    let m = p as int;
    reveal(pow);
    if n == 0 {
        assert(pow(a, 0) * factorial(0) == 1) by (nonlinear_arith)
            requires
                pow(a, 0) == 1,
                factorial(0) == 1,
        ;
    } else {
        let before = (n - 1) as nat;
        lemma_scaled_product(a, before, p);
        let shorter = product_upto(scaled(a, p), before);
        let direct = pow(a, before) * factorial(before);
        let step = a * n;
        assert(scaled(a, p)(n as int) == step % m);
        lemma_mul_mod_noop_general(shorter, step, m);
        lemma_mul_mod_noop_general(direct, step, m);
        assert(direct * step == pow(a, n) * factorial(n)) by (nonlinear_arith)
            requires
                direct == pow(a, before) * factorial(before),
                step == a * n,
                pow(a, n) == a * pow(a, before),
                factorial(n) == factorial(before) * n,
        ;
    }
}

/// A prime does not divide the factorial of a smaller number.
proof fn lemma_factorial_not_divided(n: nat, p: nat)
    requires
        is_prime(p),
        n < p,
    ensures
        factorial(n) % (p as int) != 0,
    decreases n,
{
    if n == 0 {
        lemma_small_mod(1, p);
    } else {
        lemma_factorial_not_divided((n - 1) as nat, p);
        lemma_small_mod(n, p);
        if factorial(n) % (p as int) == 0 {
            lemma_prime_divides_factor(factorial((n - 1) as nat), n as int, p);
        }
    }
}

/// Fermat's little theorem: a number that a prime `p` does not divide, to
/// the power `p - 1`, is 1 modulo `p`.
pub proof fn lemma_fermat(a: int, p: nat)
    requires
        is_prime(p),
        a % (p as int) != 0,
    ensures
        pow(a, (p - 1) as nat) % (p as int) == 1,
{
    let m = p as int;
    let n = (p - 1) as nat;
    let g = scaled(a, p);
    assert forall|k: int| 1 <= k <= n implies 1 <= #[trigger] g(k) <= n by {
        lemma_small_mod(k as nat, p);
        if (a * k) % m == 0 {
            lemma_prime_divides_factor(a, k, p);
        }
    }
    assert forall|j: int, k: int|
        1 <= j <= n && 1 <= k <= n && #[trigger] g(j) == #[trigger] g(k) implies j == k by {
        lemma_cancel(a, j, k, p);
        lemma_small_mod(j as nat, p);
        lemma_small_mod(k as nat, p);
    }
    lemma_permutation_product(g, n);
    lemma_scaled_product(a, n, p);
    lemma_factorial_not_divided(n, p);
    let f = factorial(n);
    assert(f * pow(a, n) == pow(a, n) * f) by (nonlinear_arith);
    lemma_cancel(f, 1, pow(a, n), p);
    lemma_small_mod(1, p);
}

} // verus!
