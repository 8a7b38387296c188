//! Why interpolation at zero finds the constant term of a polynomial again,
//! modulo a prime, from as many of its points as it has coefficients.

use vstd::prelude::*;
use vstd::arithmetic::div_mod::{
    lemma_add_mod_noop, lemma_mod_equivalence, lemma_mod_twice,
    lemma_mul_mod_noop_general, lemma_small_mod, lemma_sub_mod_noop,
};
use vstd::arithmetic::power::{pow, lemma1_pow, lemma_pow_distributes, lemma_pow_mod_noop};
use crate::number_theory::{is_prime, lemma_cancel, lemma_fermat};
use crate::shamir::{
    basis_at_zero, interpolate_at_zero, interpolation_sum, poly_eval, product_of_differences,
    product_of_others,
};

verus! {

/// The difference between the indices of two points.
pub open spec fn index_gap(points: Seq<(nat, nat)>, i: int, j: int) -> int {
    points[i].0 - points[j].0
}

/// No two points have indices that are congruent modulo `p`.
pub open spec fn distinct_indices(points: Seq<(nat, nat)>, p: nat) -> bool {
    forall|i: int, j: int|
        0 <= i < points.len() && 0 <= j < points.len() && i != j ==> #[trigger] index_gap(
            points,
            i,
            j,
        ) % (p as int) != 0
}

/// Every point lies on the polynomial with the given coefficients, modulo
/// `p`.
pub open spec fn on_polynomial(points: Seq<(nat, nat)>, coefficients: Seq<nat>, p: nat) -> bool {
    forall|i: int|
        0 <= i < points.len() ==> (#[trigger] points[i]).1 == poly_eval(
            coefficients,
            points[i].0 as int,
        ) % (p as int)
}

/// The inverse of `d` modulo a prime `p`, as a power of `d`.
pub open spec fn inverse_power(d: int, p: nat) -> int {
    pow(d % (p as int), (p - 2) as nat)
}

/// The sum of `g(i) * w(i)` over the `i` before `upto`.
pub open spec fn weighted_sum(w: spec_fn(int) -> int, g: spec_fn(int) -> int, upto: nat) -> int
    decreases upto,
{
    if upto == 0 {
        0
    } else {
        weighted_sum(w, g, (upto - 1) as nat) + g(upto - 1) * w(upto - 1)
    }
}

/// The weights of the points in the interpolation at zero.
pub open spec fn weights(points: Seq<(nat, nat)>, p: nat) -> spec_fn(int) -> int {
    |i: int| basis_at_zero(points, i, p)
}

/// The power of `d` that stands for its inverse is its inverse, where the
/// prime does not divide `d`.
proof fn lemma_inverse_power(d: int, p: nat)
    requires
        is_prime(p),
        d % (p as int) != 0,
    ensures
        (d * inverse_power(d, p)) % (p as int) == 1,
{
    let m = p as int;
    let r = d % m;
    lemma_mod_twice(d, m);
    lemma_fermat(r, p);
    assert(pow(r, (p - 1) as nat) == r * pow(r, (p - 2) as nat)) by {
        reveal(pow);
    }
    lemma_mul_mod_noop_general(d, inverse_power(d, p), m);
}

/// The inverse of a product is the product of the inverses.
proof fn lemma_inverse_of_product(d: int, e: int, p: nat)
    requires
        p >= 2,
    ensures
        inverse_power(d * e, p) % (p as int) == (inverse_power(d, p) * inverse_power(e, p)) % (
        p as int),
{
    let m = p as int;
    let k = (p - 2) as nat;
    lemma_pow_mod_noop(d * e, k, m);
    lemma_pow_distributes(d, e, k);
    lemma_mul_mod_noop_general(pow(d, k), pow(e, k), m);
    lemma_pow_mod_noop(d, k, m);
    lemma_pow_mod_noop(e, k, m);
    lemma_mul_mod_noop_general(inverse_power(d, p), inverse_power(e, p), m);
}

/// A weighted sum is linear in the function that is summed.
proof fn lemma_weighted_sum_linear(
    w: spec_fn(int) -> int,
    f: spec_fn(int) -> int,
    g: spec_fn(int) -> int,
    h: spec_fn(int) -> int,
    a: int,
    b: int,
    upto: nat,
)
    requires
        forall|i: int| 0 <= i < upto ==> #[trigger] f(i) == a * g(i) + b * h(i),
    ensures
        weighted_sum(w, f, upto) == a * weighted_sum(w, g, upto) + b * weighted_sum(w, h, upto),
    decreases upto,
{
    if upto == 0 {
        assert(a * 0 + b * 0 == 0) by (nonlinear_arith);
    } else {
        let before = (upto - 1) as nat;
        lemma_weighted_sum_linear(w, f, g, h, a, b, before);
        let i = upto - 1;
        assert(f(i) == a * g(i) + b * h(i));
        let sg = weighted_sum(w, g, before);
        let sh = weighted_sum(w, h, before);
        let gi = g(i);
        let hi = h(i);
        let wi = w(i);
        assert((a * sg + b * sh) + (a * gi + b * hi) * wi == a * (sg + gi * wi) + b * (sh + hi
            * wi)) by (nonlinear_arith);
    }
}

/// Two weighted sums are congruent where their weights and their functions
/// are, place by place.
proof fn lemma_weighted_sum_congruent(
    w: spec_fn(int) -> int,
    f: spec_fn(int) -> int,
    v: spec_fn(int) -> int,
    g: spec_fn(int) -> int,
    upto: nat,
    p: nat,
)
    requires
        p > 0,
        forall|i: int|
            0 <= i < upto ==> (#[trigger] f(i) * w(i)) % (p as int) == (g(i) * v(i)) % (p as int),
    ensures
        weighted_sum(w, f, upto) % (p as int) == weighted_sum(v, g, upto) % (p as int),
    decreases upto,
{
    let m = p as int;
    if upto > 0 {
        let before = (upto - 1) as nat;
        lemma_weighted_sum_congruent(w, f, v, g, before, p);
        let i = upto - 1;
        assert((f(i) * w(i)) % m == (g(i) * v(i)) % m);
        lemma_add_mod_noop(weighted_sum(w, f, before), f(i) * w(i), m);
        lemma_add_mod_noop(weighted_sum(v, g, before), g(i) * v(i), m);
    }
}

/// The product of the other indices depends on the indices alone, and on
/// which of them is left out.
proof fn lemma_others_agree(
    s: Seq<(nat, nat)>,
    t: Seq<(nat, nat)>,
    i: int,
    i2: int,
    upto: nat,
)
    requires
        forall|j: int| 0 <= j < upto ==> (#[trigger] s[j]).0 == t[j].0,
        i == i2 || (!(0 <= i < upto) && !(0 <= i2 < upto)),
    ensures
        product_of_others(s, i, upto) == product_of_others(t, i2, upto),
    decreases upto,
{
    if upto > 0 {
        lemma_others_agree(s, t, i, i2, (upto - 1) as nat);
        assert(s[upto - 1].0 == t[upto - 1].0);
    }
}

/// The product of the differences depends on the indices alone, and on
/// which of them the others are compared with.
proof fn lemma_differences_agree(
    s: Seq<(nat, nat)>,
    t: Seq<(nat, nat)>,
    i: int,
    i2: int,
    upto: nat,
)
    requires
        forall|j: int| 0 <= j < upto ==> (#[trigger] s[j]).0 == t[j].0,
        i == i2 || (!(0 <= i < upto) && !(0 <= i2 < upto)),
        s[i].0 == t[i2].0,
    ensures
        product_of_differences(s, i, upto) == product_of_differences(t, i2, upto),
    decreases upto,
{
    if upto > 0 {
        lemma_differences_agree(s, t, i, i2, (upto - 1) as nat);
        assert(s[upto - 1].0 == t[upto - 1].0);
    }
}

/// The weight of a point among all points, against its weight among all but
/// the last: the index of the last point comes in as a factor, and the
/// inverse of its difference from the point's own index.
proof fn lemma_weight_with_last(points: Seq<(nat, nat)>, i: int, p: nat)
    requires
        p >= 2,
        0 <= i < points.len() - 1,
    ensures
        basis_at_zero(points, i, p) % (p as int) == (basis_at_zero(points.drop_last(), i, p) * (
        points.last().0 * inverse_power(index_gap(points, points.len() - 1, i), p))) % (p as int),
{
    let m = p as int;
    let n = points.len();
    let l = (n - 1) as nat;
    let shorter = points.drop_last();
    let x = points.last().0 as int;
    let e = index_gap(points, n - 1, i);
    lemma_others_agree(points, shorter, i, i, l);
    lemma_differences_agree(points, shorter, i, i, l);
    let o = product_of_others(shorter, i, l);
    let d = product_of_differences(shorter, i, l);
    assert(product_of_others(points, i, n) == o * x);
    assert(product_of_differences(points, i, n) == d * e);
    let inv_d = inverse_power(d, p);
    let inv_e = inverse_power(e, p);
    let inv_de = inverse_power(d * e, p);
    lemma_inverse_of_product(d, e, p);
    lemma_mul_mod_noop_general(o * x, inv_de, m);
    lemma_mul_mod_noop_general(o * x, inv_d * inv_e, m);
    assert((o * x) * (inv_d * inv_e) == (o * inv_d) * (x * inv_e)) by (nonlinear_arith);
}

/// One term of a weighted sum over all points, where the function has the
/// difference from the last index as a factor, against the term over all
/// points but the last.
proof fn lemma_term_with_last(points: Seq<(nat, nat)>, i: int, value: int, p: nat)
    requires
        is_prime(p),
        distinct_indices(points, p),
        0 <= i < points.len() - 1,
    ensures
        ((index_gap(points, i, points.len() - 1) * value) * basis_at_zero(points, i, p)) % (
        p as int) == ((-(points.last().0 as int) * value) * basis_at_zero(
            points.drop_last(),
            i,
            p,
        )) % (p as int),
{
    let m = p as int;
    let n = points.len();
    let x = points.last().0 as int;
    let e = index_gap(points, n - 1, i);
    let c = index_gap(points, i, n - 1) * value;
    let b = basis_at_zero(points, i, p);
    let b1 = basis_at_zero(points.drop_last(), i, p);
    let inv_e = inverse_power(e, p);
    assert(e % m != 0);
    lemma_weight_with_last(points, i, p);
    lemma_inverse_power(e, p);
    lemma_mul_mod_noop_general(c, b, m);
    lemma_mul_mod_noop_general(c, b1 * (x * inv_e), m);
    assert(c * (b1 * (x * inv_e)) == ((-x * value) * b1) * (e * inv_e)) by (nonlinear_arith)
        requires
            c == -e * value,
    ;
    lemma_mul_mod_noop_general((-x * value) * b1, e * inv_e, m);
    assert(((-x * value) * b1) * 1 == (-x * value) * b1);
}

/// A weighted sum over all points, of a function that has the difference
/// from the last index as a factor, is minus the last index times the
/// weighted sum of the other factor over all points but the last.
proof fn lemma_sum_with_last(
    points: Seq<(nat, nat)>,
    f: spec_fn(int) -> int,
    g: spec_fn(int) -> int,
    p: nat,
)
    requires
        is_prime(p),
        distinct_indices(points, p),
        points.len() >= 1,
        forall|i: int|
            0 <= i < points.len() ==> #[trigger] f(i) == index_gap(points, i, points.len() - 1)
                * g(i),
    ensures
        weighted_sum(weights(points, p), f, points.len()) % (p as int) == (-(points.last().0 as int)
            * weighted_sum(
            weights(points.drop_last(), p),
            g,
            (points.len() - 1) as nat,
        )) % (p as int),
{
    let m = p as int;
    let n = points.len();
    let l = (n - 1) as nat;
    let x = points.last().0 as int;
    let w = weights(points, p);
    let w1 = weights(points.drop_last(), p);
    let g2 = |i: int| -x * g(i);
    assert forall|i: int| 0 <= i < l implies (#[trigger] f(i) * w(i)) % m == (g2(i) * w1(i))
        % m by {
        lemma_term_with_last(points, i, g(i), p);
    }
    lemma_weighted_sum_congruent(w, f, w1, g2, l, p);
    assert forall|i: int| 0 <= i < l implies #[trigger] g2(i) == -x * g(i) + 0 * g(i) by {
        assert(0 * g(i) == 0);
    }
    lemma_weighted_sum_linear(w1, g2, g, g, -x, 0, l);
    assert(0 * weighted_sum(w1, g, l) == 0);
    assert(f(n - 1) == 0 * g(n - 1));
    assert(0 * g(n - 1) == 0);
    assert(0 * w(n - 1) == 0);
}

/// Two weighted sums are equal where their terms are, place by place.
proof fn lemma_weighted_sum_equal(
    w: spec_fn(int) -> int,
    f: spec_fn(int) -> int,
    v: spec_fn(int) -> int,
    g: spec_fn(int) -> int,
    upto: nat,
)
    requires
        forall|i: int| 0 <= i < upto ==> #[trigger] f(i) * w(i) == g(i) * v(i),
    ensures
        weighted_sum(w, f, upto) == weighted_sum(v, g, upto),
    decreases upto,
{
    if upto > 0 {
        lemma_weighted_sum_equal(w, f, v, g, (upto - 1) as nat);
        assert(f(upto - 1) * w(upto - 1) == g(upto - 1) * v(upto - 1));
    }
}

/// The points with the last two exchanged.
pub open spec fn swap_last(points: Seq<(nat, nat)>) -> Seq<(nat, nat)>
    recommends
        points.len() >= 2,
{
    let n = points.len() as int;
    points.update(n - 1, points[n - 2]).update(n - 2, points[n - 1])
}

/// Where place `i` goes when the last two of `n` places are exchanged.
pub open spec fn swapped_place(n: nat, i: int) -> int {
    if i == n - 1 {
        n - 2
    } else if i == n - 2 {
        n - 1
    } else {
        i
    }
}

/// Exchanging the last two points leaves every point its weight.
proof fn lemma_weight_after_swap(points: Seq<(nat, nat)>, i: int, p: nat)
    requires
        points.len() >= 2,
        0 <= i < points.len(),
    ensures
        basis_at_zero(swap_last(points), swapped_place(points.len(), i), p) == basis_at_zero(
            points,
            i,
            p,
        ),
{
    let n = points.len();
    let a = (n - 2) as nat;
    let b = (n - 1) as nat;
    let t = swap_last(points);
    let i2 = swapped_place(n, i);
    assert(t.len() == n);
    lemma_others_agree(points, t, i, i2, a);
    lemma_differences_agree(points, t, i, i2, a);
    let o = product_of_others(points, i, a);
    let d = product_of_differences(points, i, a);
    let xa = points[a as int].0 as int;
    let xb = points[b as int].0 as int;
    let xi = points[i].0 as int;
    assert(t[a as int].0 == xb && t[b as int].0 == xa && t[i2].0 == xi);
    assert(product_of_others(points, i, b) == if i == a {
        o
    } else {
        o * xa
    });
    assert(product_of_others(t, i2, b) == if i2 == a {
        o
    } else {
        o * xb
    });
    assert(product_of_differences(points, i, b) == if i == a {
        d
    } else {
        d * (xa - xi)
    });
    assert(product_of_differences(t, i2, b) == if i2 == a {
        d
    } else {
        d * (xb - xi)
    });
    if i < a {
        assert((o * xa) * xb == (o * xb) * xa) by (nonlinear_arith);
        assert((d * (xa - xi)) * (xb - xi) == (d * (xb - xi)) * (xa - xi)) by (nonlinear_arith);
        assert(product_of_others(points, i, n) == (o * xa) * xb);
        assert(product_of_others(t, i2, n) == (o * xb) * xa);
        assert(product_of_differences(points, i, n) == (d * (xa - xi)) * (xb - xi));
        assert(product_of_differences(t, i2, n) == (d * (xb - xi)) * (xa - xi));
    } else if i == a {
        assert(product_of_others(points, i, n) == o * xb);
        assert(product_of_others(t, i2, n) == o * xb);
        assert(product_of_differences(points, i, n) == d * (xb - xi));
        assert(product_of_differences(t, i2, n) == d * (xb - xi));
    } else {
        assert(product_of_others(points, i, n) == o * xa);
        assert(product_of_others(t, i2, n) == o * xa);
        assert(product_of_differences(points, i, n) == d * (xa - xi));
        assert(product_of_differences(t, i2, n) == d * (xa - xi));
    }
}

/// Exchanging the last two points, and the last two values of the function
/// with them, leaves a weighted sum over all points as it is.
proof fn lemma_sum_after_swap(
    points: Seq<(nat, nat)>,
    g: spec_fn(int) -> int,
    h: spec_fn(int) -> int,
    p: nat,
)
    requires
        points.len() >= 2,
        forall|i: int|
            0 <= i < points.len() ==> h(#[trigger] swapped_place(points.len(), i)) == g(i),
    ensures
        weighted_sum(weights(swap_last(points), p), h, points.len()) == weighted_sum(
            weights(points, p),
            g,
            points.len(),
        ),
{
    let n = points.len();
    let a = (n - 2) as nat;
    let b = (n - 1) as nat;
    let w = weights(points, p);
    let v = weights(swap_last(points), p);
    assert forall|i: int| 0 <= i < a implies #[trigger] h(i) * v(i) == g(i) * w(i) by {
        lemma_weight_after_swap(points, i, p);
        assert(swapped_place(n, i) == i);
    }
    lemma_weighted_sum_equal(v, h, w, g, a);
    lemma_weight_after_swap(points, a as int, p);
    lemma_weight_after_swap(points, b as int, p);
    assert(swapped_place(n, a as int) == b && swapped_place(n, b as int) == a);
    assert(h(b as int) == g(a as int) && h(a as int) == g(b as int));
    assert(weighted_sum(v, h, b) == weighted_sum(v, h, a) + h(a as int) * v(a as int));
    assert(weighted_sum(w, g, b) == weighted_sum(w, g, a) + g(a as int) * w(a as int));
    assert(weighted_sum(v, h, n) == weighted_sum(v, h, b) + h(b as int) * v(b as int));
    assert(weighted_sum(w, g, n) == weighted_sum(w, g, b) + g(b as int) * w(b as int));
}

/// The function that is 1 everywhere.
pub open spec fn constant_one() -> spec_fn(int) -> int {
    |i: int| 1int
}

/// The function that takes a place to the index of the point there.
pub open spec fn indices(points: Seq<(nat, nat)>) -> spec_fn(int) -> int {
    |i: int| points[i].0 as int
}

/// The sum of `weights * (index - last index)` is minus the last index,
/// given that the weights of all points but the last sum to one.
proof fn lemma_first_moment(points: Seq<(nat, nat)>, p: nat)
    requires
        is_prime(p),
        distinct_indices(points, p),
        points.len() >= 2,
        weighted_sum(
            weights(points.drop_last(), p),
            constant_one(),
            (points.len() - 1) as nat,
        ) % (p as int) == 1,
    ensures
        (weighted_sum(weights(points, p), indices(points), points.len()) - points.last().0
            * weighted_sum(weights(points, p), constant_one(), points.len())) % (p as int) == (-(
        points.last().0 as int)) % (p as int),
{
    let m = p as int;
    let n = points.len();
    let x = points.last().0 as int;
    let w = weights(points, p);
    let one = constant_one();
    let xs = indices(points);
    let f = |i: int| index_gap(points, i, n - 1) * one(i);
    lemma_sum_with_last(points, f, one, p);
    let shorter_sum = weighted_sum(weights(points.drop_last(), p), one, (n - 1) as nat);
    lemma_mul_mod_noop_general(-x, shorter_sum, m);
    assert(-x * 1 == -x);
    assert forall|i: int| 0 <= i < n implies #[trigger] f(i) == 1 * xs(i) + (-x) * one(i) by {
        assert(index_gap(points, i, n - 1) * 1 == xs(i) - x);
        assert((-x) * 1 == -x);
    }
    lemma_weighted_sum_linear(w, f, xs, one, 1, -x, n);
    assert(1 * weighted_sum(w, xs, n) == weighted_sum(w, xs, n));
    assert((-x) * weighted_sum(w, one, n) == -(x * weighted_sum(w, one, n))) by (nonlinear_arith);
}

/// The weights of points with distinct indices sum to one, modulo a prime.
pub proof fn lemma_weights_sum_to_one(points: Seq<(nat, nat)>, p: nat)
    requires
        is_prime(p),
        distinct_indices(points, p),
        points.len() >= 1,
    ensures
        weighted_sum(weights(points, p), constant_one(), points.len()) % (p as int) == 1,
    decreases points.len(),
{
    let m = p as int;
    let n = points.len();
    let w = weights(points, p);
    let one = constant_one();
    if n == 1 {
        assert(product_of_others(points, 0, 1) == 1) by {
            reveal_with_fuel(product_of_others, 2);
        }
        assert(product_of_differences(points, 0, 1) == 1) by {
            reveal_with_fuel(product_of_differences, 2);
        }
        lemma_small_mod(1, p);
        lemma1_pow((p - 2) as nat);
        assert(basis_at_zero(points, 0, p) == 1);
        assert(weighted_sum(w, one, 1) == weighted_sum(w, one, 0) + one(0) * w(0));
    } else {
        let shorter = points.drop_last();
        let t = swap_last(points);
        assert(t.len() == n);
        let x = points[n - 1].0 as int;
        let u = points[n - 2].0 as int;
        assert forall|i: int, j: int|
            0 <= i < shorter.len() && 0 <= j < shorter.len() && i != j implies #[trigger] index_gap(
            shorter,
            i,
            j,
        ) % m != 0 by {
            assert(index_gap(shorter, i, j) == index_gap(points, i, j));
        }
        assert forall|i: int, j: int|
            0 <= i < t.len() && 0 <= j < t.len() && i != j implies #[trigger] index_gap(t, i, j)
            % m != 0 by {
            assert(index_gap(t, i, j) == index_gap(
                points,
                swapped_place(n, i),
                swapped_place(n, j),
            ));
        }
        let t_shorter = t.drop_last();
        assert forall|i: int, j: int|
            0 <= i < t_shorter.len() && 0 <= j < t_shorter.len() && i != j
            implies #[trigger] index_gap(t_shorter, i, j) % m != 0 by {
            assert(index_gap(t_shorter, i, j) == index_gap(t, i, j));
        }
        lemma_weights_sum_to_one(shorter, p);
        lemma_weights_sum_to_one(t_shorter, p);
        lemma_first_moment(points, p);
        lemma_first_moment(t, p);
        let a0 = weighted_sum(w, one, n);
        let a1 = weighted_sum(w, indices(points), n);
        assert forall|i: int| 0 <= i < n implies one(#[trigger] swapped_place(n, i)) == one(i) by {
        }
        lemma_sum_after_swap(points, one, one, p);
        assert forall|i: int| 0 <= i < n implies indices(t)(#[trigger] swapped_place(n, i))
            == indices(points)(i) by {
        }
        lemma_sum_after_swap(points, indices(points), indices(t), p);
        assert(t.last().0 == u);
        assert((a1 - x * a0) % m == (-x) % m);
        assert((a1 - u * a0) % m == (-u) % m);
        lemma_sub_mod_noop(a1 - x * a0, a1 - u * a0, m);
        lemma_sub_mod_noop(-x, -u, m);
        assert((a1 - x * a0) - (a1 - u * a0) == (u - x) * a0) by (nonlinear_arith);
        assert((-x) - (-u) == (u - x) * 1);
        assert((u - x) % m != 0) by {
            assert(index_gap(points, n - 2, n - 1) == u - x);
        }
        lemma_cancel(u - x, a0, 1, p);
        lemma_small_mod(1, p);
    }
}

/// The function that takes a place to the `k`-th power of the index there.
pub open spec fn index_powers(points: Seq<(nat, nat)>, k: nat) -> spec_fn(int) -> int {
    |i: int| pow(points[i].0 as int, k)
}

/// The function that takes a place to the value of the polynomial at the
/// index there.
pub open spec fn polynomial_values(points: Seq<(nat, nat)>, coefficients: Seq<nat>) -> spec_fn(
    int,
) -> int {
    |i: int| poly_eval(coefficients, points[i].0 as int)
}

/// The function that takes a place to the value of the point there.
pub open spec fn point_values(points: Seq<(nat, nat)>) -> spec_fn(int) -> int {
    |i: int| points[i].1 as int
}

/// The weighted sum of the `k`-th powers of the indices is one for `k = 0`
/// and zero for every other `k` below the number of points.
proof fn lemma_moment(points: Seq<(nat, nat)>, k: nat, p: nat)
    requires
        is_prime(p),
        distinct_indices(points, p),
        k < points.len(),
    ensures
        weighted_sum(weights(points, p), index_powers(points, k), points.len()) % (p as int) == (
        if k == 0 {
            1int
        } else {
            0int
        }),
    decreases points.len(), k,
{
    let m = p as int;
    let n = points.len();
    let w = weights(points, p);
    let pk = index_powers(points, k);
    if k == 0 {
        assert forall|i: int| 0 <= i < n implies #[trigger] pk(i) * w(i) == constant_one()(i) * w(
            i,
        ) by {
            reveal(pow);
        }
        lemma_weighted_sum_equal(w, pk, w, constant_one(), n);
        lemma_weights_sum_to_one(points, p);
    } else {
        let shorter = points.drop_last();
        let x = points.last().0 as int;
        let before = (k - 1) as nat;
        let g = index_powers(points, before);
        let g1 = index_powers(shorter, before);
        let w1 = weights(shorter, p);
        let f = |i: int| index_gap(points, i, n - 1) * g(i);
        let e = if before == 0 {
            1int
        } else {
            0int
        };
        assert forall|i: int, j: int|
            0 <= i < shorter.len() && 0 <= j < shorter.len() && i != j implies #[trigger] index_gap(
            shorter,
            i,
            j,
        ) % m != 0 by {
            assert(index_gap(shorter, i, j) == index_gap(points, i, j));
        }
        lemma_sum_with_last(points, f, g, p);
        assert forall|i: int| 0 <= i < n - 1 implies #[trigger] g(i) * w1(i) == g1(i) * w1(i) by {
            assert(shorter[i] == points[i]);
        }
        lemma_weighted_sum_equal(w1, g, w1, g1, (n - 1) as nat);
        lemma_moment(shorter, before, p);
        lemma_moment(points, before, p);
        let a = weighted_sum(w, f, n);
        let b = weighted_sum(w1, g, (n - 1) as nat);
        let c = weighted_sum(w, g, n);
        assert forall|i: int| 0 <= i < n implies #[trigger] pk(i) == 1 * f(i) + x * g(i) by {
            let xi = points[i].0 as int;
            assert(pow(xi, k) == xi * pow(xi, before)) by {
                reveal(pow);
            }
            assert(xi * g(i) == 1 * ((xi - x) * g(i)) + x * g(i)) by (nonlinear_arith);
        }
        lemma_weighted_sum_linear(w, pk, f, g, 1, x, n);
        assert(1 * a == a);
        lemma_mul_mod_noop_general(-x, b, m);
        lemma_mul_mod_noop_general(x, c, m);
        lemma_add_mod_noop(a, x * c, m);
        lemma_add_mod_noop(-x * e, x * e, m);
        assert(-x * e + x * e == 0) by (nonlinear_arith);
        lemma_small_mod(0, p);
    }
}

/// The weighted sum of the values of a polynomial at the indices is the
/// constant term of the polynomial, where the polynomial has no more
/// coefficients than there are points.
proof fn lemma_polynomial_sum(points: Seq<(nat, nat)>, coefficients: Seq<nat>, p: nat)
    requires
        is_prime(p),
        distinct_indices(points, p),
        coefficients.len() <= points.len(),
    ensures
        weighted_sum(
            weights(points, p),
            polynomial_values(points, coefficients),
            points.len(),
        ) % (p as int) == (if coefficients.len() == 0 {
            0int
        } else {
            coefficients[0] as int
        }) % (p as int),
    decreases coefficients.len(),
{
    let m = p as int;
    let n = points.len();
    let w = weights(points, p);
    let values = polynomial_values(points, coefficients);
    if coefficients.len() == 0 {
        assert forall|i: int| 0 <= i < n implies #[trigger] values(i) == 0 * values(i) + 0
            * values(i) by {
            assert(0 * values(i) == 0);
        }
        lemma_weighted_sum_linear(w, values, values, values, 0, 0, n);
        assert(0 * weighted_sum(w, values, n) == 0);
    } else {
        let lower = coefficients.drop_last();
        let k = (coefficients.len() - 1) as nat;
        let top = coefficients.last() as int;
        let lower_values = polynomial_values(points, lower);
        let pk = index_powers(points, k);
        lemma_polynomial_sum(points, lower, p);
        lemma_moment(points, k, p);
        assert forall|i: int| 0 <= i < n implies #[trigger] values(i) == 1 * lower_values(i)
            + top * pk(i) by {
            assert(1 * lower_values(i) == lower_values(i));
        }
        lemma_weighted_sum_linear(w, values, lower_values, pk, 1, top, n);
        let a = weighted_sum(w, lower_values, n);
        let b = weighted_sum(w, pk, n);
        assert(1 * a == a);
        lemma_mul_mod_noop_general(top, b, m);
        lemma_add_mod_noop(a, top * b, m);
        if k == 0 {
            assert(top * 1 == top);
            lemma_add_mod_noop(0, top, m);
            assert(coefficients[0] == coefficients.last());
        } else {
            assert(top * 0 == 0);
            lemma_add_mod_noop(coefficients[0] as int, 0, m);
            assert(lower[0] == coefficients[0]);
        }
    }
}

/// The interpolation sum is the weighted sum of the values of the points.
proof fn lemma_interpolation_is_weighted_sum(points: Seq<(nat, nat)>, p: nat, upto: nat)
    ensures
        interpolation_sum(points, p, upto) == weighted_sum(
            weights(points, p),
            point_values(points),
            upto,
        ),
    decreases upto,
{
    if upto > 0 {
        lemma_interpolation_is_weighted_sum(points, p, (upto - 1) as nat);
    }
}

/// Interpolation at zero finds the constant term of a polynomial again:
/// where the modulus is a prime, the points have indices that differ modulo
/// it and lie on a polynomial with no more coefficients than there are
/// points, the interpolation gives the constant term of the polynomial,
/// reduced by the modulus.
pub proof fn lemma_interpolation_recovers_constant(
    points: Seq<(nat, nat)>,
    coefficients: Seq<nat>,
    modulus: nat,
)
    requires
        is_prime(modulus),
        distinct_indices(points, modulus),
        1 <= coefficients.len() <= points.len(),
        on_polynomial(points, coefficients, modulus),
    ensures
        interpolate_at_zero(points, modulus) == coefficients[0] % modulus,
{
    let m = modulus as int;
    let n = points.len();
    let w = weights(points, modulus);
    let ys = point_values(points);
    let values = polynomial_values(points, coefficients);
    lemma_interpolation_is_weighted_sum(points, modulus, n);
    assert forall|i: int| 0 <= i < n implies (#[trigger] ys(i) * w(i)) % m == (values(i) * w(i))
        % m by {
        assert(points[i].1 == values(i) % m);
        lemma_mul_mod_noop_general(values(i), w(i), m);
    }
    lemma_weighted_sum_congruent(w, ys, w, values, n, modulus);
    lemma_polynomial_sum(points, coefficients, modulus);
}

/// Enough shares give the secret back: where the modulus is a prime, the
/// shares lie on a polynomial, are at least as many as the polynomial has
/// coefficients, and have indices below the modulus of which no two are the
/// same, interpolation at zero over the shares gives the constant term of
/// the polynomial, reduced by the modulus.
pub proof fn lemma_shares_recover_secret(
    coefficients: Seq<nat>,
    shares: Seq<(nat, nat)>,
    modulus: nat,
)
    requires
        is_prime(modulus),
        1 <= coefficients.len() <= shares.len(),
        forall|i: int| 0 <= i < shares.len() ==> (#[trigger] shares[i]).0 < modulus,
        forall|i: int, j: int|
            0 <= i < shares.len() && 0 <= j < shares.len() && i != j ==> (#[trigger] shares[i]).0
                != (#[trigger] shares[j]).0,
        on_polynomial(shares, coefficients, modulus),
    ensures
        interpolate_at_zero(shares, modulus) == coefficients[0] % modulus,
{
    let m = modulus as int;
    assert forall|i: int, j: int|
        0 <= i < shares.len() && 0 <= j < shares.len() && i != j implies #[trigger] index_gap(
        shares,
        i,
        j,
    ) % m != 0 by {
        let xi = shares[i].0;
        let xj = shares[j].0;
        lemma_small_mod(xi, modulus);
        lemma_small_mod(xj, modulus);
        lemma_mod_equivalence(xi as int, xj as int, m);
    }
    lemma_interpolation_recovers_constant(shares, coefficients, modulus);
}

} // verus!
