//! Big-endian byte strings as natural numbers: the value of a byte string,
//! the shortest string of a value, and strings of a fixed width.

use vstd::prelude::*;
use vstd::arithmetic::power::{pow, lemma_pow_positive};
use vstd::arithmetic::power2::{
    pow2, lemma_pow2_adds, lemma_pow2_strictly_increases, lemma_pow2_unfold, lemma2_to64,
};

verus! {

/// The number that `bytes` spells in base 256, most significant byte first.
/// The empty string spells zero.
pub open spec fn be_nat(bytes: Seq<u8>) -> nat
    decreases bytes.len(),
{
    if bytes.len() == 0 {
        0
    } else {
        be_nat(bytes.drop_last()) * 256 + bytes.last() as nat
    }
}

/// `len` zero bytes.
pub open spec fn zeros(len: nat) -> Seq<u8> {
    Seq::new(len, |i: int| 0u8)
}

/// The shortest big-endian string that spells `value`; zero is one zero byte.
pub open spec fn canonical_bytes(value: nat) -> Seq<u8>
    decreases value,
{
    if value < 256 {
        seq![value as u8]
    } else {
        canonical_bytes(value / 256).push((value % 256) as u8)
    }
}

/// `value` can be written in `len` bytes: its shortest string is no longer.
pub open spec fn fits(value: nat, len: nat) -> bool {
    canonical_bytes(value).len() <= len
}

/// The shortest string of `value`, with zero bytes in front up to `len` bytes.
pub open spec fn fixed_bytes(value: nat, len: nat) -> Seq<u8>
    recommends
        fits(value, len),
{
    zeros((len - canonical_bytes(value).len()) as nat) + canonical_bytes(value)
}

/// 256 to the power `len`.
pub open spec fn radix_pow(len: nat) -> nat {
    pow(256, len) as nat
}

/// The powers of 256 start at 1, and each is 256 times the one before.
pub proof fn lemma_radix_pow_step(len: nat)
    ensures
        radix_pow(0) == 1,
        radix_pow(len) >= 1,
        radix_pow(len + 1) == 256 * radix_pow(len),
{
    lemma_pow_positive(256, len);
    reveal(pow);
}

/// Appending one byte multiplies the value by 256 and adds the byte.
pub proof fn lemma_be_nat_push(bytes: Seq<u8>, byte: u8)
    ensures
        be_nat(bytes.push(byte)) == be_nat(bytes) * 256 + byte as nat,
{
    assert(bytes.push(byte).drop_last() =~= bytes);
}

/// The value of a concatenation.
pub proof fn lemma_be_nat_concat(front: Seq<u8>, back: Seq<u8>)
    ensures
        be_nat(front + back) == be_nat(front) * radix_pow(back.len()) + be_nat(back),
    decreases back.len(),
{
    if back.len() == 0 {
        assert(front + back =~= front);
        lemma_radix_pow_step(0);
        assert(be_nat(front) * radix_pow(0) == be_nat(front)) by (nonlinear_arith)
            requires
                radix_pow(0) == 1,
        ;
    } else {
        let shorter = back.drop_last();
        assert((front + back).drop_last() =~= front + shorter);
        lemma_be_nat_concat(front, shorter);
        lemma_radix_pow_step(shorter.len());
        let f = be_nat(front);
        let r = radix_pow(shorter.len());
        assert((f * r + be_nat(shorter)) * 256 == f * (256 * r) + be_nat(shorter) * 256)
            by (nonlinear_arith);
    }
}

/// Zero bytes spell zero.
pub proof fn lemma_be_nat_zeros(len: nat)
    ensures
        be_nat(zeros(len)) == 0,
    decreases len,
{
    if len > 0 {
        assert(zeros(len).drop_last() =~= zeros((len - 1) as nat));
        lemma_be_nat_zeros((len - 1) as nat);
    }
}

/// Zero bytes in front do not change the value.
pub proof fn lemma_be_nat_leading_zeros(len: nat, bytes: Seq<u8>)
    ensures
        be_nat(zeros(len) + bytes) == be_nat(bytes),
{
    lemma_be_nat_concat(zeros(len), bytes);
    lemma_be_nat_zeros(len);
}

/// A string of `n` bytes spells a number below 256 to the `n`.
pub proof fn lemma_be_nat_bound(bytes: Seq<u8>)
    ensures
        be_nat(bytes) < radix_pow(bytes.len()),
    decreases bytes.len(),
{
    if bytes.len() == 0 {
        lemma_radix_pow_step(0);
    } else {
        lemma_be_nat_bound(bytes.drop_last());
        lemma_radix_pow_step(bytes.drop_last().len());
    }
}

/// The shortest string of a value spells that value.
pub proof fn lemma_canonical_value(value: nat)
    ensures
        be_nat(canonical_bytes(value)) == value,
        canonical_bytes(value).len() >= 1,
    decreases value,
{
    if value < 256 {
        let s = seq![value as u8];
        assert(s.drop_last() =~= Seq::<u8>::empty());
        assert(be_nat(s.drop_last()) == 0);
    } else {
        lemma_canonical_value(value / 256);
        lemma_be_nat_push(canonical_bytes(value / 256), (value % 256) as u8);
    }
}

/// A value fits `len` bytes exactly when `len` is positive and the value is
/// below 256 to the `len`.
pub proof fn lemma_fits_bound(value: nat, len: nat)
    ensures
        fits(value, len) <==> (len >= 1 && value < radix_pow(len)),
    decreases value,
{
    if value < 256 {
        if len >= 1 {
            lemma_radix_pow_step((len - 1) as nat);
        }
    } else {
        if len >= 1 {
            lemma_fits_bound(value / 256, (len - 1) as nat);
            lemma_radix_pow_step((len - 1) as nat);
        }
    }
}

/// Two strings of one length that spell one value are the same string.
pub proof fn lemma_be_nat_injective(left: Seq<u8>, right: Seq<u8>)
    requires
        left.len() == right.len(),
        be_nat(left) == be_nat(right),
    ensures
        left == right,
    decreases left.len(),
{
    if left.len() == 0 {
        assert(left =~= right);
    } else {
        lemma_be_nat_injective(left.drop_last(), right.drop_last());
        assert(left =~= left.drop_last().push(left.last()));
        assert(right =~= right.drop_last().push(right.last()));
    }
}

/// The fixed-width string of a value that fits has the width asked for and
/// spells the value.
pub proof fn lemma_fixed_bytes(value: nat, len: nat)
    requires
        fits(value, len),
    ensures
        fixed_bytes(value, len).len() == len,
        be_nat(fixed_bytes(value, len)) == value,
{
    lemma_canonical_value(value);
    lemma_be_nat_leading_zeros(
        (len - canonical_bytes(value).len()) as nat,
        canonical_bytes(value),
    );
}

/// Writing the value of a non-empty string at the string's own width gives
/// the string back.
pub proof fn lemma_fixed_bytes_of_value(bytes: Seq<u8>)
    requires
        bytes.len() >= 1,
    ensures
        fits(be_nat(bytes), bytes.len()),
        fixed_bytes(be_nat(bytes), bytes.len()) == bytes,
{
    lemma_be_nat_bound(bytes);
    lemma_fits_bound(be_nat(bytes), bytes.len());
    lemma_fixed_bytes(be_nat(bytes), bytes.len());
    lemma_be_nat_injective(fixed_bytes(be_nat(bytes), bytes.len()), bytes);
}

/// The number of binary digits of a number; zero has none.
pub open spec fn bit_length(value: nat) -> nat
    decreases value,
{
    if value == 0 {
        0
    } else {
        1 + bit_length(value / 2)
    }
}

/// The number of bytes that hold the binary digits of a number: an eighth of
/// their count, rounded up. Zero needs none.
pub open spec fn byte_length(value: nat) -> nat {
    (bit_length(value) + 7) / 8
}

/// A positive number lies between the power of two below its bit length and
/// the one at it.
pub proof fn lemma_bit_length_bounds(value: nat)
    requires
        value > 0,
    ensures
        pow2((bit_length(value) - 1) as nat) <= value < pow2(bit_length(value)),
    decreases value,
{
    lemma2_to64();
    if value == 1 {
        assert(bit_length(1) == 1) by {
            reveal_with_fuel(bit_length, 2);
        }
    } else {
        lemma_bit_length_bounds(value / 2);
        lemma_pow2_unfold(bit_length(value));
        lemma_pow2_unfold((bit_length(value) - 1) as nat);
    }
}

/// 256 to the `len` is 2 to the `8 * len`.
pub proof fn lemma_radix_pow_is_pow2(len: nat)
    ensures
        radix_pow(len) == pow2(8 * len),
    decreases len,
{
    lemma2_to64();
    lemma_radix_pow_step(0);
    if len > 0 {
        lemma_radix_pow_is_pow2((len - 1) as nat);
        lemma_radix_pow_step((len - 1) as nat);
        lemma_pow2_adds(8, 8 * (len - 1) as nat);
    }
}

/// The shortest string of a positive number has as many bytes as hold its
/// binary digits.
pub proof fn lemma_canonical_length(value: nat)
    requires
        value > 0,
    ensures
        canonical_bytes(value).len() == byte_length(value),
{
    let len = canonical_bytes(value).len();
    let bits = bit_length(value);
    lemma_bit_length_bounds(value);
    lemma_fits_bound(value, len);
    lemma_radix_pow_is_pow2(len);
    if bits > 8 * len {
        if bits - 1 > 8 * len {
            lemma_pow2_strictly_increases(8 * len, (bits - 1) as nat);
        }
    }
    if len > 1 {
        let shorter = (len - 1) as nat;
        lemma_fits_bound(value, shorter);
        lemma_radix_pow_is_pow2(shorter);
        if bits < 8 * shorter {
            lemma_pow2_strictly_increases(bits, 8 * shorter);
        }
    }
}

} // verus!
