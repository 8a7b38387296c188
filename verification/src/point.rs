//! Points of three coordinates, their byte form at a fixed width, and the
//! keyed transform: substitute every byte, then add one noise byte to it.

use vstd::prelude::*;
use vstd::std_specs::cmp::PartialEqSpecImpl;
use crate::bignat::{big_eq, BigNat};
use crate::encoding::{
    be_nat, bit_length, byte_length, canonical_bytes, fits, fixed_bytes, zeros,
    lemma_canonical_length, lemma_canonical_value, lemma_fixed_bytes, lemma_be_nat_bound,
    lemma_fits_bound,
};
use crate::errors::NoiseError;
use crate::sbox::DynamicSBox;

verus! {

/// A triple of naturals: a key, an encoded text, a digest, or a signature.
#[derive(Debug)]
pub struct SpherePoint {
    pub x: BigNat,
    pub y: BigNat,
    pub z: BigNat,
}

impl View for SpherePoint {
    type V = (nat, nat, nat);

    open spec fn view(&self) -> (nat, nat, nat) {
        (self.x@, self.y@, self.z@)
    }
}

impl Clone for SpherePoint {
    fn clone(&self) -> (copy: Self)
        ensures
            copy@ == self@,
    {
        SpherePoint { x: self.x.clone(), y: self.y.clone(), z: self.z.clone() }
    }
}

impl PartialEq for SpherePoint {
    /// Two points are equal when their coordinates have the same values.
    fn eq(&self, other: &SpherePoint) -> (same: bool) {
        big_eq(&self.x, &other.x) && big_eq(&self.y, &other.y) && big_eq(&self.z, &other.z)
    }
}

impl PartialEqSpecImpl for SpherePoint {
    open spec fn obeys_eq_spec() -> bool {
        true
    }

    open spec fn eq_spec(&self, other: &SpherePoint) -> bool {
        self@ == other@
    }
}

/// The bytes of `plain`, each substituted and then raised by its noise byte,
/// with wraparound at 256.
pub open spec fn add_noise(sbox: DynamicSBox, plain: Seq<u8>, noise: Seq<u8>) -> Seq<u8>
    recommends
        noise.len() == plain.len(),
{
    Seq::new(plain.len(), |i: int| sbox.forward(plain[i]).wrapping_add(noise[i]))
}

/// The bytes of `noised`, each lowered by its noise byte, with wraparound,
/// and then substituted back.
pub open spec fn remove_noise(sbox: DynamicSBox, noised: Seq<u8>, noise: Seq<u8>) -> Seq<u8>
    recommends
        noise.len() == noised.len(),
{
    Seq::new(noised.len(), |i: int| sbox.backward(noised[i].wrapping_sub(noise[i])))
}

/// Where the part of coordinate `k` (0, 1 or 2) begins in a string of three
/// parts of `pad` bytes each.
pub open spec fn part_start(pad: nat, k: nat) -> int
    recommends
        k < 3,
{
    if k == 0 {
        0
    } else if k == 1 {
        pad as int
    } else {
        2 * (pad as int)
    }
}

/// The part of the noise that belongs to coordinate `k` (0, 1 or 2) at
/// width `pad`.
pub open spec fn noise_slice(noise: Seq<u8>, pad: nat, k: nat) -> Seq<u8>
    recommends
        noise.len() == 3 * pad,
        k < 3,
{
    noise.subrange(part_start(pad, k), part_start(pad, k) + pad)
}

/// A coordinate after the forward transform.
pub open spec fn transformed_coordinate(
    sbox: DynamicSBox,
    value: nat,
    noise: Seq<u8>,
    pad: nat,
) -> nat {
    be_nat(add_noise(sbox, fixed_bytes(value, pad), noise))
}

/// A coordinate after the inverse transform.
pub open spec fn restored_coordinate(
    sbox: DynamicSBox,
    value: nat,
    noise: Seq<u8>,
    pad: nat,
) -> nat {
    be_nat(remove_noise(sbox, fixed_bytes(value, pad), noise))
}

/// A point after the forward transform, coordinate by coordinate, each with
/// its own part of the noise.
pub open spec fn transformed_point(
    sbox: DynamicSBox,
    point: (nat, nat, nat),
    noise: Seq<u8>,
    pad: nat,
) -> (nat, nat, nat) {
    (
        transformed_coordinate(sbox, point.0, noise_slice(noise, pad, 0), pad),
        transformed_coordinate(sbox, point.1, noise_slice(noise, pad, 1), pad),
        transformed_coordinate(sbox, point.2, noise_slice(noise, pad, 2), pad),
    )
}

/// A point after the inverse transform.
pub open spec fn restored_point(
    sbox: DynamicSBox,
    point: (nat, nat, nat),
    noise: Seq<u8>,
    pad: nat,
) -> (nat, nat, nat) {
    (
        restored_coordinate(sbox, point.0, noise_slice(noise, pad, 0), pad),
        restored_coordinate(sbox, point.1, noise_slice(noise, pad, 1), pad),
        restored_coordinate(sbox, point.2, noise_slice(noise, pad, 2), pad),
    )
}

/// Every coordinate of the point can be written in `pad` bytes.
pub open spec fn point_fits(point: (nat, nat, nat), pad: nat) -> bool {
    fits(point.0, pad) && fits(point.1, pad) && fits(point.2, pad)
}

/// Pad bytes to a fixed length, with zero bytes in front.
pub fn pad_bytes(bytes: &[u8], length: usize) -> (padded: Vec<u8>)
    requires
        bytes@.len() <= length,
    ensures
        padded@ == zeros((length - bytes@.len()) as nat) + bytes@,
{
    let start: usize = length - bytes.len();
    let mut padded: Vec<u8> = Vec::new();
    let mut i: usize = 0;
    while i < start
        invariant
            i <= start,
            padded@ == zeros(i as nat),
        decreases start - i,
    {
        padded.push(0u8);
        assert(zeros(i as nat).push(0u8) =~= zeros((i + 1) as nat));
        i += 1;
    }
    let mut j: usize = 0;
    while j < bytes.len()
        invariant
            j <= bytes.len(),
            start + bytes.len() == length,
            padded@ == zeros(start as nat) + bytes@.subrange(0, j as int),
        decreases bytes.len() - j,
    {
        padded.push(bytes[j]);
        assert((zeros(start as nat) + bytes@.subrange(0, j as int)).push(bytes@[j as int])
            =~= zeros(start as nat) + bytes@.subrange(0, j + 1));
        j += 1;
    }
    assert(bytes@.subrange(0, bytes@.len() as int) =~= bytes@);
    padded
}

/// The width of a coordinate under a modulus: the number of bytes that hold
/// the binary digits of the modulus.
pub fn pad_length_for(modulus: &BigNat) -> (pad_length: usize)
    ensures
        pad_length == byte_length(modulus@),
{
    let shortest = modulus.to_bytes_be();
    proof {
        lemma_canonical_value(modulus@);
        if modulus@ > 0 {
            lemma_canonical_length(modulus@);
        } else {
            assert(bit_length(0) == 0);
        }
    }
    if shortest.len() == 1 && shortest[0] == 0 {
        proof {
            assert(shortest@.drop_last() =~= Seq::<u8>::empty());
            assert(be_nat(shortest@.drop_last()) == 0);
        }
        0
    } else {
        proof {
            if modulus@ == 0 {
                assert(canonical_bytes(0) =~= seq![0u8]);
            }
        }
        shortest.len()
    }
}

/// The bytes of `value` at the width `pad_length`, if it fits.
pub fn coordinate_bytes(value: &BigNat, pad_length: usize) -> (bytes: Option<Vec<u8>>)
    ensures
        bytes is Some <==> fits(value@, pad_length as nat),
        bytes matches Some(b) ==> b@ == fixed_bytes(value@, pad_length as nat),
{
    let shortest = value.to_bytes_be();
    if shortest.len() > pad_length {
        None
    } else {
        Some(pad_bytes(shortest.as_slice(), pad_length))
    }
}

/// Substitutes every byte of `plain` and adds to it the noise byte that
/// stands `offset` places further on in `noise`.
fn add_noise_bytes(sbox: &DynamicSBox, plain: &Vec<u8>, noise: &[u8], offset: usize) -> (out: Vec<
    u8,
>)
    requires
        offset + plain@.len() <= noise@.len(),
    ensures
        out@ == add_noise(
            *sbox,
            plain@,
            noise@.subrange(offset as int, offset + plain@.len()),
        ),
{
    let ghost part = noise@.subrange(offset as int, offset + plain@.len());
    let noise_len = noise.len();
    let mut out: Vec<u8> = Vec::new();
    let mut i: usize = 0;
    while i < plain.len()
        invariant
            i <= plain.len(),
            noise_len == noise@.len(),
            offset + plain@.len() <= noise@.len(),
            part == noise@.subrange(offset as int, offset + plain@.len()),
            out@ == add_noise(*sbox, plain@, part).subrange(0, i as int),
        decreases plain.len() - i,
    {
        let byte = sbox.substitute(plain[i]).wrapping_add(noise[offset + i]);
        out.push(byte);
        assert(add_noise(*sbox, plain@, part).subrange(0, i as int).push(byte) =~= add_noise(
            *sbox,
            plain@,
            part,
        ).subrange(0, i + 1));
        i += 1;
    }
    assert(add_noise(*sbox, plain@, part).subrange(0, plain@.len() as int) =~= add_noise(
        *sbox,
        plain@,
        part,
    ));
    out
}

/// Takes from every byte of `noised` the noise byte that stands `offset`
/// places further on in `noise`, and substitutes the result back.
fn remove_noise_bytes(sbox: &DynamicSBox, noised: &Vec<u8>, noise: &[u8], offset: usize) -> (out:
    Vec<u8>)
    requires
        offset + noised@.len() <= noise@.len(),
    ensures
        out@ == remove_noise(
            *sbox,
            noised@,
            noise@.subrange(offset as int, offset + noised@.len()),
        ),
{
    let ghost part = noise@.subrange(offset as int, offset + noised@.len());
    let noise_len = noise.len();
    let mut out: Vec<u8> = Vec::new();
    let mut i: usize = 0;
    while i < noised.len()
        invariant
            i <= noised.len(),
            noise_len == noise@.len(),
            offset + noised@.len() <= noise@.len(),
            part == noise@.subrange(offset as int, offset + noised@.len()),
            out@ == remove_noise(*sbox, noised@, part).subrange(0, i as int),
        decreases noised.len() - i,
    {
        let byte = sbox.inverse_substitute(noised[i].wrapping_sub(noise[offset + i]));
        out.push(byte);
        assert(remove_noise(*sbox, noised@, part).subrange(0, i as int).push(byte)
            =~= remove_noise(*sbox, noised@, part).subrange(0, i + 1));
        i += 1;
    }
    assert(remove_noise(*sbox, noised@, part).subrange(0, noised@.len() as int) =~= remove_noise(
        *sbox,
        noised@,
        part,
    ));
    out
}

impl SpherePoint {
    /// The point with the given coordinates.
    pub fn new(x: BigNat, y: BigNat, z: BigNat) -> (point: SpherePoint)
        ensures
            point.x == x,
            point.y == y,
            point.z == z,
    {
        SpherePoint { x, y, z }
    }

    /// Whether every coordinate can be written in `pad_length` bytes.
    pub fn fits_width(&self, pad_length: usize) -> (yes: bool)
        ensures
            yes == point_fits(self@, pad_length as nat),
    {
        self.x.to_bytes_be().len() <= pad_length && self.y.to_bytes_be().len() <= pad_length
            && self.z.to_bytes_be().len() <= pad_length
    }

    /// Apply substitution and add noise to each byte of each coordinate,
    /// written at the width `pad_length`. The noise holds one byte for each
    /// of them: first those of `x`, then those of `y`, then those of `z`.
    /// A noise of any other length is refused.
    pub fn transform_with_noise(
        &self,
        noise: &[u8],
        sbox: &DynamicSBox,
        pad_length: usize,
    ) -> (out: Result<SpherePoint, NoiseError>)
        requires
            point_fits(self@, pad_length as nat),
        ensures
            out is Ok <==> noise@.len() == 3 * pad_length,
            out matches Err(e) ==> e == NoiseError::InvalidHashOutput,
            out matches Ok(point) ==> point@ == transformed_point(
                *sbox,
                self@,
                noise@,
                pad_length as nat,
            ) && point_fits(point@, pad_length as nat),
    {
        if noise.len() / 3 != pad_length || noise.len() % 3 != 0 {
            return Err(NoiseError::InvalidHashOutput);
        }
        let x_bytes = coordinate_bytes(&self.x, pad_length).unwrap();
        let y_bytes = coordinate_bytes(&self.y, pad_length).unwrap();
        let z_bytes = coordinate_bytes(&self.z, pad_length).unwrap();
        proof {
            lemma_fixed_bytes(self.x@, pad_length as nat);
            lemma_fixed_bytes(self.y@, pad_length as nat);
            lemma_fixed_bytes(self.z@, pad_length as nat);
        }
        let x = BigNat { bytes: add_noise_bytes(sbox, &x_bytes, noise, 0) };
        let y = BigNat { bytes: add_noise_bytes(sbox, &y_bytes, noise, pad_length) };
        let z = BigNat { bytes: add_noise_bytes(sbox, &z_bytes, noise, 2 * pad_length) };
        proof {
            lemma_value_of_width(x.bytes@);
            lemma_value_of_width(y.bytes@);
            lemma_value_of_width(z.bytes@);
        }
        Ok(SpherePoint { x, y, z })
    }

    /// Undo `transform_with_noise`: take the noise from each byte of each
    /// coordinate, written at the width `pad_length`, and substitute back.
    /// A noise of any other length than three times the width is refused.
    pub fn restore_from_noise(
        &self,
        noise: &[u8],
        sbox: &DynamicSBox,
        pad_length: usize,
    ) -> (out: Result<SpherePoint, NoiseError>)
        requires
            point_fits(self@, pad_length as nat),
        ensures
            out is Ok <==> noise@.len() == 3 * pad_length,
            out matches Err(e) ==> e == NoiseError::InvalidHashOutput,
            out matches Ok(point) ==> point@ == restored_point(
                *sbox,
                self@,
                noise@,
                pad_length as nat,
            ) && point_fits(point@, pad_length as nat),
    {
        if noise.len() / 3 != pad_length || noise.len() % 3 != 0 {
            return Err(NoiseError::InvalidHashOutput);
        }
        let x_bytes = coordinate_bytes(&self.x, pad_length).unwrap();
        let y_bytes = coordinate_bytes(&self.y, pad_length).unwrap();
        let z_bytes = coordinate_bytes(&self.z, pad_length).unwrap();
        proof {
            lemma_fixed_bytes(self.x@, pad_length as nat);
            lemma_fixed_bytes(self.y@, pad_length as nat);
            lemma_fixed_bytes(self.z@, pad_length as nat);
        }
        let x = BigNat { bytes: remove_noise_bytes(sbox, &x_bytes, noise, 0) };
        let y = BigNat { bytes: remove_noise_bytes(sbox, &y_bytes, noise, pad_length) };
        let z = BigNat { bytes: remove_noise_bytes(sbox, &z_bytes, noise, 2 * pad_length) };
        proof {
            lemma_value_of_width(x.bytes@);
            lemma_value_of_width(y.bytes@);
            lemma_value_of_width(z.bytes@);
        }
        Ok(SpherePoint { x, y, z })
    }
}

/// The inverse transform undoes the forward transform of a coordinate, under
/// the same noise and a well-formed box; and the transformed coordinate fits
/// the width again.
pub proof fn lemma_restore_transformed_coordinate(
    sbox: DynamicSBox,
    value: nat,
    noise: Seq<u8>,
    pad: nat,
)
    requires
        sbox.wf(),
        fits(value, pad),
        noise.len() == pad,
    ensures
        fits(transformed_coordinate(sbox, value, noise, pad), pad),
        restored_coordinate(sbox, transformed_coordinate(sbox, value, noise, pad), noise, pad)
            == value,
{
    let plain = fixed_bytes(value, pad);
    lemma_fixed_bytes(value, pad);
    let noised = add_noise(sbox, plain, noise);
    crate::encoding::lemma_fixed_bytes_of_value(noised);
    assert(remove_noise(sbox, noised, noise) =~= plain) by {
        assert forall|i: int| 0 <= i < pad implies remove_noise(sbox, noised, noise)[i]
            == plain[i] by {
            let b = plain[i];
            let n = noise[i];
            let s = sbox.forward(b);
            assert(s.wrapping_add(n).wrapping_sub(n) == s);
            assert(sbox.backward(sbox.forward(b)) == b);
        }
    }
}

/// The inverse transform undoes the forward transform of a point.
pub proof fn lemma_restore_transformed_point(
    sbox: DynamicSBox,
    point: (nat, nat, nat),
    noise: Seq<u8>,
    pad: nat,
)
    requires
        sbox.wf(),
        point_fits(point, pad),
        noise.len() == 3 * pad,
    ensures
        point_fits(transformed_point(sbox, point, noise, pad), pad),
        restored_point(sbox, transformed_point(sbox, point, noise, pad), noise, pad) == point,
{
    lemma_restore_transformed_coordinate(sbox, point.0, noise_slice(noise, pad, 0), pad);
    lemma_restore_transformed_coordinate(sbox, point.1, noise_slice(noise, pad, 1), pad);
    lemma_restore_transformed_coordinate(sbox, point.2, noise_slice(noise, pad, 2), pad);
}

/// The value of a non-empty string fits the string's length.
pub proof fn lemma_value_of_width(bytes: Seq<u8>)
    requires
        bytes.len() >= 1,
    ensures
        fits(be_nat(bytes), bytes.len()),
{
    lemma_be_nat_bound(bytes);
    lemma_fits_bound(be_nat(bytes), bytes.len());
}

} // verus!
