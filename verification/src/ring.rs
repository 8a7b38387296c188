//! Ring tags: the inner product of two points, reduced by the modulus. A tag
//! binds a transformed point to a public key.

use vstd::prelude::*;
use crate::bignat::{big_add, big_eq, big_from_u64, big_mul, big_rem, BigNat};
use crate::point::SpherePoint;

verus! {

/// The tag of two points under a modulus.
pub open spec fn ring_tag(a: (nat, nat, nat), b: (nat, nat, nat), modulus: nat) -> nat
    recommends
        modulus > 0,
{
    (a.0 * b.0 + a.1 * b.1 + a.2 * b.2) % modulus
}

/// A ring tag.
#[derive(Debug)]
pub struct RingMetadata {
    pub ring_value: BigNat,
}

/// Computes the tag of two points.
pub fn ring_value_of(a: &SpherePoint, b: &SpherePoint, modulus: &BigNat) -> (tag: BigNat)
    requires
        modulus@ > 0,
    ensures
        tag@ == ring_tag(a@, b@, modulus@),
{
    let xx = big_mul(&a.x, &b.x);
    let yy = big_mul(&a.y, &b.y);
    let zz = big_mul(&a.z, &b.z);
    let sum = big_add(&big_add(&xx, &yy), &zz);
    big_rem(&sum, modulus)
}

/// A point with 1, 2 and 3 added to its coordinates.
pub open spec fn perturbed(point: (nat, nat, nat)) -> (nat, nat, nat) {
    (point.0 + 1, point.1 + 2, point.2 + 3)
}

/// The tags, under one modulus, of each point with its perturbed self.
pub open spec fn perturbed_tags(points: Seq<SpherePoint>, modulus: nat) -> Seq<nat> {
    Seq::new(points.len(), |i: int| ring_tag(points[i]@, perturbed(points[i]@), modulus))
}

/// Computes the tag of each point with its perturbed self.
pub fn perturbed_ring_values(points: &Vec<SpherePoint>, modulus: &BigNat) -> (tags: Vec<BigNat>)
    requires
        modulus@ > 0,
    ensures
        tags@.len() == points@.len(),
        forall|i: int|
            0 <= i < tags@.len() ==> (#[trigger] tags@[i])@ == perturbed_tags(points@, modulus@)[i],
{
    let mut tags: Vec<BigNat> = Vec::new();
    let mut i: usize = 0;
    while i < points.len()
        invariant
            i <= points.len(),
            modulus@ > 0,
            tags@.len() == i,
            forall|k: int|
                0 <= k < i ==> (#[trigger] tags@[k])@ == perturbed_tags(points@, modulus@)[k],
        decreases points.len() - i,
    {
        let point = &points[i];
        let substituted = SpherePoint::new(
            big_add(&point.x, &big_from_u64(1)),
            big_add(&point.y, &big_from_u64(2)),
            big_add(&point.z, &big_from_u64(3)),
        );
        let tag = RingMetadata::generate(point, &substituted, modulus);
        tags.push(tag.ring_value);
        i += 1;
    }
    tags
}

impl RingMetadata {
    /// Generate the ring tag of a public point and a transformed point.
    pub fn generate(public: &SpherePoint, substituted: &SpherePoint, modulus: &BigNat) -> (tag:
        RingMetadata)
        requires
            modulus@ > 0,
        ensures
            tag.ring_value@ == ring_tag(public@, substituted@, modulus@),
    {
        RingMetadata { ring_value: ring_value_of(public, substituted, modulus) }
    }

    /// Validate the tag: compute it again and compare.
    pub fn validate(
        &self,
        public: &SpherePoint,
        substituted: &SpherePoint,
        modulus: &BigNat,
    ) -> (ok: bool)
        requires
            modulus@ > 0,
        ensures
            ok == (self.ring_value@ == ring_tag(public@, substituted@, modulus@)),
    {
        let computed = ring_value_of(public, substituted, modulus);
        big_eq(&computed, &self.ring_value)
    }
}

} // verus!
