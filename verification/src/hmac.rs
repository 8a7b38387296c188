//! A keyed MAC on the point transform: the digest of the data is mapped to a
//! point and transformed under the noise of the private key. The same key
//! material signs and verifies.

use vstd::prelude::*;
use crate::bignat::{big_eq, BigNat};
use crate::errors::HMACError;
use crate::hashing::{shake256_digest, shake256_output, DIGEST_LENGTH};
use crate::plaintext::{
    map_bytes_to_sphere_point, mappable, mapped_point, lemma_point_bytes_of_mapped,
};
use crate::point::{
    point_fits, restored_point, transformed_point, SpherePoint, lemma_restore_transformed_point,
};
use crate::sbox::DynamicSBox;

verus! {

/// The state of one key pair: the two points, the box, the width of a
/// coordinate in bytes, the modulus, and the noise of the private key.
pub struct PmptHmac {
    public_key: SpherePoint,
    private_key: SpherePoint,
    sbox: DynamicSBox,
    pad_length: usize,
    modulus: BigNat,
    noise: Vec<u8>,
}

/// The signature of a digest.
pub open spec fn signed_digest(digest: Seq<u8>, noise: Seq<u8>, sbox: DynamicSBox, pad: nat)
    -> Result<(nat, nat, nat), HMACError> {
    if !mappable(pad) || noise.len() != 3 * pad {
        Err(HMACError::SignError)
    } else {
        Ok(transformed_point(sbox, mapped_point(digest, pad), noise, pad))
    }
}

/// Whether a signature is that of a digest.
pub open spec fn verified_digest(
    digest: Seq<u8>,
    signature: (nat, nat, nat),
    noise: Seq<u8>,
    sbox: DynamicSBox,
    pad: nat,
) -> Result<bool, HMACError> {
    if !mappable(pad) || noise.len() != 3 * pad || !point_fits(signature, pad) {
        Err(HMACError::VerifyError)
    } else {
        Ok(restored_point(sbox, signature, noise, pad) == mapped_point(digest, pad))
    }
}

impl PmptHmac {
    /// The public point of the key pair.
    pub closed spec fn public_key(&self) -> (nat, nat, nat) {
        self.public_key@
    }

    /// The private point of the key pair.
    pub closed spec fn private_key(&self) -> (nat, nat, nat) {
        self.private_key@
    }

    /// The substitution box of the key pair.
    pub closed spec fn sbox(&self) -> DynamicSBox {
        self.sbox
    }

    /// The width of a coordinate, in bytes.
    pub closed spec fn pad_length(&self) -> nat {
        self.pad_length as nat
    }

    /// The modulus of the key pair.
    pub closed spec fn modulus(&self) -> nat {
        self.modulus@
    }

    /// The noise of the private key.
    pub closed spec fn noise(&self) -> Seq<u8> {
        self.noise@
    }

    /// The state can sign and verify: its box is well formed, its width can
    /// be mapped at, and its noise has one byte for each byte of three
    /// coordinates.
    pub open spec fn wf(&self) -> bool {
        &&& self.sbox().wf()
        &&& mappable(self.pad_length())
        &&& self.noise().len() == 3 * self.pad_length()
    }

    /// What `sign` gives for `data`.
    pub open spec fn signed(&self, data: Seq<u8>) -> Result<(nat, nat, nat), HMACError> {
        signed_digest(
            shake256_output(data, DIGEST_LENGTH as nat),
            self.noise(),
            self.sbox(),
            self.pad_length(),
        )
    }

    /// What `verify` gives for `data` and `signature`.
    pub open spec fn verified(&self, data: Seq<u8>, signature: (nat, nat, nat)) -> Result<
        bool,
        HMACError,
    > {
        verified_digest(
            shake256_output(data, DIGEST_LENGTH as nat),
            signature,
            self.noise(),
            self.sbox(),
            self.pad_length(),
        )
    }

    /// The state of a key pair. `noise` is the noise of the private key: the
    /// bytes drawn from a generator seeded with `noise_seed` of it, one for
    /// each byte of three coordinates.
    pub fn new(
        public_key: SpherePoint,
        private_key: SpherePoint,
        sbox: DynamicSBox,
        pad_length: usize,
        modulus: BigNat,
        noise: Vec<u8>,
    ) -> (hmac: PmptHmac)
        ensures
            hmac.public_key() == public_key@,
            hmac.private_key() == private_key@,
            hmac.sbox() == sbox,
            hmac.pad_length() == pad_length,
            hmac.modulus() == modulus@,
            hmac.noise() == noise@,
    {
        PmptHmac { public_key, private_key, sbox, pad_length, modulus, noise }
    }

    /// Signs a digest: maps it to a point and transforms the point.
    pub fn sign_digest(&self, digest: &[u8]) -> (out: Result<SpherePoint, HMACError>)
        ensures
            match out {
                Ok(signature) => signed_digest(
                    digest@,
                    self.noise(),
                    self.sbox(),
                    self.pad_length(),
                ) == Ok::<(nat, nat, nat), HMACError>(signature@),
                Err(e) => signed_digest(digest@, self.noise(), self.sbox(), self.pad_length())
                    == Err::<(nat, nat, nat), HMACError>(e),
            },
    {
        let hash_point = match map_bytes_to_sphere_point(digest, self.pad_length) {
            Ok(point) => point,
            Err(_) => {
                return Err(HMACError::SignError);
            },
        };
        match hash_point.transform_with_noise(
            self.noise.as_slice(),
            &self.sbox,
            self.pad_length,
        ) {
            Ok(signature) => Ok(signature),
            Err(_) => Err(HMACError::SignError),
        }
    }

    /// Verifies a signature against a digest: transforms the signature back
    /// and compares the point with that of the digest.
    pub fn verify_digest(&self, digest: &[u8], signature: &SpherePoint) -> (out: Result<
        bool,
        HMACError,
    >)
        ensures
            out == verified_digest(
                digest@,
                signature@,
                self.noise(),
                self.sbox(),
                self.pad_length(),
            ),
    {
        let hash_point = match map_bytes_to_sphere_point(digest, self.pad_length) {
            Ok(point) => point,
            Err(_) => {
                return Err(HMACError::VerifyError);
            },
        };
        if self.noise.len() / 3 != self.pad_length || self.noise.len() % 3 != 0 {
            return Err(HMACError::VerifyError);
        }
        if !signature.fits_width(self.pad_length) {
            return Err(HMACError::VerifyError);
        }
        let decrypted_point = match signature.restore_from_noise(
            self.noise.as_slice(),
            &self.sbox,
            self.pad_length,
        ) {
            Ok(point) => point,
            Err(_) => {
                return Err(HMACError::VerifyError);
            },
        };
        let same = big_eq(&decrypted_point.x, &hash_point.x) && big_eq(
            &decrypted_point.y,
            &hash_point.y,
        ) && big_eq(&decrypted_point.z, &hash_point.z);
        Ok(same)
    }

    /// Signs `data`: its SHAKE256 digest of 64 bytes is signed.
    pub fn sign(&self, data: &[u8]) -> (out: Result<SpherePoint, HMACError>)
        ensures
            match out {
                Ok(signature) => self.signed(data@) == Ok::<(nat, nat, nat), HMACError>(
                    signature@,
                ),
                Err(e) => self.signed(data@) == Err::<(nat, nat, nat), HMACError>(e),
            },
    {
        let hash_output = shake256_digest(data, DIGEST_LENGTH);
        self.sign_digest(hash_output.as_slice())
    }

    /// Verifies a signature of `data`: true exactly when the signature,
    /// transformed back, is the point of the digest of `data`.
    pub fn verify(&self, data: &[u8], signature: &SpherePoint) -> (out: Result<bool, HMACError>)
        ensures
            out == self.verified(data@, signature@),
    {
        let hash_output = shake256_digest(data, DIGEST_LENGTH);
        self.verify_digest(hash_output.as_slice(), signature)
    }
}

/// A signature verifies against the digest it was made for, and against
/// another digest exactly when the two digests map to the same point; this
/// under one noise, one well-formed box and one width.
pub proof fn lemma_verify_signed(
    signed_for: Seq<u8>,
    checked: Seq<u8>,
    noise: Seq<u8>,
    sbox: DynamicSBox,
    pad: nat,
)
    requires
        sbox.wf(),
        mappable(pad),
        noise.len() == 3 * pad,
    ensures
        signed_digest(signed_for, noise, sbox, pad) is Ok,
        verified_digest(
            checked,
            signed_digest(signed_for, noise, sbox, pad)->Ok_0,
            noise,
            sbox,
            pad,
        ) == Ok::<bool, HMACError>(mapped_point(signed_for, pad) == mapped_point(checked, pad)),
        verified_digest(
            signed_for,
            signed_digest(signed_for, noise, sbox, pad)->Ok_0,
            noise,
            sbox,
            pad,
        ) == Ok::<bool, HMACError>(true),
{
    lemma_point_bytes_of_mapped(signed_for, pad);
    lemma_restore_transformed_point(sbox, mapped_point(signed_for, pad), noise, pad);
}

/// Under one key pair that can sign and verify, the signature of some data
/// verifies against the same data, and against other data exactly when the
/// digests of the two map to the same point.
pub proof fn lemma_verify_own_signature(hmac: PmptHmac, signed_for: Seq<u8>, checked: Seq<u8>)
    requires
        hmac.wf(),
    ensures
        hmac.signed(signed_for) is Ok,
        hmac.verified(signed_for, hmac.signed(signed_for)->Ok_0) == Ok::<bool, HMACError>(true),
        hmac.verified(checked, hmac.signed(signed_for)->Ok_0) == Ok::<bool, HMACError>(
            mapped_point(shake256_output(signed_for, DIGEST_LENGTH as nat), hmac.pad_length())
                == mapped_point(shake256_output(checked, DIGEST_LENGTH as nat), hmac.pad_length()),
        ),
{
    lemma_verify_signed(
        shake256_output(signed_for, DIGEST_LENGTH as nat),
        shake256_output(checked, DIGEST_LENGTH as nat),
        hmac.noise(),
        hmac.sbox(),
        hmac.pad_length(),
    );
}

} // verus!
