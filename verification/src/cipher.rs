//! Encryption and decryption. A text is mapped to a point, the point is
//! transformed under the noise of the private key, and a ring tag binds the
//! result to the public key.
//!
//! The noise is handed in as bytes, one for each byte of the three
//! coordinates. It is drawn by the caller from a generator that is seeded
//! with `noise_seed` of the private key, so that the two sides of an exchange
//! arrive at the same bytes.

use vstd::prelude::*;
use vstd::utf8::{decode_utf8, encode_utf8, valid_utf8};
use crate::bignat::{big_eq, BigNat};
use crate::encoding::canonical_bytes;
use crate::errors::{DecryptionError, EncryptionError, NoiseError};
use crate::hashing::{seed_from_digest, sha3_512, sha3_512_digest, SEED_LENGTH};
use crate::plaintext::{
    map_plaintext_to_sphere_point, map_sphere_point_to_plaintext, mappable, mapped_point,
    point_bytes, trim_trailing_zeros, lemma_point_bytes_of_mapped, lemma_trim_padded,
};
use crate::point::{
    point_fits, restored_point, transformed_point, SpherePoint, lemma_restore_transformed_point,
};
use crate::ring::{ring_tag, ring_value_of};
use crate::sbox::DynamicSBox;

verus! {

/// A ring tag together with the coordinates of a transformed point.
#[derive(Debug)]
pub struct Ciphertext {
    pub r: BigNat,
    pub x_s: BigNat,
    pub y_s: BigNat,
    pub z_s: BigNat,
}

impl View for Ciphertext {
    type V = (nat, (nat, nat, nat));

    /// The tag, and the point.
    open spec fn view(&self) -> (nat, (nat, nat, nat)) {
        (self.r@, (self.x_s@, self.y_s@, self.z_s@))
    }
}

impl Clone for Ciphertext {
    fn clone(&self) -> (copy: Self)
        ensures
            copy@ == self@,
    {
        Ciphertext {
            r: self.r.clone(),
            x_s: self.x_s.clone(),
            y_s: self.y_s.clone(),
            z_s: self.z_s.clone(),
        }
    }
}

/// The bytes that are hashed for the seed of a key's noise: the shortest
/// strings of its coordinates, one after the other.
pub open spec fn seed_material(key: (nat, nat, nat)) -> Seq<u8> {
    canonical_bytes(key.0) + canonical_bytes(key.1) + canonical_bytes(key.2)
}

/// The seed of a key's noise: the first 32 bytes of the SHA3-512 digest of
/// its coordinates.
pub open spec fn noise_seed_of(key: (nat, nat, nat)) -> Seq<u8> {
    sha3_512(seed_material(key)).subrange(0, SEED_LENGTH as int)
}

/// What encryption gives.
pub open spec fn encrypted(
    text: Seq<char>,
    public_key: (nat, nat, nat),
    noise: Seq<u8>,
    sbox: DynamicSBox,
    pad: nat,
    modulus: nat,
) -> Result<(nat, (nat, nat, nat)), EncryptionError> {
    if !mappable(pad) {
        Err(EncryptionError::PlaintextMappingFailed)
    } else if noise.len() != 3 * pad {
        Err(EncryptionError::EncryptionFailed)
    } else {
        let point = transformed_point(sbox, mapped_point(encode_utf8(text), pad), noise, pad);
        Ok((ring_tag(public_key, point, modulus), point))
    }
}

/// What decryption gives.
pub open spec fn decrypted(
    ciphertext: (nat, (nat, nat, nat)),
    public_key: (nat, nat, nat),
    noise: Seq<u8>,
    sbox: DynamicSBox,
    pad: nat,
    modulus: nat,
) -> Result<Seq<char>, DecryptionError> {
    if ciphertext.0 != ring_tag(public_key, ciphertext.1, modulus) {
        Err(DecryptionError::RingValidationFailed)
    } else if noise.len() != 3 * pad {
        Err(DecryptionError::NoiseRemovalFailed(NoiseError::InvalidHashOutput))
    } else if !point_fits(ciphertext.1, pad) {
        Err(DecryptionError::InvalidCiphertext)
    } else {
        let bytes = trim_trailing_zeros(
            point_bytes(restored_point(sbox, ciphertext.1, noise, pad), pad),
        );
        if valid_utf8(bytes) {
            Ok(decode_utf8(bytes))
        } else {
            Err(DecryptionError::PlaintextReconstructionFailed)
        }
    }
}

/// The seed of the noise of a private key.
pub fn noise_seed(private_key: &SpherePoint) -> (seed: Vec<u8>)
    ensures
        seed@ == noise_seed_of(private_key@),
        seed@.len() == SEED_LENGTH,
{
    let mut material = private_key.x.to_bytes_be();
    let mut y_bytes = private_key.y.to_bytes_be();
    let mut z_bytes = private_key.z.to_bytes_be();
    material.append(&mut y_bytes);
    material.append(&mut z_bytes);
    let digest = sha3_512_digest(material.as_slice());
    seed_from_digest(digest.as_slice()).unwrap()
}

/// Encrypts a text for the holder of a key pair.
pub fn encrypt(
    plaintext: &str,
    public_key: &SpherePoint,
    noise: &[u8],
    sbox: &DynamicSBox,
    pad_length: usize,
    modulus: &BigNat,
) -> (out: Result<Ciphertext, EncryptionError>)
    requires
        modulus@ > 0,
    ensures
        match out {
            Ok(ciphertext) => encrypted(
                plaintext@,
                public_key@,
                noise@,
                *sbox,
                pad_length as nat,
                modulus@,
            ) == Ok::<(nat, (nat, nat, nat)), EncryptionError>(ciphertext@),
            Err(e) => encrypted(
                plaintext@,
                public_key@,
                noise@,
                *sbox,
                pad_length as nat,
                modulus@,
            ) == Err::<(nat, (nat, nat, nat)), EncryptionError>(e),
        },
{
    let mapped_point = match map_plaintext_to_sphere_point(plaintext, pad_length) {
        Ok(point) => point,
        Err(_) => {
            return Err(EncryptionError::PlaintextMappingFailed);
        },
    };
    let substituted_point = match mapped_point.transform_with_noise(noise, sbox, pad_length) {
        Ok(point) => point,
        Err(_) => {
            return Err(EncryptionError::EncryptionFailed);
        },
    };
    let ring_value = ring_value_of(public_key, &substituted_point, modulus);
    Ok(
        Ciphertext {
            r: ring_value,
            x_s: substituted_point.x,
            y_s: substituted_point.y,
            z_s: substituted_point.z,
        },
    )
}

/// Decrypts a ciphertext. The ring tag is checked first, and nothing else is
/// done where it does not match.
pub fn decrypt(
    ciphertext: &Ciphertext,
    public_key: &SpherePoint,
    noise: &[u8],
    sbox: &DynamicSBox,
    pad_length: usize,
    modulus: &BigNat,
) -> (out: Result<String, DecryptionError>)
    requires
        modulus@ > 0,
    ensures
        match out {
            Ok(text) => decrypted(
                ciphertext@,
                public_key@,
                noise@,
                *sbox,
                pad_length as nat,
                modulus@,
            ) == Ok::<Seq<char>, DecryptionError>(text@),
            Err(e) => decrypted(
                ciphertext@,
                public_key@,
                noise@,
                *sbox,
                pad_length as nat,
                modulus@,
            ) == Err::<Seq<char>, DecryptionError>(e),
        },
{
    let substituted_point = SpherePoint::new(
        ciphertext.x_s.clone(),
        ciphertext.y_s.clone(),
        ciphertext.z_s.clone(),
    );
    let computed_ring = ring_value_of(public_key, &substituted_point, modulus);
    if !big_eq(&computed_ring, &ciphertext.r) {
        return Err(DecryptionError::RingValidationFailed);
    }
    if noise.len() / 3 != pad_length || noise.len() % 3 != 0 {
        return Err(DecryptionError::NoiseRemovalFailed(NoiseError::InvalidHashOutput));
    }
    if !substituted_point.fits_width(pad_length) {
        return Err(DecryptionError::InvalidCiphertext);
    }
    let decrypted_point = match substituted_point.restore_from_noise(noise, sbox, pad_length) {
        Ok(point) => point,
        Err(e) => {
            return Err(DecryptionError::NoiseRemovalFailed(e));
        },
    };
    map_sphere_point_to_plaintext(&decrypted_point, pad_length)
}

/// The tag of an encryption is the tag of its coordinates under the public
/// key: the ciphertext comes through the validation of its tag.
pub proof fn lemma_encrypted_tag_validates(
    text: Seq<char>,
    public_key: (nat, nat, nat),
    noise: Seq<u8>,
    sbox: DynamicSBox,
    pad: nat,
    modulus: nat,
)
    requires
        encrypted(text, public_key, noise, sbox, pad, modulus) is Ok,
    ensures
        ({
            let ciphertext = encrypted(text, public_key, noise, sbox, pad, modulus)->Ok_0;
            ciphertext.0 == ring_tag(public_key, ciphertext.1, modulus)
        }),
{
}

/// A ciphertext whose tag is not the tag of its own coordinates under the
/// public key is refused as such, whatever else holds of it. So a change to
/// the coordinates is caught unless the tag of the changed coordinates
/// happens to be the old tag.
pub proof fn lemma_changed_ciphertext_is_refused(
    ciphertext: (nat, (nat, nat, nat)),
    changed: (nat, nat, nat),
    public_key: (nat, nat, nat),
    noise: Seq<u8>,
    sbox: DynamicSBox,
    pad: nat,
    modulus: nat,
)
    requires
        ring_tag(public_key, changed, modulus) != ciphertext.0,
    ensures
        decrypted((ciphertext.0, changed), public_key, noise, sbox, pad, modulus) == Err::<
            Seq<char>,
            DecryptionError,
        >(DecryptionError::RingValidationFailed),
{
}

/// Decryption gives back the text that was encrypted, under the same public
/// key, noise, box, width and modulus, where the box is well formed, the
/// noise has one byte for each byte of the three coordinates, and the text
/// has room in them and does not end in a NUL character.
pub proof fn lemma_decrypt_encrypt(
    text: Seq<char>,
    public_key: (nat, nat, nat),
    noise: Seq<u8>,
    sbox: DynamicSBox,
    pad: nat,
    modulus: nat,
)
    requires
        sbox.wf(),
        mappable(pad),
        noise.len() == 3 * pad,
        encode_utf8(text).len() <= 3 * pad,
        encode_utf8(text).len() == 0 || encode_utf8(text).last() != 0,
    ensures
        encrypted(text, public_key, noise, sbox, pad, modulus) is Ok,
        decrypted(
            encrypted(text, public_key, noise, sbox, pad, modulus)->Ok_0,
            public_key,
            noise,
            sbox,
            pad,
            modulus,
        ) == Ok::<Seq<char>, DecryptionError>(text),
{
    let data = encode_utf8(text);
    let mapped = mapped_point(data, pad);
    lemma_point_bytes_of_mapped(data, pad);
    lemma_restore_transformed_point(sbox, mapped, noise, pad);
    lemma_trim_padded(data, pad);
    vstd::utf8::encode_utf8_valid_utf8(text);
    vstd::utf8::encode_utf8_decode_utf8(text);
}

} // verus!
