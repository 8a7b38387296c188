use pmpt::bignat::BigNat;
use pmpt::cipher::{decrypt, encrypt, noise_seed, Ciphertext};
use pmpt::errors::{DecryptionError, EncryptionError, NoiseError};
use pmpt::hashing::seed_from_digest;
use pmpt::point::SpherePoint;
use pmpt::ring::{perturbed_ring_values, ring_value_of, RingMetadata};
use pmpt::sbox::DynamicSBox;
use rand::SeedableRng;
use rand_chacha::ChaCha20Rng;
use rand_distr::{Distribution, Normal};
use sha3::{Digest, Sha3_512};

fn cipher_rotation_box() -> DynamicSBox {
    let mut table = [0u8; 256];
    for i in 0..256usize {
        table[i] = ((i + 1) % 256) as u8;
    }
    DynamicSBox::from_table(&table).unwrap()
}

fn cipher_point(x: u64, y: u64, z: u64) -> SpherePoint {
    SpherePoint::new(BigNat::from_u64(x), BigNat::from_u64(y), BigNat::from_u64(z))
}

fn gaussian_noise(private_key: &SpherePoint, count: usize) -> Vec<u8> {
    let seed: [u8; 32] = noise_seed(private_key).try_into().unwrap();
    let mut rng = ChaCha20Rng::from_seed(seed);
    let normal = Normal::new(0.0, 1.0).unwrap();
    (0..count)
        .map(|_| {
            let sample: f64 = normal.sample(&mut rng);
            sample.round().rem_euclid(256.0) as u8
        })
        .collect()
}

#[test]
fn ring_tag_is_the_inner_product_modulo() {
    let tag = ring_value_of(&cipher_point(1, 2, 3), &cipher_point(4, 5, 6), &BigNat::from_u64(7));
    assert_eq!(tag, BigNat::from_u64(4));
    let tag = RingMetadata::generate(
        &cipher_point(1, 2, 3),
        &cipher_point(4, 5, 6),
        &BigNat::from_u64(1000),
    );
    assert_eq!(tag.ring_value, BigNat::from_u64(32));
}

#[test]
fn ring_tag_holds_for_large_numbers() {
    let big = u64::MAX;
    let tag = ring_value_of(
        &cipher_point(big, big, big),
        &cipher_point(big, big, big),
        &BigNat::from_u64(1_000_000_007),
    );
    let square = (big as u128 % 1_000_000_007) * (big as u128 % 1_000_000_007) % 1_000_000_007;
    assert_eq!(tag, BigNat::from_u64((3 * square % 1_000_000_007) as u64));
}

#[test]
fn ring_validate_compares_with_the_tag() {
    let public = cipher_point(11, 22, 33);
    let other = cipher_point(5, 6, 7);
    let modulus = BigNat::from_u64(101);
    let tag = RingMetadata::generate(&public, &other, &modulus);
    assert!(tag.validate(&public, &other, &modulus));
    assert!(!tag.validate(&public, &cipher_point(5, 6, 8), &modulus));
    let wrong = RingMetadata { ring_value: BigNat::from_u64(100) };
    assert!(!wrong.validate(&public, &other, &modulus));
}

#[test]
fn seed_is_the_first_half_of_the_digest() {
    let digest: Vec<u8> = (0..64u8).collect();
    assert_eq!(seed_from_digest(&digest), Ok((0..32u8).collect::<Vec<u8>>()));
    assert_eq!(seed_from_digest(&digest[..32]), Ok((0..32u8).collect::<Vec<u8>>()));
}

#[test]
fn seed_needs_thirty_two_bytes() {
    assert_eq!(seed_from_digest(&[0u8; 31]), Err(NoiseError::InvalidHashOutput));
    assert_eq!(seed_from_digest(&[]), Err(NoiseError::InvalidHashOutput));
}

#[test]
fn noise_seed_hashes_the_coordinates() {
    let key = SpherePoint::new(
        BigNat::from_bytes_be(&[0, 0, 1, 2]),
        BigNat::from_u64(0),
        BigNat::from_u64(0x0304),
    );
    let mut hasher = Sha3_512::new();
    hasher.update([1u8, 2]);
    hasher.update([0u8]);
    hasher.update([3u8, 4]);
    let expected = hasher.finalize();
    assert_eq!(noise_seed(&key), expected[..32].to_vec());
}

#[test]
fn noise_seed_of_zero_point() {
    let seed = noise_seed(&cipher_point(0, 0, 0));
    assert_eq!(seed.len(), 32);
    assert_eq!(seed, Sha3_512::digest([0u8, 0, 0])[..32].to_vec());
    assert_ne!(seed, noise_seed(&cipher_point(0, 0, 1)));
}

#[test]
fn encrypt_maps_transforms_and_tags() {
    let sbox = cipher_rotation_box();
    let ciphertext = encrypt(
        "A",
        &cipher_point(2, 3, 5),
        &[1, 2, 3],
        &sbox,
        1,
        &BigNat::from_u64(97),
    )
    .unwrap();
    assert_eq!(ciphertext.x_s, BigNat::from_u64(0x43));
    assert_eq!(ciphertext.y_s, BigNat::from_u64(3));
    assert_eq!(ciphertext.z_s, BigNat::from_u64(4));
    assert_eq!(ciphertext.r, BigNat::from_u64(66));
}

#[test]
fn encrypt_refuses_width_zero() {
    let out = encrypt(
        "A",
        &cipher_point(2, 3, 5),
        &[],
        &cipher_rotation_box(),
        0,
        &BigNat::from_u64(97),
    );
    assert_eq!(out.err(), Some(EncryptionError::PlaintextMappingFailed));
}

#[test]
fn encrypt_refuses_noise_of_wrong_length() {
    let out = encrypt(
        "A",
        &cipher_point(2, 3, 5),
        &[1, 2],
        &cipher_rotation_box(),
        1,
        &BigNat::from_u64(97),
    );
    assert_eq!(out.err(), Some(EncryptionError::EncryptionFailed));
}

#[test]
fn decrypt_gives_back_the_text() {
    let sbox = DynamicSBox::new(&mut ChaCha20Rng::seed_from_u64(11));
    let public = cipher_point(0x1111_2222_3333_4444, 0x5555, 0x6666_7777);
    let private = cipher_point(0x9999_aaaa, 0xbbbb_cccc_dddd, 0xeeee);
    let modulus = BigNat::from_u64(0xffff_ffff_ffff_ffc5);
    let pad_length = 16;
    let noise = gaussian_noise(&private, 3 * pad_length);
    for text in ["", "x", "attack at dawn", "gr\u{fc}\u{df}e \u{1f600}", "0123456789abcdef0123456789abcdef0123456789abcdef"] {
        let ciphertext = encrypt(text, &public, &noise, &sbox, pad_length, &modulus).unwrap();
        let plain = decrypt(&ciphertext, &public, &noise, &sbox, pad_length, &modulus);
        assert_eq!(plain, Ok(String::from(text)));
    }
}

#[test]
fn decrypt_cuts_text_that_is_too_long() {
    let sbox = cipher_rotation_box();
    let public = cipher_point(1, 2, 3);
    let modulus = BigNat::from_u64(1_000_003);
    let noise = [7u8; 6];
    let ciphertext = encrypt("abcdefgh", &public, &noise, &sbox, 2, &modulus).unwrap();
    let plain = decrypt(&ciphertext, &public, &noise, &sbox, 2, &modulus);
    assert_eq!(plain, Ok(String::from("abcdef")));
}

#[test]
fn decrypt_refuses_a_changed_coordinate() {
    let sbox = cipher_rotation_box();
    let public = cipher_point(2, 3, 5);
    let modulus = BigNat::from_u64(97);
    let noise = [1u8, 2, 3];
    let ciphertext = encrypt("A", &public, &noise, &sbox, 1, &modulus).unwrap();
    for bit in 0..7 {
        let mut changed = ciphertext.clone();
        changed.x_s = BigNat::from_u64(0x43 ^ (1 << bit));
        let out = decrypt(&changed, &public, &noise, &sbox, 1, &modulus);
        assert_eq!(out, Err(DecryptionError::RingValidationFailed));
    }
    let mut changed = ciphertext.clone();
    changed.r = BigNat::from_u64(65);
    let out = decrypt(&changed, &public, &noise, &sbox, 1, &modulus);
    assert_eq!(out, Err(DecryptionError::RingValidationFailed));
}

#[test]
fn decrypt_checks_the_tag_before_anything_else() {
    let ciphertext = Ciphertext {
        r: BigNat::from_u64(1),
        x_s: BigNat::from_u64(70000),
        y_s: BigNat::from_u64(0),
        z_s: BigNat::from_u64(0),
    };
    let out = decrypt(
        &ciphertext,
        &cipher_point(2, 3, 5),
        &[0u8; 2],
        &cipher_rotation_box(),
        1,
        &BigNat::from_u64(97),
    );
    assert_eq!(out, Err(DecryptionError::RingValidationFailed));
}

#[test]
fn decrypt_refuses_noise_of_wrong_length() {
    let public = cipher_point(2, 3, 5);
    let modulus = BigNat::from_u64(97);
    let point = cipher_point(70000, 3, 4);
    let ciphertext = Ciphertext {
        r: ring_value_of(&public, &point, &modulus),
        x_s: point.x.clone(),
        y_s: point.y.clone(),
        z_s: point.z.clone(),
    };
    let out = decrypt(&ciphertext, &public, &[0u8; 2], &cipher_rotation_box(), 1, &modulus);
    assert_eq!(out, Err(DecryptionError::NoiseRemovalFailed(NoiseError::InvalidHashOutput)));
}

#[test]
fn decrypt_refuses_a_coordinate_that_is_too_wide() {
    let public = cipher_point(2, 3, 5);
    let modulus = BigNat::from_u64(97);
    let point = cipher_point(3, 256, 4);
    let ciphertext = Ciphertext {
        r: ring_value_of(&public, &point, &modulus),
        x_s: point.x.clone(),
        y_s: point.y.clone(),
        z_s: point.z.clone(),
    };
    let out = decrypt(&ciphertext, &public, &[0u8; 3], &cipher_rotation_box(), 1, &modulus);
    assert_eq!(out, Err(DecryptionError::InvalidCiphertext));
}

#[test]
fn decrypt_refuses_bytes_that_are_no_text() {
    let public = cipher_point(2, 3, 5);
    let modulus = BigNat::from_u64(97);
    let point = cipher_point(0, 1, 1);
    let ciphertext = Ciphertext {
        r: ring_value_of(&public, &point, &modulus),
        x_s: point.x.clone(),
        y_s: point.y.clone(),
        z_s: point.z.clone(),
    };
    let out = decrypt(&ciphertext, &public, &[0u8; 3], &cipher_rotation_box(), 1, &modulus);
    assert_eq!(out, Err(DecryptionError::PlaintextReconstructionFailed));
}

#[test]
fn decrypt_with_other_noise_does_not_give_the_text() {
    let sbox = DynamicSBox::new(&mut ChaCha20Rng::seed_from_u64(5));
    let public = cipher_point(21, 34, 55);
    let modulus = BigNat::from_u64(1_000_000_007);
    let noise = gaussian_noise(&cipher_point(1, 2, 3), 24);
    let other = gaussian_noise(&cipher_point(1, 2, 4), 24);
    assert_ne!(noise, other);
    let ciphertext = encrypt("secret text", &public, &noise, &sbox, 8, &modulus).unwrap();
    let out = decrypt(&ciphertext, &public, &other, &sbox, 8, &modulus);
    assert_ne!(out, Ok(String::from("secret text")));
}

#[test]
fn perturbed_ring_values_add_one_two_three() {
    let points = vec![cipher_point(1, 2, 3), cipher_point(0, 0, 0), cipher_point(10, 20, 30)];
    let tags = perturbed_ring_values(&points, &BigNat::from_u64(1000));
    let expected = vec![
        BigNat::from_u64(1 * 2 + 2 * 4 + 3 * 6),
        BigNat::from_u64(0),
        BigNat::from_u64((10 * 11 + 20 * 22 + 30 * 33) % 1000),
    ];
    assert_eq!(tags, expected);
    assert!(perturbed_ring_values(&Vec::new(), &BigNat::from_u64(7)).is_empty());
}

#[test]
fn decrypt_drops_nul_characters_at_the_end() {
    let sbox = cipher_rotation_box();
    let public = cipher_point(1, 2, 3);
    let modulus = BigNat::from_u64(1_000_003);
    let noise = [9u8; 12];
    let ciphertext = encrypt("ab\0\0", &public, &noise, &sbox, 4, &modulus).unwrap();
    let plain = decrypt(&ciphertext, &public, &noise, &sbox, 4, &modulus);
    assert_eq!(plain, Ok(String::from("ab")));
    let ciphertext = encrypt("a\0b", &public, &noise, &sbox, 4, &modulus).unwrap();
    let plain = decrypt(&ciphertext, &public, &noise, &sbox, 4, &modulus);
    assert_eq!(plain, Ok(String::from("a\0b")));
}

#[test]
fn encrypted_tag_validates() {
    let sbox = DynamicSBox::new(&mut ChaCha20Rng::seed_from_u64(77));
    let public = cipher_point(0xabcdef, 0x123456, 0x777);
    let modulus = BigNat::from_u64(0xffff_fffb);
    let noise = gaussian_noise(&cipher_point(5, 6, 7), 12);
    let ciphertext = encrypt("tagged", &public, &noise, &sbox, 4, &modulus).unwrap();
    let point = SpherePoint::new(
        ciphertext.x_s.clone(),
        ciphertext.y_s.clone(),
        ciphertext.z_s.clone(),
    );
    let tag = RingMetadata { ring_value: ciphertext.r.clone() };
    assert!(tag.validate(&public, &point, &modulus));
    assert!(ciphertext.r.is_less_than(&modulus));
}
