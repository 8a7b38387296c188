use pmpt::bignat::BigNat;
use pmpt::errors::{DecryptionError, EncryptionError, NoiseError};
use pmpt::plaintext::{
    map_bytes_to_sphere_point, map_plaintext_to_sphere_point, map_sphere_point_to_plaintext,
};
use pmpt::point::{coordinate_bytes, pad_bytes, pad_length_for, SpherePoint};
use pmpt::sbox::DynamicSBox;
use rand::SeedableRng;
use rand_chacha::ChaCha20Rng;

fn rotation_box() -> DynamicSBox {
    let mut table = [0u8; 256];
    for i in 0..256usize {
        table[i] = ((i + 1) % 256) as u8;
    }
    DynamicSBox::from_table(&table).unwrap()
}

fn point_of(x: u64, y: u64, z: u64) -> SpherePoint {
    SpherePoint::new(BigNat::from_u64(x), BigNat::from_u64(y), BigNat::from_u64(z))
}

#[test]
fn pad_bytes_puts_zeros_in_front() {
    assert_eq!(pad_bytes(&[1, 2], 4), vec![0u8, 0, 1, 2]);
    assert_eq!(pad_bytes(&[1, 2], 2), vec![1u8, 2]);
    assert_eq!(pad_bytes(&[], 3), vec![0u8, 0, 0]);
}

#[test]
fn coordinate_bytes_at_a_width() {
    assert_eq!(coordinate_bytes(&BigNat::from_u64(258), 4), Some(vec![0u8, 0, 1, 2]));
    assert_eq!(coordinate_bytes(&BigNat::from_u64(258), 2), Some(vec![1u8, 2]));
    assert_eq!(coordinate_bytes(&BigNat::from_u64(258), 1), None);
    assert_eq!(coordinate_bytes(&BigNat::from_u64(0), 0), None);
    assert_eq!(coordinate_bytes(&BigNat::from_u64(0), 1), Some(vec![0u8]));
}

#[test]
fn fits_width_looks_at_every_coordinate() {
    assert!(point_of(255, 0, 1).fits_width(1));
    assert!(!point_of(255, 256, 1).fits_width(1));
    assert!(!point_of(0, 0, 0).fits_width(0));
}

#[test]
fn point_equality_is_by_value() {
    let padded = SpherePoint::new(
        BigNat::from_bytes_be(&[0, 1]),
        BigNat::from_bytes_be(&[0, 0, 2]),
        BigNat::from_bytes_be(&[3]),
    );
    assert!(padded == point_of(1, 2, 3));
    assert!(padded != point_of(1, 2, 4));
    assert!(padded.clone() == padded);
}

#[test]
fn map_bytes_cuts_three_chunks() {
    let point = map_bytes_to_sphere_point(b"abc", 2).unwrap();
    assert_eq!(point, point_of(0x6162, 0x6300, 0));
    let point = map_bytes_to_sphere_point(b"abcdefgh", 2).unwrap();
    assert_eq!(point, point_of(0x6162, 0x6364, 0x6566));
    let point = map_bytes_to_sphere_point(b"", 3).unwrap();
    assert_eq!(point, point_of(0, 0, 0));
}

#[test]
fn map_bytes_refuses_width_zero() {
    assert_eq!(
        map_bytes_to_sphere_point(b"abc", 0),
        Err(EncryptionError::PlaintextMappingFailed)
    );
    assert_eq!(
        map_bytes_to_sphere_point(b"abc", usize::MAX / 2),
        Err(EncryptionError::PlaintextMappingFailed)
    );
    assert_eq!(
        map_plaintext_to_sphere_point("abc", 0),
        Err(EncryptionError::PlaintextMappingFailed)
    );
}

#[test]
fn map_plaintext_uses_utf8_bytes() {
    let point = map_plaintext_to_sphere_point("h\u{e9}llo", 2).unwrap();
    assert_eq!(point, point_of(0x68c3, 0xa96c, 0x6c6f));
}

#[test]
fn point_to_plaintext_drops_trailing_zeros() {
    let text = map_sphere_point_to_plaintext(&point_of(0x6162, 0x6300, 0), 2);
    assert_eq!(text, Ok(String::from("abc")));
    let text = map_sphere_point_to_plaintext(&point_of(0, 0, 0), 2);
    assert_eq!(text, Ok(String::new()));
    let text = map_sphere_point_to_plaintext(&point_of(0, 0x61, 0), 2);
    assert_eq!(text, Ok(String::from("\0\0\0a")));
}

#[test]
fn point_to_plaintext_refuses_invalid_utf8() {
    let text = map_sphere_point_to_plaintext(&point_of(0xff, 0, 0), 1);
    assert_eq!(text, Err(DecryptionError::PlaintextReconstructionFailed));
}

#[test]
fn plaintext_survives_mapping_both_ways() {
    for text in ["", "a", "hello world", "gr\u{fc}\u{df}e", "\u{1f600}"] {
        let point = map_plaintext_to_sphere_point(text, 8).unwrap();
        assert_eq!(map_sphere_point_to_plaintext(&point, 8), Ok(String::from(text)));
    }
}

#[test]
fn transform_substitutes_then_adds_noise() {
    let sbox = rotation_box();
    let noise = [10u8, 20, 0, 0, 255, 254];
    let out = point_of(0x0102, 0, 0x00ff).transform_with_noise(&noise, &sbox, 2).unwrap();
    assert_eq!(out, point_of(0x0c17, 0x0101, 0x00fe));
}

#[test]
fn restore_subtracts_noise_then_substitutes_back() {
    let sbox = rotation_box();
    let noise = [10u8, 20, 0, 0, 255, 254];
    let out = point_of(0x0c17, 0x0101, 0x00fe).restore_from_noise(&noise, &sbox, 2).unwrap();
    assert_eq!(out, point_of(0x0102, 0, 0x00ff));
}

#[test]
fn transform_refuses_noise_of_wrong_length() {
    let sbox = rotation_box();
    let point = point_of(1, 2, 3);
    assert_eq!(
        point.transform_with_noise(&[0u8; 5], &sbox, 2),
        Err(NoiseError::InvalidHashOutput)
    );
    assert_eq!(
        point.transform_with_noise(&[0u8; 7], &sbox, 2),
        Err(NoiseError::InvalidHashOutput)
    );
    assert_eq!(
        point.restore_from_noise(&[0u8; 3], &sbox, 2),
        Err(NoiseError::InvalidHashOutput)
    );
    assert!(point.transform_with_noise(&[0u8; 6], &sbox, 2).is_ok());
}

#[test]
fn restore_undoes_transform() {
    let sbox = DynamicSBox::new(&mut ChaCha20Rng::seed_from_u64(3));
    let noise: Vec<u8> = (0..24usize).map(|i| (i * 37 + 11) as u8).collect();
    let point = point_of(0x0123_4567_89ab_cdef, 0, u64::MAX);
    let noised = point.transform_with_noise(&noise, &sbox, 8).unwrap();
    assert!(noised != point);
    assert!(noised.fits_width(8));
    assert_eq!(noised.restore_from_noise(&noise, &sbox, 8), Ok(point));
}

#[test]
fn pad_length_is_the_byte_length_of_the_modulus() {
    assert_eq!(pad_length_for(&BigNat::from_u64(0)), 0);
    assert_eq!(pad_length_for(&BigNat::from_u64(1)), 1);
    assert_eq!(pad_length_for(&BigNat::from_u64(255)), 1);
    assert_eq!(pad_length_for(&BigNat::from_u64(256)), 2);
    assert_eq!(pad_length_for(&BigNat::from_u64(u64::MAX)), 8);
    assert_eq!(pad_length_for(&BigNat::from_bytes_be(&[0, 0, 1, 0, 0, 0, 0, 0, 0, 0, 0])), 9);
    assert_eq!(pad_length_for(&BigNat::from_bytes_be(&[])), 0);
}
