use pmpt::bignat::BigNat;

#[test]
fn from_u64_gives_shortest_bytes() {
    assert_eq!(BigNat::from_u64(1125).to_bytes_be(), vec![4u8, 101]);
    assert_eq!(BigNat::from_u64(255).to_bytes_be(), vec![255u8]);
    assert_eq!(BigNat::from_u64(256).to_bytes_be(), vec![1u8, 0]);
}

#[test]
fn zero_is_one_zero_byte() {
    assert_eq!(BigNat::from_u64(0).to_bytes_be(), vec![0u8]);
    assert_eq!(BigNat::from_bytes_be(&[]).to_bytes_be(), vec![0u8]);
}

#[test]
fn from_bytes_be_keeps_the_bytes() {
    let number = BigNat::from_bytes_be(&[0, 0, 4, 101]);
    assert_eq!(number.bytes, vec![0u8, 0, 4, 101]);
    assert_eq!(number.to_bytes_be(), vec![4u8, 101]);
}

#[test]
fn equality_is_by_value() {
    let padded = BigNat::from_bytes_be(&[0, 0, 4, 101]);
    let plain = BigNat::from_u64(1125);
    assert!(padded == plain);
    assert!(padded != BigNat::from_u64(1126));
    assert!(BigNat { bytes: vec![] } == BigNat::from_u64(0));
}

#[test]
fn from_bytes_be_reads_text_as_a_number() {
    let number = BigNat::from_bytes_be(b"AB");
    assert_eq!(number, BigNat::from_u64(16706));
}

#[test]
fn clone_keeps_the_value() {
    let number = BigNat::from_u64(0xdead_beef);
    let copy = number.clone();
    assert_eq!(copy, number);
    assert_eq!(copy.bytes, number.bytes);
}

#[test]
fn zero_is_recognised() {
    assert!(BigNat::from_u64(0).is_zero());
    assert!(BigNat::from_bytes_be(&[0, 0, 0]).is_zero());
    assert!(BigNat::from_bytes_be(&[]).is_zero());
    assert!(!BigNat::from_u64(1).is_zero());
    assert!(!BigNat::from_bytes_be(&[1, 0]).is_zero());
}

#[test]
fn numbers_are_ordered_by_value() {
    assert!(BigNat::from_u64(2).is_less_than(&BigNat::from_u64(3)));
    assert!(!BigNat::from_u64(3).is_less_than(&BigNat::from_u64(3)));
    assert!(!BigNat::from_u64(4).is_less_than(&BigNat::from_u64(3)));
    assert!(BigNat::from_bytes_be(&[0, 0, 255]).is_less_than(&BigNat::from_bytes_be(&[1, 0])));
    assert!(BigNat::from_u64(u64::MAX).is_less_than(&BigNat::from_bytes_be(&[1, 0, 0, 0, 0, 0, 0, 0, 0])));
}
