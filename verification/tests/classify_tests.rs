use pmpt::bignat::BigNat;
use pmpt::classify::{
    classes_of, classify_prime, compute_n, is_germain_prime, is_safe_prime, PrimeClass,
};

#[test]
fn quadratic_form_at_small_points() {
    let zero = BigNat::from_u64(0);
    assert_eq!(compute_n(&zero, &zero, &zero), BigNat::from_u64(107));
    let n = compute_n(&BigNat::from_u64(1), &BigNat::from_u64(2), &BigNat::from_u64(3));
    assert_eq!(n, BigNat::from_u64(5 + 14 + 44 + 69 + 282 + 747 + 107));
    let n = compute_n(&BigNat::from_u64(3), &BigNat::from_u64(5), &BigNat::from_u64(7));
    assert_eq!(n, BigNat::from_u64(45 + 105 + 275 + 483 + 1645 + 4067 + 107));
}

#[test]
fn quadratic_form_at_large_points() {
    let big = BigNat::from_u64(u64::MAX);
    let n = compute_n(&big, &BigNat::from_u64(0), &BigNat::from_u64(0));
    let mut bytes = n.to_bytes_be();
    assert_eq!(bytes.len(), 17);
    let low = bytes.split_off(1);
    let square = u64::MAX as u128 * u64::MAX as u128;
    let (product, carry) = square.overflowing_mul(5);
    assert!(carry);
    assert_eq!(u128::from_be_bytes(low.try_into().unwrap()), product.wrapping_add(107));
    assert_eq!(bytes, vec![4u8]);
}

#[test]
fn germain_primes() {
    for p in [2u64, 3, 5, 11, 23, 29, 41] {
        assert!(is_germain_prime(&BigNat::from_u64(p)), "{}", p);
    }
    for p in [7u64, 13, 17, 19, 31] {
        assert!(!is_germain_prime(&BigNat::from_u64(p)), "{}", p);
    }
}

#[test]
fn safe_primes() {
    for p in [5u64, 7, 11, 23, 47, 59] {
        assert!(is_safe_prime(&BigNat::from_u64(p)), "{}", p);
    }
    for p in [0u64, 1, 2, 3, 13, 17, 19] {
        assert!(!is_safe_prime(&BigNat::from_u64(p)), "{}", p);
    }
}

#[test]
fn classes_stand_in_order() {
    assert_eq!(
        classes_of(true, true, true),
        vec![PrimeClass::Germain, PrimeClass::Safe, PrimeClass::Prime]
    );
    assert_eq!(classes_of(true, false, true), vec![PrimeClass::Germain, PrimeClass::Prime]);
    assert_eq!(classes_of(false, true, false), vec![PrimeClass::Safe]);
    assert!(classes_of(false, false, false).is_empty());
}

#[test]
fn classify_known_numbers() {
    assert_eq!(
        classify_prime(&BigNat::from_u64(23)),
        vec![PrimeClass::Germain, PrimeClass::Safe, PrimeClass::Prime]
    );
    assert_eq!(classify_prime(&BigNat::from_u64(13)), vec![PrimeClass::Prime]);
    assert_eq!(classify_prime(&BigNat::from_u64(7)), vec![PrimeClass::Safe, PrimeClass::Prime]);
    assert_eq!(
        classify_prime(&BigNat::from_u64(8)),
        vec![PrimeClass::Germain, PrimeClass::Safe]
    );
    assert_eq!(classify_prime(&BigNat::from_u64(9)), vec![PrimeClass::Germain]);
    assert!(classify_prime(&BigNat::from_u64(25)).is_empty());
}

#[test]
fn class_names() {
    assert_eq!(PrimeClass::Germain.name(), "Germain");
    assert_eq!(PrimeClass::Safe.name(), "Safe");
    assert_eq!(PrimeClass::Prime.name(), "Prime");
}
