use pmpt::bignat::BigNat;
use pmpt::primality::{generate_large_prime, is_probably_prime};
use pmpt::shamir::{
    evaluate_polynomial, next_probable_prime, polynomial_shares, shamir_reconstruct,
    shamir_split_shares, shamir_split_shares_with, verify_share_primality,
};
use num_bigint::{BigUint, RandBigInt};
use rand::SeedableRng;
use rand_chacha::ChaCha20Rng;

fn numbers(values: &[u64]) -> Vec<BigNat> {
    values.iter().map(|&v| BigNat::from_u64(v)).collect()
}

fn pick(shares: &[(usize, BigNat)], indices: &[usize]) -> Vec<(usize, BigNat)> {
    indices.iter().map(|&i| shares[i - 1].clone()).collect()
}

#[test]
fn polynomial_is_evaluated_modulo() {
    let coefficients = numbers(&[5, 3, 2]);
    let modulus = BigNat::from_u64(97);
    assert_eq!(evaluate_polynomial(&coefficients, 0, &modulus), BigNat::from_u64(5));
    assert_eq!(evaluate_polynomial(&coefficients, 2, &modulus), BigNat::from_u64(19));
    assert_eq!(evaluate_polynomial(&coefficients, 10, &modulus), BigNat::from_u64(235 % 97));
    assert_eq!(evaluate_polynomial(&numbers(&[]), 3, &modulus), BigNat::from_u64(0));
    assert_eq!(evaluate_polynomial(&numbers(&[200]), 3, &modulus), BigNat::from_u64(6));
}

#[test]
fn polynomial_modulo_one_is_zero() {
    let coefficients = numbers(&[5, 3, 2]);
    let modulus = BigNat::from_u64(1);
    assert_eq!(evaluate_polynomial(&coefficients, 0, &modulus), BigNat::from_u64(0));
    assert_eq!(evaluate_polynomial(&coefficients, 7, &modulus), BigNat::from_u64(0));
    assert_eq!(evaluate_polynomial(&numbers(&[9]), 7, &BigNat::from_u64(2)), BigNat::from_u64(1));
}

#[test]
fn polynomial_shares_are_the_values_at_one_two_three() {
    let shares = polynomial_shares(&numbers(&[5, 3, 2]), 4, &BigNat::from_u64(97));
    let expected: Vec<(usize, BigNat)> = vec![
        (1, BigNat::from_u64(10)),
        (2, BigNat::from_u64(19)),
        (3, BigNat::from_u64(32)),
        (4, BigNat::from_u64(49)),
    ];
    assert_eq!(shares, expected);
    assert!(polynomial_shares(&numbers(&[5, 3, 2]), 0, &BigNat::from_u64(97)).is_empty());
}

#[test]
fn reconstruct_interpolates_a_line() {
    let shares = vec![(1usize, BigNat::from_u64(4)), (2usize, BigNat::from_u64(7))];
    assert_eq!(shamir_reconstruct(&shares, &BigNat::from_u64(11), 2), BigNat::from_u64(1));
    let shares = vec![(2usize, BigNat::from_u64(7)), (1usize, BigNat::from_u64(4))];
    assert_eq!(shamir_reconstruct(&shares, &BigNat::from_u64(11), 2), BigNat::from_u64(1));
}

#[test]
fn reconstruct_uses_the_values_it_is_given() {
    let modulus = BigNat::from_u64(97);
    let shares = polynomial_shares(&numbers(&[5, 3, 2]), 5, &modulus);
    let mut changed = pick(&shares, &[1, 2, 3]);
    assert_eq!(shamir_reconstruct(&changed, &modulus, 3), BigNat::from_u64(5));
    changed[0].1 = BigNat::from_u64(11);
    assert_eq!(shamir_reconstruct(&changed, &modulus, 3), BigNat::from_u64(8));
}

#[test]
fn reconstruct_with_indices_above_the_modulus() {
    let modulus = BigNat::from_u64(7);
    let shares = vec![(8usize, BigNat::from_u64(4)), (16usize, BigNat::from_u64(0))];
    assert_eq!(shamir_reconstruct(&shares, &modulus, 2), BigNat::from_u64(1));
}

#[test]
fn any_three_of_five_shares_give_the_secret() {
    let modulus = BigNat::from_u64(1_000_000_007);
    let secret = BigNat::from_u64(123_456_789);
    let coefficients = vec![secret.clone(), BigNat::from_u64(987_654_321), BigNat::from_u64(555)];
    let shares = polynomial_shares(&coefficients, 5, &modulus);
    for a in 1..=5usize {
        for b in 1..=5usize {
            for c in 1..=5usize {
                if a != b && b != c && a != c {
                    let chosen = pick(&shares, &[a, b, c]);
                    assert_eq!(shamir_reconstruct(&chosen, &modulus, 3), secret);
                }
            }
        }
    }
}

#[test]
fn split_then_reconstruct_sixty_four_bits() {
    let secret = generate_large_prime(64).unwrap();
    let modulus = generate_large_prime(128).unwrap();
    let mut rng = ChaCha20Rng::seed_from_u64(2024);
    let bound = BigUint::from_bytes_be(&modulus.bytes);
    let coefficients = vec![
        secret.clone(),
        BigNat::from_bytes_be(&rng.gen_biguint_below(&bound).to_bytes_be()),
        BigNat::from_bytes_be(&rng.gen_biguint_below(&bound).to_bytes_be()),
    ];
    let secret = BigNat::from_bytes_be(
        &(BigUint::from_bytes_be(&secret.bytes) % &bound).to_bytes_be(),
    );
    let shares = polynomial_shares(&coefficients, 5, &modulus);
    let first = shamir_reconstruct(&pick(&shares, &[1, 3, 5]), &modulus, 3);
    let second = shamir_reconstruct(&pick(&shares, &[2, 4, 5]), &modulus, 3);
    assert_eq!(first, secret);
    assert_eq!(second, secret);
}

#[test]
fn two_shares_of_three_do_not_give_the_secret() {
    let modulus = BigNat::from_u64(1_000_000_007);
    let coefficients = numbers(&[123_456_789, 987_654_321, 555]);
    let shares = polynomial_shares(&coefficients, 5, &modulus);
    let guess = shamir_reconstruct(&pick(&shares, &[1, 2]), &modulus, 2);
    assert_ne!(guess, BigNat::from_u64(123_456_789));
}

#[test]
fn next_probable_prime_steps_upwards() {
    let mut rng = ChaCha20Rng::seed_from_u64(1);
    let modulus = BigNat::from_u64(100);
    assert_eq!(next_probable_prime(BigNat::from_u64(8), &modulus, &mut rng), BigNat::from_u64(11));
    assert_eq!(next_probable_prime(BigNat::from_u64(11), &modulus, &mut rng), BigNat::from_u64(11));
    assert_eq!(next_probable_prime(BigNat::from_u64(90), &modulus, &mut rng), BigNat::from_u64(97));
}

#[test]
fn next_probable_prime_goes_round_the_modulus() {
    let mut rng = ChaCha20Rng::seed_from_u64(1);
    let modulus = BigNat::from_u64(100);
    assert_eq!(next_probable_prime(BigNat::from_u64(98), &modulus, &mut rng), BigNat::from_u64(2));
    assert_eq!(next_probable_prime(BigNat::from_u64(0), &modulus, &mut rng), BigNat::from_u64(2));
    assert_eq!(next_probable_prime(BigNat::from_u64(250), &modulus, &mut rng), BigNat::from_u64(53));
    assert_eq!(next_probable_prime(BigNat::from_u64(251), &modulus, &mut rng), BigNat::from_u64(251));
}

#[test]
fn split_gives_one_probable_prime_for_each_index() {
    let secret = BigNat::from_u64(0x1234_5678_9abc_def1);
    let modulus = generate_large_prime(128).unwrap();
    let shares = shamir_split_shares(&secret, 3, 5, &modulus);
    assert_eq!(shares.len(), 5);
    for (i, (x, y)) in shares.iter().enumerate() {
        assert_eq!(*x, i + 1);
        assert!(is_probably_prime(y, 10));
    }
}

#[test]
fn split_with_the_same_seed_gives_the_same_polynomial() {
    let secret = BigNat::from_u64(41);
    let modulus = BigNat::from_u64(1_000_000_007);
    let first = shamir_split_shares_with(&mut ChaCha20Rng::seed_from_u64(8), &secret, 2, 4, &modulus);
    let second = shamir_split_shares_with(&mut ChaCha20Rng::seed_from_u64(8), &secret, 2, 4, &modulus);
    assert_eq!(first.len(), 4);
    assert_eq!(first[0].1, second[0].1);
    assert_ne!(first[0].1, first[1].1);
    let other = shamir_split_shares_with(&mut ChaCha20Rng::seed_from_u64(9), &secret, 2, 4, &modulus);
    assert_ne!(first[0].1, other[0].1);
}

#[test]
fn split_shares_lie_at_or_after_the_polynomial() {
    let secret = BigNat::from_u64(1000);
    let modulus = BigNat::from_u64(1_000_000_007);
    let mut rng = ChaCha20Rng::seed_from_u64(12);
    let bound = BigUint::from(1_000_000_007u64);
    let coefficient = rng.gen_biguint_below(&bound);
    let shares = shamir_split_shares_with(&mut ChaCha20Rng::seed_from_u64(12), &secret, 2, 3, &modulus);
    for (x, y) in shares.iter() {
        let raw = (BigUint::from(1000u64) + &coefficient * BigUint::from(*x as u64)) % &bound;
        let adjusted = BigUint::from_bytes_be(&y.bytes);
        let gap = (adjusted + &bound - raw) % &bound;
        assert!(gap < BigUint::from(1000u64));
    }
}

#[test]
fn share_primality_is_reported_by_index() {
    let shares = vec![
        (1usize, BigNat::from_u64(11)),
        (2usize, BigNat::from_u64(12)),
        (5usize, BigNat::from_u64(104729)),
        (9usize, BigNat::from_u64(341)),
    ];
    assert_eq!(
        verify_share_primality(&shares),
        vec![(1usize, true), (2usize, false), (5usize, true), (9usize, false)]
    );
    assert!(verify_share_primality(&[]).is_empty());
}

#[test]
fn stepped_shares_do_not_give_the_secret() {
    let modulus = BigNat::from_u64(97);
    let mut rng = ChaCha20Rng::seed_from_u64(3);
    let raw = polynomial_shares(&numbers(&[5, 3, 2]), 3, &modulus);
    let stepped: Vec<(usize, BigNat)> = raw
        .iter()
        .map(|(x, y)| (*x, next_probable_prime(y.clone(), &modulus, &mut rng)))
        .collect();
    let expected: Vec<(usize, BigNat)> = vec![
        (1, BigNat::from_u64(11)),
        (2, BigNat::from_u64(19)),
        (3, BigNat::from_u64(37)),
    ];
    assert_eq!(stepped, expected);
    assert_eq!(shamir_reconstruct(&raw, &modulus, 3), BigNat::from_u64(5));
    assert_eq!(shamir_reconstruct(&stepped, &modulus, 3), BigNat::from_u64(13));
}
