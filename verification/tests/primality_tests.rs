use pmpt::bignat::BigNat;
use pmpt::primality::{
    find_probable_prime, generate_large_prime, is_probably_prime, is_probably_prime_with,
    miller_rabin_round, prime_candidate, probable_prime_at_or_below,
};
use rand::SeedableRng;
use rand_chacha::ChaCha20Rng;

fn trial_division_prime(n: u64) -> bool {
    if n < 2 {
        return false;
    }
    let mut d = 2u64;
    while d * d <= n {
        if n % d == 0 {
            return false;
        }
        d += 1;
    }
    true
}

fn small_value(n: &BigNat) -> u64 {
    n.to_bytes_be().iter().fold(0u64, |acc, &b| acc * 256 + b as u64)
}

#[test]
fn small_primes_are_accepted() {
    for p in [2u64, 3, 5, 7, 11, 13, 97, 7919, 104729] {
        for k in [1usize, 5, 20] {
            assert!(is_probably_prime(&BigNat::from_u64(p), k), "{} with {} rounds", p, k);
        }
    }
}

#[test]
fn zero_and_one_are_refused() {
    for k in [0usize, 1, 10] {
        assert!(!is_probably_prime(&BigNat::from_u64(0), k));
        assert!(!is_probably_prime(&BigNat::from_u64(1), k));
        assert!(!is_probably_prime(&BigNat::from_bytes_be(&[]), k));
    }
}

#[test]
fn even_numbers_are_refused() {
    for n in [4u64, 6, 100, 104730, u64::MAX - 1] {
        for k in [0usize, 1, 10] {
            assert!(!is_probably_prime(&BigNat::from_u64(n), k));
        }
    }
}

#[test]
fn two_and_three_need_no_round() {
    assert!(is_probably_prime(&BigNat::from_u64(2), 0));
    assert!(is_probably_prime(&BigNat::from_u64(3), 0));
}

#[test]
fn no_round_accepts_every_odd_number() {
    assert!(is_probably_prime(&BigNat::from_u64(9), 0));
    assert!(is_probably_prime(&BigNat::from_u64(15), 0));
}

#[test]
fn known_composites_are_refused() {
    for n in [15u64, 341, 561, 2047, 104729 * 7, 3215031751] {
        assert!(!is_probably_prime(&BigNat::from_u64(n), 20), "{}", n);
    }
}

#[test]
fn all_numbers_below_two_thousand_agree_with_trial_division() {
    let mut rng = ChaCha20Rng::seed_from_u64(99);
    for n in 0..2000u64 {
        assert_eq!(
            is_probably_prime_with(&BigNat::from_u64(n), 20, &mut rng),
            trial_division_prime(n),
            "{}",
            n
        );
    }
}

#[test]
fn a_large_prime_and_its_neighbour() {
    let prime = BigNat::from_bytes_be(&[
        0x7f, 0xff, 0xff, 0xff, 0xff, 0xff, 0xff, 0xff, 0xff, 0xff, 0xff, 0xff, 0xff, 0xff, 0xff,
        0xff,
    ]);
    assert!(is_probably_prime(&prime, 10));
    let square = BigNat::from_u64(4294967291u64 * 4294967291u64);
    assert!(!is_probably_prime(&square, 10));
}

#[test]
fn one_round_with_a_given_base() {
    assert!(!miller_rabin_round(&BigNat::from_u64(341), &BigNat::from_u64(2)));
    assert!(miller_rabin_round(&BigNat::from_u64(2047), &BigNat::from_u64(2)));
    assert!(!miller_rabin_round(&BigNat::from_u64(2047), &BigNat::from_u64(3)));
    assert!(miller_rabin_round(&BigNat::from_u64(13), &BigNat::from_u64(5)));
    assert!(miller_rabin_round(&BigNat::from_u64(9), &BigNat::from_u64(8)));
    assert!(!miller_rabin_round(&BigNat::from_u64(9), &BigNat::from_u64(2)));
}

#[test]
fn one_round_passes_for_every_base_of_a_prime() {
    for a in 1..97u64 {
        assert!(miller_rabin_round(&BigNat::from_u64(97), &BigNat::from_u64(a)));
    }
}

#[test]
fn candidates_are_odd_and_short() {
    let mut rng = ChaCha20Rng::seed_from_u64(5);
    let mut seen_large = false;
    for _ in 0..200 {
        let candidate = small_value(&prime_candidate(&mut rng, 12));
        assert_eq!(candidate % 2, 1);
        assert!(candidate < 4096);
        seen_large = seen_large || candidate > 64;
    }
    assert!(seen_large);
    assert_eq!(prime_candidate(&mut rng, 0), BigNat::from_u64(1));
    assert_eq!(prime_candidate(&mut rng, 1), BigNat::from_u64(1));
}

#[test]
fn search_finds_a_prime() {
    let mut rng = ChaCha20Rng::seed_from_u64(6);
    for _ in 0..20 {
        let found = small_value(&find_probable_prime(&mut rng, 16, 10_000).unwrap());
        assert!(found < 65536);
        assert!(trial_division_prime(found), "{}", found);
    }
}

#[test]
fn search_gives_up() {
    let mut rng = ChaCha20Rng::seed_from_u64(7);
    assert_eq!(find_probable_prime(&mut rng, 16, 0), None);
    assert_eq!(find_probable_prime(&mut rng, 1, 50), None);
    assert_eq!(find_probable_prime(&mut rng, 0, 50), None);
    assert_eq!(generate_large_prime(1), None);
}

#[test]
fn generated_prime_passes_the_test() {
    let prime = generate_large_prime(128).unwrap();
    assert!(prime.to_bytes_be().len() <= 16);
    assert!(is_probably_prime(&prime, 20));
    let small = small_value(&generate_large_prime(20).unwrap());
    assert!(small < (1 << 20));
    assert!(trial_division_prime(small));
}

#[test]
fn two_bits_give_three() {
    for _ in 0..20 {
        assert_eq!(generate_large_prime(2), Some(BigNat::from_u64(3)));
    }
    let mut rng = ChaCha20Rng::seed_from_u64(13);
    assert_eq!(find_probable_prime(&mut rng, 2, 200), Some(BigNat::from_u64(3)));
}

#[test]
fn every_size_from_two_bits_gives_a_prime() {
    assert_eq!(generate_large_prime(0), None);
    assert_eq!(generate_large_prime(1), None);
    for bits in 2..=24usize {
        let found = small_value(&generate_large_prime(bits).unwrap());
        assert!(found >= 3 && found < (1u64 << bits), "{} bits gave {}", bits, found);
        assert!(trial_division_prime(found), "{} bits gave {}", bits, found);
    }
}

#[test]
fn stepping_down_ends_at_the_prime_at_or_below() {
    let mut rng = ChaCha20Rng::seed_from_u64(17);
    let cases = [
        (0u64, 3u64),
        (1, 3),
        (2, 3),
        (3, 3),
        (4, 3),
        (5, 5),
        (6, 5),
        (9, 7),
        (10, 7),
        (15, 13),
        (27, 23),
        (100, 97),
        (104730, 104729),
        (7920, 7919),
    ];
    for (start, expected) in cases {
        let found = probable_prime_at_or_below(&BigNat::from_u64(start), &mut rng);
        assert_eq!(found, BigNat::from_u64(expected), "from {}", start);
    }
}

#[test]
fn stepping_down_from_a_large_number() {
    let mut rng = ChaCha20Rng::seed_from_u64(18);
    let start = BigNat::from_u64(u64::MAX);
    let found = probable_prime_at_or_below(&start, &mut rng);
    assert_eq!(found, BigNat::from_u64(18446744073709551557));
}
