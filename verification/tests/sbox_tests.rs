use pmpt::sbox::DynamicSBox;
use rand::SeedableRng;
use rand_chacha::ChaCha20Rng;

fn rotation_table() -> [u8; 256] {
    let mut table = [0u8; 256];
    for i in 0..256usize {
        table[i] = ((i + 1) % 256) as u8;
    }
    table
}

#[test]
fn substitution_round_trips_on_every_byte() {
    let mut rng = ChaCha20Rng::seed_from_u64(42);
    let sbox = DynamicSBox::new(&mut rng);
    for v in 0..=255u8 {
        assert_eq!(sbox.inverse_substitute(sbox.substitute(v)), v);
        assert_eq!(sbox.substitute(sbox.inverse_substitute(v)), v);
    }
}

#[test]
fn substitution_is_injective() {
    let mut rng = ChaCha20Rng::seed_from_u64(7);
    let sbox = DynamicSBox::new(&mut rng);
    let mut seen = [false; 256];
    for v in 0..=255u8 {
        let image = sbox.substitute(v) as usize;
        assert!(!seen[image]);
        seen[image] = true;
    }
    assert!(seen.iter().all(|&s| s));
}

#[test]
fn generated_box_is_shuffled() {
    let mut rng = ChaCha20Rng::seed_from_u64(1);
    let sbox = DynamicSBox::new(&mut rng);
    let moved = (0..=255u8).filter(|&v| sbox.substitute(v) != v).count();
    assert!(moved > 200);
}

#[test]
fn same_seed_gives_same_box() {
    let first = DynamicSBox::new(&mut ChaCha20Rng::from_seed([9u8; 32]));
    let second = DynamicSBox::new(&mut ChaCha20Rng::from_seed([9u8; 32]));
    assert_eq!(first.table(), second.table());
    let third = DynamicSBox::new(&mut ChaCha20Rng::from_seed([10u8; 32]));
    assert_ne!(first.table(), third.table());
}

#[test]
fn from_table_takes_a_permutation() {
    let sbox = DynamicSBox::from_table(&rotation_table()).unwrap();
    assert_eq!(sbox.substitute(0), 1);
    assert_eq!(sbox.substitute(255), 0);
    assert_eq!(sbox.inverse_substitute(0), 255);
    assert_eq!(sbox.inverse_substitute(66), 65);
    assert_eq!(sbox.table(), rotation_table());
}

#[test]
fn from_table_refuses_a_repeated_byte() {
    let mut table = rotation_table();
    table[5] = table[6];
    assert!(DynamicSBox::from_table(&table).is_none());
    assert!(DynamicSBox::from_table(&[0u8; 256]).is_none());
}

#[test]
fn from_draws_runs_the_shuffle() {
    let stay: Vec<usize> = (0..255).map(|k| 255 - k).collect();
    let sbox = DynamicSBox::from_draws(&stay).unwrap();
    for v in 0..=255u8 {
        assert_eq!(sbox.substitute(v), v);
    }
    let to_front = vec![0usize; 255];
    let sbox = DynamicSBox::from_draws(&to_front).unwrap();
    assert_eq!(sbox.substitute(0), 1);
    assert_eq!(sbox.substitute(1), 2);
    assert_eq!(sbox.substitute(254), 255);
    assert_eq!(sbox.substitute(255), 0);
    assert_eq!(sbox.inverse_substitute(0), 255);
}

#[test]
fn from_draws_exchanges_places_from_the_last_down() {
    let mut draws: Vec<usize> = (0..255).map(|k| 255 - k).collect();
    draws[0] = 10;
    draws[1] = 10;
    let sbox = DynamicSBox::from_draws(&draws).unwrap();
    assert_eq!(sbox.substitute(255), 10);
    assert_eq!(sbox.substitute(10), 254);
    assert_eq!(sbox.substitute(254), 255);
    assert_eq!(sbox.substitute(7), 7);
}

#[test]
fn from_draws_refuses_bad_draws() {
    assert!(DynamicSBox::from_draws(&[0usize; 254]).is_none());
    assert!(DynamicSBox::from_draws(&[0usize; 256]).is_none());
    let mut draws = vec![0usize; 255];
    draws[254] = 2;
    assert!(DynamicSBox::from_draws(&draws).is_none());
    draws[254] = 1;
    assert!(DynamicSBox::from_draws(&draws).is_some());
    draws[0] = 256;
    assert!(DynamicSBox::from_draws(&draws).is_none());
}
