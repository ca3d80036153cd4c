use kanjidle::sample::weighted_shuffle;
use rand_xoshiro::rand_core::SeedableRng;
use rand_xoshiro::Xoshiro256PlusPlus;

#[test]
fn shuffle_obvious() {
    for seed in 0..100u64 {
        let mut rng = Xoshiro256PlusPlus::seed_from_u64(seed);
        let items: Vec<u64> = vec![100, 0];
        let weights: Vec<u128> = vec![100_000, 0];
        let out = weighted_shuffle(&items, &weights, &mut rng);
        assert_eq!(out, vec![100, 0]);
    }
}

#[test]
fn zero_weight_always_last() {
    for seed in 0..200u64 {
        let mut rng = Xoshiro256PlusPlus::seed_from_u64(seed);
        let items: Vec<usize> = vec![0, 1, 2, 3];
        let weights: Vec<u128> = vec![1_000, 0, 1_000, 0];
        let out = weighted_shuffle(&items, &weights, &mut rng);
        assert_eq!(out.len(), 4);
        // the two zero-weight items stand at the back, whatever the draws
        assert!(out[2] == 1 || out[2] == 3);
        assert!(out[3] == 1 || out[3] == 3);
    }
}

#[test]
fn shuffle_is_permutation() {
    for seed in 0..50u64 {
        let mut rng = Xoshiro256PlusPlus::seed_from_u64(seed);
        let items: Vec<u32> = (0..20).collect();
        let weights: Vec<u128> = (0..20).map(|i| 100 + i as u128 * 37).collect();
        let mut out = weighted_shuffle(&items, &weights, &mut rng);
        out.sort();
        assert_eq!(out, items);
    }
}

#[test]
fn sampler_monotonicity() {
    // the item with five times the weight comes first in a strict
    // majority of trials
    let mut first_wins = 0usize;
    let trials = 500u64;
    for seed in 0..trials {
        let mut rng = Xoshiro256PlusPlus::seed_from_u64(seed);
        let items: Vec<u8> = vec![0, 1];
        let weights: Vec<u128> = vec![5_000, 1_000];
        let out = weighted_shuffle(&items, &weights, &mut rng);
        if out[0] == 0 {
            first_wins += 1;
        }
    }
    assert!(first_wins > trials as usize / 2);
}

#[test]
fn shuffle_deterministic_per_seed() {
    let items: Vec<u32> = (0..12).collect();
    let weights: Vec<u128> = vec![1_000; 12];
    let mut r1 = Xoshiro256PlusPlus::seed_from_u64(99);
    let mut r2 = Xoshiro256PlusPlus::seed_from_u64(99);
    let out1 = weighted_shuffle(&items, &weights, &mut r1);
    let out2 = weighted_shuffle(&items, &weights, &mut r2);
    assert_eq!(out1, out2);
}
