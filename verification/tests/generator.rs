use std::collections::BTreeSet;

use thermite::error::Error;
use thermite::lcg::{is_power_of_two, mod_power2, LCG, LCG_A, LCG_C};

#[test]
fn test_period() {
    let seed = 1;
    let modulus = 2u64.pow(16);
    let mut generator = LCG::new(seed, modulus);

    let mut set: BTreeSet<u64> = generator.take(modulus as usize).into_iter().collect();

    for n in 0..modulus {
        assert_eq!(set.contains(&n), true);
        set.remove(&n);
    }
    assert!(set.is_empty());
}

#[test]
fn constants_are_the_named_ones() {
    assert_eq!(LCG_A, 22695477);
    assert_eq!(LCG_C, 1);
}

#[test]
fn next_hands_out_the_seed_first() {
    let mut generator = LCG::new(5, 16);
    assert_eq!(generator.next(), Some(5));
    // (22695477 * 5 + 1) mod 16 = 113477386 mod 16 = 10
    assert_eq!(generator.next(), Some(10));
    // (22695477 * 10 + 1) mod 16 = 226954771 mod 16 = 3
    assert_eq!(generator.next(), Some(3));
}

#[test]
fn next_follows_the_recurrence() {
    let modulus = 1u64 << 20;
    let mut generator = LCG::new(12345, modulus);
    let mut expected = 12345u64;
    for _ in 0..1000 {
        assert_eq!(generator.next(), Some(expected));
        expected = ((22695477u128 * expected as u128 + 1) % modulus as u128) as u64;
    }
}

#[test]
fn next_does_not_overflow_on_the_largest_modulus() {
    let modulus = 1u64 << 63;
    let seed = modulus - 1;
    let mut generator = LCG::new(seed, modulus);
    assert_eq!(generator.next(), Some(seed));
    let expected = ((22695477u128 * seed as u128 + 1) % modulus as u128) as u64;
    assert_eq!(generator.next(), Some(expected));
}

#[test]
fn every_power_of_two_has_full_period() {
    for k in 0..13u32 {
        let modulus = 1u64 << k;
        for seed in [0, modulus / 3, modulus - 1] {
            let mut generator = LCG::new(seed, modulus);
            let outputs = generator.take(modulus as usize);
            assert_eq!(outputs.len() as u64, modulus);
            let set: BTreeSet<u64> = outputs.iter().copied().collect();
            assert_eq!(set.len() as u64, modulus);
            assert!(set.iter().all(|v| *v < modulus));
            // after one period the generator is back at the seed
            assert_eq!(generator.next(), Some(seed));
        }
    }
}

#[test]
fn modulus_one_gives_zero_forever() {
    let mut generator = LCG::new(0, 1);
    for _ in 0..10 {
        assert_eq!(generator.next(), Some(0));
    }
}

#[test]
fn take_is_what_next_would_give() {
    let mut one = LCG::new(7, 64);
    let mut other = LCG::new(7, 64);
    let taken = one.take(20);
    for value in taken {
        assert_eq!(other.next(), Some(value));
    }
    assert_eq!(one.next(), other.next());
}

#[test]
fn next_below_passes_over_large_values() {
    // outputs from seed 5 under modulus 16: 5, 10, 3, ...
    let mut generator = LCG::new(5, 16);
    assert_eq!(generator.next_below(4), 3);
    let mut reference = LCG::new(5, 16);
    reference.take(3);
    assert_eq!(generator.next(), reference.next());
}

#[test]
fn next_below_finds_a_value_within_one_period() {
    for seed in 0..32u64 {
        let mut generator = LCG::new(seed, 32);
        let mut reference = LCG::new(seed, 32);
        let value = generator.next_below(1);
        assert_eq!(value, 0);
        let outputs = reference.take(32);
        let position = outputs.iter().position(|v| *v == 0).unwrap();
        let mut replay = LCG::new(seed, 32);
        replay.take(position + 1);
        assert_eq!(generator.next(), replay.next());
    }
}

#[test]
fn try_new_takes_powers_of_two() {
    let mut generator = LCG::try_new(3, 8).ok().unwrap();
    assert_eq!(generator.next(), Some(3));
}

#[test]
fn try_new_turns_down_a_degenerate_modulus() {
    assert_eq!(LCG::try_new(0, 0).err(), Some(Error::DegenerateGenerator));
    assert_eq!(LCG::try_new(1, 6).err(), Some(Error::DegenerateGenerator));
    assert_eq!(LCG::try_new(0, 12).err(), Some(Error::DegenerateGenerator));
}

#[test]
fn try_new_turns_down_a_seed_outside_the_modulus() {
    assert_eq!(LCG::try_new(8, 8).err(), Some(Error::DegenerateGenerator));
    assert_eq!(LCG::try_new(100, 16).err(), Some(Error::DegenerateGenerator));
}

#[test]
fn power_of_two_test() {
    assert!(!is_power_of_two(0));
    assert!(is_power_of_two(1));
    assert!(is_power_of_two(2));
    assert!(!is_power_of_two(3));
    assert!(!is_power_of_two(6));
    assert!(is_power_of_two(8));
    assert!(is_power_of_two(1 << 63));
    assert!(!is_power_of_two(u64::MAX));
}

#[test]
fn mod_power2_masks_and_divides() {
    assert_eq!(mod_power2(13, 8), 5);
    assert_eq!(mod_power2(13, 1), 0);
    assert_eq!(mod_power2(13, 6), 1);
    assert_eq!(mod_power2(u64::MAX, 1 << 63), (1 << 63) - 1);
    assert_eq!(mod_power2(u64::MAX, 10), 5);
    for n in 0..200u64 {
        for m in 1..40u64 {
            assert_eq!(mod_power2(n, m), n % m);
        }
    }
}
