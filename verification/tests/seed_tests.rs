use space_explorer::seed::{chunk_seed, hash_seed_string, mix, SeedRng, GOLDEN_GAMMA};

#[test]
fn mix_of_zero_is_zero() {
    assert_eq!(mix(0), 0);
}

#[test]
fn mix_known_values() {
    assert_eq!(mix(1), 0x5692161d100b05e5);
    assert_eq!(mix(GOLDEN_GAMMA), 0xe220a8397b1dcdaf);
}

#[test]
fn rng_new_keeps_seed() {
    let rng = SeedRng::new(1234);
    assert_eq!(rng.state, 1234);
}

#[test]
fn rng_matches_splitmix64_reference_stream() {
    let mut rng = SeedRng::new(0);
    assert_eq!(rng.next_u64(), 0xe220a8397b1dcdaf);
    assert_eq!(rng.next_u64(), 0x6e789e6aa1b965f4);
    assert_eq!(rng.state, GOLDEN_GAMMA.wrapping_mul(2));
}

#[test]
fn rng_state_wraps_around() {
    let mut rng = SeedRng::new(u64::MAX);
    rng.next_u64();
    assert_eq!(rng.state, GOLDEN_GAMMA - 1);
}

#[test]
fn rng_is_counter_based() {
    let seed = 987654321u64;
    let mut rng = SeedRng::new(seed);
    let mut k: u64 = 0;
    while k < 10 {
        k += 1;
        let v = rng.next_u64();
        assert_eq!(v, mix(seed.wrapping_add(k.wrapping_mul(GOLDEN_GAMMA))));
    }
}

#[test]
fn same_seed_same_stream() {
    let mut a = SeedRng::new(77);
    let mut b = SeedRng::new(77);
    for _ in 0..5 {
        assert_eq!(a.next_u64(), b.next_u64());
    }
}

#[test]
fn next_unit_bits_is_high_24_bits() {
    let mut rng = SeedRng::new(42);
    let bits = rng.next_unit_bits();
    assert_eq!(bits, 12441394);
    assert!(bits < (1 << 24));
}

#[test]
fn range_i32_known_value() {
    let mut rng = SeedRng::new(42);
    assert_eq!(rng.range_i32(-5, 5), -2);
}

#[test]
fn range_i32_stays_in_range() {
    let mut rng = SeedRng::new(5);
    for _ in 0..200 {
        let v = rng.range_i32(-3, 4);
        assert!(-3 <= v && v < 4);
    }
    let w = rng.range_i32(i32::MIN, i32::MAX);
    assert!(w < i32::MAX);
    assert_eq!(rng.range_i32(9, 10), 9);
}

#[test]
fn hash_seed_string_empty_is_offset_basis() {
    assert_eq!(hash_seed_string(""), 0xcbf29ce484222325);
}

#[test]
fn hash_seed_string_known_values() {
    assert_eq!(hash_seed_string("a"), 0xaf63dc4c8601ec8c);
    assert_eq!(hash_seed_string("hello"), 0xa430d84680aabd0b);
}

#[test]
fn hash_seed_string_hashes_utf8_bytes() {
    assert_eq!(hash_seed_string("é"), 0x0ac21707b7181e01);
}

#[test]
fn chunk_seed_known_values() {
    assert_eq!(chunk_seed(0, 0, 0), 0);
    assert_eq!(chunk_seed(0xa430d84680aabd0b, -1, 2), 0xf1d193515d58270a);
    assert_eq!(chunk_seed(5, 3, -7), 0xcbceea906923579e);
}

#[test]
fn chunk_seed_differs_between_neighbours() {
    let w = hash_seed_string("hello");
    assert_ne!(chunk_seed(w, 0, 0), chunk_seed(w, 1, 0));
    assert_ne!(chunk_seed(w, 0, 0), chunk_seed(w, 0, 1));
}

#[test]
fn hash_of_extended_string_continues_fnv() {
    let mut h = hash_seed_string("he");
    for b in "llo".bytes() {
        h = (h ^ b as u64).wrapping_mul(0x100000001b3);
    }
    assert_eq!(h, hash_seed_string("hello"));
}
