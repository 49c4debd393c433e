use phonopaper::rng::{splitmix64, Rng};

#[test]
fn same_seed_same_stream() {
    let mut a = Rng::from_seed(42);
    let mut b = Rng::from_seed(42);
    for _ in 0..1000 {
        assert_eq!(a.next_u64(), b.next_u64());
    }
}

#[test]
fn different_items_differ() {
    let mut a = Rng::for_item(1, 0);
    let mut b = Rng::for_item(1, 1);
    assert_ne!(a.next_u64(), b.next_u64());
}

#[test]
fn reference_values_are_stable() {
    // Pin the first outputs so an accidental algorithm change is caught.
    let mut r = Rng::from_seed(0);
    let first = [r.next_u64(), r.next_u64(), r.next_u64()];
    assert_eq!(
        first,
        [
            1_905_207_664_160_064_169,
            7_642_312_046_547_803_776,
            7_003_759_831_383_473_959
        ]
    );
}

#[test]
fn range_u32_inclusive_bounds_hit() {
    let mut r = Rng::from_seed(3);
    let mut seen_lo = false;
    let mut seen_hi = false;
    for _ in 0..10_000 {
        let v = r.range_u32(5, 7);
        assert!((5..=7).contains(&v));
        seen_lo |= v == 5;
        seen_hi |= v == 7;
    }
    assert!(seen_lo && seen_hi);
}

#[test]
fn pick_returns_element() {
    let mut r = Rng::from_seed(1);
    let items = [10, 20, 30];
    for _ in 0..100 {
        assert!(items.contains(r.pick(&items)));
    }
}

#[test]
fn splitmix64_of_zero_is_the_published_value() {
    // First output of the SplitMix64 reference generator seeded with 0.
    assert_eq!(splitmix64(0), 0xE220_A839_7B1D_CDAF);
}

#[test]
fn item_stream_is_a_function_of_seed_and_index() {
    let mut a = Rng::for_item(7, 3);
    let mut b = Rng::for_item(7, 3);
    for _ in 0..100 {
        assert_eq!(a.next_u64(), b.next_u64());
    }
}

#[test]
fn item_stream_matches_its_derived_seed() {
    let seed = splitmix64(5) ^ splitmix64(9u64.wrapping_mul(0xD1B5_4A32_D192_ED03));
    let mut a = Rng::for_item(5, 9);
    let mut b = Rng::from_seed(seed);
    assert_eq!(a.next_u64(), b.next_u64());
}

#[test]
fn range_of_one_value_returns_it() {
    let mut r = Rng::from_seed(11);
    for _ in 0..50 {
        assert_eq!(r.range_u32(9, 9), 9);
        assert_eq!(r.range_usize(4, 4), 4);
    }
}

#[test]
fn range_usize_stays_in_bounds() {
    let mut r = Rng::from_seed(12);
    for _ in 0..1000 {
        let v = r.range_usize(100, 200);
        assert!((100..=200).contains(&v));
    }
}

#[test]
fn splitmix64_separates_neighbouring_states() {
    let outputs: Vec<u64> = (0..256u64).map(splitmix64).collect();
    for i in 0..outputs.len() {
        for j in (i + 1)..outputs.len() {
            assert_ne!(outputs[i], outputs[j]);
        }
    }
}
