use range_filters::diva::{bracket_remainder_bits, remainder_bits, Diva};
use range_filters::partial_key::{extract_partial_key, shared_prefix_len};

const FPR_PPM: u32 = 10_000;

/// A small deterministic generator for test data.
struct Lcg(u64);

impl Lcg {
    fn next(&mut self) -> u64 {
        self.0 = self.0.wrapping_mul(6364136223846793005).wrapping_add(1442695040888963407);
        self.0 >> 16
    }
}

#[test]
fn roundtrip_scenario_on_two_keys() {
    let mut diva = Diva::new_with_keys(&[0, 10000], 1024, FPR_PPM);
    assert!(diva.insert(5000));
    assert!(diva.delete(5000));
    assert!(!diva.delete(5000));
}

#[test]
fn small_set_point_and_range_queries() {
    let diva = Diva::new_with_keys(&[1, 2, 3, 7, 8, 9, 15, 20], 1024, FPR_PPM);
    assert!(diva.point_query(7));
    assert!(!diva.point_query(10));
    assert!(diva.range_query(9, 16));
    assert!(!diva.range_query(10, 14));
    assert!(!diva.range_query(21, 30));
}

#[test]
fn range_queries_between_sparse_keys() {
    let diva = Diva::new_with_keys(&[100, 500, 1000, 5000, 10000], 1024, FPR_PPM);
    assert!(diva.range_query(400, 600));
    assert!(!diva.range_query(600, 900));
}

#[test]
fn insert_then_delete_in_reverse_restores_answers() {
    let mut diva = Diva::new_with_keys(&[0, 100000], 1024, FPR_PPM);
    let before: Vec<bool> = (10000..10050).map(|k| diva.point_query(k)).collect();
    for key in 10000..10050 {
        assert!(diva.insert(key));
    }
    for key in (10000..10050).rev() {
        assert!(diva.delete(key));
    }
    let after: Vec<bool> = (10000..10050).map(|k| diva.point_query(k)).collect();
    assert_eq!(before, after);
}

#[test]
fn false_positives_on_dense_small_universe() {
    let mut rng = Lcg(7);
    let mut keys: Vec<u64> = (0..3000).map(|_| rng.next() % (1 << 16)).collect();
    keys.sort();
    keys.dedup();
    let diva = Diva::new_with_keys(&keys, 1024, FPR_PPM);
    let mut queries = 0;
    let mut positives = 0;
    while queries < 1000 {
        let k = rng.next() % (1 << 16);
        if keys.binary_search(&k).is_ok() {
            continue;
        }
        queries += 1;
        if diva.point_query(k) {
            positives += 1;
        }
    }
    assert!(positives <= 30);
}

#[test]
fn sample_keys_are_accepted_and_not_deleted() {
    // every key is a sample when brackets hold one key
    let mut diva = Diva::new_with_keys(&[1000, 5000, 10000], 1, FPR_PPM);
    assert_eq!(diva.sample_count(), 3);
    assert!(diva.insert(1000));
    assert!(diva.point_query(1000));
    assert!(!diva.delete(5000));
    assert!(diva.point_query(5000));
}

#[test]
fn every_built_key_is_found() {
    let mut rng = Lcg(11);
    let keys: Vec<u64> = (0..5000).map(|_| rng.next()).collect();
    let diva = Diva::new_with_keys(&keys, 1024, FPR_PPM);
    for &k in &keys {
        assert!(diva.point_query(k));
    }
}

#[test]
fn every_range_around_a_built_key_is_positive() {
    let mut rng = Lcg(13);
    let keys: Vec<u64> = (0..3000).map(|_| rng.next() % 1_000_000_000).collect();
    let diva = Diva::new_with_keys(&keys, 512, FPR_PPM);
    for &k in keys.iter().take(500) {
        let a = k.saturating_sub(rng.next() % 1000);
        let b = k.saturating_add(rng.next() % 1000);
        assert!(diva.range_query(a, b));
        assert!(diva.range_query(k, k));
    }
}

#[test]
fn false_positive_rate_stays_within_twice_the_target() {
    let mut rng = Lcg(17);
    let mut keys: Vec<u64> = (0..20000).map(|_| rng.next() % (1u64 << 40)).collect();
    keys.sort();
    keys.dedup();
    let diva = Diva::new_with_keys(&keys, 1024, FPR_PPM);
    let lo = keys[0];
    let hi = keys[keys.len() - 1];
    let mut queries = 0;
    let mut positives = 0;
    while queries < 10000 {
        let k = lo + rng.next() % (hi - lo);
        if keys.binary_search(&k).is_ok() {
            continue;
        }
        queries += 1;
        if diva.point_query(k) {
            positives += 1;
        }
    }
    assert!(positives <= 200);
}

#[test]
fn inserted_keys_are_found_and_deleted_ones_are_not() {
    let mut rng = Lcg(19);
    let keys: Vec<u64> = (0..2000).map(|_| rng.next() % (1u64 << 40)).collect();
    let mut diva = Diva::new_with_keys(&keys, 1024, FPR_PPM);
    let lo = keys.iter().min().unwrap() + 1;
    let hi = *keys.iter().max().unwrap();
    let fresh: Vec<u64> = (0..200).map(|_| lo + rng.next() % (hi - lo)).collect();
    for &k in &fresh {
        assert!(diva.insert(k));
        assert!(diva.point_query(k));
    }
    for &k in &keys {
        assert!(diva.point_query(k));
    }
    let mut s = fresh.clone();
    s.sort();
    s.dedup();
    for &k in &s {
        if keys.contains(&k) {
            continue;
        }
        assert!(diva.delete(k));
        assert!(!diva.point_query(k));
    }
}

#[test]
fn out_of_range_and_empty_filters() {
    let mut empty = Diva::new_with_keys(&[], 1024, FPR_PPM);
    assert_eq!(empty.sample_count(), 0);
    assert!(!empty.point_query(0));
    assert!(!empty.range_query(0, u64::MAX));
    assert!(!empty.insert(5));
    assert!(!empty.delete(5));

    let mut one = Diva::new_with_keys(&[42, 42, 42], 1024, FPR_PPM);
    assert_eq!(one.sample_count(), 1);
    assert!(one.point_query(42));
    assert!(!one.point_query(41));
    assert!(one.range_query(0, 100));
    assert!(!one.range_query(43, 100));
    assert!(one.insert(42));
    assert!(!one.insert(43));

    let diva = Diva::new_with_keys(&[10, 20, 30], 1024, FPR_PPM);
    assert!(!diva.range_query(31, 40));
    assert!(!diva.range_query(0, 9));
    assert!(diva.range_query(0, 10));
    assert!(diva.range_query(30, 40));
    assert!(!diva.range_query(20, 10));
}

#[test]
fn unsorted_input_is_sorted_before_sampling() {
    let diva = Diva::new_with_keys(&[900, 5, 300, 5, 700, 100], 2, FPR_PPM);
    // sorted and deduplicated: 5 100 300 700 900; samples at 0, 2, 4
    assert_eq!(diva.sample_count(), 3);
    for k in [5, 100, 300, 700, 900] {
        assert!(diva.point_query(k));
    }
    assert!(!diva.point_query(4));
    assert!(!diva.point_query(901));
}

#[test]
fn remainder_width_from_rate() {
    // 1024 / 0.01 = 102400 needs 17 bits: 10 of quotient, 7 of remainder
    assert_eq!(remainder_bits(1024, 10_000), 7);
    // 1024 / 0.5 = 2048 needs 11 bits
    assert_eq!(remainder_bits(1024, 500_000), 1);
    // 1 / 0.5 = 2 needs 1 bit, under the quotient width
    assert_eq!(remainder_bits(1, 500_000), 0);
    // 2048 / 0.000001 needs 31 bits
    assert_eq!(remainder_bits(2048, 1), 21);
}

#[test]
fn extraction_keeps_suffix_bits() {
    assert_eq!(shared_prefix_len(0, 0), 64);
    assert_eq!(shared_prefix_len(1, 20), 59);
    assert_eq!(shared_prefix_len(0, u64::MAX), 0);
    // a 5-bit suffix is padded below to 17 bits
    assert_eq!(extract_partial_key(10, 1, 20, 10, 7), 10 << 12);
    // a 64-bit suffix keeps its 17 highest bits
    assert_eq!(extract_partial_key(u64::MAX, 0, u64::MAX, 10, 7), (1 << 17) - 1);
    // the shared prefix is masked away
    assert_eq!(extract_partial_key(0xABCD_0000_1234, 0xABCD_0000_0000, 0xABCD_0000_FFFF, 10, 6), 0x1234);
    // an empty bracket gives zero
    assert_eq!(extract_partial_key(77, 77, 77, 10, 7), 0);
    let mut prev = 0;
    for k in 1000..=2000u64 {
        let x = extract_partial_key(k, 1000, 2000, 10, 7);
        assert!(x >= prev);
        prev = x;
    }
}

#[test]
fn brackets_with_a_short_span_get_more_remainder_bits() {
    // the span uses the whole 17-bit suffix: one extra bit
    assert_eq!(bracket_remainder_bits(7, 0, 100000), 8);
    // a span of 10 across bit 39: 37 unused suffix bits
    let p = (1u64 << 39) - 5;
    assert_eq!(bracket_remainder_bits(7, p, p + 10), 44);
    assert_eq!(bracket_remainder_bits(20, p, p + 10), 53);
    // an empty bracket
    assert_eq!(bracket_remainder_bits(7, 9, 9), 8);
}

#[test]
fn samples_are_every_target_th_key_and_the_last() {
    let keys: Vec<u64> = (0..10u64).map(|i| i * 100).collect();
    let diva = Diva::new_with_keys(&keys, 4, FPR_PPM);
    // samples 0, 400, 800, 900
    assert_eq!(diva.sample_count(), 4);
    assert!(diva.range_query(350, 450));
    assert!(!diva.range_query(401, 499));
    let exact = Diva::new_with_keys(&keys[..9], 4, FPR_PPM);
    // samples 0, 400, 800
    assert_eq!(exact.sample_count(), 3);
}
