use range_filters::bitmap::{
    clear_bit, get_bit, has_bits_in_range, rank, rank_cached, select, select_cached, select_in_word,
    set_bit,
};

#[test]
fn test_set_and_get_bit() {
    let mut data = vec![0u64; 2];

    set_bit(&mut data, 0);
    set_bit(&mut data, 5);
    set_bit(&mut data, 63);

    assert!(get_bit(&data, 0));
    assert!(!get_bit(&data, 1));
    assert!(get_bit(&data, 5));
    assert!(get_bit(&data, 63));

    set_bit(&mut data, 64);
    set_bit(&mut data, 127);

    assert!(get_bit(&data, 64));
    assert!(get_bit(&data, 127));
    assert!(!get_bit(&data, 100));
}

#[test]
fn test_rank() {
    let mut data = vec![0u64; 2];

    set_bit(&mut data, 0);
    set_bit(&mut data, 2);
    set_bit(&mut data, 4);
    set_bit(&mut data, 64);
    set_bit(&mut data, 65);
    set_bit(&mut data, 127);

    assert_eq!(rank(&data, 0), 0);
    assert_eq!(rank(&data, 1), 1);
    assert_eq!(rank(&data, 3), 2);
    assert_eq!(rank(&data, 5), 3);
    assert_eq!(rank(&data, 64), 3);
    assert_eq!(rank(&data, 65), 4);
    assert_eq!(rank(&data, 128), 6);
}

#[test]
fn test_select() {
    let mut data = vec![0u64; 2];

    set_bit(&mut data, 0);
    set_bit(&mut data, 2);
    set_bit(&mut data, 4);
    set_bit(&mut data, 64);
    set_bit(&mut data, 65);
    set_bit(&mut data, 127);

    assert_eq!(select(&data, 0), Some(0));
    assert_eq!(select(&data, 1), Some(2));
    assert_eq!(select(&data, 2), Some(4));
    assert_eq!(select(&data, 3), Some(64));
    assert_eq!(select(&data, 4), Some(65));
    assert_eq!(select(&data, 5), Some(127));
    assert_eq!(select(&data, 6), None);
}

#[test]
fn test_select_in_word() {
    let word = 0b10101u64;

    assert_eq!(select_in_word(word, 0), Some(0));
    assert_eq!(select_in_word(word, 1), Some(2));
    assert_eq!(select_in_word(word, 2), Some(4));
    assert_eq!(select_in_word(word, 3), None);
}

#[test]
fn test_rank_select_consistency() {
    let mut data = vec![0u64; 4];

    let positions = vec![1, 7, 15, 63, 64, 100, 200, 255];
    for &pos in &positions {
        set_bit(&mut data, pos);
    }

    for (rank_, &expected_pos) in positions.iter().enumerate() {
        assert_eq!(select(&data, rank_), Some(expected_pos));
        assert_eq!(rank(&data, expected_pos + 1), rank_ + 1usize);
    }
}

#[test]
fn test_has_bits_in_range() {
    let mut data = vec![0u64; 2];

    set_bit(&mut data, 5);
    set_bit(&mut data, 10);
    set_bit(&mut data, 67);
    set_bit(&mut data, 100);

    assert!(has_bits_in_range(&data, 0, 15));
    assert!(has_bits_in_range(&data, 5, 6));
    assert!(has_bits_in_range(&data, 65, 70));
    assert!(has_bits_in_range(&data, 90, 110));

    assert!(!has_bits_in_range(&data, 0, 5));
    assert!(!has_bits_in_range(&data, 11, 67));
    assert!(!has_bits_in_range(&data, 101, 120));

    assert!(!has_bits_in_range(&data, 10, 10));
    assert!(!has_bits_in_range(&data, 15, 10));
    assert!(has_bits_in_range(&data, 10, 11));
}

#[test]
fn test_has_bits_in_range_single_word() {
    let data = vec![0b10101u64];

    assert!(has_bits_in_range(&data, 0, 3));
    assert!(has_bits_in_range(&data, 2, 5));
    assert!(!has_bits_in_range(&data, 1, 2));
    assert!(!has_bits_in_range(&data, 5, 10));
}

#[test]
fn test_has_bits_in_range_multiple_words() {
    let mut data = vec![0u64; 3];

    set_bit(&mut data, 10);
    set_bit(&mut data, 70);
    set_bit(&mut data, 130);

    assert!(has_bits_in_range(&data, 0, 80));
    assert!(has_bits_in_range(&data, 65, 135));
    assert!(has_bits_in_range(&data, 5, 140));

    assert!(!has_bits_in_range(&data, 15, 65));
    assert!(!has_bits_in_range(&data, 75, 125));
}

#[test]
fn clear_bit_clears_only_its_position() {
    let mut data = vec![u64::MAX; 2];
    clear_bit(&mut data, 64);
    assert!(!get_bit(&data, 64));
    assert!(get_bit(&data, 63));
    assert!(get_bit(&data, 65));
    assert_eq!(rank(&data, 128), 127);
}

#[test]
fn has_bits_in_range_past_the_end_is_clear() {
    let mut data = vec![0u64; 1];
    set_bit(&mut data, 63);
    assert!(has_bits_in_range(&data, 63, 500));
    assert!(!has_bits_in_range(&data, 64, 500));
    assert!(!has_bits_in_range(&data, 200, 300));
    let full = vec![u64::MAX; 4];
    assert!(has_bits_in_range(&full, 64, 128));
    assert!(has_bits_in_range(&full, 255, 256));
}

#[test]
fn cached_rank_and_select_agree_with_plain_ones() {
    let mut data = vec![0u64; 4];
    for pos in [3usize, 64, 130, 131, 200, 255] {
        set_bit(&mut data, pos);
    }
    let half = 128;
    let cached = rank(&data, half);
    assert_eq!(cached, 2);
    for pos in 0..=256 {
        assert_eq!(rank_cached(&data, pos, half, cached), rank(&data, pos));
    }
    for r in 0..8 {
        assert_eq!(select_cached(&data, r, half, cached), select(&data, r));
    }
    assert_eq!(select_cached(&data, 2, half, cached), Some(130));
}

#[test]
fn rank_of_select_is_identity_on_dense_words() {
    let data = vec![0xF0F0_F0F0_F0F0_F0F0u64, 0x8000_0000_0000_0001u64, 0, u64::MAX];
    let total = rank(&data, 256);
    assert_eq!(total, 32 + 2 + 64);
    for r in 0..total {
        let p = select(&data, r).unwrap();
        assert!(get_bit(&data, p));
        assert_eq!(rank(&data, p), r);
        assert_eq!(rank(&data, p + 1), r + 1);
    }
    assert_eq!(select(&data, total), None);
}
