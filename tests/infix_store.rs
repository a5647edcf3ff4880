use range_filters::infix_store::InfixStore;

#[test]
fn test_split_infix() {
    // infix = 0b1010101010101010 (16 bits)
    // remainder_size = 8
    let infix = 0b1010101010101010u64;
    let (quotient, remainder) = InfixStore::split_infix(infix, 10, 8);

    assert_eq!(quotient, 0b10101010); // top 8 bits
    assert_eq!(remainder, 0b10101010); // bottom 8 bits

    // test with different sizes
    let infix = 0b11110000_11001100u64;
    let (quotient, remainder) = InfixStore::split_infix(infix, 10, 8);
    assert_eq!(quotient, 0b11110000);
    assert_eq!(remainder, 0b11001100);
}

#[test]
fn test_construction_simple() {
    // infixes with 10 bits quotient and 8 bits remainder
    // quotient|remainder format
    let infixes = vec![
        (129u64 << 8) | 170,
        (129u64 << 8) | 188,
        (129u64 << 8) | 207,
        (340u64 << 8) | 51,
        (340u64 << 8) | 90,
    ];

    let store = InfixStore::new_with_infixes(&infixes, 8);

    assert_eq!(store.elem_count(), 5);
        assert_eq!(store.remainder_size(), 8);

    // verify occupieds: quotients 129 and 340 should be set
    assert!(store.is_occupied(129));
    assert!(store.is_occupied(340));
    assert!(!store.is_occupied(0));
    assert!(!store.is_occupied(200));

    // verify runends: slots 2 and 4 should be marked (end of each run)
    assert!(!store.is_runend(0));
    assert!(!store.is_runend(1));
    assert!(store.is_runend(2)); // end of q=129's run
    assert!(!store.is_runend(3));
    assert!(store.is_runend(4)); // end of q=340's run

    // verify remainders in slots
    assert_eq!(store.read_slot(0), 170);
    assert_eq!(store.read_slot(1), 188);
    assert_eq!(store.read_slot(2), 207);
    assert_eq!(store.read_slot(3), 51);
    assert_eq!(store.read_slot(4), 90);
}

#[test]
fn test_construction_same_quotient() {
    // all elements have same quotient
    let infixes = vec![
        (50u64 << 8) | 10,
        (50u64 << 8) | 20,
        (50u64 << 8) | 30,
        (50u64 << 8) | 40,
    ];

    let store = InfixStore::new_with_infixes(&infixes, 8);

    assert_eq!(store.elem_count(), 4);
    assert!(store.is_occupied(50));
    assert!(!store.is_occupied(49));
    assert!(!store.is_occupied(51));

    // all in same run, only last slot is runend
    assert!(!store.is_runend(0));
    assert!(!store.is_runend(1));
    assert!(!store.is_runend(2));
    assert!(store.is_runend(3));

    assert_eq!(store.read_slot(0), 10);
    assert_eq!(store.read_slot(1), 20);
    assert_eq!(store.read_slot(2), 30);
    assert_eq!(store.read_slot(3), 40);
}

#[test]
fn test_construction_different_quotients() {
    // each element has different quotient
    let infixes = vec![(10u64 << 8) | 100, (20u64 << 8) | 101, (30u64 << 8) | 102];

    let store = InfixStore::new_with_infixes(&infixes, 8);

    assert_eq!(store.elem_count(), 3);

    // all quotients occupied
    assert!(store.is_occupied(10));
    assert!(store.is_occupied(20));
    assert!(store.is_occupied(30));

    // each slot is end of its own run
    assert!(store.is_runend(0));
    assert!(store.is_runend(1));
    assert!(store.is_runend(2));

    assert_eq!(store.read_slot(0), 100);
    assert_eq!(store.read_slot(1), 101);
    assert_eq!(store.read_slot(2), 102);
}

#[test]
fn test_empty_store() {
    let infixes: Vec<u64> = vec![];
    let store = InfixStore::new_with_infixes(&infixes, 8);

    assert_eq!(store.elem_count(), 0);
}

#[test]
fn test_remainder_size_variations() {
    // test with different remainder sizes
    for remainder_size in [4, 6, 8, 10, 12] {
        let max_remainder = (1u64 << remainder_size) - 1;
        let infixes = vec![
            (100u64 << remainder_size) | max_remainder,
            (100u64 << remainder_size) | (max_remainder - 1),
        ];

        let store = InfixStore::new_with_infixes(&infixes, remainder_size);

        assert_eq!(store.remainder_size(), remainder_size);
        assert_eq!(store.read_slot(0), max_remainder);
        assert_eq!(store.read_slot(1), max_remainder - 1);
    }
}

#[test]
fn test_insert_middle_of_run() {
    let infixes = vec![(100u64 << 8) | 10, (100u64 << 8) | 30];
    let mut store = InfixStore::new_with_infixes(&infixes, 8);

    store.insert((100u64 << 8) | 20);

    assert_eq!(store.elem_count(), 3);
    assert_eq!(store.read_slot(0), 10);
    assert_eq!(store.read_slot(1), 20);
    assert_eq!(store.read_slot(2), 30);
    assert!(store.is_runend(2));
}

#[test]
fn test_insert_end_of_run() {
    let infixes = vec![(100u64 << 8) | 10, (100u64 << 8) | 20];
    let mut store = InfixStore::new_with_infixes(&infixes, 8);

    store.insert((100u64 << 8) | 30);

    assert_eq!(store.elem_count(), 3);
    assert_eq!(store.read_slot(0), 10);
    assert_eq!(store.read_slot(1), 20);
    assert_eq!(store.read_slot(2), 30);
    assert!(store.is_runend(2));
    assert!(!store.is_runend(1));
}

#[test]
fn test_insert_beginning_of_run() {
    let infixes = vec![(100u64 << 8) | 20, (100u64 << 8) | 30];
    let mut store = InfixStore::new_with_infixes(&infixes, 8);

    store.insert((100u64 << 8) | 10);

    assert_eq!(store.elem_count(), 3);
    assert_eq!(store.read_slot(0), 10);
    assert_eq!(store.read_slot(1), 20);
    assert_eq!(store.read_slot(2), 30);
    assert!(store.is_runend(2));
}

#[test]
fn test_insert_new_quotient() {
    let infixes = vec![(100u64 << 8) | 10, (200u64 << 8) | 20];
    let mut store = InfixStore::new_with_infixes(&infixes, 8);

    store.insert((150u64 << 8) | 15);

    assert_eq!(store.elem_count(), 3);
    assert!(store.is_occupied(100));
    assert!(store.is_occupied(150));
    assert!(store.is_occupied(200));
    assert!(store.is_runend(0));
    assert!(store.is_runend(1));
    assert!(store.is_runend(2));
}

#[test]
fn test_insert_duplicates() {
    let infixes = vec![(100u64 << 8) | 10];
    let mut store = InfixStore::new_with_infixes(&infixes, 8);

    assert!(store.insert((100u64 << 8) | 10));
    assert!(store.insert((100u64 << 8) | 10));

    assert_eq!(store.elem_count(), 1);
    assert_eq!(store.read_slot(0), 10);
}

#[test]
fn test_insert_boundary_values() {
    let infixes: Vec<u64> = vec![];
    let mut store = InfixStore::new_with_infixes(&infixes, 8);

    store.insert((0u64 << 8) | 0);
    store.insert((1023u64 << 8) | 255);
    store.insert((0u64 << 8) | 255);
    store.insert((1023u64 << 8) | 0);

    assert_eq!(store.elem_count(), 4);
    assert!(store.is_occupied(0));
    assert!(store.is_occupied(1023));
}

#[test]
fn test_insert_with_resize_up() {
    let infixes: Vec<u64> = vec![];
    let mut store = InfixStore::new_with_infixes(&infixes, 8);

    let initial_size_grade = store.size_grade();

    for i in 0..500 {
        store.insert((100u64 << 8) | i);
    }

    assert_eq!(store.elem_count(), 500);
    assert!(store.size_grade() > initial_size_grade);
}

#[test]
fn test_delete_middle_of_run() {
    let infixes = vec![(100u64 << 8) | 10, (100u64 << 8) | 20, (100u64 << 8) | 30];
    let mut store = InfixStore::new_with_infixes(&infixes, 8);

    assert!(store.delete((100u64 << 8) | 20));

    assert_eq!(store.elem_count(), 2);
    assert_eq!(store.read_slot(0), 10);
    assert_eq!(store.read_slot(1), 30);
    assert!(store.is_runend(1));
}

#[test]
fn test_delete_end_of_run() {
    let infixes = vec![(100u64 << 8) | 10, (100u64 << 8) | 20, (100u64 << 8) | 30];
    let mut store = InfixStore::new_with_infixes(&infixes, 8);

    assert!(store.delete((100u64 << 8) | 30));

    assert_eq!(store.elem_count(), 2);
    assert_eq!(store.read_slot(0), 10);
    assert_eq!(store.read_slot(1), 20);
    assert!(store.is_runend(1));
    assert!(!store.is_runend(0));
}

#[test]
fn test_delete_beginning_of_run() {
    let infixes = vec![(100u64 << 8) | 10, (100u64 << 8) | 20, (100u64 << 8) | 30];
    let mut store = InfixStore::new_with_infixes(&infixes, 8);

    assert!(store.delete((100u64 << 8) | 10));

    assert_eq!(store.elem_count(), 2);
    assert_eq!(store.read_slot(0), 20);
    assert_eq!(store.read_slot(1), 30);
    assert!(store.is_runend(1));
}

#[test]
fn test_delete_last_in_run() {
    let infixes = vec![(100u64 << 8) | 10, (200u64 << 8) | 20];
    let mut store = InfixStore::new_with_infixes(&infixes, 8);

    assert!(store.delete((100u64 << 8) | 10));

    assert_eq!(store.elem_count(), 1);
    assert!(!store.is_occupied(100));
    assert!(store.is_occupied(200));
    assert_eq!(store.read_slot(0), 20);
    assert!(store.is_runend(0));
}

#[test]
fn test_delete_nonexistent() {
    let infixes = vec![(100u64 << 8) | 10, (100u64 << 8) | 20];
    let mut store = InfixStore::new_with_infixes(&infixes, 8);

    assert!(!store.delete((100u64 << 8) | 30));
    assert!(!store.delete((200u64 << 8) | 10));

    assert_eq!(store.elem_count(), 2);
}

#[test]
fn test_delete_with_resize_down() {
    let infixes: Vec<u64> = vec![];
    let mut store = InfixStore::new_with_infixes(&infixes, 10);

    for i in 0..600 {
        store.insert((100u64 << 10) | i);
    }

    let size_after_insert = store.size_grade();

    for i in 0..500 {
        store.delete((100u64 << 10) | i);
    }

    assert_eq!(store.elem_count(), 100);
    assert!(store.size_grade() < size_after_insert);
}

#[test]
fn point_and_range_queries_on_infixes() {
    let infixes = vec![(10u64 << 8) | 5, (10u64 << 8) | 200, (12u64 << 8) | 7, (700u64 << 8) | 1];
    let store = InfixStore::new_with_infixes(&infixes, 8);
    assert!(store.query_infix((10u64 << 8) | 5));
    assert!(store.query_infix((700u64 << 8) | 1));
    assert!(!store.query_infix((10u64 << 8) | 6));
    assert!(!store.query_infix((11u64 << 8) | 5));
    // same quotient
    assert!(store.query_infix_range((10u64 << 8) | 6, (10u64 << 8) | 200));
    assert!(!store.query_infix_range((10u64 << 8) | 6, (10u64 << 8) | 199));
    // an occupied quotient strictly between the ends
    assert!(store.query_infix_range((11u64 << 8) | 255, (13u64 << 8) | 0));
    // only the ends' quotients
    assert!(store.query_infix_range((10u64 << 8) | 201, (12u64 << 8) | 7));
    assert!(!store.query_infix_range((10u64 << 8) | 201, (12u64 << 8) | 6));
    assert!(!store.query_infix_range((13u64 << 8) | 0, (699u64 << 8) | 255));
}

#[test]
fn duplicate_infixes_at_build_are_stored_once() {
    let infixes = vec![(3u64 << 8) | 1, (3u64 << 8) | 1, (3u64 << 8) | 2];
    let store = InfixStore::new_with_infixes(&infixes, 8);
    assert_eq!(store.elem_count(), 2);
    assert_eq!(store.read_slot(0), 1);
    assert_eq!(store.read_slot(1), 2);
    assert!(store.is_runend(1));
    assert!(!store.is_runend(0));
}

#[test]
fn infix_bits_above_quotient_are_ignored() {
    let mut store = InfixStore::new_with_infixes(&[], 8);
    assert!(store.insert((1u64 << 18) | (5u64 << 8) | 9));
    assert!(store.query_infix((5u64 << 8) | 9));
    assert!(store.delete((5u64 << 8) | 9));
    assert_eq!(store.elem_count(), 0);
}

#[test]
fn remainders_that_straddle_words() {
    // 7-bit remainders: slot 9 occupies bits 63..70
    let mut store = InfixStore::new_with_infixes(&[], 7);
    for i in 0..20u64 {
        assert!(store.insert((i << 7) | (127 - i)));
    }
    for i in 0..20usize {
        assert_eq!(store.read_slot(i), 127 - i as u64);
        assert!(store.is_runend(i));
    }
    assert!(store.delete((9u64 << 7) | 118));
    assert_eq!(store.read_slot(9), 117);
    assert!(!store.query_infix((9u64 << 7) | 118));
}

#[test]
fn insert_fails_only_when_full_at_largest_grade() {
    let mut store = InfixStore::new_with_infixes(&[], 12);
    for i in 0..2326u64 {
        assert!(store.insert(i));
    }
    assert_eq!(store.size_grade(), 30);
    assert_eq!(store.num_slots(), 2326);
    assert!(!store.insert(5000));
    assert!(!store.query_infix(5000));
    assert_eq!(store.elem_count(), 2326);
    assert!(store.delete(0));
    assert!(store.insert(5000));
}

#[test]
fn layout_counts_agree_after_updates() {
    let mut store = InfixStore::new_with_infixes(&[], 6);
    let keys = [(3u64 << 6) | 1, (3u64 << 6) | 2, (900u64 << 6) | 0, (3u64 << 6) | 0, (40u64 << 6) | 9];
    for k in keys {
        assert!(store.insert(k));
    }
    assert!(store.delete((3u64 << 6) | 2));
    let occupied = (0..1024usize).filter(|&q| store.is_occupied(q)).count();
    let runends = (0..store.num_slots()).filter(|&p| store.is_runend(p)).count();
    assert_eq!(occupied, 3);
    assert_eq!(runends, 3);
    assert!(store.elem_count() <= store.num_slots());
}

#[test]
fn resize_up_then_down_keeps_state() {
    let infixes: Vec<u64> = (0..50u64).map(|i| (i * 7) << 8 | i).collect();
    let mut store = InfixStore::new_with_infixes(&infixes, 8);
    let grade = store.size_grade();
    assert!(store.resize_up());
    assert_eq!(store.size_grade(), grade + 1);
    assert!(store.resize_down());
    assert_eq!(store.size_grade(), grade);
    assert_eq!(store.elem_count(), 50);
    for (i, &x) in infixes.iter().enumerate() {
        assert!(store.query_infix(x));
        assert_eq!(store.read_slot(i), x & 0xff);
    }
    assert!(!store.resize_down());
}
