use range_filters::binary_search_tree::BinarySearchTree;

#[test]
fn test_tree_construction() {
    let bst = BinarySearchTree::new_with_keys(&[1, 2, 3, 20, 30, 4, 5, 6, 7]);
    assert!(bst.contains(1));
    assert!(bst.contains(2));
    assert!(bst.contains(30));
    assert!(bst.contains(4));
    assert!(bst.contains(5));
    assert!(bst.contains(6));
    assert!(bst.contains(7));
    assert!(!bst.contains(8));
    assert!(!bst.contains(9));
    assert!(!bst.contains(10));
}

#[test]
fn test_tree_insertion() {
    let mut bst = BinarySearchTree::new();
    bst.insert(1);
    bst.insert(2);
    bst.insert(3);
    bst.insert(20);
    bst.insert(30);
    bst.insert(4);
    bst.insert(5);
    bst.insert(6);
    bst.insert(7);
    assert!(bst.contains(1));
    assert!(bst.contains(2));
    assert!(bst.contains(3));
    assert!(bst.contains(20));
    assert!(bst.contains(30));
    assert!(bst.contains(4));
    assert!(bst.contains(5));
    assert!(bst.contains(6));
    assert!(bst.contains(7));
    assert!(!bst.contains(8));
    assert!(!bst.contains(9));
    assert!(!bst.contains(10));
}

#[test]
fn unsorted_keys_with_repeats_build_a_searchable_tree() {
    let bst = BinarySearchTree::new_with_keys(&[50, 10, 90, 10, 70, 30, 30]);
    for k in [10, 30, 50, 70, 90] {
        assert!(bst.contains(k));
    }
    for k in [0, 20, 40, 60, 80, 100] {
        assert!(!bst.contains(k));
    }
}

#[test]
fn empty_tree_contains_nothing() {
    let mut bst = BinarySearchTree::new_with_keys(&[]);
    assert!(!bst.contains(0));
    bst.insert(5);
    bst.insert(5);
    assert!(bst.contains(5));
    assert!(!bst.contains(4));
}
