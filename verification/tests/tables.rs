use ordered_table::BalancedSearchTree;
use ordered_table::BinarySearchTree;

#[test]
fn binary_search_tree_test() {
    let mut table = BinarySearchTree::new();
    table.put(3, "3");
    table.put(4, "4");
    table.put(2, "2");
    assert_eq!(table.size(), 3);
    assert_eq!(table.get(3), Some("3"));
    assert_eq!(table.get(1), None);
    assert_eq!(table.floor(5), Some(4));
    assert_eq!(table.key_of_rank(2), Some(4));
    assert_eq!(table.rank_of_key(4), 2);
    table.delete(3);
    assert_eq!(table.size(), 2);
    assert_eq!(table.get(3), None);
    assert_eq!(table.floor(4), Some(4));
    assert_eq!(table.floor(3), Some(2));
}

#[test]
fn searching_test() {
    let mut table = BinarySearchTree::new();
    table.put(3, "3");
    table.put(4, "4");
    table.put(2, "2");
    assert_eq!(table.size(), 3);
    assert_eq!(table.get(3), Some("3"));
    assert_eq!(table.get(1), None);
    assert_eq!(table.floor(5), Some(4));
    assert_eq!(table.key_of_rank(2), Some(4));
    assert_eq!(table.rank_of_key(4), 2);
    table.delete_min();
}

#[test]
fn empty_table() {
    let mut table = BinarySearchTree::<&str>::new();
    assert_eq!(table.size(), 0);
    assert_eq!(table.min(), None);
    assert_eq!(table.get(0), None);
    assert_eq!(table.floor(7), None);
    assert_eq!(table.key_of_rank(0), None);
    assert_eq!(table.rank_of_key(-3), 0);
    assert_eq!(table.rank_of_key(41), 0);
    table.delete_min();
    assert_eq!(table.size(), 0);
    table.delete(5);
    assert_eq!(table.size(), 0);
}

#[test]
fn put_get_round_trip() {
    let mut table = BinarySearchTree::new();
    table.put(10, "ten");
    table.put(5, "five");
    table.put(10, "TEN");
    assert_eq!(table.get(10), Some("TEN"));
    assert_eq!(table.get(5), Some("five"));
    assert_eq!(table.size(), 2);

    let mut balanced = BalancedSearchTree::new();
    balanced.put(10, "ten");
    balanced.put(5, "five");
    balanced.put(10, "TEN");
    assert_eq!(balanced.get(10), Some("TEN"));
    assert_eq!(balanced.get(5), Some("five"));
    assert_eq!(balanced.len(), 2);
}

#[test]
fn rank_select_inverse() {
    let mut table = BinarySearchTree::new();
    for k in [14i64, 3, 99, -7, 56, 0, 21] {
        table.put(k, k * 2);
    }
    for i in 0..table.size() {
        let key = table.key_of_rank(i).unwrap();
        assert_eq!(table.rank_of_key(key), i);
    }
    assert_eq!(table.key_of_rank(table.size()), None);
}

#[test]
fn delete_absent_is_noop() {
    let mut table = BinarySearchTree::new();
    table.put(1, "a");
    table.put(2, "b");
    table.put(3, "c");
    table.delete(42);
    assert_eq!(table.size(), 3);
    assert_eq!(table.get(1), Some("a"));
    assert_eq!(table.get(2), Some("b"));
    assert_eq!(table.get(3), Some("c"));
}

#[test]
fn min_and_delete_min() {
    let mut table = BinarySearchTree::new();
    table.put(8, "h");
    table.put(4, "d");
    table.put(12, "l");
    table.put(2, "b");
    assert_eq!(table.min(), Some(2));
    table.delete_min();
    assert_eq!(table.min(), Some(4));
    assert_eq!(table.size(), 3);
    assert_eq!(table.get(2), None);
}

#[test]
fn balanced_insertions_in_scrambled_order() {
    // A fixed pseudo-random permutation of 1..=1000.
    let mut keys: Vec<i64> = (1..=1000).collect();
    for i in 0..keys.len() {
        let j = (i * 7919 + 13) % keys.len();
        keys.swap(i, j);
    }
    let mut table = BalancedSearchTree::new();
    let mut inserted: usize = 0;
    for &k in &keys {
        table.put(k, k * 3);
        inserted += 1;
        assert_eq!(table.len(), inserted);
        assert_eq!(table.get(k), Some(k * 3));
    }
    for k in 1..=1000i64 {
        assert_eq!(table.get(k), Some(k * 3));
    }
    assert_eq!(table.get(0), None);
    assert_eq!(table.get(1001), None);
    // Black height is at most log2(1001) < 10, and the height is at most
    // twice the black height, whatever the insertion order.
    assert!(table.height() <= 18);
}

#[test]
fn plain_tree_order_statistics_after_scrambled_insertions() {
    let mut keys: Vec<i64> = (1..=300).collect();
    for i in 0..keys.len() {
        let j = (i * 257 + 101) % keys.len();
        keys.swap(i, j);
    }
    let mut table = BinarySearchTree::new();
    for &k in &keys {
        table.put(k, ());
    }
    assert_eq!(table.size(), 300);
    assert_eq!(table.min(), Some(1));
    for i in 0..300usize {
        assert_eq!(table.key_of_rank(i), Some(i as i64 + 1));
    }
    assert_eq!(table.rank_of_key(150), 149);
    assert_eq!(table.rank_of_key(301), 300);
    assert_eq!(table.floor(250), Some(250));
    // Delete the odd keys and re-check the order statistics.
    for k in 1..=300i64 {
        if k % 2 == 1 {
            table.delete(k);
        }
    }
    assert_eq!(table.size(), 150);
    assert_eq!(table.min(), Some(2));
    for i in 0..150usize {
        assert_eq!(table.key_of_rank(i), Some(2 * (i as i64 + 1)));
    }
    assert_eq!(table.floor(151), Some(150));
}
