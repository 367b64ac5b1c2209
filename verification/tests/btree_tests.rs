use lau_database_theory::btree::{BTree, BTreeNode};

#[test]
fn test_insert_and_search() {
    let mut tree = BTree::new();
    tree.insert(10, vec![1]);
    tree.insert(20, vec![2]);
    tree.insert(5, vec![3]);

    assert_eq!(tree.search(10), Some(&vec![1]));
    assert_eq!(tree.search(20), Some(&vec![2]));
    assert_eq!(tree.search(5), Some(&vec![3]));
    assert_eq!(tree.search(99), None);
}

#[test]
fn test_contains() {
    let mut tree = BTree::new();
    tree.insert(1, vec![]);
    tree.insert(2, vec![]);
    assert!(tree.contains(1));
    assert!(!tree.contains(3));
}

#[test]
fn test_insert_causes_split() {
    let mut tree = BTree::with_order(3);
    for i in 1..=10 {
        tree.insert(i as i64, vec![i as u8]);
    }
    for i in 1..=10 {
        assert!(tree.contains(i as i64), "Missing key {}", i);
    }
    let keys = tree.keys();
    assert_eq!(keys, vec![1, 2, 3, 4, 5, 6, 7, 8, 9, 10]);
}

#[test]
fn test_range_query() {
    let mut tree = BTree::new();
    for i in 1..=20 {
        tree.insert(i, vec![i as u8]);
    }
    let range = tree.range_query(5, 10);
    assert_eq!(range.len(), 6);
    for (i, (k, _)) in range.iter().enumerate() {
        assert_eq!(*k, (i + 5) as i64);
    }
}

#[test]
fn test_range_query_empty() {
    let mut tree = BTree::new();
    for i in 1..=5 {
        tree.insert(i, vec![]);
    }
    let range = tree.range_query(10, 20);
    assert!(range.is_empty());
}

#[test]
fn test_update_existing() {
    let mut tree = BTree::new();
    tree.insert(1, vec![1]);
    tree.insert(1, vec![2]);
    assert_eq!(tree.search(1), Some(&vec![2]));
}

#[test]
fn test_large_insertion() {
    let mut tree = BTree::with_order(4);
    for i in 0..100 {
        tree.insert(i, format!("val_{}", i).into_bytes());
    }
    for i in 0..100 {
        assert!(tree.contains(i));
    }
    let keys = tree.keys();
    assert_eq!(keys.len(), 100);
    for i in 0..99 {
        assert!(keys[i] < keys[i + 1]);
    }
}

#[test]
fn test_reverse_insertion() {
    let mut tree = BTree::with_order(3);
    for i in (1..=10).rev() {
        tree.insert(i, vec![i as u8]);
    }
    let keys = tree.keys();
    assert_eq!(keys, vec![1, 2, 3, 4, 5, 6, 7, 8, 9, 10]);
}

#[test]
fn range_query_bounds_are_inclusive_and_values_kept() {
    let mut tree = BTree::with_order(3);
    for i in [7i64, -3, 12, 0, 5, 9] {
        tree.insert(i, vec![(i + 10) as u8]);
    }
    let range = tree.range_query(0, 9);
    let keys: Vec<i64> = range.iter().map(|(k, _)| *k).collect();
    assert_eq!(keys, vec![0, 5, 7, 9]);
    assert_eq!(range[1].1, vec![15]);
    assert!(tree.range_query(10, 5).is_empty());
}

#[test]
fn search_after_many_updates_sees_last_value() {
    let mut tree = BTree::with_order(3);
    for round in 0..3u8 {
        for i in 0..20i64 {
            tree.insert(i, vec![round, i as u8]);
        }
    }
    for i in 0..20i64 {
        assert_eq!(tree.search(i), Some(&vec![2, i as u8]));
    }
    assert_eq!(tree.keys().len(), 20);
}

fn leaf_keys(n: &BTreeNode) -> Vec<i64> {
    match n {
        BTreeNode::Leaf { keys, .. } => keys.clone(),
        BTreeNode::Internal { .. } => panic!("expected a leaf"),
    }
}

#[test]
fn leaf_and_internal_splits_shape_the_tree() {
    let mut tree = BTree::with_order(3);
    for k in 1..=4 {
        tree.insert(k, vec![k as u8]);
    }
    match tree.root.as_deref() {
        Some(BTreeNode::Internal { keys, children }) => {
            assert_eq!(keys, &vec![2, 3]);
            let shapes: Vec<Vec<i64>> = children.iter().map(|c| leaf_keys(c)).collect();
            assert_eq!(shapes, vec![vec![1], vec![2], vec![3, 4]]);
        }
        _ => panic!("expected an internal root"),
    }
    tree.insert(5, vec![5]);
    match tree.root.as_deref() {
        Some(BTreeNode::Internal { keys, children }) => {
            assert_eq!(keys, &vec![3]);
            match (children[0].as_ref(), children[1].as_ref()) {
                (
                    BTreeNode::Internal { keys: lk, children: lc },
                    BTreeNode::Internal { keys: rk, children: rc },
                ) => {
                    assert_eq!(lk, &vec![2]);
                    assert_eq!(rk, &vec![4]);
                    let left: Vec<Vec<i64>> = lc.iter().map(|c| leaf_keys(c)).collect();
                    let right: Vec<Vec<i64>> = rc.iter().map(|c| leaf_keys(c)).collect();
                    assert_eq!(left, vec![vec![1], vec![2]]);
                    assert_eq!(right, vec![vec![3], vec![4, 5]]);
                }
                _ => panic!("expected two internal children"),
            }
        }
        _ => panic!("expected an internal root"),
    }
}

#[test]
fn keys_after_repeated_inserts_are_the_distinct_keys_in_order() {
    let mut tree = BTree::with_order(3);
    for k in [5i64, 3, 5, 1, 3, 9, 7, 1] {
        tree.insert(k, vec![k as u8, 0]);
    }
    tree.insert(5, vec![55]);
    assert_eq!(tree.keys(), vec![1, 3, 5, 7, 9]);
    assert_eq!(tree.search(5), Some(&vec![55]));
    let expected: Vec<(i64, Vec<u8>)> = tree
        .keys()
        .into_iter()
        .filter(|k| 3 <= *k && *k <= 7)
        .map(|k| (k, tree.search(k).unwrap().clone()))
        .collect();
    assert_eq!(tree.range_query(3, 7), expected);
}
