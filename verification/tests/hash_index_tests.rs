use lau_database_theory::hash_index::{ChainedHashTable, ExtendibleHashTable};

#[test]
fn test_chained_hash_insert_get() {
    let mut ht = ChainedHashTable::new(4);
    ht.insert(1, vec![1]);
    ht.insert(2, vec![2]);
    ht.insert(5, vec![5]);

    assert_eq!(ht.get(1), Some(&vec![1]));
    assert_eq!(ht.get(2), Some(&vec![2]));
    assert_eq!(ht.get(5), Some(&vec![5]));
    assert_eq!(ht.get(99), None);
}

#[test]
fn test_chained_hash_remove() {
    let mut ht = ChainedHashTable::new(4);
    ht.insert(1, vec![1]);
    assert!(ht.remove(1));
    assert!(!ht.contains(1));
    assert!(!ht.remove(1));
}

#[test]
fn test_chained_hash_update() {
    let mut ht = ChainedHashTable::new(4);
    ht.insert(1, vec![1]);
    ht.insert(1, vec![2]);
    assert_eq!(ht.get(1), Some(&vec![2]));
    assert_eq!(ht.len(), 1);
}

#[test]
fn test_chained_hash_load_factor() {
    let mut ht = ChainedHashTable::new(10);
    for i in 0..5 {
        ht.insert(i, vec![]);
    }
    let (entries, buckets) = ht.load_factor();
    let lf = entries as f64 / buckets as f64;
    assert!((lf - 0.5).abs() < 0.001);
}

#[test]
fn test_extendible_hash_basic() {
    let mut ht = ExtendibleHashTable::new();
    ht.insert(1, vec![1]);
    ht.insert(2, vec![2]);
    ht.insert(3, vec![3]);

    assert_eq!(ht.get(1), Some(&vec![1]));
    assert_eq!(ht.get(2), Some(&vec![2]));
    assert_eq!(ht.get(3), Some(&vec![3]));
}

#[test]
fn test_extendible_hash_growth() {
    let mut ht = ExtendibleHashTable::new();
    for i in 0..20 {
        ht.insert(i, format!("v{}", i).into_bytes());
    }
    for i in 0..20 {
        assert!(ht.contains(i), "Missing key {}", i);
    }
    assert!(ht.num_buckets() > 1);
}

#[test]
fn test_extendible_hash_update() {
    let mut ht = ExtendibleHashTable::new();
    ht.insert(1, vec![1]);
    ht.insert(1, vec![2]);
    assert_eq!(ht.get(1), Some(&vec![2]));
}

#[test]
fn chained_remove_keeps_other_keys_in_the_chain() {
    let mut ht = ChainedHashTable::new(4);
    ht.insert(1, vec![1]);
    ht.insert(5, vec![5]);
    ht.insert(9, vec![9]);
    assert!(ht.remove(5));
    assert_eq!(ht.get(1), Some(&vec![1]));
    assert_eq!(ht.get(9), Some(&vec![9]));
    assert_eq!(ht.get(5), None);
    assert_eq!(ht.len(), 2);
    assert!(!ht.is_empty());
    assert_eq!(ht.load_factor(), (2, 4));
}

#[test]
fn chained_negative_keys() {
    let mut ht = ChainedHashTable::new(3);
    ht.insert(-1, vec![7]);
    ht.insert(-4, vec![8]);
    assert_eq!(ht.get(-1), Some(&vec![7]));
    assert_eq!(ht.get(-4), Some(&vec![8]));
    assert!(ht.remove(-1));
    assert!(!ht.contains(-1));
    assert!(ht.contains(-4));
}

#[test]
fn extendible_directory_doubles_on_overflow() {
    let mut ht = ExtendibleHashTable::new();
    assert_eq!(ht.global_depth(), 0);
    assert_eq!(ht.num_buckets(), 1);
    for k in [0i64, 2, 4, 6] {
        ht.insert(k, vec![k as u8]);
    }
    assert!(ht.global_depth() >= 2);
    for k in [0i64, 2, 4, 6] {
        assert_eq!(ht.get(k), Some(&vec![k as u8]));
    }
    assert_eq!(ht.get(1), None);
}

#[test]
fn extendible_growth_stays_within_the_directory() {
    let mut ht = ExtendibleHashTable::new();
    let mut depth = ht.global_depth();
    let mut buckets = ht.num_buckets();
    for i in 0..64i64 {
        ht.insert(i * 7 - 100, vec![i as u8]);
        assert!(ht.global_depth() >= depth);
        assert!(ht.num_buckets() >= buckets);
        assert!(ht.num_buckets() >= 1);
        assert!(ht.num_buckets() <= 1usize << ht.global_depth());
        depth = ht.global_depth();
        buckets = ht.num_buckets();
    }
    let before = (ht.global_depth(), ht.num_buckets());
    ht.insert(-100, vec![9]);
    assert_eq!((ht.global_depth(), ht.num_buckets()), before);
    assert_eq!(ht.get(-100), Some(&vec![9]));
}
