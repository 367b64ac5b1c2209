use lau_database_theory::recovery::{LogRecord, WAL};
use std::collections::HashMap;

#[test]
fn test_wal_basic() {
    let mut wal = WAL::new();
    wal.begin(1);
    wal.update(1, 0, 0, vec![0], vec![42]);
    wal.commit(1);

    assert_eq!(wal.records().len(), 3);
    assert!(matches!(wal.records()[0], LogRecord::Begin { txn: 1, .. }));
    assert!(matches!(wal.records()[1], LogRecord::Update { .. }));
    assert!(matches!(wal.records()[2], LogRecord::Commit { txn: 1, .. }));
}

#[test]
fn test_wal_abort() {
    let mut wal = WAL::new();
    wal.begin(1);
    wal.update(1, 0, 0, vec![0, 0], vec![1, 2]);
    wal.abort(1);

    assert_eq!(wal.records().len(), 3);
}

#[test]
fn test_analysis() {
    let mut wal = WAL::new();
    wal.begin(1);
    wal.begin(2);
    wal.update(1, 0, 0, vec![0], vec![1]);
    wal.commit(1);
    wal.update(2, 1, 0, vec![0], vec![2]);

    let analysis = wal.analyze();
    assert!(analysis.committed.contains(&1));
    assert!(analysis.active_txns.contains_key(&2));
    assert!(analysis.dirty_pages.contains_key(&1));
}

#[test]
fn test_redo() {
    let mut wal = WAL::new();
    wal.begin(1);
    wal.update(1, 0, 0, vec![0, 0, 0], vec![10, 20, 30]);
    wal.commit(1);

    let analysis = wal.analyze();
    let mut pages = HashMap::new();
    wal.redo(&analysis, &mut pages);

    assert_eq!(pages[&0], vec![10, 20, 30]);
}

#[test]
fn test_undo() {
    let mut wal = WAL::new();
    wal.begin(1);
    wal.update(1, 0, 0, vec![5, 5, 5], vec![10, 20, 30]);

    let analysis = wal.analyze();
    let mut pages = HashMap::new();
    wal.redo(&analysis, &mut pages);
    assert_eq!(pages[&0], vec![10, 20, 30]);

    let clrs = wal.undo(&analysis, &mut pages);
    assert_eq!(pages[&0], vec![5, 5, 5]);
    assert!(!clrs.is_empty());
}

#[test]
fn test_checkpoint() {
    let mut wal = WAL::new();
    wal.begin(1);
    wal.update(1, 0, 0, vec![0], vec![1]);
    wal.checkpoint(vec![1]);
    wal.commit(1);

    let analysis = wal.analyze();
    assert!(analysis.committed.contains(&1));
}

#[test]
fn test_clr_written() {
    let mut wal = WAL::new();
    wal.begin(1);
    wal.update(1, 0, 0, vec![1, 2], vec![3, 4]);

    let analysis = wal.analyze();
    let mut pages = HashMap::new();
    wal.redo(&analysis, &mut pages);
    let _clrs = wal.undo(&analysis, &mut pages);

    let has_clr = wal.records().iter().any(|r| matches!(r, LogRecord::CLR { .. }));
    assert!(has_clr);
}

#[test]
fn lsns_count_up_and_chain_per_transaction() {
    let mut wal = WAL::new();
    assert_eq!(wal.begin(1), 1);
    assert_eq!(wal.begin(2), 2);
    assert_eq!(wal.update(1, 3, 0, vec![0], vec![9]), 3);
    assert_eq!(wal.commit(1), 4);
    assert_eq!(wal.last_lsn(1), Some(4));
    assert_eq!(wal.last_lsn(2), Some(2));
    assert_eq!(wal.last_lsn(3), None);
    assert_eq!(wal.page_lsn(3), Some(3));
    assert_eq!(wal.page_lsn(4), None);
    assert_eq!(wal.records()[2].lsn(), 3);
    assert_eq!(wal.records()[2].txn(), Some(1));
}

#[test]
fn redo_extends_pages_and_undo_restores_losers_only() {
    let mut wal = WAL::new();
    wal.begin(1);
    wal.begin(2);
    wal.update(1, 0, 2, vec![0, 0], vec![7, 8]);
    wal.update(2, 1, 0, vec![4], vec![5]);
    wal.commit(2);

    let analysis = wal.analyze();
    assert!(analysis.active_txns.contains_key(&1));
    assert!(analysis.committed.contains(&2));
    let mut pages = HashMap::new();
    wal.redo(&analysis, &mut pages);
    assert_eq!(pages[&0], vec![0, 0, 7, 8]);
    assert_eq!(pages[&1], vec![5]);

    let clrs = wal.undo(&analysis, &mut pages);
    assert_eq!(clrs.len(), 1);
    assert_eq!(pages[&0], vec![0, 0, 0, 0]);
    assert_eq!(pages[&1], vec![5]);
    assert!(matches!(wal.records().last(), Some(LogRecord::Abort { txn: 1, .. })));
}

#[test]
fn redo_twice_gives_the_same_pages() {
    let mut wal = WAL::new();
    wal.begin(1);
    wal.update(1, 0, 1, vec![0, 0], vec![1, 2]);
    wal.update(1, 0, 0, vec![0, 0, 0], vec![7, 8, 9]);
    wal.update(1, 2, 3, vec![0], vec![5]);
    let analysis = wal.analyze();
    let mut pages = HashMap::new();
    pages.insert(0usize, vec![4, 4, 4, 4, 4]);
    wal.redo(&analysis, &mut pages);
    let once = pages.clone();
    assert_eq!(once[&0], vec![7, 8, 9, 4, 4]);
    assert_eq!(once[&2], vec![0, 0, 0, 5]);
    wal.redo(&analysis, &mut pages);
    assert_eq!(pages, once);
}

#[test]
fn undo_twice_leaves_the_pages_as_once() {
    let mut wal = WAL::new();
    wal.begin(1);
    wal.update(1, 0, 0, vec![5, 5, 5], vec![10, 20, 30]);
    wal.update(1, 0, 1, vec![20], vec![99]);
    let analysis = wal.analyze();
    let mut pages = HashMap::new();
    wal.redo(&analysis, &mut pages);
    wal.undo(&analysis, &mut pages);
    let once = pages.clone();
    wal.undo(&analysis, &mut pages);
    assert_eq!(pages, once);
    assert_eq!(pages[&0], vec![5, 5, 5]);
}

#[test]
fn redo_leaves_clean_pages_alone() {
    let mut wal = WAL::new();
    wal.begin(1);
    wal.update(1, 0, 0, vec![0], vec![1]);
    let analysis = wal.analyze();
    let mut pages = HashMap::new();
    pages.insert(7usize, vec![3u8, 4]);
    wal.redo(&analysis, &mut pages);
    assert_eq!(pages[&7], vec![3, 4]);
    assert_eq!(pages[&0], vec![1]);
}
