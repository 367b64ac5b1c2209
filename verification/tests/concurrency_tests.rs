use lau_database_theory::concurrency::{LockResult, LockType, TimestampOrdering, TwoPhaseLocking};

#[test]
fn test_2pl_basic() {
    let mut cc = TwoPhaseLocking::new();
    assert_eq!(cc.lock(1, "A", LockType::Exclusive), LockResult::Granted);
    assert_eq!(cc.lock(2, "A", LockType::Shared), LockResult::Denied("Lock conflict on A".into()));
    assert!(cc.holds_lock(1, "A"));
    assert!(!cc.holds_lock(2, "A"));
}

#[test]
fn test_2pl_shared_locks() {
    let mut cc = TwoPhaseLocking::new();
    assert_eq!(cc.lock(1, "A", LockType::Shared), LockResult::Granted);
    assert_eq!(cc.lock(2, "A", LockType::Shared), LockResult::Granted);
    assert!(cc.holds_lock(1, "A"));
    assert!(cc.holds_lock(2, "A"));
}

#[test]
fn test_2pl_upgrade() {
    let mut cc = TwoPhaseLocking::new();
    assert_eq!(cc.lock(1, "A", LockType::Shared), LockResult::Granted);
    assert_eq!(cc.lock(1, "A", LockType::Exclusive), LockResult::Granted);
}

#[test]
fn test_2pl_unlock_shrinking() {
    let mut cc = TwoPhaseLocking::new();
    assert_eq!(cc.lock(1, "A", LockType::Exclusive), LockResult::Granted);
    cc.unlock(1, "A");
    assert_eq!(
        cc.lock(1, "B", LockType::Exclusive),
        LockResult::Denied("Transaction in shrinking phase".into())
    );
}

#[test]
fn test_2pl_unlock_all() {
    let mut cc = TwoPhaseLocking::new();
    cc.lock(1, "A", LockType::Exclusive);
    cc.lock(1, "B", LockType::Shared);
    cc.unlock_all(1);
    assert!(!cc.holds_lock(1, "A"));
    assert!(!cc.holds_lock(1, "B"));
}

#[test]
fn test_timestamp_ordering_basic() {
    let mut cc = TimestampOrdering::new();
    cc.begin(1);
    cc.begin(2);

    assert!(cc.write(1, "A").is_ok());
    assert!(cc.read(2, "A").is_ok());
}

#[test]
fn test_timestamp_ordering_conflict() {
    let mut cc = TimestampOrdering::new();
    cc.begin(1);
    cc.begin(2);

    assert!(cc.write(2, "A").is_ok());
    assert!(cc.read(1, "A").is_err());
}

#[test]
fn test_timestamp_ordering_thomas_write() {
    let mut cc = TimestampOrdering::new();
    cc.begin(1);
    cc.begin(2);

    assert!(cc.write(2, "A").is_ok());
    assert!(cc.write(1, "A").is_ok());
}

#[test]
fn test_timestamp_read_after_write() {
    let mut cc = TimestampOrdering::new();
    cc.begin(1);
    cc.begin(2);

    assert!(cc.write(1, "X").is_ok());
    assert!(cc.read(2, "X").is_ok());
}

#[test]
fn upgrade_refused_with_other_shared_holders() {
    let mut cc = TwoPhaseLocking::new();
    assert_eq!(cc.lock(1, "A", LockType::Shared), LockResult::Granted);
    assert_eq!(cc.lock(2, "A", LockType::Shared), LockResult::Granted);
    assert_eq!(
        cc.lock(1, "A", LockType::Exclusive),
        LockResult::Denied("Cannot upgrade: other shared holders".into())
    );
    assert!(cc.holds_lock(1, "A"));
}

#[test]
fn unlock_refusals_and_compliance() {
    let mut cc = TwoPhaseLocking::new();
    assert_eq!(cc.unlock(1, "A"), LockResult::Denied("No lock on item".into()));
    assert_eq!(cc.lock(2, "A", LockType::Shared), LockResult::Granted);
    assert_eq!(
        cc.unlock(3, "A"),
        LockResult::Denied("Transaction does not hold this lock".into())
    );
    assert!(cc.is_compliant(2));
    assert!(!cc.is_compliant(3));
    assert_eq!(cc.unlock(2, "A"), LockResult::Granted);
    assert!(!cc.holds_lock(2, "A"));
    assert_eq!(cc.lock(4, "A", LockType::Exclusive), LockResult::Granted);
}

#[test]
fn timestamp_messages_and_numbers() {
    let mut cc = TimestampOrdering::new();
    assert_eq!(cc.begin(7), 1);
    assert_eq!(cc.begin(8), 2);
    assert!(cc.read(8, "A").is_ok());
    assert_eq!(
        cc.write(7, "A"),
        Err("Transaction 7 (ts=1) trying to write A read by ts=2: too late".to_string())
    );
    assert!(cc.write(8, "B").is_ok());
    assert_eq!(
        cc.read(7, "B"),
        Err("Transaction 7 (ts=1) trying to read B written by ts=2: too late".to_string())
    );
}

#[test]
fn timestamps_count_up_across_reads_and_writes() {
    let mut cc = TimestampOrdering::new();
    assert_eq!(cc.begin(10), 1);
    assert!(cc.read(10, "x").is_ok());
    assert_eq!(cc.begin(20), 2);
    assert!(cc.write(20, "x").is_ok());
    assert_eq!(cc.begin(30), 3);
    assert!(cc.write(10, "x").is_ok());
    assert!(cc.read(10, "x").is_err());
    assert_eq!(cc.begin(40), 4);
}
