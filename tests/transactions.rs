use waterkv::engine::{Engine, KeyBound, Selector};
use waterkv::error::Error;
use waterkv::memory::Memory;
use waterkv::mvcc::MVCC;
use waterkv::txn::TransactionState;

fn engine() -> MVCC<Memory> {
    MVCC::new(Memory::new())
}

#[test]
fn versions_are_allocated_in_order() {
    let mut db = engine();
    let t1 = db.begin().unwrap();
    let t2 = db.begin().unwrap();
    assert_eq!(t1.version(), 1);
    assert_eq!(t2.version(), 2);
    assert_eq!(t2.state().active, vec![1]);
    assert!(t1.state().active.is_empty());
    t1.rollback(db.engine()).unwrap();
    let t3 = db.begin().unwrap();
    assert_eq!(t3.version(), 3);
}

#[test]
fn snapshot_isolation_hides_later_commit() {
    let mut db = engine();
    let t1 = db.begin().unwrap();
    assert_eq!(t1.version(), 1);
    let t2 = db.begin().unwrap();
    assert_eq!(t2.version(), 2);
    t2.set(db.engine(), b"K", b"b".to_vec()).unwrap();
    t2.commit(db.engine()).unwrap();
    assert_eq!(t1.get(db.engine(), b"K").unwrap(), None);
}

#[test]
fn visible_after_commit() {
    let mut db = engine();
    let t1 = db.begin().unwrap();
    t1.set(db.engine(), b"K", b"a".to_vec()).unwrap();
    t1.commit(db.engine()).unwrap();
    let t2 = db.begin().unwrap();
    assert_eq!(t2.version(), 2);
    assert_eq!(t2.get(db.engine(), b"K").unwrap(), Some(b"a".to_vec()));
}

#[test]
fn concurrent_write_conflicts() {
    let mut db = engine();
    let t1 = db.begin().unwrap();
    t1.set(db.engine(), b"K", b"a".to_vec()).unwrap();
    let t2 = db.begin().unwrap();
    assert!(t2.state().active.contains(&1));
    assert_eq!(t2.set(db.engine(), b"K", b"x".to_vec()), Err(Error::WriteConflict));
    assert_eq!(t2.delete(db.engine(), b"K"), Err(Error::WriteConflict));
    assert_eq!(t2.set(db.engine(), b"other", b"x".to_vec()), Ok(()));
}

#[test]
fn later_writer_to_committed_newer_version_conflicts() {
    let mut db = engine();
    let t1 = db.begin().unwrap();
    let t2 = db.begin().unwrap();
    t2.set(db.engine(), b"K", b"b".to_vec()).unwrap();
    t2.commit(db.engine()).unwrap();
    assert_eq!(t1.set(db.engine(), b"K", b"a".to_vec()), Err(Error::WriteConflict));
}

#[test]
fn rollback_leaves_no_trace_for_reads() {
    let mut db = engine();
    let t = db.begin().unwrap();
    t.set(db.engine(), b"K", b"z".to_vec()).unwrap();
    assert_eq!(t.get(db.engine(), b"K").unwrap(), Some(b"z".to_vec()));
    t.rollback(db.engine()).unwrap();
    let later = db.begin().unwrap();
    assert_eq!(later.get(db.engine(), b"K").unwrap(), None);
    assert_eq!(db.status().unwrap().active_txns, 1);
}

#[test]
fn resumed_transaction_commits_under_its_version() {
    let mut db = engine();
    let t = db.begin().unwrap();
    t.set(db.engine(), b"K", b"v".to_vec()).unwrap();
    let st = t.state();
    let saved = TransactionState { version: st.version, read_only: st.read_only, active: st.active.clone() };
    let resumed = db.resume(saved).unwrap();
    assert_eq!(resumed.version(), 1);
    assert_eq!(resumed.get(db.engine(), b"K").unwrap(), Some(b"v".to_vec()));
    resumed.commit(db.engine()).unwrap();
    let reader = db.begin_read_only().unwrap();
    assert_eq!(reader.version(), 1);
    assert_eq!(reader.get(db.engine(), b"K").unwrap(), Some(b"v".to_vec()));
    assert_eq!(db.status().unwrap().active_txns, 0);
}

#[test]
fn read_only_rejects_writes() {
    let mut db = engine();
    let t = db.begin_read_only().unwrap();
    assert!(t.is_read_only());
    assert_eq!(t.version(), 0);
    assert_eq!(t.set(db.engine(), b"K", b"v".to_vec()), Err(Error::ReadOnlyViolation));
    assert_eq!(t.delete(db.engine(), b"K"), Err(Error::ReadOnlyViolation));
}

#[test]
fn delete_hides_value() {
    let mut db = engine();
    let t1 = db.begin().unwrap();
    t1.set(db.engine(), b"K", b"a".to_vec()).unwrap();
    t1.commit(db.engine()).unwrap();
    let t2 = db.begin().unwrap();
    t2.delete(db.engine(), b"K").unwrap();
    assert_eq!(t2.get(db.engine(), b"K").unwrap(), None);
    t2.commit(db.engine()).unwrap();
    let t3 = db.begin().unwrap();
    assert_eq!(t3.get(db.engine(), b"K").unwrap(), None);
}

#[test]
fn as_of_reads_history() {
    let mut db = engine();
    let t1 = db.begin().unwrap();
    t1.set(db.engine(), b"K", b"old".to_vec()).unwrap();
    t1.commit(db.engine()).unwrap();
    let t2 = db.begin().unwrap();
    t2.set(db.engine(), b"K", b"new".to_vec()).unwrap();
    t2.commit(db.engine()).unwrap();
    let past = db.begin_as_of(1).unwrap();
    assert!(past.is_read_only());
    assert_eq!(past.get(db.engine(), b"K").unwrap(), Some(b"old".to_vec()));
    let now = db.begin_read_only().unwrap();
    assert_eq!(now.version(), 2);
    assert_eq!(now.get(db.engine(), b"K").unwrap(), Some(b"new".to_vec()));
}

#[test]
fn keys_with_zero_bytes_stay_apart() {
    let mut db = engine();
    let t = db.begin().unwrap();
    t.set(db.engine(), b"a\x00", b"1".to_vec()).unwrap();
    t.set(db.engine(), b"a", b"2".to_vec()).unwrap();
    t.set(db.engine(), b"", b"3".to_vec()).unwrap();
    assert_eq!(t.get(db.engine(), b"a\x00").unwrap(), Some(b"1".to_vec()));
    assert_eq!(t.get(db.engine(), b"a").unwrap(), Some(b"2".to_vec()));
    assert_eq!(t.get(db.engine(), b"").unwrap(), Some(b"3".to_vec()));
}

#[test]
fn unversioned_bypasses_transactions() {
    let mut db = engine();
    assert_eq!(db.get_unversioned(b"schema").unwrap(), None);
    db.set_unversioned(b"schema", b"t1".to_vec()).unwrap();
    assert_eq!(db.get_unversioned(b"schema").unwrap(), Some(b"t1".to_vec()));
    let t = db.begin().unwrap();
    assert_eq!(t.get(db.engine(), b"schema").unwrap(), None);
}

#[test]
fn status_counts_versions_and_open_transactions() {
    let mut db = engine();
    let s = db.status().unwrap();
    assert_eq!(s.versions, 0);
    assert_eq!(s.active_txns, 0);
    assert_eq!(s.storage.name, "memory");
    let t1 = db.begin().unwrap();
    let _t2 = db.begin().unwrap();
    t1.commit(db.engine()).unwrap();
    let s = db.status().unwrap();
    assert_eq!(s.versions, 2);
    assert_eq!(s.active_txns, 1);
    assert!(s.storage.keys >= 2);
}

#[test]
fn scan_sees_snapshot_in_key_order() {
    let mut db = engine();
    let t1 = db.begin().unwrap();
    t1.set(db.engine(), b"b", b"2".to_vec()).unwrap();
    t1.set(db.engine(), b"a", b"1".to_vec()).unwrap();
    t1.set(db.engine(), b"c", b"3".to_vec()).unwrap();
    t1.set(db.engine(), b"d", b"4".to_vec()).unwrap();
    t1.commit(db.engine()).unwrap();
    let t2 = db.begin().unwrap();
    t2.delete(db.engine(), b"c").unwrap();
    t2.set(db.engine(), b"a", b"10".to_vec()).unwrap();
    let t3 = db.begin().unwrap();
    let all = t2.scan(db.engine(), Selector::Range(KeyBound::Unbounded, KeyBound::Unbounded)).unwrap();
    assert_eq!(
        all,
        vec![(b"a".to_vec(), b"10".to_vec()), (b"b".to_vec(), b"2".to_vec()), (b"d".to_vec(), b"4".to_vec())]
    );
    let old = t3
        .scan(db.engine(), Selector::Range(KeyBound::Included(b"b".to_vec()), KeyBound::Excluded(b"d".to_vec())))
        .unwrap();
    assert_eq!(old, vec![(b"b".to_vec(), b"2".to_vec()), (b"c".to_vec(), b"3".to_vec())]);
    let pre = t3.scan(db.engine(), Selector::Prefix(b"a".to_vec())).unwrap();
    assert_eq!(pre, vec![(b"a".to_vec(), b"1".to_vec())]);
}

#[test]
fn scan_of_empty_store_is_empty() {
    let mut db = engine();
    let t = db.begin_read_only().unwrap();
    let all = t.scan(db.engine(), Selector::Range(KeyBound::Unbounded, KeyBound::Unbounded)).unwrap();
    assert!(all.is_empty());
}

#[test]
fn rollback_keeps_earlier_committed_value() {
    let mut db = engine();
    let t0 = db.begin().unwrap();
    t0.set(db.engine(), b"K", b"a".to_vec()).unwrap();
    t0.commit(db.engine()).unwrap();
    let t = db.begin().unwrap();
    t.set(db.engine(), b"K", b"z".to_vec()).unwrap();
    t.delete(db.engine(), b"other").unwrap();
    t.rollback(db.engine()).unwrap();
    let later = db.begin().unwrap();
    assert!(!later.state().active.contains(&2));
    assert_eq!(later.get(db.engine(), b"K").unwrap(), Some(b"a".to_vec()));
    assert_eq!(later.get(db.engine(), b"other").unwrap(), None);
    let all = later.scan(db.engine(), Selector::Range(KeyBound::Unbounded, KeyBound::Unbounded)).unwrap();
    assert_eq!(all, vec![(b"K".to_vec(), b"a".to_vec())]);
}

#[test]
fn status_reports_backend_status() {
    let mut db = engine();
    let s = db.status().unwrap();
    assert_eq!(s.storage.name, "memory");
    assert_eq!((s.storage.keys, s.storage.size, s.storage.total_disk_size), (0, 0, 0));
    db.set_unversioned(b"ab", b"xyz".to_vec()).unwrap();
    let direct = db.engine().status().unwrap();
    let s = db.status().unwrap();
    assert_eq!(s.storage.keys, 1);
    assert_eq!(s.storage.size, direct.size);
    assert_eq!(s.storage.size, 5 + 3);
    assert_eq!(s.storage.live_disk_size, 0);
    assert_eq!(s.storage.garbage_disk_size, 0);
}
