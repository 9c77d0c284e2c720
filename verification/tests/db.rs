//! The database and its transactions, over the in-memory store.

use std::sync::{Arc, Mutex};

use txn_db::{Db, MemoryStore, Timestamp, TxnError};

/// Read one key from a fresh snapshot.
fn read(db: &mut Db, key: &[u8]) -> Option<Vec<u8>> {
    let snap = db.snapshot();
    let value = snap.get(db, key).unwrap().map(|v| v.to_vec());
    snap.release(db);
    value
}

/// Commit one write and return its timestamp.
fn write(db: &mut Db, key: &[u8], value: &[u8]) -> Timestamp {
    let mut tx = db.begin();
    tx.put(key.to_vec(), value.to_vec());
    tx.commit(db).unwrap()
}

#[test]
fn test_new_database_is_empty_at_zero() {
    let mut db = Db::new();
    assert_eq!(db.last_committed(), Timestamp::zero());
    assert_eq!(db.begin().get(&db, b"k").unwrap(), None);
}

#[test]
fn test_commit_makes_writes_visible_to_later_transactions() {
    let mut db = Db::new();
    let mut tx = db.begin();
    tx.put(b"k".to_vec(), b"v".to_vec());
    let ts = tx.commit(&mut db).unwrap();
    assert!(ts > Timestamp::zero());
    assert_eq!(db.begin().get(&db, b"k").unwrap().as_deref(), Some(&b"v"[..]));
}

#[test]
fn test_snapshot_is_isolated_from_later_commits() {
    let mut db = Db::new();
    let mut tx = db.begin();
    tx.put(b"k".to_vec(), b"v1".to_vec());
    let _ = tx.commit(&mut db).unwrap();

    let snap = db.snapshot();
    let mut tx = db.begin();
    tx.put(b"k".to_vec(), b"v2".to_vec());
    let _ = tx.commit(&mut db).unwrap();

    assert_eq!(snap.get(&db, b"k").unwrap().as_deref(), Some(&b"v1"[..]));
}

#[test]
fn test_write_write_conflict_aborts_later_committer() {
    let mut db = Db::new();
    let mut a = db.begin();
    let mut b = db.begin();
    a.put(b"k".to_vec(), b"a".to_vec());
    b.put(b"k".to_vec(), b"b".to_vec());

    assert!(a.commit(&mut db).is_ok());
    let err = b.commit(&mut db).expect_err("second committer must lose");
    assert!(err.is_retryable());
    assert_eq!(db.begin().get(&db, b"k").unwrap().as_deref(), Some(&b"a"[..]));
}

#[test]
fn test_disjoint_keys_do_not_conflict() {
    let mut db = Db::new();
    let mut a = db.begin();
    let mut b = db.begin();
    a.put(b"a".to_vec(), b"1".to_vec());
    b.put(b"b".to_vec(), b"2".to_vec());
    assert!(a.commit(&mut db).is_ok());
    assert!(b.commit(&mut db).is_ok());
}

#[test]
fn test_read_only_commit_returns_snapshot_timestamp() {
    let mut db = Db::new();
    let mut tx = db.begin();
    tx.put(b"k".to_vec(), b"v".to_vec());
    let ts = tx.commit(&mut db).unwrap();

    let ro = db.begin();
    assert_eq!(ro.commit(&mut db).unwrap(), ts);
}

#[test]
fn test_rollback_discards_writes() {
    let mut db = Db::new();
    let mut tx = db.begin();
    tx.put(b"k".to_vec(), b"v".to_vec());
    tx.rollback(&mut db);
    assert_eq!(db.begin().get(&db, b"k").unwrap(), None);
}

#[test]
fn test_clone_shares_state() {
    // Two handles to one database, behind a lock.
    let db = Arc::new(Mutex::new(Db::new()));
    let db2 = Arc::clone(&db);
    let mut tx = db.lock().unwrap().begin();
    tx.put(b"k".to_vec(), b"v".to_vec());
    let _ = tx.commit(&mut db.lock().unwrap()).unwrap();
    let mut shared = db2.lock().unwrap();
    let mut tx = shared.begin();
    assert_eq!(tx.get(&shared, b"k").unwrap().as_deref(), Some(&b"v"[..]));
}

#[test]
fn test_serializable_rejects_write_skew() {
    let mut db = Db::new();
    let mut seed = db.begin();
    seed.put(b"x".to_vec(), vec![1]);
    seed.put(b"y".to_vec(), vec![1]);
    let _ = seed.commit(&mut db).unwrap();

    // Two serializable transactions from the same snapshot each read both
    // rows and write the one the other read.
    let mut t1 = db.begin_serializable();
    let mut t2 = db.begin_serializable();
    let _ = t1.get(&db, b"x").unwrap();
    let _ = t1.get(&db, b"y").unwrap();
    let _ = t2.get(&db, b"x").unwrap();
    let _ = t2.get(&db, b"y").unwrap();
    t1.put(b"x".to_vec(), vec![0]);
    t2.put(b"y".to_vec(), vec![0]);

    assert!(t1.commit(&mut db).is_ok());
    // t2 read x, which t1 changed -> serializable validation aborts it.
    let err = t2.commit(&mut db).expect_err("write skew must be rejected");
    assert!(err.is_retryable());
}

#[test]
fn test_snapshot_txn_allows_write_skew() {
    let mut db = Db::new();
    let mut seed = db.begin();
    seed.put(b"x".to_vec(), vec![1]);
    seed.put(b"y".to_vec(), vec![1]);
    let _ = seed.commit(&mut db).unwrap();

    // The same schedule under plain snapshot isolation: both commit, because
    // SI does not validate the read set.
    let mut t1 = db.begin();
    let mut t2 = db.begin();
    let _ = t1.get(&db, b"x").unwrap();
    let _ = t1.get(&db, b"y").unwrap();
    let _ = t2.get(&db, b"x").unwrap();
    let _ = t2.get(&db, b"y").unwrap();
    t1.put(b"x".to_vec(), vec![0]);
    t2.put(b"y".to_vec(), vec![0]);

    assert!(t1.commit(&mut db).is_ok());
    assert!(t2.commit(&mut db).is_ok());
}

/// A single transaction with a very large write set spanning every shard commits
/// atomically and reads back intact, then a second large transaction overwrites
/// part of it.
#[test]
fn very_large_transaction() {
    const N: u32 = 20_000;
    let mut db = Db::new();

    let mut tx = db.begin();
    for i in 0..N {
        tx.put(i.to_le_bytes().to_vec(), i.to_le_bytes().to_vec());
    }
    tx.commit(&mut db).unwrap();

    let snap = db.snapshot();
    for i in [0u32, 1, N / 2, N - 1] {
        let got = snap.get(&db, &i.to_le_bytes()).unwrap().unwrap();
        assert_eq!(u32::from_le_bytes(got[..4].try_into().unwrap()), i);
    }

    // Overwrite the even keys in one more large transaction.
    let mut tx = db.begin();
    for i in (0..N).step_by(2) {
        tx.put(i.to_le_bytes().to_vec(), u32::MAX.to_le_bytes().to_vec());
    }
    tx.commit(&mut db).unwrap();

    let snap = db.snapshot();
    let even = snap.get(&db, &0u32.to_le_bytes()).unwrap().unwrap();
    let odd = snap.get(&db, &1u32.to_le_bytes()).unwrap().unwrap();
    assert_eq!(u32::from_le_bytes(even[..4].try_into().unwrap()), u32::MAX);
    assert_eq!(u32::from_le_bytes(odd[..4].try_into().unwrap()), 1);
}

/// Awkward key and value sizes, empty and large, round-trip correctly.
#[test]
fn edge_case_key_and_value_sizes() {
    let mut db = Db::new();
    let big_value = vec![0xABu8; 1 << 20]; // 1 MiB
    let big_key = vec![0x5Au8; 4096];

    let mut tx = db.begin();
    tx.put(Vec::new(), b"empty-key".to_vec()); // empty key
    tx.put(b"empty-value".to_vec(), Vec::new()); // empty value
    tx.put(big_key.clone(), big_value.clone()); // large key and value
    tx.commit(&mut db).unwrap();

    let snap = db.snapshot();
    assert_eq!(snap.get(&db, b"").unwrap().as_deref(), Some(&b"empty-key"[..]));
    assert_eq!(snap.get(&db, b"empty-value").unwrap().as_deref(), Some(&[][..]));
    assert_eq!(snap.get(&db, &big_key).unwrap().unwrap().len(), big_value.len());
}

/// Two transactions take the same (empty) snapshot and both write the same key,
/// then commit, in either order. Exactly one must commit, and its value is the
/// one that ends up visible.
#[test]
fn loom_same_key_commit_has_one_winner() {
    for a_first in [true, false] {
        let mut db = Db::new();

        // Both snapshots are taken now, before either commits.
        let mut a = db.begin();
        let mut b = db.begin();
        a.put(vec![7u8], vec![1u8]);
        b.put(vec![7u8], vec![2u8]);

        let (a_committed, b_committed) = if a_first {
            let a = a.commit(&mut db).is_ok();
            (a, b.commit(&mut db).is_ok())
        } else {
            let b = b.commit(&mut db).is_ok();
            (a.commit(&mut db).is_ok(), b)
        };

        assert_eq!(
            usize::from(a_committed) + usize::from(b_committed),
            1,
            "exactly one writer of a contended key must win"
        );
        let value = db.get(&[7u8]).unwrap();
        let value = value.expect("the winning write must be visible");
        assert!(value.as_ref() == [1u8] || value.as_ref() == [2u8]);
        assert_eq!(value.as_ref(), if a_first { [1u8] } else { [2u8] });
    }
}

/// Two transactions take the same snapshot and commit to disjoint keys, in
/// either order. Neither conflicts, so both must commit, and a fresh snapshot
/// observes both writes.
#[test]
fn loom_disjoint_commits_both_succeed_and_are_visible() {
    for a_first in [true, false] {
        let mut db = Db::new();

        let mut a = db.begin();
        let mut b = db.begin();
        a.put(vec![1u8], vec![10u8]);
        b.put(vec![2u8], vec![20u8]);

        let (a_committed, b_committed) = if a_first {
            let a = a.commit(&mut db).is_ok();
            (a, b.commit(&mut db).is_ok())
        } else {
            let b = b.commit(&mut db).is_ok();
            (a.commit(&mut db).is_ok(), b)
        };

        assert!(
            a_committed && b_committed,
            "disjoint commits never conflict"
        );

        let snap = db.snapshot();
        assert_eq!(snap.get(&db, &[1u8]).unwrap().as_deref(), Some(&[10u8][..]));
        assert_eq!(snap.get(&db, &[2u8]).unwrap().as_deref(), Some(&[20u8][..]));
    }
}

#[test]
fn commits_are_numbered_from_one() {
    let mut db = Db::new();
    assert_eq!(write(&mut db, b"a", b"1"), Timestamp::from_raw(1));
    assert_eq!(write(&mut db, b"a", b"2"), Timestamp::from_raw(2));
    assert_eq!(db.last_committed(), Timestamp::from_raw(2));
    assert_eq!(read(&mut db, b"a"), Some(b"2".to_vec()));
    assert!(db.has_timestamps());
}

#[test]
fn a_rejected_commit_uses_up_a_timestamp_and_does_not_stall_readers() {
    let mut db = Db::new();
    let mut loser = db.begin();
    loser.put(b"key".to_vec(), b"lost".to_vec());
    loser.put(b"other".to_vec(), b"lost".to_vec());
    write(&mut db, b"key", b"won");

    assert_eq!(loser.commit(&mut db), Err(TxnError::conflict(3)));
    assert_eq!(db.last_committed(), Timestamp::from_raw(2));
    // None of the writes were applied.
    assert_eq!(read(&mut db, b"key"), Some(b"won".to_vec()));
    assert_eq!(read(&mut db, b"other"), None);
    assert_eq!(write(&mut db, b"key", b"next"), Timestamp::from_raw(3));
}

#[test]
fn a_transaction_reads_its_own_writes() {
    let mut db = Db::new();
    write(&mut db, b"k", b"old");
    let mut tx = db.begin();
    assert_eq!(tx.read_timestamp(), Timestamp::from_raw(1));
    assert_eq!(tx.get(&db, b"k").unwrap().as_deref(), Some(&b"old"[..]));
    tx.put(b"k".to_vec(), b"v".to_vec());
    tx.put(b"k".to_vec(), b"w".to_vec());
    assert_eq!(tx.get(&db, b"k").unwrap().as_deref(), Some(&b"w"[..]));
    tx.delete(b"k".to_vec());
    assert_eq!(tx.get(&db, b"k").unwrap(), None);
    // Nobody else sees any of it.
    assert_eq!(db.get(b"k").unwrap().as_deref(), Some(&b"old"[..]));
    tx.commit(&mut db).unwrap();
    assert_eq!(db.get(b"k").unwrap(), None);
}

#[test]
fn deleting_an_absent_key_still_conflicts() {
    let mut db = Db::new();
    let mut tx = db.begin();
    tx.delete(b"ghost".to_vec());
    write(&mut db, b"ghost", b"here");
    assert_eq!(tx.commit(&mut db), Err(TxnError::conflict(5)));
    assert_eq!(read(&mut db, b"ghost"), Some(b"here".to_vec()));
}

#[test]
fn a_serializable_reader_of_an_absent_key_depends_on_it() {
    let mut db = Db::new();
    let mut tx = db.begin_serializable();
    assert_eq!(tx.get(&db, b"absent").unwrap(), None);
    tx.put(b"mine".to_vec(), b"1".to_vec());
    write(&mut db, b"absent", b"now here");
    assert_eq!(tx.commit(&mut db), Err(TxnError::conflict(6)));
}

#[test]
fn serializable_transactions_over_disjoint_keys_both_commit() {
    let mut db = Db::new();
    let mut t1 = db.begin_serializable();
    let mut t2 = db.begin_serializable();
    let _ = t1.get(&db, &[1]).unwrap();
    let _ = t2.get(&db, &[2]).unwrap();
    t1.put(vec![1], vec![10]);
    t2.put(vec![2], vec![20]);
    assert!(t1.commit(&mut db).is_ok());
    assert!(t2.commit(&mut db).is_ok());
}

#[test]
fn a_serializable_transaction_that_writes_nothing_commits() {
    let mut db = Db::new();
    write(&mut db, &[0], &[9]);
    let mut tx = db.begin_serializable();
    assert_eq!(tx.get(&db, &[0]).unwrap().as_deref(), Some(&[9u8][..]));
    write(&mut db, &[0], &[5]);
    assert_eq!(tx.commit(&mut db).unwrap(), Timestamp::from_raw(1));
}

#[test]
fn single_key_operations() {
    let mut db = Db::new();
    assert_eq!(db.get(b"k").unwrap(), None);
    assert_eq!(db.try_put(b"k".to_vec(), b"v".to_vec()).unwrap(), Timestamp::from_raw(1));
    assert_eq!(db.get(b"k").unwrap().as_deref(), Some(&b"v"[..]));
    assert_eq!(db.try_delete(b"k".to_vec()).unwrap(), Timestamp::from_raw(2));
    assert_eq!(db.get(b"k").unwrap(), None);
    assert_eq!(db.last_committed(), Timestamp::from_raw(2));
}

#[test]
fn collection_counts_what_it_reclaims() {
    let mut db = Db::new();
    for v in 0..100u8 {
        write(&mut db, b"k", &[v]);
    }
    // With no snapshot held, only the newest version need be kept.
    assert_eq!(db.collect_garbage(), 99);
    assert_eq!(read(&mut db, b"k"), Some(vec![99u8]));
    assert_eq!(db.collect_garbage(), 0);
}

#[test]
fn a_held_snapshot_pins_what_it_sees() {
    let mut db = Db::new();
    for v in 0..6u8 {
        write(&mut db, b"k", &[v]);
    }
    let snap = db.snapshot();
    let tx = db.begin();
    for v in 6..10u8 {
        write(&mut db, b"k", &[v]);
    }
    // Versions before the snapshot's go; the snapshot's own and later ones stay.
    assert_eq!(db.collect_garbage(), 5);
    assert_eq!(snap.get(&db, b"k").unwrap().as_deref(), Some(&[5u8][..]));
    snap.release(&mut db);
    // The transaction reads at the same timestamp and still holds it.
    assert_eq!(db.collect_garbage(), 0);
    tx.rollback(&mut db);
    assert_eq!(db.collect_garbage(), 4);
    assert_eq!(read(&mut db, b"k"), Some(vec![9u8]));
}

#[test]
fn collection_does_not_hide_conflicts() {
    let mut db = Db::new();
    write(&mut db, b"k", b"0");
    let mut tx = db.begin();
    tx.put(b"k".to_vec(), b"late".to_vec());
    write(&mut db, b"k", b"1");
    let mut gone = db.begin();
    gone.delete(b"k".to_vec());
    gone.commit(&mut db).unwrap();
    db.collect_garbage();
    assert_eq!(tx.commit(&mut db), Err(TxnError::conflict(1)));
}

#[test]
fn a_database_over_an_explicit_memory_store() {
    let mut db = Db::with_store(MemoryStore::with_shards(2));
    let mut tx = db.begin();
    tx.put(b"hello".to_vec(), b"world".to_vec());
    tx.commit(&mut db).unwrap();
    assert_eq!(db.get(b"hello").unwrap().as_deref(), Some(&b"world"[..]));

    let db: Db = Db::default();
    assert_eq!(db.last_committed(), Timestamp::zero());
}

#[test]
fn what_a_caller_can_ask_before_it_calls() {
    let mut db = Db::new();
    assert!(db.can_begin());
    let mut tx = db.begin();
    assert!(!tx.has_writes());
    tx.delete(b"k".to_vec());
    assert!(tx.has_writes());
    tx.rollback(&mut db);
}

/// A single-key write is a transaction that begins and commits.
#[test]
fn single_writes_are_transactions() {
    let mut one = Db::new();
    let mut two = Db::new();
    for v in 0..20u8 {
        let key = vec![v % 3];
        let short = if v % 4 == 3 {
            one.try_delete(key.clone())
        } else {
            one.try_put(key.clone(), vec![v])
        };
        let mut tx = two.begin();
        if v % 4 == 3 {
            tx.delete(key.clone());
        } else {
            tx.put(key.clone(), vec![v]);
        }
        assert_eq!(short, tx.commit(&mut two));
        assert_eq!(one.get(&key), two.get(&key));
        assert_eq!(one.last_committed(), two.last_committed());
    }
    // Neither leaves a reader behind.
    assert_eq!(one.collect_garbage(), two.collect_garbage());
}

/// What a transaction begins with, of either kind.
#[test]
fn a_transaction_begins_at_the_last_commit() {
    let mut db = Db::new();
    for _ in 0..3 {
        write(&mut db, b"k", b"v");
        let last = db.last_committed();
        for tx in [db.begin(), db.begin_serializable()] {
            assert_eq!(tx.read_timestamp(), last);
            assert!(!tx.has_writes());
            assert_eq!(db.last_committed(), last);
            assert_eq!(tx.commit(&mut db), Ok(last));
        }
    }
}

/// A batch handed to the database directly is one attempt to commit.
#[test]
fn an_attempt_uses_up_its_timestamp() {
    let mut db = Db::new();
    let key: Arc<[u8]> = Arc::from(&b"key"[..]);
    let outcome = db.commit_writes(Timestamp::zero(), vec![(Arc::clone(&key), None)], &[]);
    assert_eq!(outcome, Ok(Timestamp::from_raw(1)));
    // From the same snapshot, the second is too late, on a write or on a read.
    let outcome = db.commit_writes(Timestamp::zero(), vec![(Arc::clone(&key), None)], &[]);
    assert_eq!(outcome, Err(TxnError::conflict(3)));
    assert_eq!(db.last_committed(), Timestamp::from_raw(2));
    let outcome = db.commit_writes(Timestamp::zero(), Vec::new(), &[key]);
    assert_eq!(outcome, Err(TxnError::conflict(3)));
    assert_eq!(db.last_committed(), Timestamp::from_raw(3));
}
