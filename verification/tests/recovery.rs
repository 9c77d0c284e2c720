//! Recovery from a commit log, which is kept by `wal-db` in memory.

use std::sync::Arc;

use txn_db::durable::encode_for_log;
use txn_db::recovery::{decode_log, order_commits};
use txn_db::{Db, Prepared, Timestamp, Transaction, TxnError};
use wal_db::{MemStore, Wal, WalStore};

/// The bytes of a log, which outlive the log that writes them.
#[derive(Clone)]
struct Disk(Arc<MemStore>);

impl Disk {
    fn new() -> Self {
        Disk(Arc::new(MemStore::new()))
    }

    /// Another disk with the first `len` bytes of this one.
    fn cut(&self, len: usize) -> Self {
        let mut bytes = vec![0u8; len];
        let n = self.0.read_at(0, &mut bytes).unwrap();
        assert_eq!(n, len);
        Disk(Arc::new(MemStore::from_bytes(bytes)))
    }

    fn size(&self) -> usize {
        self.0.len().unwrap() as usize
    }
}

impl WalStore for Disk {
    fn write_at(&self, offset: u64, bytes: &[u8]) -> wal_db::Result<()> {
        self.0.write_at(offset, bytes)
    }

    fn read_at(&self, offset: u64, buf: &mut [u8]) -> wal_db::Result<usize> {
        self.0.read_at(offset, buf)
    }

    fn truncate(&self, len: u64) -> wal_db::Result<()> {
        self.0.truncate(len)
    }

    fn sync(&self) -> wal_db::Result<()> {
        self.0.sync()
    }

    fn len(&self) -> wal_db::Result<u64> {
        self.0.len()
    }
}

/// A database whose commits are logged before they are acknowledged.
struct Durable {
    db: Db,
    wal: Wal<Disk>,
}

impl Durable {
    fn open(disk: &Disk) -> Self {
        let wal = Wal::with_store(disk.clone()).unwrap();
        let log: Vec<Vec<u8>> = wal
            .iter()
            .unwrap()
            .map(|record| record.unwrap().into_data())
            .collect();
        let commits = decode_log(&log).unwrap_or_else(|e| panic!("{e:?}"));
        Durable {
            db: Db::recover(commits),
            wal,
        }
    }

    fn commit(&mut self, tx: Transaction) -> Result<Timestamp, TxnError> {
        match tx.prepare(&mut self.db) {
            Prepared::Finished(outcome) => outcome,
            Prepared::Applied(applied) => {
                let logged = self
                    .wal
                    .append_and_sync(applied.record())
                    .map(|_| ())
                    .map_err(|e| e.to_string());
                self.db.finish(applied, logged)
            }
        }
    }

    /// Commit one `key = value` write durably.
    fn commit_one(&mut self, key: u8, value: u8) {
        let mut tx = self.db.begin();
        tx.put(vec![key], vec![value]);
        self.commit(tx).unwrap();
    }

    /// Read a single-byte key as `Option<u8>` from a fresh snapshot.
    fn read(&mut self, key: &[u8]) -> Option<u8> {
        let snap = self.db.snapshot();
        let value = snap.get(&self.db, key).unwrap().map(|bytes| bytes[0]);
        snap.release(&mut self.db);
        value
    }
}

#[test]
fn test_committed_transactions_survive_reopen() {
    let disk = Disk::new();

    {
        let mut db = Durable::open(&disk);
        for i in 0..16u8 {
            db.commit_one(i, i.wrapping_mul(3));
        }
    } // the database is gone: a clean shutdown, or a crash after commits.

    let mut db = Durable::open(&disk);
    for i in 0..16u8 {
        assert_eq!(db.read(&[i]), Some(i.wrapping_mul(3)));
    }
}

#[test]
fn test_uncommitted_work_is_not_durable() {
    let disk = Disk::new();

    {
        let mut db = Durable::open(&disk);

        // A committed write.
        db.commit_one(1, 10);

        // A transaction that is rolled back.
        let mut rolled_back = db.db.begin();
        rolled_back.put(vec![2], vec![20]);
        rolled_back.rollback(&mut db.db);

        // A transaction simply dropped without committing.
        let mut dropped = db.db.begin();
        dropped.put(vec![3], vec![30]);
        drop(dropped);
    }

    let mut db = Durable::open(&disk);
    assert_eq!(db.read(&[1]), Some(10)); // committed: durable
    assert_eq!(db.read(&[2]), None); // rolled back: gone
    assert_eq!(db.read(&[3]), None); // dropped: gone
}

#[test]
fn test_tombstones_survive_reopen() {
    let disk = Disk::new();

    {
        let mut db = Durable::open(&disk);
        db.commit_one(7, 99);
        let mut tx = db.db.begin();
        tx.delete(vec![7]);
        db.commit(tx).unwrap();
    }

    let mut db = Durable::open(&disk);
    assert_eq!(db.read(&[7]), None);
}

#[test]
fn test_timestamps_continue_after_recovery() {
    let disk = Disk::new();

    let last = {
        let mut db = Durable::open(&disk);
        db.commit_one(1, 1);
        db.commit_one(2, 2);
        db.db.last_committed()
    };
    assert!(last > Timestamp::zero());

    let mut db = Durable::open(&disk);
    // Recovery restores the watermark to the highest committed timestamp.
    assert_eq!(db.db.last_committed(), last);

    // New commits continue strictly after it.
    let mut tx = db.db.begin();
    tx.put(vec![3], vec![3]);
    let next = db.commit(tx).unwrap();
    assert!(next > last);
}

#[test]
fn test_reopen_empty_log_is_empty_database() {
    let disk = Disk::new();
    let mut db = Durable::open(&disk);
    assert_eq!(db.db.last_committed(), Timestamp::zero());
    assert_eq!(db.read(&[0]), None);
}

/// Write commits to a log, then recover from the log truncated to every length.
/// The result must be a clean prefix: there is some `k` such that keys `0..k` are
/// present with their committed values and keys `k..n` are absent, never a
/// half-applied transaction.
#[test]
fn recovery_from_truncated_log_is_a_clean_prefix() {
    const N: u8 = 6;
    let disk = Disk::new();
    {
        let mut db = Durable::open(&disk);
        for i in 0..N {
            let mut tx = db.db.begin();
            tx.put(vec![i], vec![i.wrapping_add(1)]);
            tx.put(vec![i, i], vec![i]);
            db.commit(tx).unwrap();
        }
    }

    for len in 0..=disk.size() {
        let mut recovered = Durable::open(&disk.cut(len));
        let mut k = 0u8;
        while k < N && recovered.read(&[k]) == Some(k.wrapping_add(1)) {
            assert_eq!(recovered.read(&[k, k]), Some(k));
            k += 1;
        }
        for i in k..N {
            assert_eq!(recovered.read(&[i]), None);
            assert_eq!(recovered.read(&[i, i]), None);
        }
        assert_eq!(recovered.db.last_committed(), Timestamp::from_raw(u64::from(k)));
    }
}

#[test]
fn commits_may_be_logged_out_of_order() {
    let disk = Disk::new();
    {
        let mut db = Durable::open(&disk);
        let mut first = db.db.begin();
        let mut second = db.db.begin();
        first.put(b"a".to_vec(), vec![1]);
        second.put(b"b".to_vec(), vec![2]);
        let (first, second) = match (first.prepare(&mut db.db), second.prepare(&mut db.db)) {
            (Prepared::Applied(first), Prepared::Applied(second)) => (first, second),
            _ => panic!("both commits apply"),
        };
        assert_eq!(first.commit_timestamp(), Timestamp::from_raw(1));
        assert_eq!(second.commit_timestamp(), Timestamp::from_raw(2));
        assert_eq!(first.read_timestamp(), Timestamp::zero());

        // The later commit is logged and finished first: nothing shows until
        // the earlier one is over too.
        db.wal.append_and_sync(second.record()).unwrap();
        assert_eq!(db.db.finish(second, Ok(())).unwrap(), Timestamp::from_raw(2));
        assert_eq!(db.db.last_committed(), Timestamp::zero());
        assert_eq!(db.read(b"a"), None);
        assert_eq!(db.read(b"b"), None);

        db.wal.append_and_sync(first.record()).unwrap();
        assert_eq!(db.db.finish(first, Ok(())).unwrap(), Timestamp::from_raw(1));
        assert_eq!(db.db.last_committed(), Timestamp::from_raw(2));
        assert_eq!(db.read(b"a"), Some(1));
        assert_eq!(db.read(b"b"), Some(2));

        // A third overwrites what the second wrote.
        let mut third = db.db.begin();
        third.put(b"b".to_vec(), vec![3]);
        db.commit(third).unwrap();
    }
    let mut db = Durable::open(&disk);
    assert_eq!(db.read(b"a"), Some(1));
    assert_eq!(db.read(b"b"), Some(3));
    assert_eq!(db.db.last_committed(), Timestamp::from_raw(3));
}

#[test]
fn a_single_write_conflicts_with_a_commit_that_waits() {
    let mut db: Db = Db::new();
    let mut tx = db.begin();
    tx.put(b"key".to_vec(), b"waits".to_vec());
    let applied = match tx.prepare(&mut db) {
        Prepared::Applied(applied) => applied,
        Prepared::Finished(_) => panic!("the commit applies"),
    };
    assert_eq!(
        db.try_put(b"key".to_vec(), b"now".to_vec()),
        Err(TxnError::conflict(3))
    );
    assert!(db.try_put(b"other".to_vec(), b"now".to_vec()).is_ok());
    db.finish(applied, Ok(())).unwrap();
    // Once it is over, the same write goes through.
    assert!(db.try_put(b"key".to_vec(), b"now".to_vec()).is_ok());
    assert_eq!(db.get(b"key").unwrap().as_deref(), Some(&b"now"[..]));
}

#[test]
fn a_commit_that_cannot_be_logged_is_not_acknowledged() {
    let mut db: Db = Db::new();
    let mut tx = db.begin();
    tx.put(b"k".to_vec(), b"v".to_vec());
    let applied = match tx.prepare(&mut db) {
        Prepared::Applied(applied) => applied,
        Prepared::Finished(_) => panic!("the commit applies"),
    };
    let err = db.finish(applied, Err("disk full".to_string())).unwrap_err();
    assert_eq!(err, TxnError::durability("disk full"));
    assert!(err.is_fatal());
    // Its timestamp does not hold up the readers.
    assert_eq!(db.last_committed(), Timestamp::from_raw(1));
}

#[test]
fn a_rejected_or_read_only_commit_has_nothing_to_log() {
    let mut db: Db = Db::new();
    let empty = db.begin();
    match empty.prepare(&mut db) {
        Prepared::Finished(outcome) => assert_eq!(outcome, Ok(Timestamp::zero())),
        Prepared::Applied(_) => panic!("nothing to apply"),
    }
    assert_eq!(db.last_committed(), Timestamp::zero());

    let mut loser = db.begin();
    loser.put(b"k".to_vec(), b"lost".to_vec());
    db.try_put(b"k".to_vec(), b"won".to_vec()).unwrap();
    match loser.prepare(&mut db) {
        Prepared::Finished(outcome) => assert_eq!(outcome, Err(TxnError::conflict(1))),
        Prepared::Applied(_) => panic!("the commit conflicts"),
    }
    assert_eq!(db.last_committed(), Timestamp::from_raw(2));
    // Nobody is left to pin anything.
    db.try_delete(b"k".to_vec()).unwrap();
    assert_eq!(db.collect_garbage(), 2);
}

#[test]
fn a_corrupt_entry_fails_recovery() {
    let entry = |ts: u64| encode_for_log(Timestamp::from_raw(ts), &[]);
    let mut torn = entry(2);
    torn.pop();
    let mut wrong = entry(3);
    wrong[0] = 7;
    let commits = decode_log(&[entry(1), torn, wrong]);
    match commits {
        Err(err) => assert_eq!(
            err,
            TxnError::durability("malformed commit record: record ends mid-field")
        ),
        Ok(_) => panic!("the log is corrupt"),
    }
}

#[test]
fn commits_are_ordered_by_timestamp_and_ties_keep_their_order() {
    let entry = |ts: u64, key: &[u8]| {
        encode_for_log(Timestamp::from_raw(ts), &[(Arc::from(key), None)])
    };
    let log = [
        entry(4, b"a"),
        entry(1, b"b"),
        entry(4, b"c"),
        entry(2, b"d"),
        entry(9, b"e"),
    ];
    let commits = decode_log(&log).unwrap_or_else(|e| panic!("{e:?}"));
    let sorted = order_commits(commits);
    let seen: Vec<(u64, Vec<u8>)> = sorted
        .iter()
        .map(|commit| (commit.commit_ts.get(), commit.writes[0].0.to_vec()))
        .collect();
    assert_eq!(
        seen,
        vec![
            (1, b"b".to_vec()),
            (2, b"d".to_vec()),
            (4, b"a".to_vec()),
            (4, b"c".to_vec()),
            (9, b"e".to_vec()),
        ]
    );
}

#[test]
fn recovery_gives_back_collected_databases() {
    let disk = Disk::new();
    {
        let mut db = Durable::open(&disk);
        for v in 0..20u8 {
            db.commit_one(v % 3, v);
            db.db.collect_garbage();
        }
    }
    let mut db = Durable::open(&disk);
    assert_eq!(db.read(&[0]), Some(18));
    assert_eq!(db.read(&[1]), Some(19));
    assert_eq!(db.read(&[2]), Some(17));
}

#[test]
fn recovery_goes_on_from_recovery() {
    let disk = Disk::new();
    for round in 0..5u8 {
        let mut db = Durable::open(&disk);
        // Everything from the rounds before is there.
        for earlier in 0..round {
            assert_eq!(db.read(&[earlier]), Some(earlier));
        }
        assert_eq!(db.read(b"last"), round.checked_sub(1));
        assert_eq!(db.db.last_committed(), Timestamp::from_raw(2 * u64::from(round)));
        db.commit_one(round, round);
        let mut tx = db.db.begin();
        tx.put(b"last".to_vec(), vec![round]);
        db.commit(tx).unwrap();
        db.db.collect_garbage();
    }
}

/// A serializable transaction that is prepared and logged is validated as one
/// that is committed at once.
#[test]
fn prepared_commits_validate_their_reads() {
    let mut db: Db = Db::new();
    let mut t1 = db.begin_serializable();
    let mut t2 = db.begin_serializable();
    let _ = (t1.get(&db, b"x").unwrap(), t1.get(&db, b"y").unwrap());
    let _ = (t2.get(&db, b"x").unwrap(), t2.get(&db, b"y").unwrap());
    t1.put(b"x".to_vec(), vec![0]);
    t2.put(b"y".to_vec(), vec![0]);
    let applied = match t1.prepare(&mut db) {
        Prepared::Applied(applied) => applied,
        Prepared::Finished(_) => panic!("the commit applies"),
    };
    // Even before the first is logged, the second cannot commit past it.
    match t2.prepare(&mut db) {
        Prepared::Finished(outcome) => assert_eq!(outcome, Err(TxnError::conflict(1))),
        Prepared::Applied(_) => panic!("write skew"),
    }
    assert_eq!(db.finish(applied, Ok(())), Ok(Timestamp::from_raw(1)));
}
