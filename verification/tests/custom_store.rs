//! The database over stores of its users' own.

use std::collections::BTreeMap;
use std::sync::Arc;

use txn_db::{
    Db, Prepared, Snapshot, Timestamp, Transaction, TxnError, VersionStore, WriteEntry,
};

/// One key's versions, in ascending commit-timestamp order.
type Chain = Vec<(Timestamp, Option<Arc<[u8]>>)>;

/// A minimal version store: a map from key to its version chain, sharing no code
/// with the shipped store.
#[derive(Default)]
struct BTreeStore {
    chains: BTreeMap<Arc<[u8]>, Chain>,
}

fn visible(chain: Option<&Chain>, read_ts: Timestamp) -> Option<Arc<[u8]>> {
    let chain = chain?;
    let idx = chain
        .partition_point(|(ts, _)| *ts <= read_ts)
        .checked_sub(1)?;
    chain[idx].1.clone()
}

fn changed_since(chain: Option<&Chain>, read_ts: Timestamp) -> bool {
    matches!(chain.and_then(|c| c.last()), Some((ts, _)) if *ts > read_ts)
}

impl VersionStore for BTreeStore {
    fn get(&self, key: &[u8], read_ts: Timestamp) -> Result<Option<Arc<[u8]>>, TxnError> {
        Ok(visible(self.chains.get(key), read_ts))
    }

    fn try_commit(
        &mut self,
        read_ts: Timestamp,
        commit_ts: Timestamp,
        writes: Vec<WriteEntry>,
        reads: &[Arc<[u8]>],
    ) -> Result<(), TxnError> {
        for (key, _) in &writes {
            if changed_since(self.chains.get(key.as_ref()), read_ts) {
                return Err(TxnError::conflict(key.len()));
            }
        }
        for key in reads {
            if changed_since(self.chains.get(key.as_ref()), read_ts) {
                return Err(TxnError::conflict(key.len()));
            }
        }
        for (key, value) in writes {
            self.chains.entry(key).or_default().push((commit_ts, value));
        }
        Ok(())
    }
}

fn db() -> Db<BTreeStore> {
    Db::with_store(BTreeStore::default())
}

#[test]
fn test_basic_read_write_over_custom_store() {
    let mut db = db();
    let mut tx = db.begin();
    tx.put(b"k".to_vec(), b"v".to_vec());
    tx.commit(&mut db).unwrap();

    let mut tx = db.begin();
    assert_eq!(tx.get(&db, b"k").unwrap().as_deref(), Some(&b"v"[..]));
    assert_eq!(tx.get(&db, b"absent").unwrap(), None);
}

#[test]
fn test_snapshot_isolation_over_custom_store() {
    let mut db = db();
    let mut tx = db.begin();
    tx.put(b"k".to_vec(), b"v1".to_vec());
    tx.commit(&mut db).unwrap();

    let snap = db.snapshot();
    let mut tx = db.begin();
    tx.put(b"k".to_vec(), b"v2".to_vec());
    tx.commit(&mut db).unwrap();

    // The held snapshot is unaffected by the later commit.
    assert_eq!(snap.get(&db, b"k").unwrap().as_deref(), Some(&b"v1"[..]));
    assert_eq!(
        db.snapshot().get(&db, b"k").unwrap().as_deref(),
        Some(&b"v2"[..])
    );
}

#[test]
fn test_write_write_conflict_over_custom_store() {
    let mut db = db();
    let mut a = db.begin();
    let mut b = db.begin();
    a.put(b"k".to_vec(), b"a".to_vec());
    b.put(b"k".to_vec(), b"b".to_vec());

    assert!(a.commit(&mut db).is_ok());
    let err = b.commit(&mut db).expect_err("second committer must lose");
    assert!(err.is_retryable());

    let snap = db.snapshot();
    assert_eq!(snap.get(&db, b"k").unwrap().as_deref(), Some(&b"a"[..]));
}

#[test]
fn test_disjoint_keys_commit_over_custom_store() {
    let mut db = db();
    let mut a = db.begin();
    let mut b = db.begin();
    a.put(b"a".to_vec(), b"1".to_vec());
    b.put(b"b".to_vec(), b"2".to_vec());
    assert!(a.commit(&mut db).is_ok());
    assert!(b.commit(&mut db).is_ok());
}

#[test]
fn test_serializable_write_skew_over_custom_store() {
    let mut db = db();
    let mut seed = db.begin();
    seed.put(b"x".to_vec(), vec![1]);
    seed.put(b"y".to_vec(), vec![1]);
    seed.commit(&mut db).unwrap();

    let mut t1 = db.begin_serializable();
    let mut t2 = db.begin_serializable();
    let _ = (t1.get(&db, b"x").unwrap(), t1.get(&db, b"y").unwrap());
    let _ = (t2.get(&db, b"x").unwrap(), t2.get(&db, b"y").unwrap());
    t1.put(b"x".to_vec(), vec![0]);
    t2.put(b"y".to_vec(), vec![0]);

    assert!(t1.commit(&mut db).is_ok());
    assert!(t2.commit(&mut db).is_err()); // read set validation catches the skew
}

/// A store that keeps nothing.
struct NoHistory;

impl VersionStore for NoHistory {
    fn get(&self, _: &[u8], _: Timestamp) -> Result<Option<Arc<[u8]>>, TxnError> {
        Ok(None)
    }

    fn try_commit(
        &mut self,
        _: Timestamp,
        _: Timestamp,
        _: Vec<WriteEntry>,
        _: &[Arc<[u8]>],
    ) -> Result<(), TxnError> {
        Ok(())
    }
}

#[test]
fn test_default_trait_gc_is_noop() {
    // A store that uses the default never reclaims.
    assert_eq!(NoHistory.collect_garbage(Timestamp::from_raw(100)), 0);
}

#[test]
fn collection_leaves_a_store_that_does_not_collect_alone() {
    let mut db = db();
    for v in 0..5u8 {
        db.try_put(b"k".to_vec(), vec![v]).unwrap();
    }
    assert_eq!(db.collect_garbage(), 0);
    assert_eq!(db.get(b"k").unwrap().as_deref(), Some(&[4u8][..]));
}

/// A store whose disk is gone.
struct Broken;

impl VersionStore for Broken {
    fn get(&self, _: &[u8], _: Timestamp) -> Result<Option<Arc<[u8]>>, TxnError> {
        Err(TxnError::store("read visible version", "disk gone"))
    }

    fn try_commit(
        &mut self,
        _: Timestamp,
        _: Timestamp,
        _: Vec<WriteEntry>,
        _: &[Arc<[u8]>],
    ) -> Result<(), TxnError> {
        Err(TxnError::store("apply batch", "disk gone"))
    }
}

#[test]
fn a_store_failure_reaches_the_caller_and_does_not_stall_readers() {
    let mut db = Db::with_store(Broken);
    let mut tx = db.begin();
    assert_eq!(
        tx.get(&db, b"k"),
        Err(TxnError::store("read visible version", "disk gone"))
    );
    tx.put(b"k".to_vec(), b"v".to_vec());
    // Its own write needs no store.
    assert_eq!(tx.get(&db, b"k").unwrap().as_deref(), Some(&b"v"[..]));
    assert_eq!(tx.commit(&mut db), Err(TxnError::store("apply batch", "disk gone")));
    assert_eq!(db.last_committed(), Timestamp::from_raw(1));

    // The same errors, untouched, on every other way in.
    let read_error = TxnError::store("read visible version", "disk gone");
    let write_error = TxnError::store("apply batch", "disk gone");
    assert_eq!(db.get(b"k"), Err(read_error.clone()));
    let snap = db.snapshot();
    assert_eq!(snap.get(&db, b"k"), Err(read_error));
    assert_eq!(db.try_put(b"k".to_vec(), b"v".to_vec()), Err(write_error.clone()));
    assert_eq!(db.try_delete(b"k".to_vec()), Err(write_error.clone()));
    let mut tx = db.begin();
    tx.delete(b"k".to_vec());
    match tx.prepare(&mut db) {
        Prepared::Finished(outcome) => assert_eq!(outcome, Err(write_error)),
        Prepared::Applied(_) => panic!("the store is broken"),
    }
    assert_eq!(db.last_committed(), Timestamp::from_raw(4));
}

/// What a program of pseudo-random calls gets back.
fn transcript<S: VersionStore>(mut db: Db<S>, seed: u64) -> Vec<String> {
    let mut state = seed;
    let mut roll = move |sides: u64| {
        state = state
            .wrapping_mul(6364136223846793005)
            .wrapping_add(1442695040888963407);
        (state >> 33) % sides
    };
    let mut lines = Vec::new();
    let mut txs: Vec<Transaction> = Vec::new();
    let mut snaps: Vec<Snapshot> = Vec::new();
    for _ in 0..300 {
        let key = vec![roll(5) as u8];
        let value = vec![roll(256) as u8];
        match roll(10) {
            0 => txs.push(db.begin()),
            1 => txs.push(db.begin_serializable()),
            2 => snaps.push(db.snapshot()),
            3 => lines.push(format!("now {:?}", db.get(&key))),
            4 => lines.push(format!("last {:?}", db.last_committed())),
            5 => {
                for snap in &snaps {
                    lines.push(format!("{:?} {:?}", snap.read_timestamp(), snap.get(&db, &key)));
                }
            }
            choice => {
                if txs.is_empty() {
                    continue;
                }
                let at = roll(txs.len() as u64) as usize;
                match choice {
                    6 => lines.push(format!("get {:?}", txs[at].get(&db, &key))),
                    7 => txs[at].put(key, value),
                    8 => txs[at].delete(key),
                    _ => {
                        let tx = txs.swap_remove(at);
                        if roll(4) == 0 {
                            tx.rollback(&mut db);
                        } else {
                            lines.push(format!("commit {:?}", tx.commit(&mut db)));
                        }
                    }
                }
            }
        }
    }
    lines
}

/// A database over another store that never fails answers as a new one does.
#[test]
fn the_store_does_not_matter() {
    for seed in 1..60 {
        let ours = transcript(Db::new(), seed);
        assert_eq!(ours, transcript(db(), seed));
        assert!(ours.iter().any(|line| line.starts_with("commit")));
    }
}
