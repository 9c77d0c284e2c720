//! Long pseudo-random schedules against reference models.

use std::collections::BTreeMap;

use txn_db::{Db, Snapshot, TxnError};

/// A small pseudo-random generator.
struct Dice(u64);

impl Dice {
    fn roll(&mut self, sides: u64) -> u64 {
        self.0 = self
            .0
            .wrapping_mul(6364136223846793005)
            .wrapping_add(1442695040888963407);
        (self.0 >> 33) % sides
    }
}

const KEY_SPACE: u8 = 6;

fn observe(db: &Db, snap: &Snapshot) -> Vec<Option<u8>> {
    (0..KEY_SPACE)
        .map(|k| snap.get(db, &[k]).unwrap().map(|v| v[0]))
        .collect()
}

/// After a sequence of single-operation transactions, the database matches a
/// plain map.
#[test]
fn committed_state_matches_reference_model() {
    let mut dice = Dice(1);
    for _ in 0..50 {
        let mut db = Db::new();
        let mut model: BTreeMap<u8, u8> = BTreeMap::new();
        for _ in 0..dice.roll(64) {
            let key = dice.roll(u64::from(KEY_SPACE)) as u8;
            let mut tx = db.begin();
            if dice.roll(2) == 0 {
                let value = dice.roll(256) as u8;
                tx.put(vec![key], vec![value]);
                model.insert(key, value);
            } else {
                tx.delete(vec![key]);
                model.remove(&key);
            }
            // Each transaction is over a fresh snapshot, so commits never
            // conflict.
            assert!(tx.commit(&mut db).is_ok());
        }
        for key in 0..KEY_SPACE {
            assert_eq!(
                db.get(&[key]).unwrap().map(|v| v[0]),
                model.get(&key).copied()
            );
        }
    }
}

/// Through arbitrary interleavings of writes, deletes, snapshots and collections,
/// every snapshot keeps reading the values it saw when it was taken.
#[test]
fn gc_never_reclaims_a_live_snapshots_versions() {
    let mut dice = Dice(7);
    for _ in 0..40 {
        let mut db = Db::new();
        let mut pinned: Vec<(Snapshot, Vec<Option<u8>>)> = Vec::new();
        for _ in 0..80 {
            let key = dice.roll(u64::from(KEY_SPACE)) as u8;
            match dice.roll(10) {
                0..=3 => {
                    let value = dice.roll(256) as u8;
                    assert!(db.try_put(vec![key], vec![value]).is_ok());
                }
                4 => assert!(db.try_delete(vec![key]).is_ok()),
                5 | 6 => {
                    let snap = db.snapshot();
                    let observed = observe(&db, &snap);
                    pinned.push((snap, observed));
                }
                7 => {
                    if !pinned.is_empty() {
                        let at = dice.roll(pinned.len() as u64) as usize;
                        let (snap, observed) = pinned.swap_remove(at);
                        assert_eq!(observe(&db, &snap), observed);
                        snap.release(&mut db);
                    }
                }
                _ => {
                    db.collect_garbage();
                    for (snap, observed) in &pinned {
                        assert_eq!(&observe(&db, snap), observed);
                    }
                }
            }
        }
        for (snap, observed) in &pinned {
            assert_eq!(&observe(&db, snap), observed);
        }
    }
}

/// Concurrent read-modify-write loops that retry on conflict lose no update.
#[test]
fn interleaved_increments_lose_no_update() {
    let mut dice = Dice(3);
    let mut db = Db::new();
    let mut done = 0u8;
    while done < 200 {
        // Several transactions increment the same counter from one snapshot;
        // only the first to commit succeeds.
        let mut open = Vec::new();
        for _ in 0..1 + dice.roll(4) {
            let mut tx = db.begin();
            let current = tx.get(&db, b"counter").unwrap().map_or(0, |v| v[0]);
            tx.put(b"counter".to_vec(), vec![current + 1]);
            open.push(tx);
        }
        for (i, tx) in open.into_iter().enumerate() {
            match tx.commit(&mut db) {
                Ok(_) => {
                    assert_eq!(i, 0);
                    done += 1;
                }
                Err(e) => {
                    assert!(i > 0);
                    assert_eq!(e, TxnError::conflict(7));
                }
            }
        }
    }
    assert_eq!(db.get(b"counter").unwrap().as_deref(), Some(&[done][..]));
}

/// Serializable transactions behave as if they ran one at a time in commit
/// order: replaying each committed one on its own gives it the values it read.
#[test]
fn serializable_commits_replay_serially() {
    let mut dice = Dice(11);
    for _ in 0..40 {
        let mut db = Db::new();
        // What each committed transaction read and wrote.
        let mut committed: Vec<(Vec<(u8, Option<u8>)>, Vec<(u8, u8)>)> = Vec::new();
        for _ in 0..15 {
            let mut open = Vec::new();
            for _ in 0..3 {
                let mut tx = db.begin_serializable();
                let mut reads = Vec::new();
                for _ in 0..2 {
                    let key = dice.roll(u64::from(KEY_SPACE)) as u8;
                    let value = tx.get(&db, &[key]).unwrap().map(|v| v[0]);
                    reads.push((key, value));
                }
                let key = dice.roll(u64::from(KEY_SPACE)) as u8;
                let value = dice.roll(256) as u8;
                tx.put(vec![key], vec![value]);
                open.push((tx, reads, vec![(key, value)]));
            }
            for (tx, reads, writes) in open {
                if tx.commit(&mut db).is_ok() {
                    committed.push((reads, writes));
                }
            }
        }
        let mut serial: BTreeMap<u8, u8> = BTreeMap::new();
        for (reads, writes) in committed {
            for (key, value) in reads {
                assert_eq!(serial.get(&key).copied(), value);
            }
            for (key, value) in writes {
                serial.insert(key, value);
            }
        }
        for key in 0..KEY_SPACE {
            assert_eq!(
                db.get(&[key]).unwrap().map(|v| v[0]),
                serial.get(&key).copied()
            );
        }
    }
}
