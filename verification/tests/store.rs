//! The in-memory version store.

use std::sync::Arc;

use txn_db::bytes::hash_key;
use txn_db::{MemoryStore, Timestamp, TxnError, VersionStore, WriteEntry};

fn k(b: &[u8]) -> Arc<[u8]> {
    Arc::from(b)
}

fn commit(store: &mut MemoryStore, ts: u64, writes: Vec<WriteEntry>) {
    store
        .try_commit(
            Timestamp::from_raw(ts - 1),
            Timestamp::from_raw(ts),
            writes,
            &[],
        )
        .expect("commit");
}

#[test]
fn test_get_on_missing_key_returns_none() {
    let store = MemoryStore::new();
    assert_eq!(store.get(b"absent", Timestamp::from_raw(10)).unwrap(), None);
}

#[test]
fn test_read_sees_only_versions_at_or_before_snapshot() {
    let mut store = MemoryStore::new();
    commit(&mut store, 2, vec![(k(b"x"), Some(k(b"a")))]);
    commit(&mut store, 4, vec![(k(b"x"), Some(k(b"b")))]);

    assert_eq!(store.get(b"x", Timestamp::from_raw(1)).unwrap(), None);
    assert_eq!(
        store.get(b"x", Timestamp::from_raw(2)).unwrap().as_deref(),
        Some(&b"a"[..])
    );
    assert_eq!(
        store.get(b"x", Timestamp::from_raw(3)).unwrap().as_deref(),
        Some(&b"a"[..])
    );
    assert_eq!(
        store.get(b"x", Timestamp::from_raw(4)).unwrap().as_deref(),
        Some(&b"b"[..])
    );
    assert_eq!(
        store.get(b"x", Timestamp::from_raw(99)).unwrap().as_deref(),
        Some(&b"b"[..])
    );
}

#[test]
fn test_tombstone_reads_as_absent() {
    let mut store = MemoryStore::new();
    commit(&mut store, 1, vec![(k(b"x"), Some(k(b"a")))]);
    commit(&mut store, 2, vec![(k(b"x"), None)]);

    assert_eq!(
        store.get(b"x", Timestamp::from_raw(1)).unwrap().as_deref(),
        Some(&b"a"[..])
    );
    assert_eq!(store.get(b"x", Timestamp::from_raw(2)).unwrap(), None);
}

#[test]
fn test_write_write_conflict_is_detected() {
    let mut store = MemoryStore::new();
    commit(&mut store, 5, vec![(k(b"x"), Some(k(b"a")))]);

    // A transaction whose snapshot predates the existing version conflicts.
    let err = store
        .try_commit(
            Timestamp::from_raw(4),
            Timestamp::from_raw(6),
            vec![(k(b"x"), Some(k(b"b")))],
            &[],
        )
        .unwrap_err();
    assert!(matches!(err, TxnError::Conflict { .. }));
    // Nothing was applied.
    assert_eq!(
        store.get(b"x", Timestamp::from_raw(99)).unwrap().as_deref(),
        Some(&b"a"[..])
    );
}

#[test]
fn test_read_set_validation_detects_skew() {
    let mut store = MemoryStore::new();
    commit(&mut store, 5, vec![(k(b"y"), Some(k(b"1")))]);

    // Snapshot 4, write x, but read y which changed at ts 5 -> conflict.
    let err = store
        .try_commit(
            Timestamp::from_raw(4),
            Timestamp::from_raw(6),
            vec![(k(b"x"), Some(k(b"a")))],
            &[k(b"y")],
        )
        .unwrap_err();
    assert!(matches!(err, TxnError::Conflict { .. }));
}

#[test]
fn test_multi_shard_commit_applies_all_keys() {
    let mut store = MemoryStore::with_shards(8);
    let writes: Vec<WriteEntry> = (0u8..32).map(|i| (k(&[i]), Some(k(&[i])))).collect();
    commit(&mut store, 1, writes);
    for i in 0u8..32 {
        assert_eq!(
            store.get(&[i], Timestamp::from_raw(1)).unwrap().as_deref(),
            Some(&[i][..])
        );
    }
    assert_eq!(store.key_count(), 32);
}

#[test]
fn test_with_shards_rounds_up_to_power_of_two() {
    let store = MemoryStore::with_shards(5);
    assert_eq!(store.shard_count(), 8);
    assert_eq!(store.mask(), 7);
}

#[test]
fn test_gc_prunes_versions_below_watermark_but_keeps_newest_visible() {
    let mut store = MemoryStore::new();
    commit(&mut store, 1, vec![(k(b"x"), Some(k(b"a")))]);
    commit(&mut store, 2, vec![(k(b"x"), Some(k(b"b")))]);
    commit(&mut store, 3, vec![(k(b"x"), Some(k(b"c")))]);

    // A reader at timestamp 2 must still see "b", so GC at watermark 2 keeps
    // the version at 2 and everything newer, dropping only the version at 1.
    let reclaimed = store.collect_garbage(Timestamp::from_raw(2));
    assert_eq!(reclaimed, 1);
    assert_eq!(
        store.get(b"x", Timestamp::from_raw(2)).unwrap().as_deref(),
        Some(&b"b"[..])
    );
    assert_eq!(
        store.get(b"x", Timestamp::from_raw(3)).unwrap().as_deref(),
        Some(&b"c"[..])
    );
}

#[test]
fn test_gc_drops_key_whose_only_survivor_is_a_passed_tombstone() {
    let mut store = MemoryStore::new();
    commit(&mut store, 1, vec![(k(b"x"), Some(k(b"a")))]);
    commit(&mut store, 2, vec![(k(b"x"), None)]); // delete

    // At watermark 5 the key is absent for everyone; it is dropped whole.
    let reclaimed = store.collect_garbage(Timestamp::from_raw(5));
    assert_eq!(reclaimed, 2);
    assert_eq!(store.key_count(), 0);
}

#[test]
fn test_gc_keeps_everything_above_watermark() {
    let mut store = MemoryStore::new();
    commit(&mut store, 5, vec![(k(b"x"), Some(k(b"a")))]);
    commit(&mut store, 6, vec![(k(b"x"), Some(k(b"b")))]);

    // A watermark below all versions reclaims nothing.
    assert_eq!(store.collect_garbage(Timestamp::from_raw(4)), 0);
    assert_eq!(
        store.get(b"x", Timestamp::from_raw(5)).unwrap().as_deref(),
        Some(&b"a"[..])
    );
}

#[test]
fn test_extreme_timestamps_order_correctly() {
    // Versions at the top of the u64 range must still be ordered and read
    // back correctly: the version chain uses no arithmetic that could wrap.
    let mut store = MemoryStore::new();
    let near_max = Timestamp::from_raw(u64::MAX - 1);
    let max = Timestamp::from_raw(u64::MAX);
    store
        .try_commit(
            Timestamp::zero(),
            near_max,
            vec![(k(b"x"), Some(k(b"a")))],
            &[],
        )
        .unwrap();
    store
        .try_commit(near_max, max, vec![(k(b"x"), Some(k(b"b")))], &[])
        .unwrap();

    assert_eq!(
        store.get(b"x", Timestamp::from_raw(u64::MAX - 2)).unwrap(),
        None
    );
    assert_eq!(
        store.get(b"x", near_max).unwrap().as_deref(),
        Some(&b"a"[..])
    );
    assert_eq!(store.get(b"x", max).unwrap().as_deref(), Some(&b"b"[..]));
    // A conflict check at the very top of the range behaves normally.
    let err = store
        .try_commit(near_max, max, vec![(k(b"x"), Some(k(b"c")))], &[])
        .unwrap_err();
    assert!(matches!(err, TxnError::Conflict { .. }));
}

#[test]
fn test_gc_at_extreme_watermark() {
    let mut store = MemoryStore::new();
    store
        .try_commit(
            Timestamp::zero(),
            Timestamp::from_raw(u64::MAX - 1),
            vec![(k(b"x"), Some(k(b"a")))],
            &[],
        )
        .unwrap();
    store
        .try_commit(
            Timestamp::from_raw(u64::MAX - 1),
            Timestamp::from_raw(u64::MAX),
            vec![(k(b"x"), Some(k(b"b")))],
            &[],
        )
        .unwrap();
    // Watermark at the max keeps only the newest visible version.
    let reclaimed = store.collect_garbage(Timestamp::from_raw(u64::MAX));
    assert_eq!(reclaimed, 1);
    assert_eq!(
        store
            .get(b"x", Timestamp::from_raw(u64::MAX))
            .unwrap()
            .as_deref(),
        Some(&b"b"[..])
    );
}

#[test]
fn conflict_reports_the_first_changed_key() {
    let mut store = MemoryStore::new();
    commit(&mut store, 5, vec![(k(b"four"), Some(k(b"1"))), (k(b"three"), None)]);

    let conflict = |store: &mut MemoryStore, keys: Vec<&[u8]>, reads: Vec<&[u8]>| {
        let writes: Vec<WriteEntry> = keys.into_iter().map(|key| (k(key), None)).collect();
        let reads: Vec<Arc<[u8]>> = reads.into_iter().map(k).collect();
        store.try_commit(Timestamp::from_raw(4), Timestamp::from_raw(6), writes, &reads)
    };
    // Writes are validated first, in order, then reads.
    assert_eq!(
        conflict(&mut store, vec![b"x", b"three", b"four"], vec![]),
        Err(TxnError::conflict(5))
    );
    assert_eq!(
        conflict(&mut store, vec![b"x", b"four"], vec![b"three"]),
        Err(TxnError::conflict(4))
    );
    assert_eq!(
        conflict(&mut store, vec![b"x"], vec![b"y", b"three"]),
        Err(TxnError::conflict(5))
    );
    // Nothing of the rejected batches is there.
    assert_eq!(store.get(b"x", Timestamp::from_raw(9)).unwrap(), None);
    assert_eq!(store.key_count(), 2);
}

#[test]
fn a_version_at_the_snapshot_itself_is_no_conflict() {
    let mut store = MemoryStore::new();
    commit(&mut store, 5, vec![(k(b"x"), Some(k(b"a")))]);
    assert_eq!(
        store.try_commit(
            Timestamp::from_raw(5),
            Timestamp::from_raw(6),
            vec![(k(b"x"), Some(k(b"b")))],
            &[k(b"x")],
        ),
        Ok(())
    );
}

#[test]
fn a_batch_that_writes_a_key_twice_keeps_the_last_value() {
    let mut store = MemoryStore::new();
    commit(
        &mut store,
        1,
        vec![(k(b"x"), Some(k(b"a"))), (k(b"x"), Some(k(b"b")))],
    );
    assert_eq!(
        store.get(b"x", Timestamp::from_raw(1)).unwrap().as_deref(),
        Some(&b"b"[..])
    );
    assert_eq!(store.key_count(), 1);
}

#[test]
fn shard_counts() {
    for (asked, got) in [(0, 1), (1, 1), (2, 2), (3, 4), (16, 16), (17, 32)] {
        let store = MemoryStore::with_shards(asked);
        assert_eq!(store.shard_count(), got);
        assert_eq!(store.mask(), got - 1);
    }
    assert_eq!(MemoryStore::new().shard_count(), 16);
    assert_eq!(MemoryStore::default().shard_count(), 16);
    assert_eq!(MemoryStore::default().key_count(), 0);
}

#[test]
fn results_do_not_depend_on_the_shard_count() {
    for shards in [1usize, 2, 7, 64] {
        let mut store = MemoryStore::with_shards(shards);
        for ts in 1..=40u64 {
            let key = [(ts % 7) as u8];
            let value = if ts % 5 == 0 {
                None
            } else {
                Some(k(&[ts as u8]))
            };
            commit(&mut store, ts, vec![(k(&key), value)]);
        }
        // 40 versions over 7 keys; at 40 one version per key remains, and the
        // keys whose newest versions are the deletes at 35 and 40 go entirely.
        assert_eq!(store.key_count(), 7);
        assert_eq!(store.collect_garbage(Timestamp::from_raw(40)), 35);
        assert_eq!(store.key_count(), 5);
        assert_eq!(store.get(&[5], Timestamp::from_raw(40)).unwrap(), None);
        assert_eq!(
            store.get(&[4], Timestamp::from_raw(40)).unwrap().as_deref(),
            Some(&[39u8][..])
        );
        // What is left is all live.
        assert_eq!(store.collect_garbage(Timestamp::from_raw(40)), 0);
    }
}

#[test]
fn recovered_versions_are_installed_without_validation() {
    let mut store = MemoryStore::new();
    store.install_recovered(
        Timestamp::from_raw(3),
        vec![(k(b"x"), Some(k(b"a"))), (k(b"y"), None)],
    );
    store.install_recovered(Timestamp::from_raw(7), vec![(k(b"x"), Some(k(b"b")))]);
    assert_eq!(
        store.get(b"x", Timestamp::from_raw(6)).unwrap().as_deref(),
        Some(&b"a"[..])
    );
    assert_eq!(
        store.get(b"x", Timestamp::from_raw(7)).unwrap().as_deref(),
        Some(&b"b"[..])
    );
    assert_eq!(store.get(b"y", Timestamp::from_raw(7)).unwrap(), None);
    assert_eq!(store.key_count(), 2);
}

#[test]
fn key_hashes_are_fnv_1a() {
    assert_eq!(hash_key(b""), 0xcbf2_9ce4_8422_2325);
    assert_eq!(hash_key(b"a"), 0xaf63_dc4c_8601_ec8c);
    assert_eq!(hash_key(b"foobar"), 0x8594_4171_f739_67e8);
}

#[test]
fn the_shard_count_never_changes() {
    let mut store = MemoryStore::with_shards(3);
    assert_eq!(store.shard_count(), 4);
    commit(&mut store, 1, vec![(k(b"x"), Some(k(b"a")))]);
    commit(&mut store, 2, vec![(k(b"x"), None)]);
    assert_eq!(store.shard_count(), 4);
    assert_eq!(store.collect_garbage(Timestamp::from_raw(2)), 2);
    assert_eq!(store.key_count(), 0);
    assert_eq!(store.shard_count(), 4);
    store.install_recovered(Timestamp::from_raw(3), vec![(k(b"x"), Some(k(b"b")))]);
    assert_eq!(store.shard_count(), 4);
    assert_eq!(store.mask(), 3);
}

/// A commit of a live reader comes out the same whether or not the store was
/// collected first.
#[test]
fn collection_keeps_commit_outcomes() {
    let build = || {
        let mut store = MemoryStore::new();
        commit(&mut store, 1, vec![(k(b"a"), Some(k(b"1"))), (k(b"bb"), Some(k(b"1")))]);
        commit(&mut store, 2, vec![(k(b"a"), None)]);
        commit(&mut store, 3, vec![(k(b"ccc"), Some(k(b"1")))]);
        commit(&mut store, 4, vec![(k(b"a"), None), (k(b"bb"), None)]);
        store
    };
    for read_ts in 2..=5u64 {
        for keys in [vec![&b"a"[..]], vec![b"bb", b"a"], vec![b"x", b"ccc", b"bb"]] {
            let attempt = |mut store: MemoryStore| {
                let writes = keys.iter().map(|key| (k(key), None)).collect();
                let outcome = store.try_commit(
                    Timestamp::from_raw(read_ts),
                    Timestamp::from_raw(6),
                    writes,
                    &[],
                );
                outcome
            };
            let mut collected = build();
            assert!(collected.collect_garbage(Timestamp::from_raw(2)) > 0);
            assert_eq!(attempt(build()), attempt(collected));
        }
    }
}
