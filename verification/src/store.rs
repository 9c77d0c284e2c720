//! The version store: where committed versions live.
//!
//! The database owns visibility, conflict detection, and commit ordering, but it
//! delegates the actual keeping of versioned bytes to a [`VersionStore`].
//! Implement that trait over an LSM tree, a B-tree, a remote service, anything
//! that can keep multiple timestamped versions of a key, and the transaction
//! semantics compose on top unchanged.
//!
//! A [`MemoryStore`] ships for the common in-process case. It is the default
//! backing store of [`Db::new`](crate::Db::new).
//!
//! ## The contract a store must uphold
//!
//! A correct [`VersionStore`] keeps, for each key, the history of versions it
//! has been asked to apply, each tagged with the commit timestamp it was applied
//! at. Its two obligations are:
//!
//! - [`get`](VersionStore::get) returns the *newest* version whose commit
//!   timestamp is less than or equal to the caller's snapshot timestamp: the
//!   snapshot-read rule. A tombstone (a delete) at that position reads as
//!   "absent".
//! - [`try_commit`](VersionStore::try_commit) validates a transaction's read and
//!   write sets against its snapshot and, if nothing conflicts, installs its
//!   writes at the commit timestamp, in one step.

use std::sync::Arc;

use vstd::prelude::*;

use crate::bytes;
use crate::bytes::{hash_key, share_value};
use crate::error::TxnError;
use crate::history;
use crate::history::{History, VersionView, WriteView};
use crate::keymap::KeyMap;
use crate::timestamp::Timestamp;

verus! {

/// One entry in a commit batch handed to [`VersionStore::try_commit`].
///
/// A key paired with the value to write at the commit timestamp (`Some`) or a
/// tombstone marking a delete (`None`).
pub type WriteEntry = (Arc<[u8]>, Option<Arc<[u8]>>);

/// The bytes of a batch of writes.
pub open spec fn writes_of(writes: Seq<WriteEntry>) -> Seq<WriteView> {
    Seq::new(
        writes.len(),
        |i: int| (bytes::bytes_of(writes[i].0), bytes::value_of(writes[i].1)),
    )
}

/// The keys a commit depends on: those it writes, then those it read.
pub open spec fn touched(writes: Seq<WriteEntry>, reads: Seq<Arc<[u8]>>) -> Seq<Seq<u8>> {
    history::written_keys(writes_of(writes)) + bytes::keys_of(reads)
}

/// What [`VersionStore::try_commit`] does to a history, and returns.
///
/// It succeeds only if no touched key has changed since `read_ts`, and then
/// every write is installed at `commit_ts`. A conflict names the length of a
/// touched key that has changed. Whatever the failure, nothing is applied.
pub open spec fn commit_outcome(
    before: History,
    after: History,
    writes: Seq<WriteEntry>,
    reads: Seq<Arc<[u8]>>,
    read_ts: u64,
    commit_ts: u64,
    outcome: Result<(), TxnError>,
    may_fail: bool,
) -> bool {
    match outcome {
        Ok(_) => {
            &&& !history::any_changed(before, touched(writes, reads), read_ts)
            &&& after == history::apply(before, writes_of(writes), commit_ts)
        },
        Err(TxnError::Conflict { key_len }) => {
            &&& after == before
            &&& exists|i: int|
                0 <= i < touched(writes, reads).len() && history::changed_since(
                    before,
                    #[trigger] touched(writes, reads)[i],
                    read_ts,
                ) && key_len == touched(writes, reads)[i].len()
        },
        Err(e) => {
            &&& after == before
            &&& may_fail && e is Store
        },
    }
}

/// A keeper of timestamped versions, the backend a [`Db`](crate::Db) is built on.
///
/// This is the extension point for plugging the database onto a real storage
/// engine. The transaction layer supplies the snapshot timestamps and the read
/// and write sets; the store stores versions and enforces that a commit only
/// lands when nothing it depends on has changed.
///
/// Implementations must be `Send + Sync`, so that a database can be shared
/// between threads behind a lock.
///
/// The three functions `history`, `wf` and `may_fail` state what the contracts
/// of the methods speak of. A store whose methods are proved defines them; in
/// compiled code they are never called.
pub trait VersionStore: Send + Sync + Sized {
    /// What the store holds.
    open spec fn history(&self) -> History {
        arbitrary()
    }

    /// The store's own invariant. There is none unless the store states one.
    open spec fn wf(&self) -> bool {
        true
    }

    /// Whether operations of this store can fail with [`TxnError::Store`]. They
    /// can unless the store states otherwise.
    open spec fn may_fail() -> bool {
        true
    }

    /// Return the value of `key` visible at `read_ts`.
    ///
    /// The result is the value of the newest version of `key` whose commit
    /// timestamp is `<= read_ts`, or `None` if there is no such version or the
    /// newest visible version is a tombstone (the key was deleted as of
    /// `read_ts`).
    ///
    /// Returns [`TxnError::Store`] if the backend fails to service the read.
    /// [`MemoryStore`] never fails.
    fn get(&self, key: &[u8], read_ts: Timestamp) -> (value: Result<Option<Arc<[u8]>>, TxnError>)
        requires
            self.wf(),
        ensures
            match value {
                Ok(v) => bytes::value_of(v) == history::visible(self.history(), key@, read_ts@),
                Err(e) => Self::may_fail() && e is Store,
            },
    ;

    /// Validate a transaction and, if it does not conflict, apply its writes.
    ///
    /// 1. **Validate.** For every key in `writes` and every key in `reads`,
    ///    check that the key has no version with a commit timestamp greater than
    ///    `read_ts`: that nothing the transaction wrote or read has changed since
    ///    its snapshot. `reads` is empty for snapshot-isolation transactions and
    ///    carries the read set for serializable ones.
    /// 2. **Apply.** If validation passes, install each write in `writes` as a
    ///    new version stamped `commit_ts` (`Some` is a value, `None` a
    ///    tombstone). The database hands out commit timestamps in increasing
    ///    order, so the version goes to the end of its chain.
    ///
    /// If any key fails validation, the store applies nothing and returns
    /// [`TxnError::Conflict`]. Returns [`TxnError::Store`] if the backend fails
    /// to apply the batch.
    fn try_commit(
        &mut self,
        read_ts: Timestamp,
        commit_ts: Timestamp,
        writes: Vec<WriteEntry>,
        reads: &[Arc<[u8]>],
    ) -> (outcome: Result<(), TxnError>)
        requires
            old(self).wf(),
            !history::any_changed(old(self).history(), touched(writes@, reads@), read_ts@)
                ==> history::appends_in_order(
                old(self).history(),
                writes_of(writes@),
                commit_ts@,
            ),
        ensures
            final(self).wf(),
            commit_outcome(
                old(self).history(),
                final(self).history(),
                writes@,
                reads@,
                read_ts@,
                commit_ts@,
                outcome,
                Self::may_fail(),
            ),
    ;

    /// Reclaim versions that no reader at or after `low_watermark` can observe,
    /// returning how many were removed.
    ///
    /// For each key, the newest version with a commit timestamp at or below
    /// `low_watermark` is the oldest one any live snapshot can still see;
    /// versions older than it are unreachable and may be dropped. A key whose
    /// only surviving version is a tombstone at or below the watermark may be
    /// removed entirely.
    ///
    /// The default implementation does nothing, so a store that does not retain
    /// history, or chooses not to collect, need not implement it.
    fn collect_garbage(&mut self, low_watermark: Timestamp) -> (reclaimed: usize)
        requires
            old(self).wf(),
        ensures
            final(self).wf(),
            history::history_wf(old(self).history()) ==> history::history_wf(
                final(self).history(),
            ),
            forall|key: Seq<u8>, ts: u64|
                low_watermark@ <= ts ==> #[trigger] history::visible(
                    final(self).history(),
                    key,
                    ts,
                ) == history::visible(old(self).history(), key, ts),
            forall|key: Seq<u8>, ts: u64|
                low_watermark@ <= ts ==> #[trigger] history::changed_since(
                    final(self).history(),
                    key,
                    ts,
                ) == history::changed_since(old(self).history(), key, ts),
            reclaimed == history::clamp(
                (history::version_count(old(self).history()) - history::version_count(
                    final(self).history(),
                )) as nat,
            ),
        default_ensures
            reclaimed == 0,
            final(self).history() == old(self).history(),
    {
        let _ = low_watermark;
        0
    }
}

/// One stored version of a key: the timestamp it became visible and its value.
///
/// A `value` of `None` is a tombstone: the key was deleted at `commit_ts`.
struct Version {
    commit_ts: Timestamp,
    value: Option<Arc<[u8]>>,
}

impl View for Version {
    type V = VersionView;

    closed spec fn view(&self) -> VersionView {
        VersionView { commit_ts: self.commit_ts@, value: bytes::value_of(self.value) }
    }
}

/// What a chain of versions says.
spec fn chain_view(chain: Seq<Version>) -> Seq<VersionView> {
    Seq::new(chain.len(), |i: int| chain[i]@)
}

/// How many versions of an ascending chain stand at or below `ts`.
fn reached_at(chain: &Vec<Version>, ts: Timestamp) -> (n: usize)
    requires
        history::ascending(chain_view(chain@)),
    ensures
        n == history::reached(chain_view(chain@), ts@),
{
    let mut low: usize = 0;
    let mut high: usize = chain.len();
    while low < high
        invariant
            low <= high <= chain@.len(),
            history::ascending(chain_view(chain@)),
            low > 0 ==> chain_view(chain@)[low - 1].commit_ts <= ts@,
            forall|i: int| high <= i < chain@.len() ==> (
            #[trigger] chain_view(chain@)[i]).commit_ts > ts@,
        decreases high - low,
    {
        let mid = low + (high - low) / 2;
        assert(chain_view(chain@)[mid as int] == chain@[mid as int]@);
        if chain[mid].commit_ts <= ts {
            low = mid + 1;
        } else {
            high = mid;
        }
    }
    proof {
        history::lemma_reached_unique(chain_view(chain@), ts@, low as nat);
    }
    low
}

/// The value of the newest version at or below `read_ts`, or `None` if there is
/// none or it is a tombstone.
fn visible_value(chain: &Vec<Version>, read_ts: Timestamp) -> (value: Option<Arc<[u8]>>)
    requires
        history::ascending(chain_view(chain@)),
    ensures
        bytes::value_of(value) == history::visible_in(chain_view(chain@), read_ts@),
{
    let reached = reached_at(chain, read_ts);
    proof {
        history::lemma_reached(chain_view(chain@), read_ts@);
    }
    if reached == 0 {
        None
    } else {
        share_value(&chain[reached - 1].value)
    }
}

/// Whether the newest version of an ascending chain was committed after
/// `read_ts`: the condition that makes a commit conflict.
fn newer_than(chain: &Vec<Version>, read_ts: Timestamp) -> (newer: bool)
    requires
        history::ascending(chain_view(chain@)),
    ensures
        newer == history::newer_in(chain_view(chain@), read_ts@),
{
    proof {
        history::lemma_newer_is_last(chain_view(chain@), read_ts@);
    }
    let len = chain.len();
    len > 0 && chain[len - 1].commit_ts > read_ts
}

/// Default number of shards. A power of two so the shard index is a mask, not a
/// division.
const DEFAULT_SHARDS: usize = 16;

/// One shard's slice of the keyspace: each key's version chain, in ascending
/// commit-timestamp order.
struct Shard {
    chains: KeyMap<Vec<Version>>,
}

/// An in-memory [`VersionStore`] that shards the keyspace.
///
/// Each key is hashed to one of a fixed number of shards; each shard holds its
/// keys' version chains. The snapshot read of a key is a binary search within
/// its shard for the newest version at or below the snapshot timestamp.
///
/// This is the default store of [`Db::new`](crate::Db::new) and suits caches,
/// tests, and workloads that fit in memory. Versions accumulate until they are
/// collected.
pub struct MemoryStore {
    shards: Vec<Shard>,
    /// `shard_count - 1`; ANDed with a key hash to pick a shard.
    mask: usize,
}

/// The shard of `key` among `mask + 1` shards.
spec fn shard_index(mask: usize, key: Seq<u8>) -> int {
    (bytes::fnv_hash(key) as usize & mask) as int
}

/// What a shard holds: chains in order, of keys that belong to shard `at`.
spec fn shard_wf(shard: Shard, at: int, mask: usize) -> bool {
    &&& shard.chains.wf()
    &&& forall|key: Seq<u8>| #[trigger]
        shard.chains@.contains_key(key) ==> {
            &&& shard_index(mask, key) == at
            &&& shard.chains@[key]@.len() > 0
            &&& history::ascending(chain_view(shard.chains@[key]@))
        }
}

/// `n` is a power of two.
pub open spec fn is_power_of_two(n: nat) -> bool
    decreases n,
{
    n == 1 || (n > 1 && n % 2 == 0 && is_power_of_two(n / 2))
}

/// The keys of a list of shards, shard by shard.
spec fn all_keys(shards: Seq<Shard>) -> Seq<Seq<u8>>
    decreases shards.len(),
{
    if shards.len() == 0 {
        Seq::empty()
    } else {
        all_keys(shards.drop_last()) + shards.last().chains.keys()
    }
}

/// `all_keys` of well-formed shards holds each key once, and holds the keys of
/// each shard.
proof fn lemma_all_keys(shards: Seq<Shard>, mask: usize)
    requires
        forall|at: int| 0 <= at < shards.len() ==> shard_wf(#[trigger] shards[at], at, mask),
    ensures
        all_keys(shards).no_duplicates(),
        forall|key: Seq<u8>| #[trigger]
            all_keys(shards).contains(key) <==> 0 <= shard_index(mask, key) < shards.len()
                && shards[shard_index(mask, key)].chains@.contains_key(key),
    decreases shards.len(),
{
    if shards.len() > 0 {
        let front = shards.drop_last();
        let last = shards.last();
        let n = shards.len() - 1;
        assert forall|at: int| 0 <= at < front.len() implies shard_wf(
            #[trigger] front[at],
            at,
            mask,
        ) by {
            assert(front[at] == shards[at]);
        }
        lemma_all_keys(front, mask);
        assert(shard_wf(shards[n], n, mask));
        last.chains.lemma_view();
        let a = all_keys(front);
        let b = last.chains.keys();
        assert forall|i: int, j: int| 0 <= i < a.len() && 0 <= j < b.len() implies a[i]
            != b[j] by {
            assert(a.contains(a[i]));
            assert(last.chains@.contains_key(b[j]));
        }
        vstd::seq_lib::lemma_no_dup_in_concat(a, b);
        assert forall|key: Seq<u8>| #[trigger] all_keys(shards).contains(key) <==> 0
            <= shard_index(mask, key) < shards.len() && shards[shard_index(
            mask,
            key,
        )].chains@.contains_key(key) by {
            let s = shard_index(mask, key);
            if (a + b).contains(key) {
                let i = choose|i: int| 0 <= i < (a + b).len() && (a + b)[i] == key;
                if i < a.len() {
                    assert(a[i] == key);
                    assert(a.contains(key));
                } else {
                    assert(b[i - a.len()] == key);
                    assert(last.chains@.contains_key(key));
                }
            }
            if 0 <= s < shards.len() && shards[s].chains@.contains_key(key) {
                if s < front.len() {
                    assert(a.contains(key));
                    let i = choose|i: int| 0 <= i < a.len() && a[i] == key;
                    assert((a + b)[i] == key);
                } else {
                    assert(b.contains(key));
                    let i = choose|i: int| 0 <= i < b.len() && b[i] == key;
                    assert((a + b)[a.len() + i] == key);
                }
            }
        }
    }
}

impl Default for MemoryStore {
    fn default() -> (store: Self)
        ensures
            store.wf(),
            store.history() == Map::<Seq<u8>, Seq<VersionView>>::empty(),
            store.shard_total() == 16,
    {
        MemoryStore::new()
    }
}

impl MemoryStore {
    /// Create an empty in-memory store with the default shard count.
    #[must_use]
    pub fn new() -> (store: Self)
        ensures
            store.wf(),
            store.history() == Map::<Seq<u8>, Seq<VersionView>>::empty(),
            store.shard_total() == 16,
    {
        let store = MemoryStore::with_shards(DEFAULT_SHARDS);
        assert(store.shard_total() == 16) by {
            reveal_with_fuel(is_power_of_two, 6);
        }
        store
    }

    /// Create an empty store with a specific number of shards.
    ///
    /// `shards` is rounded up to a power of two (and at least one). More shards
    /// hold fewer keys each, at the cost of a larger fixed footprint.
    #[must_use]
    pub fn with_shards(shards: usize) -> (store: Self)
        requires
            shards <= usize::MAX / 2 + 1,
        ensures
            store.wf(),
            store.history() == Map::<Seq<u8>, Seq<VersionView>>::empty(),
            is_power_of_two(store.shard_total()),
            store.shard_total() >= shards,
            store.shard_total() > 1 ==> store.shard_total() / 2 < shards,
    {
        let mut count: usize = 1;
        while count < shards
            invariant
                shards <= usize::MAX / 2 + 1,
                is_power_of_two(count as nat),
                count > 1 ==> count / 2 < shards,
                count >= 1,
            decreases usize::MAX - count,
        {
            count = count * 2;
        }
        let mut list: Vec<Shard> = Vec::new();
        while list.len() < count
            invariant
                count >= 1,
                list@.len() <= count,
                forall|at: int|
                    0 <= at < list@.len() ==> (#[trigger] list@[at]).chains.wf()
                        && list@[at].chains@ == Map::<Seq<u8>, Vec<Version>>::empty(),
            decreases count - list@.len(),
        {
            list.push(Shard { chains: KeyMap::new() });
        }
        let store = MemoryStore { shards: list, mask: count - 1 };
        assert(store.wf());
        proof {
            assert forall|key: Seq<u8>| !store.home(key).chains@.contains_key(key) by {
                store.lemma_home(key);
            }
        }
        assert(store.history() =~= Map::<Seq<u8>, Seq<VersionView>>::empty());
        store
    }

    /// The number of shards.
    pub closed spec fn shard_total(&self) -> nat {
        self.shards@.len()
    }

    /// The number of shards.
    #[must_use]
    pub fn shard_count(&self) -> (count: usize)
        ensures
            count == self.shard_total(),
    {
        self.shards.len()
    }

    /// The mask that picks a shard from a key's hash: one less than the number
    /// of shards.
    #[must_use]
    pub fn mask(&self) -> (mask: usize)
        requires
            self.wf(),
        ensures
            mask == self.shard_total() - 1,
    {
        self.mask
    }

    /// The keys of the history.
    proof fn lemma_keys(&self)
        requires
            self.wf(),
        ensures
            all_keys(self.shards@).no_duplicates(),
            forall|key: Seq<u8>| #[trigger]
                self.history().contains_key(key) <==> all_keys(self.shards@).contains(key),
            self.history().dom() == all_keys(self.shards@).to_set(),
            self.history().dom().finite(),
            self.history().dom().len() == all_keys(self.shards@).len(),
    {
        broadcast use vstd::seq_lib::seq_to_set_is_finite;

        lemma_all_keys(self.shards@, self.mask);
        assert forall|key: Seq<u8>| #[trigger] self.history().contains_key(key) <==> all_keys(
            self.shards@,
        ).contains(key) by {
            self.lemma_home(key);
        }
        assert(self.history().dom() =~= all_keys(self.shards@).to_set());
        all_keys(self.shards@).unique_seq_to_set();
    }

    /// Number of distinct keys that have ever been written and not been
    /// reclaimed since.
    ///
    /// Counts keys, not versions, and counts keys whose latest version is a
    /// tombstone. Primarily useful in tests and diagnostics. (More keys than a
    /// `usize` can count would not fit in memory.)
    #[must_use]
    pub fn key_count(&self) -> (count: usize)
        requires
            self.wf(),
        ensures
            self.history().dom().finite(),
            count == history::clamp(self.history().dom().len()),
    {
        let mut count: usize = 0;
        let mut at: usize = 0;
        assert(self.shards@.take(0) =~= Seq::empty());
        while at < self.shards.len()
            invariant
                at <= self.shards@.len(),
                count == history::clamp(all_keys(self.shards@.take(at as int)).len()),
            decreases self.shards@.len() - at,
        {
            proof {
                let taken = self.shards@.take(at + 1);
                assert(taken.drop_last() =~= self.shards@.take(at as int));
            }
            count = count.saturating_add(self.shards[at].chains.len());
            at += 1;
        }
        proof {
            assert(self.shards@.take(at as int) =~= self.shards@);
            self.lemma_keys();
        }
        count
    }

    /// Install a recovered commit, without conflict validation.
    ///
    /// Replays a committed transaction from the log. Recovered commits are
    /// installed in ascending commit-timestamp order, so each version goes to
    /// the end of its chain.
    pub fn install_recovered(&mut self, commit_ts: Timestamp, writes: Vec<WriteEntry>)
        requires
            old(self).wf(),
            history::appends_in_order(old(self).history(), writes_of(writes@), commit_ts@),
        ensures
            final(self).wf(),
            final(self).history() == history::apply(
                old(self).history(),
                writes_of(writes@),
                commit_ts@,
            ),
            final(self).shard_total() == old(self).shard_total(),
    {
        self.append_all(commit_ts, writes);
    }

    /// The shard of `key`.
    spec fn home(&self, key: Seq<u8>) -> Shard {
        self.shards@[shard_index(self.mask, key)]
    }

    /// The shard a key belongs to.
    #[inline]
    fn shard_of(&self, key: &[u8]) -> (shard: usize)
        requires
            self.wf(),
        ensures
            shard == shard_index(self.mask, key@),
            shard < self.shards@.len(),
    {
        let hash = hash_key(key) as usize;
        let mask = self.mask;
        assert((hash & mask) <= mask) by (bit_vector);
        hash & mask
    }

    /// Every key has a shard.
    proof fn lemma_home(&self, key: Seq<u8>)
        requires
            self.wf(),
        ensures
            0 <= shard_index(self.mask, key) < self.shards@.len(),
            shard_wf(self.home(key), shard_index(self.mask, key), self.mask),
    {
        let hash = bytes::fnv_hash(key) as usize;
        let mask = self.mask;
        assert((hash & mask) <= mask) by (bit_vector);
    }

    /// What a well-formed store holds is a well-formed history of finitely many
    /// keys.
    pub proof fn lemma_history_wf(&self)
        requires
            self.wf(),
        ensures
            history::history_wf(self.history()),
            self.history().dom().finite(),
    {
        self.lemma_keys();
        assert forall|key: Seq<u8>| #[trigger] self.history().contains_key(key) implies
            self.history()[key].len() > 0 && history::ascending(self.history()[key]) by {
            self.lemma_home(key);
        }
    }

    /// Whether `key` has a version newer than `ts`.
    fn key_changed(&self, key: &[u8], ts: Timestamp) -> (changed: bool)
        requires
            self.wf(),
        ensures
            changed == history::changed_since(self.history(), key@, ts@),
    {
        proof {
            self.lemma_home(key@);
        }
        match self.shards[self.shard_of(key)].chains.get(key) {
            Some(chain) => newer_than(chain, ts),
            None => false,
        }
    }

    /// Add a version to the end of a key's chain.
    fn push_version(&mut self, key: Arc<[u8]>, version: Version)
        requires
            old(self).wf(),
            !history::changed_since(
                old(self).history(),
                bytes::bytes_of(key),
                version@.commit_ts,
            ),
        ensures
            final(self).wf(),
            final(self).mask == old(self).mask,
            final(self).history() == old(self).history().insert(
                bytes::bytes_of(key),
                history::chain_of(old(self).history(), bytes::bytes_of(key)).push(version@),
            ),
    {
        proof {
            self.lemma_home(bytes::bytes_of(key));
        }
        let ghost k = bytes::bytes_of(key);
        let at = self.shard_of(&*key);
        match self.shards[at].chains.position(&*key) {
            Some(i) => {
                self.shards[at].chains.value_at_mut(i).push(version);
                proof {
                    old(self).shards@[at as int].chains.lemma_view();
                    self.shards@[at as int].chains.lemma_view();
                    assert(self.shards@[at as int].chains.keys()[i as int] == k);
                }
            },
            None => {
                let mut chain: Vec<Version> = Vec::new();
                chain.push(version);
                self.shards[at].chains.push_new(key, chain);
                proof {
                    old(self).shards@[at as int].chains.lemma_view();
                    self.shards@[at as int].chains.lemma_view();
                    let keys = self.shards@[at as int].chains.keys();
                    assert(keys[keys.len() - 1] == k);
                    assert forall|other: Seq<u8>| old(
                        self,
                    ).shards@[at as int].chains@.contains_key(other) implies keys.contains(
                        other,
                    ) by {
                        let i = old(self).shards@[at as int].chains.keys().index_of(other);
                        assert(keys[i] == other);
                    }
                }
            },
        }
        proof {
            let before = old(self).shards@[at as int].chains@;
            let after = self.shards@[at as int].chains@;
            let chain = after[k];
            assert(after =~= before.insert(k, chain));
            let old_chain = history::chain_of(old(self).history(), k);
            assert(chain_view(chain@) =~= old_chain.push(version@));
            history::lemma_newer_is_last(old_chain, version@.commit_ts);
            assert(history::ascending(chain_view(chain@)));
            assert forall|s: int| 0 <= s < self.shards@.len() implies shard_wf(
                #[trigger] self.shards@[s],
                s,
                self.mask,
            ) by {
                assert(shard_wf(old(self).shards@[s], s, self.mask));
                if s == at {
                    assert forall|other: Seq<u8>| #[trigger] after.contains_key(other) implies
                        shard_index(self.mask, other) == at && after[other]@.len() > 0
                        && history::ascending(chain_view(after[other]@)) by {
                        if other != k {
                            assert(before.contains_key(other));
                        }
                    }
                }
            }
            assert forall|other: Seq<u8>| other != k implies self.home(other).chains@.contains_key(
                other,
            ) == old(self).home(other).chains@.contains_key(other) && (self.home(
                other,
            ).chains@.contains_key(other) ==> self.home(other).chains@[other] == old(self).home(
                other,
            ).chains@[other]) by {
                old(self).lemma_home(other);
            }
            assert(self.history() =~= old(self).history().insert(k, old_chain.push(version@)));
        }
    }

    /// Append a version for each write, in order.
    fn append_all(&mut self, commit_ts: Timestamp, writes: Vec<WriteEntry>)
        requires
            old(self).wf(),
            history::appends_in_order(old(self).history(), writes_of(writes@), commit_ts@),
        ensures
            final(self).wf(),
            final(self).mask == old(self).mask,
            final(self).history() == history::apply(
                old(self).history(),
                writes_of(writes@),
                commit_ts@,
            ),
    {
        let ghost h = self.history();
        let ghost batch = writes_of(writes@);
        proof {
            history::lemma_apply_nothing(h, commit_ts@);
            assert(batch.take(0) =~= Seq::empty());
        }
        for entry in it: writes
            invariant
                self.wf(),
                self.mask == old(self).mask,
                it.seq() == writes@,
                batch == writes_of(writes@),
                history::appends_in_order(h, batch, commit_ts@),
                self.history() == history::apply(h, batch.take(it.index() as int), commit_ts@),
        {
            let ghost n = it.index() as int;
            let ghost key = bytes::bytes_of(entry.0);
            proof {
                assert(batch[n].0 == key);
                assert(history::written_keys(batch)[n] == key);
                assert(!history::changed_since(self.history(), key, commit_ts@)) by {
                    history::lemma_apply_chain(h, batch.take(n), commit_ts@, key);
                    history::lemma_written(batch.take(n), commit_ts@, key);
                    let old_chain = history::chain_of(h, key);
                    let new = history::written(batch.take(n), commit_ts@, key);
                    assert(!history::changed_since(h, history::written_keys(batch)[n], commit_ts@));
                    assert forall|i: int| 0 <= i < (old_chain + new).len() implies (
                    #[trigger] (old_chain + new)[i]).commit_ts <= commit_ts@ by {
                        if i < old_chain.len() {
                            assert((old_chain + new)[i] == old_chain[i]);
                        } else {
                            assert((old_chain + new)[i] == new[i - old_chain.len()]);
                        }
                    }
                }
                history::lemma_apply_push(h, batch.take(n), batch[n], commit_ts@);
                assert(batch.take(n).push(batch[n]) =~= batch.take(n + 1));
            }
            self.push_version(entry.0, Version { commit_ts, value: entry.1 });
        }
        assert(batch.take(batch.len() as int) =~= batch);
    }
}

/// How many versions of `key` collection at `low` removes from a shard.
spec fn reclaimable_of(chains: Map<Seq<u8>, Vec<Version>>, key: Seq<u8>, low: u64) -> nat {
    history::reclaimable(chain_view(chains[key]@), low)
}

/// `shard` is what collection at `low` leaves of the shard that held `before`.
spec fn collected_shard(
    before: Map<Seq<u8>, Vec<Version>>,
    shard: Shard,
    at: int,
    mask: usize,
    low: u64,
) -> bool {
    &&& shard_wf(shard, at, mask)
    &&& collected_chains(before, shard.chains@, low)
}

/// `after` is what collection at `low` leaves of `before`.
spec fn collected_chains(
    before: Map<Seq<u8>, Vec<Version>>,
    after: Map<Seq<u8>, Vec<Version>>,
    low: u64,
) -> bool {
    forall|key: Seq<u8>|
        {
            let pruned = history::pruned(chain_view(before[key]@), low);
            &&& #[trigger] after.contains_key(key) <==> before.contains_key(key) && !history::dead(
                pruned,
                low,
            )
            &&& after.contains_key(key) ==> chain_view(after[key]@) == pruned
        }
}

/// Drop the versions of a chain that no reader at or after `low` can observe.
/// The newest version at or below `low` is the oldest such a reader can see.
fn prune(chain: Vec<Version>, low: Timestamp) -> (kept: Vec<Version>)
    requires
        history::ascending(chain_view(chain@)),
    ensures
        chain_view(kept@) == history::pruned(chain_view(chain@), low@),
{
    let reached = reached_at(&chain, low);
    proof {
        history::lemma_reached(chain_view(chain@), low@);
    }
    if reached > 1 {
        let mut chain = chain;
        let ghost whole = chain@;
        let kept = chain.split_off(reached - 1);
        assert(chain_view(kept@) =~= chain_view(whole).skip(reached - 1));
        kept
    } else {
        chain
    }
}

/// Collect the chains of one shard. A key whose only surviving version is a
/// tombstone that `low` has passed is absent for every reader, and is dropped.
fn collect_chains(chains: KeyMap<Vec<Version>>, low: Timestamp) -> (collected: (
    KeyMap<Vec<Version>>,
    usize,
))
    requires
        chains.wf(),
        forall|key: Seq<u8>| #[trigger]
            chains@.contains_key(key) ==> chains@[key]@.len() > 0 && history::ascending(
                chain_view(chains@[key]@),
            ),
    ensures
        collected.0.wf(),
        collected_chains(chains@, collected.0@, low@),
        forall|key: Seq<u8>| #[trigger]
            collected.0@.contains_key(key) ==> collected.0@[key]@.len() > 0 && history::ascending(
                chain_view(collected.0@[key]@),
            ),
        collected.1 == history::clamp(
            history::sum_over(
                chains.keys(),
                |key: Seq<u8>| reclaimable_of(chains@, key, low@),
            ),
        ),
{
    let ghost all = chains@;
    let ghost keys = chains.keys();
    let ghost values = chains.values();
    let ghost removed = |key: Seq<u8>| reclaimable_of(all, key, low@);
    proof {
        chains.lemma_view();
        assert(keys.take(0) =~= Seq::empty());
    }
    let mut kept: KeyMap<Vec<Version>> = KeyMap::new();
    let mut reclaimed: usize = 0;
    let entries = chains.into_entries();
    for entry in it: entries
        invariant
            it.seq() == entries@,
            entries@.len() == keys.len(),
            removed == (|key: Seq<u8>| reclaimable_of(all, key, low@)),
            keys.no_duplicates(),
            forall|key: Seq<u8>| #[trigger] all.contains_key(key) <==> keys.contains(key),
            forall|i: int|
                #![trigger keys[i]]
                0 <= i < keys.len() ==> all.contains_key(keys[i]) && all[keys[i]]
                    == entries@[i].1 && bytes::bytes_of(entries@[i].0) == keys[i],
            forall|key: Seq<u8>| #[trigger]
                all.contains_key(key) ==> all[key]@.len() > 0 && history::ascending(
                    chain_view(all[key]@),
                ),
            kept.wf(),
            forall|key: Seq<u8>| #[trigger]
                kept@.contains_key(key) ==> keys.take(it.index() as int).contains(key)
                    && !history::dead(history::pruned(chain_view(all[key]@), low@), low@)
                    && chain_view(kept@[key]@) == history::pruned(chain_view(all[key]@), low@),
            forall|i: int|
                0 <= i < it.index() && !history::dead(
                    history::pruned(chain_view(all[#[trigger] keys[i]]@), low@),
                    low@,
                ) ==> kept@.contains_key(keys[i]),
            reclaimed == history::clamp(
                history::sum_over(keys.take(it.index() as int), removed),
            ),
    {
        let ghost n = it.index() as int;
        let ghost key = keys[n];
        let ghost before = kept@;
        let (name, chain) = entry;
        let total = chain.len();
        proof {
            assert(all[key] == chain);
            history::lemma_pruned(chain_view(chain@), low@, low@);
            history::lemma_reached(chain_view(chain@), low@);
            assert(keys.take(n + 1).drop_last() =~= keys.take(n));
            assert(keys.take(n + 1).last() == key);
            assert(keys.take(n + 1)[n] == key);
            assert forall|other: Seq<u8>| keys.take(n).contains(other) implies keys.take(
                n + 1,
            ).contains(other) by {
                let i = choose|i: int| 0 <= i < n && keys.take(n)[i] == other;
                assert(keys.take(n + 1)[i] == other);
            }
            assert(!keys.take(n).contains(key)) by {
                if keys.take(n).contains(key) {
                    let i = choose|i: int| 0 <= i < n && keys.take(n)[i] == key;
                    assert(keys[i] == keys[n]);
                }
            }
        }
        let chain = prune(chain, low);
        assert(chain@.len() == chain_view(chain@).len());
        assert(chain@.len() > 0 ==> chain_view(chain@)[0] == chain@[0]@);
        if chain.len() == 1 && chain[0].commit_ts <= low && chain[0].value.is_none() {
            reclaimed = reclaimed.saturating_add(total);
        } else {
            reclaimed = reclaimed.saturating_add(total - chain.len());
            kept.insert(name, chain);
        }
    }
    proof {
        assert(keys.take(keys.len() as int) =~= keys);
        assert forall|key: Seq<u8>| true implies {
            let pruned = history::pruned(chain_view(all[key]@), low@);
            &&& #[trigger] kept@.contains_key(key) <==> all.contains_key(key) && !history::dead(
                pruned,
                low@,
            )
            &&& kept@.contains_key(key) ==> chain_view(kept@[key]@) == pruned
        } by {
            if all.contains_key(key) {
                let i = keys.index_of(key);
                assert(keys[i] == key);
            }
        }
        assert forall|key: Seq<u8>| #[trigger] kept@.contains_key(key) implies kept@[key]@.len()
            > 0 && history::ascending(chain_view(kept@[key]@)) by {
            history::lemma_pruned(chain_view(all[key]@), low@, low@);
            assert(chain_view(kept@[key]@).len() == kept@[key]@.len());
        }
    }
    (kept, reclaimed)
}

impl VersionStore for MemoryStore {
    closed spec fn history(&self) -> History {
        Map::new(
            |key: Seq<u8>| self.home(key).chains@.contains_key(key),
            |key: Seq<u8>| chain_view(self.home(key).chains@[key]@),
        )
    }

    closed spec fn wf(&self) -> bool {
        &&& self.mask + 1 == self.shards@.len()
        &&& forall|at: int|
            0 <= at < self.shards@.len() ==> shard_wf(#[trigger] self.shards@[at], at, self.mask)
    }

    open spec fn may_fail() -> bool {
        false
    }

    fn get(&self, key: &[u8], read_ts: Timestamp) -> (value: Result<Option<Arc<[u8]>>, TxnError>) {
        proof {
            self.lemma_home(key@);
        }
        match self.shards[self.shard_of(key)].chains.get(key) {
            Some(chain) => Ok(visible_value(chain, read_ts)),
            None => Ok(None),
        }
    }

    fn try_commit(
        &mut self,
        read_ts: Timestamp,
        commit_ts: Timestamp,
        writes: Vec<WriteEntry>,
        reads: &[Arc<[u8]>],
    ) -> (outcome: Result<(), TxnError>)
        ensures
            outcome matches Err(e) ==> exists|i: int| {
                &&& #[trigger] history::first_changed(
                    old(self).history(),
                    touched(writes@, reads@),
                    read_ts@,
                    i,
                )
                &&& e == (TxnError::Conflict { key_len: touched(writes@, reads@)[i].len() as usize })
            },
            final(self).shard_total() == old(self).shard_total(),
    {
        let ghost h = self.history();
        let ghost batch = writes_of(writes@);
        let ghost keys = touched(writes@, reads@);
        // Validate the write set, then the read set: abort if any touched key
        // gained a version after the transaction's snapshot.
        let mut i: usize = 0;
        while i < writes.len()
            invariant
                *self == *old(self),
                self.wf(),
                h == self.history(),
                keys == touched(writes@, reads@),
                i <= writes@.len(),
                forall|j: int|
                    0 <= j < i ==> !history::changed_since(h, #[trigger] keys[j], read_ts@),
            decreases writes@.len() - i,
        {
            assert(keys[i as int] == bytes::bytes_of(writes@[i as int].0));
            if self.key_changed(&*writes[i].0, read_ts) {
                assert(history::first_changed(h, keys, read_ts@, i as int));
                return Err(TxnError::conflict(writes[i].0.len()));
            }
            i += 1;
        }
        let mut i: usize = 0;
        while i < reads.len()
            invariant
                *self == *old(self),
                self.wf(),
                h == self.history(),
                keys == touched(writes@, reads@),
                i <= reads@.len(),
                forall|j: int|
                    0 <= j < writes@.len() + i ==> !history::changed_since(
                        h,
                        #[trigger] keys[j],
                        read_ts@,
                    ),
            decreases reads@.len() - i,
        {
            assert(keys[writes@.len() + i] == bytes::bytes_of(reads@[i as int]));
            if self.key_changed(&*reads[i], read_ts) {
                assert(history::first_changed(h, keys, read_ts@, writes@.len() + i));
                return Err(TxnError::conflict(reads[i].len()));
            }
            i += 1;
        }
        // Apply: append a new version for each write.
        self.append_all(commit_ts, writes);
        Ok(())
    }

    fn collect_garbage(&mut self, low_watermark: Timestamp) -> (reclaimed: usize)
        ensures
            final(self).history() == history::collected(old(self).history(), low_watermark@),
            final(self).shard_total() == old(self).shard_total(),
    {
        let ghost before = self.shards@;
        let ghost mask = self.mask;
        let ghost h = self.history();
        let ghost low = low_watermark@;
        let ghost removed = |key: Seq<u8>|
            history::reclaimable(history::chain_of(h, key), low);
        let mut reclaimed: usize = 0;
        let mut at: usize = 0;
        assert(before.take(0) =~= Seq::empty());
        while at < self.shards.len()
            invariant
                old(self).wf(),
                before == old(self).shards@,
                mask == old(self).mask,
                h == old(self).history(),
                low == low_watermark@,
                removed == (|key: Seq<u8>|
                    history::reclaimable(history::chain_of(h, key), low)),
                self.mask == mask,
                at <= self.shards@.len(),
                self.shards@.len() == before.len(),
                reclaimed == history::clamp(
                    history::sum_over(all_keys(before.take(at as int)), removed),
                ),
                forall|s: int|
                    at <= s < before.len() ==> #[trigger] self.shards@[s] == before[s],
                forall|s: int|
                    0 <= s < at ==> collected_shard(
                        before[s].chains@,
                        #[trigger] self.shards@[s],
                        s,
                        mask,
                        low,
                    ),
            decreases before.len() - at,
        {
            assert(shard_wf(before[at as int], at as int, mask));
            let mut chains = KeyMap::new();
            std::mem::swap(&mut chains, &mut self.shards[at].chains);
            let (kept, count) = collect_chains(chains, low_watermark);
            self.shards[at].chains = kept;
            proof {
                let taken = before.take(at + 1);
                assert(taken.drop_last() =~= before.take(at as int));
                assert(taken.last() == before[at as int]);
                let keys = before[at as int].chains.keys();
                history::lemma_sum_over_add(all_keys(before.take(at as int)), keys, removed);
                let counted = |key: Seq<u8>| reclaimable_of(before[at as int].chains@, key, low);
                before[at as int].chains.lemma_view();
                assert forall|i: int| 0 <= i < keys.len() implies counted(#[trigger] keys[i])
                    == removed(keys[i]) by {
                    assert(before[at as int].chains@.contains_key(keys[i]));
                    assert(old(self).home(keys[i]) == before[at as int]);
                }
                history::lemma_sum_over_same(keys, counted, removed);
            }
            reclaimed = reclaimed.saturating_add(count);
            at += 1;
        }
        proof {
            assert(before.take(at as int) =~= before);
            assert(self.wf()) by {
                assert forall|s: int| 0 <= s < self.shards@.len() implies shard_wf(
                    #[trigger] self.shards@[s],
                    s,
                    self.mask,
                ) by {
                    assert(collected_shard(before[s].chains@, self.shards@[s], s, mask, low));
                }
            }
            let after = history::collected(h, low);
            assert forall|key: Seq<u8>| #[trigger] self.history().contains_key(key)
                == after.contains_key(key) && (after.contains_key(key) ==> self.history()[key]
                == after[key]) by {
                old(self).lemma_home(key);
                let s = shard_index(mask, key);
                assert(collected_shard(before[s].chains@, self.shards@[s], s, mask, low));
                assert(self.home(key).chains@.contains_key(key) == after.contains_key(key));
            }
            assert(self.history().dom() =~= after.dom()) by {
                assert forall|key: Seq<u8>| self.history().dom().contains(key)
                    == after.dom().contains(key) by {
                    assert(self.history().contains_key(key) == after.contains_key(key));
                }
            }
            assert(self.history() =~= history::collected(h, low));
            old(self).lemma_history_wf();
            old(self).lemma_keys();
            history::lemma_collected(h, low);
            history::lemma_reclaimed(h, low, all_keys(before));
        }
        reclaimed
    }
}

} // verus!
