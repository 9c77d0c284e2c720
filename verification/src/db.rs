//! The database: a version store and the timestamp oracle that orders its
//! commits.
//!
//! [`Db`] is the entry point: construct one, [`begin`](Db::begin) transactions
//! against it, [`commit`](crate::Transaction::commit) them. A transaction is a
//! value of its own, which names the database it reads and commits to, so any
//! number of them can be live at a time.
//!
//! Every method is one atomic step of the database. To share a database between
//! threads, put it behind a lock and hold the lock for one call. A commit that
//! has to wait for a log to become durable is two steps,
//! [`prepare`](crate::Transaction::prepare) and [`finish`](Db::finish), and other
//! steps may come between them; commits then finish out of timestamp order, and
//! the oracle's watermark keeps their writes out of every snapshot until all
//! earlier commits have finished too.

use std::sync::Arc;

use vstd::prelude::*;

use crate::bytes;
use crate::bytes::share;
use crate::durable::RecoveredCommit;
use crate::error::TxnError;
use crate::history;
use crate::history::{History, VersionView};
use crate::oracle::{Clock, Oracle};
use crate::recovery;
use crate::recovery::order_commits;
use crate::store;
use crate::store::{MemoryStore, VersionStore, WriteEntry};
use crate::timestamp::Timestamp;
use crate::txn;
use crate::txn::{AppliedCommit, Snapshot, Transaction, TxnView};

verus! {

/// The state of a database: the versions it holds, and its clock.
#[verifier::ext_equal]
pub struct DbView {
    /// The versions of every key.
    pub history: History,
    /// The timestamps handed out, the read watermark, and the live readers.
    pub clock: Clock,
}

/// A transactional, multi-version key-value database.
///
/// [`Db::new`] gives an in-memory database; [`Db::with_store`] builds one over
/// any [`VersionStore`]. From there the whole common case is
/// [`begin`](Db::begin) / [`get`](crate::Transaction::get) /
/// [`put`](crate::Transaction::put) / [`commit`](crate::Transaction::commit),
/// with [`snapshot`](Db::snapshot) for read-only point-in-time views.
///
/// Transactions default to **snapshot isolation**;
/// [`begin_serializable`](Db::begin_serializable) starts a transaction whose
/// read set is validated at commit, rejecting write skew and the other anomalies
/// snapshot isolation permits.
pub struct Db<S: VersionStore = MemoryStore> {
    /// The backing version store. Reads go to it; commits validate and apply
    /// through it.
    store: S,
    /// Allocates timestamps and tracks the consistent-read watermark.
    oracle: Oracle,
}

impl<S: VersionStore> View for Db<S> {
    type V = DbView;

    open spec fn view(&self) -> DbView {
        DbView { history: self.backing().history(), clock: self.clock() }
    }
}

/// What [`Db::collect_garbage`] makes of a database over a [`MemoryStore`]: every
/// version that no reader at or after the low watermark can observe is gone, and
/// nothing else.
pub proof fn law_memory_database_is_collected(before: Db, after: Db, reclaimed: usize)
    requires
        exists|store: &mut MemoryStore, low: Timestamp|
            {
                &&& *store == before.backing()
                &&& *final(store) == after.backing()
                &&& before@.clock.is_low_watermark(low@)
                &&& #[trigger] call_ensures(MemoryStore::collect_garbage, (store, low), reclaimed)
            },
    ensures
        exists|low: u64| #[trigger]
            before@.clock.is_low_watermark(low) && after@.history == history::collected(
                before@.history,
                low,
            ),
{
    let (store, low) = choose|store: &mut MemoryStore, low: Timestamp|
        {
            &&& *store == before.backing()
            &&& *final(store) == after.backing()
            &&& before@.clock.is_low_watermark(low@)
            &&& #[trigger] call_ensures(MemoryStore::collect_garbage, (store, low), reclaimed)
        };
    assert(before@.clock.is_low_watermark(low@));
}

/// `value` is what a store answers when it is asked for `key` as of `ts`, its own
/// error included.
pub open spec fn store_answers<S: VersionStore>(
    store: S,
    key: &[u8],
    ts: u64,
    value: Result<Option<Arc<[u8]>>, TxnError>,
) -> bool {
    exists|read_ts: Timestamp|
        read_ts@ == ts && #[trigger] call_ensures(S::get, (&store, key, read_ts), value)
}

/// `store` is asked once to commit `tx` at `commit_ts`, and answers with
/// `outcome`, its own error included.
pub open spec fn store_commits<S: VersionStore>(
    store: &mut S,
    tx: TxnView,
    commit_ts: u64,
    outcome: Result<(), TxnError>,
) -> bool {
    exists|read_ts: Timestamp, at: Timestamp, writes: Vec<WriteEntry>, reads: &[Arc<[u8]>]|
        {
            &&& read_ts@ == tx.read_ts
            &&& at@ == commit_ts
            &&& tx.hands_over(writes@, reads@)
            &&& #[trigger] call_ensures(
                S::try_commit,
                (store, read_ts, at, writes, reads),
                outcome,
            )
        }
}

/// A store that commits a batch a transaction hands over commits the transaction.
pub proof fn lemma_store_commits<S: VersionStore>(
    before: S,
    after: S,
    tx: TxnView,
    commit_ts: u64,
    read_ts: Timestamp,
    writes: Vec<WriteEntry>,
    reads: &[Arc<[u8]>],
    outcome: Result<(), TxnError>,
)
    requires
        read_ts@ == tx.read_ts,
        tx.hands_over(writes@, reads@),
        exists|store: &mut S, at: Timestamp|
            {
                &&& *store == before
                &&& *final(store) == after
                &&& at@ == commit_ts
                &&& #[trigger] call_ensures(
                    S::try_commit,
                    (store, read_ts, at, writes, reads),
                    outcome,
                )
            },
    ensures
        exists|store: &mut S|
            {
                &&& *store == before
                &&& *final(store) == after
                &&& #[trigger] store_commits(store, tx, commit_ts, outcome)
            },
{
    let (store, at) = choose|store: &mut S, at: Timestamp|
        {
            &&& *store == before
            &&& *final(store) == after
            &&& at@ == commit_ts
            &&& #[trigger] call_ensures(S::try_commit, (store, read_ts, at, writes, reads), outcome)
        };
    assert(store_commits(store, tx, commit_ts, outcome));
}

impl Db<MemoryStore> {
    /// Create an empty in-memory database, ready for [`begin`](Db::begin).
    #[must_use]
    pub fn new() -> (db: Self)
        ensures
            db.wf(),
            db@.history == Map::<Seq<u8>, Seq<VersionView>>::empty(),
            db@.clock == Clock::at(0),
    {
        Db::with_store(MemoryStore::new())
    }

    /// Create a database from the commits of a log, replaying them in the order
    /// of their timestamps.
    ///
    /// A transaction that begins right after recovery sees all recovered state,
    /// and new commits continue strictly after the highest recovered timestamp.
    #[must_use]
    pub fn recover(commits: Vec<RecoveredCommit>) -> (db: Self)
        requires
            recovery::highest(recovery::records_of(commits@)) < u64::MAX,
        ensures
            db.wf(),
            db@.history == recovery::recovered(recovery::records_of(commits@)),
            db@.clock == Clock::at(recovery::highest(recovery::records_of(commits@))),
    {
        let ghost records = recovery::records_of(commits@);
        let commits = order_commits(commits);
        let ghost sorted = recovery::records_of(commits@);
        proof {
            recovery::lemma_in_commit_order(records);
            recovery::law_recovered_history_is_whole(records);
            if records.len() > 0 {
                recovery::lemma_last_is_highest(records);
            }
        }
        let mut store = MemoryStore::new();
        let mut highest = Timestamp::zero();
        assert(sorted.take(0) =~= Seq::empty());
        for commit in it: commits
            invariant
                it.seq() == commits@,
                sorted == recovery::records_of(commits@),
                recovery::ordered(sorted),
                store.wf(),
                store.history() == recovery::replay(Map::empty(), sorted.take(it.index())),
                highest@ == if it.index() == 0 {
                    0
                } else {
                    sorted[it.index() - 1].commit_ts
                },
        {
            let ghost i = it.index();
            let ghost done = sorted.take(i);
            proof {
                assert(sorted.take(i + 1).drop_last() =~= done);
                assert(sorted.take(i + 1).last() == commit@);
                recovery::lemma_replay(done, commit@.commit_ts);
            }
            highest = commit.commit_ts;
            store.install_recovered(commit.commit_ts, commit.writes);
        }
        assert(sorted.take(sorted.len() as int) =~= sorted);
        Db { store, oracle: Oracle::recovered(highest) }
    }
}

impl Default for Db<MemoryStore> {
    fn default() -> (db: Self)
        ensures
            db.wf(),
            db@.history == Map::<Seq<u8>, Seq<VersionView>>::empty(),
            db@.clock == Clock::at(0),
    {
        Db::new()
    }
}

impl<S: VersionStore> Db<S> {
    /// The backing store.
    pub closed spec fn backing(&self) -> S {
        self.store
    }

    /// The state of the oracle.
    pub closed spec fn clock(&self) -> Clock {
        self.oracle@
    }

    /// The invariant of a database: every chain of versions is in timestamp
    /// order, and the watermark is the largest timestamp such that every commit
    /// at or below it has finished.
    pub open spec fn wf(&self) -> bool {
        &&& self.backing().wf()
        &&& history::history_wf(self@.history)
        &&& self@.clock.wf()
    }

    /// Create a database over a custom [`VersionStore`].
    ///
    /// Supply any backing store and the transaction semantics (snapshot
    /// isolation, read-your-own-writes, conflict detection) compose on top of it
    /// unchanged.
    #[must_use]
    pub fn with_store(store: S) -> (db: Self)
        requires
            store.wf(),
            history::history_wf(store.history()),
        ensures
            db.wf(),
            db.backing() == store,
            db@.clock == Clock::at(0),
    {
        Db { store, oracle: Oracle::new() }
    }

    /// Begin a snapshot-isolation transaction over the current state.
    ///
    /// The transaction takes its snapshot at this moment: it reads as of the
    /// most recent commit and is unaffected by commits that happen afterward.
    /// Its writes are checked for write-write conflicts at commit, but its reads
    /// are not validated; use [`begin_serializable`](Db::begin_serializable)
    /// when you need serializability.
    ///
    /// The transaction counts as a live reader, whose snapshot
    /// [`collect_garbage`](Db::collect_garbage) keeps intact, until it is
    /// committed or rolled back.
    pub fn begin(&mut self) -> (tx: Transaction)
        requires
            old(self).wf(),
            old(self)@.clock.reader_count(old(self)@.clock.watermark) < usize::MAX,
        ensures
            final(self).wf(),
            final(self).backing() == old(self).backing(),
            final(self)@.clock == old(self)@.clock.register(),
            tx.wf(),
            tx@ == TxnView::fresh(old(self)@.clock.watermark, false),
    {
        let read_ts = self.oracle.begin_reader();
        Transaction::new(read_ts, false)
    }

    /// Begin a serializable transaction over the current state.
    ///
    /// A serializable transaction tracks every key it reads and, at commit,
    /// validates that none of them changed since its snapshot, in addition to
    /// the write-write check every transaction gets. A serializable transaction
    /// that writes nothing commits trivially, exactly like a read-only snapshot.
    pub fn begin_serializable(&mut self) -> (tx: Transaction)
        requires
            old(self).wf(),
            old(self)@.clock.reader_count(old(self)@.clock.watermark) < usize::MAX,
        ensures
            final(self).wf(),
            final(self).backing() == old(self).backing(),
            final(self)@.clock == old(self)@.clock.register(),
            tx.wf(),
            tx@ == TxnView::fresh(old(self)@.clock.watermark, true),
    {
        let read_ts = self.oracle.begin_reader();
        Transaction::new(read_ts, true)
    }

    /// Take a read-only snapshot of the current state of the database.
    ///
    /// The returned [`Snapshot`] reads as of this instant and never changes,
    /// even as other transactions commit, until it is
    /// [`release`](Snapshot::release)d.
    pub fn snapshot(&mut self) -> (snapshot: Snapshot)
        requires
            old(self).wf(),
            old(self)@.clock.reader_count(old(self)@.clock.watermark) < usize::MAX,
        ensures
            final(self).wf(),
            final(self).backing() == old(self).backing(),
            final(self)@.clock == old(self)@.clock.register(),
            snapshot.read_at() == old(self)@.clock.watermark,
    {
        let read_ts = self.oracle.begin_reader();
        Snapshot::new(read_ts)
    }

    /// The timestamp of the most recent commit visible to a new transaction: the
    /// read watermark, at which a transaction beginning now would read. Zero for
    /// a database that has never been written.
    ///
    /// A rejected attempt to commit uses up a timestamp, and counts here as a
    /// commit that changed nothing.
    #[must_use]
    pub fn last_committed(&self) -> (ts: Timestamp)
        ensures
            ts@ == self@.clock.watermark,
    {
        self.oracle.read_ts()
    }

    /// Whether another commit timestamp can be handed out. `false` only after
    /// all of them, close to two to the power of 64, have been.
    #[must_use]
    pub fn has_timestamps(&self) -> (left: bool)
        ensures
            left == (self@.clock.next < u64::MAX),
    {
        self.oracle.has_next()
    }

    /// Whether another transaction or snapshot can begin. `false` only if as many
    /// are live at the current timestamp as can be counted.
    #[must_use]
    pub fn can_begin(&self) -> (can: bool)
        ensures
            can == (self@.clock.reader_count(self@.clock.watermark) < usize::MAX),
    {
        self.oracle.can_begin_reader()
    }

    /// Read `key` as of `read_ts`.
    pub(crate) fn read_at(&self, key: &[u8], read_ts: Timestamp) -> (value: Result<
        Option<Arc<[u8]>>,
        TxnError,
    >)
        requires
            self.wf(),
        ensures
            match value {
                Ok(v) => bytes::value_of(v) == history::visible(self@.history, key@, read_ts@),
                Err(e) => S::may_fail() && e is Store,
            },
            store_answers(self.backing(), key, read_ts@, value),
    {
        self.store.get(key, read_ts)
    }

    /// Hand out the next commit timestamp, which is outstanding from then on.
    pub(crate) fn reserve(&mut self) -> (commit_ts: Timestamp)
        requires
            old(self).wf(),
            old(self)@.clock.next < u64::MAX,
        ensures
            final(self).wf(),
            final(self).backing() == old(self).backing(),
            final(self)@.clock == old(self)@.clock.allocate(),
            final(self)@.clock.outstanding(commit_ts@),
            commit_ts@ == old(self)@.clock.next,
    {
        self.oracle.alloc_commit_ts()
    }

    /// Validate a batch and apply it at a reserved timestamp, through the store.
    pub(crate) fn apply(
        &mut self,
        read_ts: Timestamp,
        commit_ts: Timestamp,
        writes: Vec<WriteEntry>,
        reads: &[Arc<[u8]>],
    ) -> (outcome: Result<(), TxnError>)
        requires
            old(self).wf(),
            read_ts@ <= commit_ts@,
        ensures
            final(self).wf(),
            final(self)@.clock == old(self)@.clock,
            store::commit_outcome(
                old(self)@.history,
                final(self)@.history,
                writes@,
                reads@,
                read_ts@,
                commit_ts@,
                outcome,
                S::may_fail(),
            ),
            exists|store: &mut S|
                {
                    &&& *store == old(self).backing()
                    &&& *final(store) == final(self).backing()
                    &&& #[trigger] call_ensures(
                        S::try_commit,
                        (store, read_ts, commit_ts, writes, reads),
                        outcome,
                    )
                },
    {
        proof {
            if !history::any_changed(
                self.store.history(),
                store::touched(writes@, reads@),
                read_ts@,
            ) {
                history::lemma_unchanged_later(
                    self.store.history(),
                    store::writes_of(writes@),
                    bytes::keys_of(reads@),
                    read_ts@,
                    commit_ts@,
                );
                history::lemma_apply_wf(
                    self.store.history(),
                    store::writes_of(writes@),
                    commit_ts@,
                );
            }
        }
        self.store.try_commit(read_ts, commit_ts, writes, reads)
    }

    /// Release an outstanding commit timestamp into the watermark, and a reader.
    pub(crate) fn settle(&mut self, commit_ts: Timestamp, read_ts: Timestamp)
        requires
            old(self).wf(),
            old(self)@.clock.outstanding(commit_ts@),
        ensures
            final(self).wf(),
            final(self).backing() == old(self).backing(),
            final(self)@.clock == old(self)@.clock.complete(commit_ts@).release(read_ts@),
    {
        self.oracle.commit_done(commit_ts);
        self.oracle.end_reader(read_ts);
    }

    /// Unregister a reader at `read_ts`.
    pub(crate) fn end_reader(&mut self, read_ts: Timestamp)
        requires
            old(self).wf(),
        ensures
            final(self).wf(),
            final(self).backing() == old(self).backing(),
            final(self)@.clock == old(self)@.clock.release(read_ts@),
    {
        self.oracle.end_reader(read_ts);
    }

    /// Allocate a commit timestamp, validate and apply through the store, then
    /// release the timestamp into the watermark.
    ///
    /// The timestamp is released on both outcomes, a successful commit and a
    /// rejected one, so a conflict never stalls the read watermark behind the
    /// timestamp it consumed.
    pub fn commit_writes(
        &mut self,
        read_ts: Timestamp,
        writes: Vec<WriteEntry>,
        reads: &[Arc<[u8]>],
    ) -> (outcome: Result<Timestamp, TxnError>)
        requires
            old(self).wf(),
            read_ts@ <= old(self)@.clock.watermark,
            old(self)@.clock.next < u64::MAX,
        ensures
            final(self).wf(),
            final(self)@.clock == old(self)@.clock.allocate().complete(old(self)@.clock.next),
            outcome matches Ok(ts) ==> ts@ == old(self)@.clock.next,
            store::commit_outcome(
                old(self)@.history,
                final(self)@.history,
                writes@,
                reads@,
                read_ts@,
                old(self)@.clock.next,
                txn::plain(outcome),
                S::may_fail(),
            ),
            exists|store: &mut S, commit_ts: Timestamp|
                {
                    &&& *store == old(self).backing()
                    &&& *final(store) == final(self).backing()
                    &&& commit_ts@ == old(self)@.clock.next
                    &&& #[trigger] call_ensures(
                        S::try_commit,
                        (store, read_ts, commit_ts, writes, reads),
                        txn::plain(outcome),
                    )
                },
    {
        let commit_ts = self.reserve();
        let outcome = self.apply(read_ts, commit_ts, writes, reads);
        self.oracle.commit_done(commit_ts);
        match outcome {
            Ok(done) => {
                assert(done == ());
                Ok(commit_ts)
            },
            Err(e) => Err(e),
        }
    }

    /// Finish a commit that [`prepare`](Transaction::prepare) applied: its
    /// record has been logged, or could not be, as `logged` says.
    ///
    /// Either way its timestamp is released into the watermark and its reader is
    /// gone. A commit whose record is not durable is not acknowledged: it
    /// returns [`TxnError::Durability`].
    pub fn finish(&mut self, applied: AppliedCommit, logged: Result<(), String>) -> (outcome:
        Result<Timestamp, TxnError>)
        requires
            old(self).wf(),
            old(self)@.clock.outstanding(applied.committed_at()),
        ensures
            final(self).wf(),
            final(self).backing() == old(self).backing(),
            final(self)@.clock == old(self)@.clock.complete(applied.committed_at()).release(
                applied.read_at(),
            ),
            match logged {
                Ok(_) => outcome matches Ok(ts) && ts@ == applied.committed_at(),
                Err(detail) => outcome matches Err(TxnError::Durability { detail: d }) && d@
                    == detail@,
            },
    {
        let commit_ts = applied.commit_timestamp();
        self.settle(commit_ts, applied.read_timestamp());
        match logged {
            Ok(_) => Ok(commit_ts),
            Err(detail) => Err(TxnError::durability(detail.as_str())),
        }
    }

    /// Reclaim the versions that no live transaction or snapshot can observe,
    /// returning how many were removed.
    ///
    /// The store collects at the oldest timestamp a live reader reads at, so a
    /// held snapshot pins the versions it can see: nothing that a reader at or
    /// after that timestamp observes changes.
    pub fn collect_garbage(&mut self) -> (reclaimed: usize)
        requires
            old(self).wf(),
        ensures
            final(self).wf(),
            final(self)@.clock == old(self)@.clock,
            exists|store: &mut S, low: Timestamp|
                {
                    &&& *store == old(self).backing()
                    &&& *final(store) == final(self).backing()
                    &&& old(self)@.clock.is_low_watermark(low@)
                    &&& #[trigger] call_ensures(S::collect_garbage, (store, low), reclaimed)
                },
            forall|key: Seq<u8>, ts: u64|
                old(self)@.clock.readable(ts) ==> #[trigger] history::visible(
                    final(self)@.history,
                    key,
                    ts,
                ) == history::visible(old(self)@.history, key, ts),
            forall|key: Seq<u8>, ts: u64|
                old(self)@.clock.readable(ts) ==> #[trigger] history::changed_since(
                    final(self)@.history,
                    key,
                    ts,
                ) == history::changed_since(old(self)@.history, key, ts),
            reclaimed == history::clamp(
                (history::version_count(old(self)@.history) - history::version_count(
                    final(self)@.history,
                )) as nat,
            ),
    {
        let low = self.oracle.low_watermark();
        self.store.collect_garbage(low)
    }

    /// Read one key as of now.
    pub fn get(&self, key: &[u8]) -> (value: Result<Option<Arc<[u8]>>, TxnError>)
        requires
            self.wf(),
        ensures
            match value {
                Ok(v) => bytes::value_of(v) == history::visible(
                    self@.history,
                    key@,
                    self@.clock.watermark,
                ),
                Err(e) => S::may_fail() && e is Store,
            },
            store_answers(self.backing(), key, self@.clock.watermark, value),
    {
        self.read_at(key, self.oracle.read_ts())
    }

    /// Write one key as a transaction of its own, in one attempt.
    ///
    /// The attempt conflicts only if the key has a version that is not visible
    /// yet, of a commit that is applied but not [finished](Db::finish), or that
    /// waits for an earlier one. Try again once it has become visible.
    pub fn try_put(&mut self, key: Vec<u8>, value: Vec<u8>) -> (outcome: Result<
        Timestamp,
        TxnError,
    >)
        requires
            old(self).wf(),
            old(self)@.clock.next < u64::MAX,
        ensures
            final(self).wf(),
            final(self)@.clock == old(self)@.clock.allocate().complete(old(self)@.clock.next),
            outcome matches Ok(ts) ==> ts@ == old(self)@.clock.next,
            TxnView::fresh(old(self)@.clock.watermark, false).after_write(
                key@,
                Some(value@),
            ).commit_effect(
                old(self)@.history,
                final(self)@.history,
                old(self)@.clock.next,
                txn::plain(outcome),
                S::may_fail(),
            ),
            exists|store: &mut S|
                {
                    &&& *store == old(self).backing()
                    &&& *final(store) == final(self).backing()
                    &&& #[trigger] store_commits(
                        store,
                        TxnView::fresh(old(self)@.clock.watermark, false).after_write(
                            key@,
                            Some(value@),
                        ),
                        old(self)@.clock.next,
                        txn::plain(outcome),
                    )
                },
    {
        self.write_one(share(key), Some(share(value)))
    }

    /// Delete one key as a transaction of its own, in one attempt.
    ///
    /// It conflicts as [`try_put`](Db::try_put) does.
    pub fn try_delete(&mut self, key: Vec<u8>) -> (outcome: Result<Timestamp, TxnError>)
        requires
            old(self).wf(),
            old(self)@.clock.next < u64::MAX,
        ensures
            final(self).wf(),
            final(self)@.clock == old(self)@.clock.allocate().complete(old(self)@.clock.next),
            outcome matches Ok(ts) ==> ts@ == old(self)@.clock.next,
            TxnView::fresh(old(self)@.clock.watermark, false).after_write(
                key@,
                None,
            ).commit_effect(
                old(self)@.history,
                final(self)@.history,
                old(self)@.clock.next,
                txn::plain(outcome),
                S::may_fail(),
            ),
            exists|store: &mut S|
                {
                    &&& *store == old(self).backing()
                    &&& *final(store) == final(self).backing()
                    &&& #[trigger] store_commits(
                        store,
                        TxnView::fresh(old(self)@.clock.watermark, false).after_write(
                            key@,
                            None,
                        ),
                        old(self)@.clock.next,
                        txn::plain(outcome),
                    )
                },
    {
        self.write_one(share(key), None)
    }

    /// Commit one write as a transaction of its own.
    fn write_one(&mut self, key: Arc<[u8]>, value: Option<Arc<[u8]>>) -> (outcome: Result<
        Timestamp,
        TxnError,
    >)
        requires
            old(self).wf(),
            old(self)@.clock.next < u64::MAX,
        ensures
            final(self).wf(),
            final(self)@.clock == old(self)@.clock.allocate().complete(old(self)@.clock.next),
            outcome matches Ok(ts) ==> ts@ == old(self)@.clock.next,
            TxnView::fresh(old(self)@.clock.watermark, false).after_write(
                bytes::bytes_of(key),
                bytes::value_of(value),
            ).commit_effect(
                old(self)@.history,
                final(self)@.history,
                old(self)@.clock.next,
                txn::plain(outcome),
                S::may_fail(),
            ),
            exists|store: &mut S|
                {
                    &&& *store == old(self).backing()
                    &&& *final(store) == final(self).backing()
                    &&& #[trigger] store_commits(
                        store,
                        TxnView::fresh(old(self)@.clock.watermark, false).after_write(
                            bytes::bytes_of(key),
                            bytes::value_of(value),
                        ),
                        old(self)@.clock.next,
                        txn::plain(outcome),
                    )
                },
    {
        let read_ts = self.oracle.read_ts();
        let ghost tx = TxnView::fresh(read_ts@, false).after_write(
            bytes::bytes_of(key),
            bytes::value_of(value),
        );
        let mut writes: Vec<WriteEntry> = Vec::new();
        writes.push((key, value));
        let reads: Vec<Arc<[u8]>> = Vec::new();
        let reads = reads.as_slice();
        let outcome = self.commit_writes(read_ts, writes, reads);
        proof {
            let keys = history::written_keys(store::writes_of(writes@));
            assert(keys =~= seq![bytes::bytes_of(key)]);
            assert(keys[0] == bytes::bytes_of(key));
            assert(history::lists(store::writes_of(writes@), tx.writes));
            txn::lemma_batch_is_transaction(
                tx,
                old(self)@.history,
                self@.history,
                writes@,
                reads@,
                old(self)@.clock.next,
                txn::plain(outcome),
                S::may_fail(),
            );
            lemma_store_commits(
                old(self).backing(),
                self.backing(),
                tx,
                old(self)@.clock.next,
                read_ts,
                writes,
                reads,
                txn::plain(outcome),
            );
        }
        outcome
    }
}

} // verus!
