//! Transactions and snapshots: the read and write handles of a [`Db`].
//!
//! A [`Transaction`] is the read-write unit of work. It takes a snapshot of the
//! database when it begins, serves every read from that snapshot (plus its own
//! uncommitted writes), buffers writes locally, and applies them atomically at
//! [`commit`](Transaction::commit), or discards them on
//! [`rollback`](Transaction::rollback). Because reads come from a fixed
//! snapshot, a transaction never blocks writers and is never blocked by them.
//!
//! A [`Snapshot`] is the read-only counterpart: a consistent, point-in-time
//! view with no write buffer and nothing to commit.

use std::sync::Arc;

use vstd::prelude::*;

use crate::bytes;
use crate::bytes::{copy_bytes, share, share_value};
use crate::db;
use crate::db::Db;
use crate::durable;
use crate::durable::{encode_for_log, RecordView};
use crate::error::TxnError;
use crate::history;
use crate::history::{History, WriteSet};
use crate::keymap::KeyMap;
use crate::store;
use crate::store::{VersionStore, WriteEntry};
use crate::timestamp::Timestamp;

verus! {

/// What a transaction has done so far.
#[verifier::ext_equal]
pub struct TxnView {
    /// The snapshot it reads at.
    pub read_ts: u64,
    /// Its buffered writes; `None` is a delete.
    pub writes: WriteSet,
    /// The keys it has read from its snapshot, if it is serializable.
    pub reads: Set<Seq<u8>>,
    /// Whether its reads are validated at commit.
    pub serializable: bool,
}

impl TxnView {
    /// A transaction that has not done anything yet.
    pub open spec fn fresh(read_ts: u64, serializable: bool) -> Self {
        TxnView { read_ts, writes: Map::empty(), reads: Set::empty(), serializable }
    }

    /// What the transaction sees of `key`: its own pending write, or else what
    /// its snapshot shows.
    pub open spec fn sees(self, history: History, key: Seq<u8>) -> Option<Seq<u8>> {
        if self.writes.contains_key(key) {
            self.writes[key]
        } else {
            history::visible(history, key, self.read_ts)
        }
    }

    /// The transaction after it has read `key`: a serializable one remembers what
    /// it read from its snapshot.
    pub open spec fn after_read(self, key: Seq<u8>) -> Self {
        if self.serializable && !self.writes.contains_key(key) {
            TxnView { reads: self.reads.insert(key), ..self }
        } else {
            self
        }
    }

    /// The transaction after it has written `value` to `key`.
    pub open spec fn after_write(self, key: Seq<u8>, value: Option<Seq<u8>>) -> Self {
        TxnView { writes: self.writes.insert(key, value), ..self }
    }

    /// The transaction depends on `key`: it has written it, or read it and is
    /// serializable.
    pub open spec fn touches(self, key: Seq<u8>) -> bool {
        self.writes.contains_key(key) || self.reads.contains(key)
    }

    /// The batch a store is handed when the transaction commits: each write once,
    /// and every key that was read.
    pub open spec fn hands_over(self, writes: Seq<WriteEntry>, reads: Seq<Arc<[u8]>>) -> bool {
        &&& history::lists(store::writes_of(writes), self.writes)
        &&& forall|key: Seq<u8>| #[trigger]
            self.reads.contains(key) <==> bytes::keys_of(reads).contains(key)
    }

    /// A key the transaction depends on has changed since its snapshot.
    pub open spec fn conflicts(self, history: History) -> bool {
        exists|key: Seq<u8>| #[trigger]
            self.touches(key) && history::changed_since(history, key, self.read_ts)
    }

    /// What committing the transaction at `commit_ts` does to a history, and
    /// returns.
    ///
    /// The first committer wins: the commit succeeds only if no key the
    /// transaction depends on has changed since its snapshot, and then all its
    /// writes are installed at once. A conflict carries the length of such a key.
    /// Whatever the failure, nothing is applied. Only a store that may fail can
    /// turn down a commit without a conflict.
    pub open spec fn commit_effect(
        self,
        before: History,
        after: History,
        commit_ts: u64,
        outcome: Result<(), TxnError>,
        may_fail: bool,
    ) -> bool {
        match outcome {
            Ok(_) => {
                &&& !self.conflicts(before)
                &&& after == history::install(before, self.writes, commit_ts)
            },
            Err(TxnError::Conflict { key_len }) => {
                &&& after == before
                &&& exists|key: Seq<u8>| #[trigger]
                    self.touches(key) && history::changed_since(before, key, self.read_ts)
                        && key_len == key.len()
            },
            Err(e) => {
                &&& after == before
                &&& may_fail && e is Store
            },
        }
    }
}

/// An outcome without what success carries.
pub open spec fn plain<T>(outcome: Result<T, TxnError>) -> Result<(), TxnError> {
    match outcome {
        Ok(_) => Ok(()),
        Err(e) => Err(e),
    }
}

/// A batch that lists a transaction's writes and reads commits as the
/// transaction does.
pub proof fn lemma_batch_is_transaction(
    tx: TxnView,
    before: History,
    after: History,
    writes: Seq<WriteEntry>,
    reads: Seq<Arc<[u8]>>,
    commit_ts: u64,
    outcome: Result<(), TxnError>,
    may_fail: bool,
)
    requires
        tx.hands_over(writes, reads),
        store::commit_outcome(
            before,
            after,
            writes,
            reads,
            tx.read_ts,
            commit_ts,
            outcome,
            may_fail,
        ),
    ensures
        tx.commit_effect(before, after, commit_ts, outcome, may_fail),
{
    let written = history::written_keys(store::writes_of(writes));
    let read = bytes::keys_of(reads);
    let keys = store::touched(writes, reads);
    history::lemma_apply_is_install(before, store::writes_of(writes), tx.writes, commit_ts);
    assert forall|i: int| 0 <= i < keys.len() implies tx.touches(#[trigger] keys[i]) by {
        if i < written.len() {
            assert(keys[i] == written[i]);
            assert(written.contains(written[i]));
        } else {
            assert(keys[i] == read[i - written.len()]);
            assert(read.contains(read[i - written.len()]));
        }
    }
    assert forall|key: Seq<u8>| #[trigger] tx.touches(key) implies exists|i: int|
        0 <= i < keys.len() && #[trigger] keys[i] == key by {
        if tx.writes.contains_key(key) {
            let i = written.index_of(key);
            assert(keys[i] == key);
        } else {
            let i = read.index_of(key);
            assert(keys[written.len() + i] == key);
        }
    }
}

/// A read-write transaction over a consistent snapshot of the database.
///
/// A transaction is created by [`Db::begin`](crate::Db::begin). It reads as of
/// the snapshot timestamp captured at that moment, so concurrent commits by
/// other transactions are invisible to it: this is snapshot isolation. Writes
/// are buffered in the transaction and become visible to others only when
/// [`commit`](Transaction::commit) succeeds; within the transaction, a read of a
/// key it has written returns that pending write (read-your-own-writes).
///
/// At commit the database checks every written key for a write-write conflict:
/// if another transaction committed a change to any of those keys after this
/// transaction's snapshot, the commit is rejected with a retryable
/// [`TxnError::Conflict`](crate::TxnError::Conflict) and none of the writes are
/// applied. This is what prevents lost updates.
///
/// A transaction counts as a live reader of its database until it is
/// [committed](Transaction::commit) or [rolled back](Transaction::rollback).
#[must_use]
pub struct Transaction {
    read_ts: Timestamp,
    writes: KeyMap<Option<Arc<[u8]>>>,
    reads: KeyMap<()>,
    serializable: bool,
}

/// The bytes of a write set.
spec fn write_set(writes: Map<Seq<u8>, Option<Arc<[u8]>>>) -> WriteSet {
    Map::new(|key: Seq<u8>| writes.contains_key(key), |key: Seq<u8>| bytes::value_of(writes[key]))
}

impl View for Transaction {
    type V = TxnView;

    closed spec fn view(&self) -> TxnView {
        TxnView {
            read_ts: self.read_ts@,
            writes: write_set(self.writes@),
            reads: self.reads@.dom(),
            serializable: self.serializable,
        }
    }
}

/// A commit, and what it takes to log it.
#[must_use]
pub enum Prepared {
    /// The commit is over, with this outcome. Nothing has to be logged.
    Finished(Result<Timestamp, TxnError>),
    /// The writes are applied, and their record waits to be logged.
    Applied(AppliedCommit),
}

impl Prepared {
    /// The outcome of applying the writes.
    pub open spec fn outcome(self) -> Result<(), TxnError> {
        match self {
            Prepared::Finished(outcome) => plain(outcome),
            Prepared::Applied(_) => Ok(()),
        }
    }
}

impl Transaction {
    /// The invariant of a transaction's buffers: each key occurs in them once.
    pub closed spec fn wf(&self) -> bool {
        self.writes.wf() && self.reads.wf()
    }

    /// Construct a transaction reading at `read_ts`.
    pub(crate) fn new(read_ts: Timestamp, serializable: bool) -> (tx: Self)
        ensures
            tx.wf(),
            tx@ == TxnView::fresh(read_ts@, serializable),
    {
        let tx = Transaction {
            read_ts,
            writes: KeyMap::new(),
            reads: KeyMap::new(),
            serializable,
        };
        assert(tx@ =~= TxnView::fresh(read_ts@, serializable));
        tx
    }

    /// The snapshot timestamp this transaction reads at.
    ///
    /// Every read that is not served from the transaction's own write buffer
    /// observes the database as of this timestamp.
    #[must_use]
    pub fn read_timestamp(&self) -> (ts: Timestamp)
        ensures
            ts@ == self@.read_ts,
    {
        self.read_ts
    }

    /// Read the value of `key` as this transaction sees it.
    ///
    /// If the transaction has written `key`, the pending write is returned
    /// (read-your-own-writes), including `None` if it has deleted the key.
    /// Otherwise the value is read from the transaction's snapshot: the newest
    /// version committed at or before the snapshot timestamp, or `None` if the
    /// key does not exist as of the snapshot. A serializable transaction
    /// remembers that it read the key.
    ///
    /// Only a backing store that may fail returns an error, a
    /// [`TxnError::Store`]. The default in-memory store never does.
    pub fn get<S: VersionStore>(&mut self, db: &Db<S>, key: &[u8]) -> (value: Result<
        Option<Arc<[u8]>>,
        TxnError,
    >)
        requires
            old(self).wf(),
            db.wf(),
        ensures
            final(self).wf(),
            final(self)@ == old(self)@.after_read(key@),
            match value {
                Ok(v) => bytes::value_of(v) == old(self)@.sees(db@.history, key@),
                Err(e) => S::may_fail() && e is Store && !old(self)@.writes.contains_key(key@),
            },
            !old(self)@.writes.contains_key(key@) ==> db::store_answers(
                db.backing(),
                key,
                old(self)@.read_ts,
                value,
            ),
    {
        if let Some(pending) = self.writes.get(key) {
            return Ok(share_value(pending));
        }
        if self.serializable {
            self.reads.insert(share(copy_bytes(key)), ());
            assert(self@ =~= old(self)@.after_read(key@));
        }
        db.read_at(key, self.read_ts)
    }

    /// Buffer a write of `value` to `key`, to be applied at commit.
    ///
    /// The write is local to this transaction until [`commit`](Self::commit)
    /// succeeds; other transactions do not see it. Writing the same key twice
    /// keeps the last value.
    pub fn put(&mut self, key: Vec<u8>, value: Vec<u8>)
        requires
            old(self).wf(),
        ensures
            final(self).wf(),
            final(self)@ == old(self)@.after_write(key@, Some(value@)),
    {
        self.writes.insert(share(key), Some(share(value)));
        assert(self@ =~= old(self)@.after_write(key@, Some(value@)));
    }

    /// Buffer a delete of `key`, to be applied at commit.
    ///
    /// After this call the transaction reads `key` as absent. At commit a
    /// tombstone is written so that snapshots taken after the commit also see
    /// the key as absent. Deleting a key that does not exist is a no-op that
    /// still participates in conflict detection, so a delete races other
    /// writers the same way a `put` does.
    pub fn delete(&mut self, key: Vec<u8>)
        requires
            old(self).wf(),
        ensures
            final(self).wf(),
            final(self)@ == old(self)@.after_write(key@, None),
    {
        self.writes.insert(share(key), None);
        assert(self@ =~= old(self)@.after_write(key@, None));
    }

    /// Whether anything is to be applied at commit.
    #[must_use]
    pub fn has_writes(&self) -> (some: bool)
        requires
            self.wf(),
        ensures
            some == !self@.writes.is_empty(),
    {
        proof {
            self.lemma_no_writes();
        }
        self.writes.len() > 0
    }

    /// The buffered writes, and the keys that were read, as lists.
    fn into_batch(self) -> (batch: (Vec<WriteEntry>, Vec<Arc<[u8]>>))
        requires
            self.wf(),
        ensures
            self@.hands_over(batch.0@, batch.1@),
    {
        proof {
            self.writes.lemma_view();
            self.reads.lemma_view();
        }
        let writes = self.writes.into_entries();
        let reads = self.reads.into_keys();
        assert(history::written_keys(store::writes_of(writes@)) =~= self.writes.keys());
        assert forall|i: int| 0 <= i < writes@.len() implies self@.writes[(
        #[trigger] store::writes_of(writes@)[i]).0] == store::writes_of(writes@)[i].1 by {
            assert(self.writes.keys()[i] == bytes::bytes_of(writes@[i].0));
        }
        (writes, reads)
    }

    /// Commit the transaction, applying all buffered writes atomically.
    ///
    /// On success every buffered write becomes visible to transactions that
    /// begin afterward, and the commit timestamp is returned. A transaction
    /// that buffered no writes commits trivially and returns its snapshot
    /// timestamp without allocating a new one.
    ///
    /// Returns [`TxnError::Conflict`], which is retryable, if a written key (or,
    /// for a serializable transaction, a key it read) was changed by another
    /// transaction that committed after this one's snapshot; in that case no
    /// writes are applied. Returns [`TxnError::Store`] if the backing store
    /// fails to apply the batch.
    pub fn commit<S: VersionStore>(self, db: &mut Db<S>) -> (outcome: Result<Timestamp, TxnError>)
        requires
            self.wf(),
            old(db).wf(),
            self@.read_ts <= old(db)@.clock.watermark,
            self@.writes.is_empty() || old(db)@.clock.next < u64::MAX,
        ensures
            final(db).wf(),
            self@.writes.is_empty() ==> {
                &&& final(db).backing() == old(db).backing()
                &&& final(db)@.clock == old(db)@.clock.release(self@.read_ts)
                &&& outcome matches Ok(ts) && ts@ == self@.read_ts
            },
            !self@.writes.is_empty() ==> {
                &&& final(db)@.clock == old(db)@.clock.allocate().complete(
                    old(db)@.clock.next,
                ).release(self@.read_ts)
                &&& outcome matches Ok(ts) ==> ts@ == old(db)@.clock.next
                &&& self@.commit_effect(
                    old(db)@.history,
                    final(db)@.history,
                    old(db)@.clock.next,
                    plain(outcome),
                    S::may_fail(),
                )
            },
            !self@.writes.is_empty() ==> exists|store: &mut S|
                {
                    &&& *store == old(db).backing()
                    &&& *final(store) == final(db).backing()
                    &&& #[trigger] db::store_commits(
                        store,
                        self@,
                        old(db)@.clock.next,
                        plain(outcome),
                    )
                },
    {
        let read_ts = self.read_ts;
        let ghost tx = self@;
        if !self.has_writes() {
            db.end_reader(read_ts);
            return Ok(read_ts);
        }
        let (writes, reads) = self.into_batch();
        let reads = reads.as_slice();
        let outcome = db.commit_writes(read_ts, writes, reads);
        proof {
            lemma_batch_is_transaction(
                tx,
                old(db)@.history,
                db@.history,
                writes@,
                reads@,
                old(db)@.clock.next,
                plain(outcome),
                S::may_fail(),
            );
            db::lemma_store_commits(
                old(db).backing(),
                db.backing(),
                tx,
                old(db)@.clock.next,
                read_ts,
                writes,
                reads,
                plain(outcome),
            );
        }
        db.end_reader(read_ts);
        outcome
    }

    /// The buffer is empty exactly if there are no writes.
    proof fn lemma_no_writes(&self)
        requires
            self.wf(),
        ensures
            self@.writes.is_empty() <==> self.writes.keys().len() == 0,
    {
        self.writes.lemma_view();
        if self.writes.keys().len() == 0 {
            assert(self@.writes =~= Map::empty());
        } else {
            assert(self@.writes.contains_key(self.writes.keys()[0]));
        }
    }

    /// Discard the transaction and all of its buffered writes.
    ///
    /// Rolling back never fails and never touches the store.
    pub fn rollback<S: VersionStore>(self, db: &mut Db<S>)
        requires
            old(db).wf(),
        ensures
            final(db).wf(),
            final(db).backing() == old(db).backing(),
            final(db)@.clock == old(db)@.clock.release(self@.read_ts),
    {
        db.end_reader(self.read_ts);
    }

    /// Apply all buffered writes, up to the point where their record has to be
    /// logged.
    ///
    /// This is [`commit`](Self::commit) for a database whose commits have to be
    /// durable before they are acknowledged. If the writes are applied, their
    /// commit timestamp stays outstanding, so that no snapshot shows them, until
    /// the [`AppliedCommit`] is [finished](Db::finish). A commit that has
    /// nothing to log, because there are no writes or they were rejected, is over
    /// at once, with the outcome that `commit` gives.
    pub fn prepare<S: VersionStore>(self, db: &mut Db<S>) -> (prepared: Prepared)
        requires
            self.wf(),
            old(db).wf(),
            self@.read_ts <= old(db)@.clock.watermark,
            self@.writes.is_empty() || old(db)@.clock.next < u64::MAX,
        ensures
            final(db).wf(),
            self@.writes.is_empty() ==> {
                &&& final(db).backing() == old(db).backing()
                &&& final(db)@.clock == old(db)@.clock.release(self@.read_ts)
                &&& prepared matches Prepared::Finished(Ok(ts)) && ts@ == self@.read_ts
            },
            !self@.writes.is_empty() ==> match prepared {
                Prepared::Finished(outcome) => {
                    &&& final(db)@.clock == old(db)@.clock.allocate().complete(
                        old(db)@.clock.next,
                    ).release(self@.read_ts)
                    &&& outcome is Err
                    &&& self@.commit_effect(
                        old(db)@.history,
                        final(db)@.history,
                        old(db)@.clock.next,
                        plain(outcome),
                        S::may_fail(),
                    )
                },
                Prepared::Applied(applied) => {
                    &&& final(db)@.clock == old(db)@.clock.allocate()
                    &&& final(db)@.clock.outstanding(applied.committed_at())
                    &&& applied.committed_at() == old(db)@.clock.next
                    &&& applied.read_at() == self@.read_ts
                    &&& applied.logs(self@.writes)
                    &&& self@.commit_effect(
                        old(db)@.history,
                        final(db)@.history,
                        old(db)@.clock.next,
                        Ok(()),
                        S::may_fail(),
                    )
                },
            },
            !self@.writes.is_empty() ==> exists|store: &mut S|
                {
                    &&& *store == old(db).backing()
                    &&& *final(store) == final(db).backing()
                    &&& #[trigger] db::store_commits(
                        store,
                        self@,
                        old(db)@.clock.next,
                        prepared.outcome(),
                    )
                },
    {
        let read_ts = self.read_ts;
        let ghost tx = self@;
        if !self.has_writes() {
            db.end_reader(read_ts);
            return Prepared::Finished(Ok(read_ts));
        }
        let (writes, reads) = self.into_batch();
        let commit_ts = db.reserve();
        let record = encode_for_log(commit_ts, writes.as_slice());
        let reads = reads.as_slice();
        let outcome = db.apply(read_ts, commit_ts, writes, reads);
        proof {
            lemma_batch_is_transaction(
                tx,
                old(db)@.history,
                db@.history,
                writes@,
                reads@,
                commit_ts@,
                outcome,
                S::may_fail(),
            );
            db::lemma_store_commits(
                old(db).backing(),
                db.backing(),
                tx,
                old(db)@.clock.next,
                read_ts,
                writes,
                reads,
                outcome,
            );
        }
        match outcome {
            Ok(done) => {
                assert(done == ());
                let applied = AppliedCommit { commit_ts, read_ts, record };
                Prepared::Applied(applied)
            },
            Err(e) => {
                db.settle(commit_ts, read_ts);
                Prepared::Finished(Err(e))
            },
        }
    }
}

/// A read-only, point-in-time view of the database.
///
/// A snapshot is created by [`Db::snapshot`](crate::Db::snapshot) and reads as
/// of the moment it was taken. It has no write buffer and nothing to commit, so
/// it is cheaper than a transaction when all you need is to read several keys at
/// one consistent instant.
///
/// A snapshot counts as a live reader of its database until it is
/// [released](Snapshot::release).
#[must_use]
pub struct Snapshot {
    read_ts: Timestamp,
}

impl Snapshot {
    /// The timestamp the snapshot reads at.
    pub closed spec fn read_at(&self) -> u64 {
        self.read_ts@
    }

    /// Construct a snapshot reading at `read_ts`.
    pub(crate) fn new(read_ts: Timestamp) -> (snapshot: Self)
        ensures
            snapshot.read_at() == read_ts@,
    {
        Snapshot { read_ts }
    }

    /// The timestamp this snapshot reads at.
    #[must_use]
    pub fn read_timestamp(&self) -> (ts: Timestamp)
        ensures
            ts@ == self.read_at(),
    {
        self.read_ts
    }

    /// Read the value of `key` as of this snapshot.
    ///
    /// Returns the newest version committed at or before the snapshot
    /// timestamp, or `None` if the key does not exist as of that instant. Only a
    /// backing store that may fail returns an error, a [`TxnError::Store`].
    pub fn get<S: VersionStore>(&self, db: &Db<S>, key: &[u8]) -> (value: Result<
        Option<Arc<[u8]>>,
        TxnError,
    >)
        requires
            db.wf(),
        ensures
            match value {
                Ok(v) => bytes::value_of(v) == history::visible(
                    db@.history,
                    key@,
                    self.read_at(),
                ),
                Err(e) => S::may_fail() && e is Store,
            },
            db::store_answers(db.backing(), key, self.read_at(), value),
    {
        db.read_at(key, self.read_ts)
    }

    /// Give the snapshot up: the versions only it can see may be reclaimed.
    pub fn release<S: VersionStore>(self, db: &mut Db<S>)
        requires
            old(db).wf(),
        ensures
            final(db).wf(),
            final(db).backing() == old(db).backing(),
            final(db)@.clock == old(db)@.clock.release(self.read_at()),
    {
        db.end_reader(self.read_ts);
    }
}

/// A commit whose writes are applied and whose record waits to be logged.
///
/// Hand it to [`Db::finish`] once the record is durable, or could not be made so.
#[must_use]
pub struct AppliedCommit {
    commit_ts: Timestamp,
    read_ts: Timestamp,
    record: Vec<u8>,
}

impl AppliedCommit {
    /// The timestamp the writes are applied at.
    pub closed spec fn committed_at(&self) -> u64 {
        self.commit_ts@
    }

    /// The snapshot the transaction read at.
    pub closed spec fn read_at(&self) -> u64 {
        self.read_ts@
    }

    /// The bytes to log.
    pub closed spec fn logged(&self) -> Seq<u8> {
        self.record@
    }

    /// The bytes to log are a record of the commit of `writes`, in some order.
    pub open spec fn logs(&self, writes: WriteSet) -> bool {
        exists|listed: Seq<history::WriteView>| #[trigger]
            history::lists(listed, writes) && self.logged() == durable::record_bytes(
                RecordView { commit_ts: self.committed_at(), writes: listed },
            )
    }

    /// The timestamp the writes are applied at.
    #[must_use]
    pub fn commit_timestamp(&self) -> (ts: Timestamp)
        ensures
            ts@ == self.committed_at(),
    {
        self.commit_ts
    }

    /// The snapshot timestamp of the transaction.
    #[must_use]
    pub fn read_timestamp(&self) -> (ts: Timestamp)
        ensures
            ts@ == self.read_at(),
    {
        self.read_ts
    }

    /// The record to log.
    #[must_use]
    pub fn record(&self) -> (record: &[u8])
        ensures
            record@ == self.logged(),
    {
        self.record.as_slice()
    }
}

} // verus!
