//! What a program sees of a database, whatever store is behind it.
//!
//! A program begins transactions and snapshots, reads, writes and commits. Over a
//! store that never fails, the contracts of these operations leave nothing open:
//! the answers follow from the calls alone. So a database over any such store
//! answers as one over a [`MemoryStore`](crate::MemoryStore) does.

use std::sync::Arc;

use vstd::prelude::*;

use crate::bytes;
use crate::db::{Db, DbView};
use crate::error::TxnError;
use crate::history;
use crate::laws;
use crate::oracle::Clock;
use crate::store::{VersionStore, WriteEntry};
use crate::timestamp::Timestamp;
use crate::txn;
use crate::txn::{Snapshot, Transaction, TxnView};

verus! {

/// A database, and the transactions and snapshots that a program has taken of it,
/// in the order it took them; `None` stands for one that is over.
#[verifier::ext_equal]
pub struct Session {
    /// The state of the database.
    pub db: DbView,
    /// The transactions.
    pub txs: Seq<Option<TxnView>>,
    /// The timestamps of the snapshots.
    pub snapshots: Seq<Option<u64>>,
}

/// One call of a program.
pub enum Call {
    /// Begin a transaction.
    Begin { serializable: bool },
    /// Read a key through a transaction.
    Get { tx: int, key: Seq<u8> },
    /// Write a key through a transaction, or delete it.
    Write { tx: int, key: Seq<u8>, value: Option<Seq<u8>> },
    /// Commit a transaction.
    Commit { tx: int },
    /// Roll a transaction back.
    Rollback { tx: int },
    /// Take a snapshot.
    Snapshot,
    /// Read a key from a snapshot.
    GetAt { snapshot: int, key: Seq<u8> },
    /// Give a snapshot up.
    Release { snapshot: int },
    /// Read a key as of now.
    GetNow { key: Seq<u8> },
    /// Write a key, or delete it, as a transaction of its own.
    WriteNow { key: Seq<u8>, value: Option<Seq<u8>> },
    /// Ask for the timestamp of the last commit.
    LastCommitted,
}

/// What a program gets back.
pub enum Answer {
    /// Nothing.
    Done,
    /// The value of a key.
    Value(Option<Seq<u8>>),
    /// A timestamp: that of a commit, of a snapshot, or of the last commit.
    At(u64),
    /// A conflict.
    Conflict,
}

impl Session {
    /// What a program has before its first call.
    pub open spec fn start(db: DbView) -> Self {
        Session { db, txs: Seq::empty(), snapshots: Seq::empty() }
    }

    /// Transaction `tx` is `view`.
    pub open spec fn has_tx(self, tx: int, view: TxnView) -> bool {
        0 <= tx < self.txs.len() && self.txs[tx] == Some(view)
    }

    /// Snapshot `snapshot` is at `ts`.
    pub open spec fn has_snapshot(self, snapshot: int, ts: u64) -> bool {
        0 <= snapshot < self.snapshots.len() && self.snapshots[snapshot] == Some(ts)
    }

    /// The session with the clock of its database changed.
    pub open spec fn with_clock(self, clock: Clock) -> Self {
        Session { db: DbView { clock, ..self.db }, ..self }
    }

    /// The session with transaction `tx` changed; `None` if it is over.
    pub open spec fn with_tx(self, tx: int, view: Option<TxnView>) -> Self {
        Session { txs: self.txs.update(tx, view), ..self }
    }

    /// The session with snapshot `snapshot` over.
    pub open spec fn without_snapshot(self, snapshot: int) -> Self {
        Session { snapshots: self.snapshots.update(snapshot, None), ..self }
    }

    /// Whether the call names something the program still has.
    pub open spec fn names(self, call: Call) -> bool {
        match call {
            Call::Get { tx, .. } | Call::Write { tx, .. } | Call::Commit { tx } | Call::Rollback {
                tx,
            } => 0 <= tx < self.txs.len() && self.txs[tx] is Some,
            Call::GetAt { snapshot, .. } | Call::Release { snapshot } => 0 <= snapshot
                < self.snapshots.len() && self.snapshots[snapshot] is Some,
            _ => true,
        }
    }
}

/// What the outcome of a commit tells a program.
pub open spec fn told(outcome: Result<(), TxnError>, commit_ts: u64) -> Answer {
    match outcome {
        Ok(_) => Answer::At(commit_ts),
        Err(_) => Answer::Conflict,
    }
}

/// A store that never fails commits a transaction with this outcome.
pub open spec fn decides(
    tx: TxnView,
    before: DbView,
    after: DbView,
    outcome: Result<(), TxnError>,
) -> bool {
    tx.commit_effect(before.history, after.history, before.clock.next, outcome, false)
}

/// A store that never fails may commit a transaction with this answer.
pub open spec fn decided(tx: TxnView, before: DbView, after: DbView, answer: Answer) -> bool {
    exists|outcome: Result<(), TxnError>| #[trigger]
        decides(tx, before, after, outcome) && answer == told(outcome, before.clock.next)
}

/// What the contracts of the operations say of a call over a store that never
/// fails: it may lead from `before` to `after`, with `answer` returned.
pub open spec fn answers(before: Session, call: Call, after: Session, answer: Answer) -> bool {
    let db = before.db;
    let attempted = db.clock.allocate().complete(db.clock.next);
    match call {
        Call::Begin { serializable } => {
            &&& after == (Session {
                txs: before.txs.push(Some(TxnView::fresh(db.clock.watermark, serializable))),
                ..before.with_clock(db.clock.register())
            })
            &&& answer == Answer::At(db.clock.watermark)
        },
        Call::Get { tx, key } => {
            &&& after == before.with_tx(tx, Some(before.txs[tx]->0.after_read(key)))
            &&& answer == Answer::Value(before.txs[tx]->0.sees(db.history, key))
        },
        Call::Write { tx, key, value } => {
            &&& after == before.with_tx(tx, Some(before.txs[tx]->0.after_write(key, value)))
            &&& answer == Answer::Done
        },
        Call::Commit { tx } => {
            let view = before.txs[tx]->0;
            if view.writes.is_empty() {
                &&& after == before.with_clock(db.clock.release(view.read_ts)).with_tx(tx, None)
                &&& answer == Answer::At(view.read_ts)
            } else {
                &&& after.db.clock == attempted.release(view.read_ts)
                &&& after.txs == before.txs.update(tx, None)
                &&& after.snapshots == before.snapshots
                &&& decided(view, db, after.db, answer)
            }
        },
        Call::Rollback { tx } => {
            &&& after == before.with_clock(
                db.clock.release(before.txs[tx]->0.read_ts),
            ).with_tx(tx, None)
            &&& answer == Answer::Done
        },
        Call::Snapshot => {
            &&& after == (Session {
                snapshots: before.snapshots.push(Some(db.clock.watermark)),
                ..before.with_clock(db.clock.register())
            })
            &&& answer == Answer::At(db.clock.watermark)
        },
        Call::GetAt { snapshot, key } => {
            &&& after == before
            &&& answer == Answer::Value(
                history::visible(db.history, key, before.snapshots[snapshot]->0),
            )
        },
        Call::Release { snapshot } => {
            &&& after == before.with_clock(
                db.clock.release(before.snapshots[snapshot]->0),
            ).without_snapshot(snapshot)
            &&& answer == Answer::Done
        },
        Call::GetNow { key } => {
            &&& after == before
            &&& answer == Answer::Value(history::visible(db.history, key, db.clock.watermark))
        },
        Call::WriteNow { key, value } => {
            &&& after.db.clock == attempted
            &&& after.txs == before.txs
            &&& after.snapshots == before.snapshots
            &&& decided(
                TxnView::fresh(db.clock.watermark, false).after_write(key, value),
                db,
                after.db,
                answer,
            )
        },
        Call::LastCommitted => {
            &&& after == before
            &&& answer == Answer::At(db.clock.watermark)
        },
    }
}

/// `states` and `replies` are what a program that makes `calls` goes through.
pub open spec fn plays(states: Seq<Session>, calls: Seq<Call>, replies: Seq<Answer>) -> bool {
    &&& states.len() == calls.len() + 1
    &&& replies.len() == calls.len()
    &&& forall|i: int|
        0 <= i < calls.len() ==> (#[trigger] states[i]).names(calls[i]) && answers(
            states[i],
            calls[i],
            states[i + 1],
            replies[i],
        )
}

/// A call has one answer, and leads to one state.
pub proof fn law_calls_have_one_answer(
    before: Session,
    call: Call,
    after: Session,
    answer: Answer,
    other_after: Session,
    other_answer: Answer,
)
    requires
        answers(before, call, after, answer),
        answers(before, call, other_after, other_answer),
    ensures
        after == other_after,
        answer == other_answer,
{
    let db = before.db;
    match call {
        Call::Commit { tx } => {
            let view = before.txs[tx]->0;
            if !view.writes.is_empty() {
                lemma_one_decision(view, db, after.db, answer, other_after.db, other_answer);
                assert(after =~= other_after);
            }
        },
        Call::WriteNow { key, value } => {
            let view = TxnView::fresh(db.clock.watermark, false).after_write(key, value);
            lemma_one_decision(view, db, after.db, answer, other_after.db, other_answer);
            assert(after =~= other_after);
        },
        _ => {},
    }
}

/// Stores that never fail decide alike.
proof fn lemma_one_decision(
    tx: TxnView,
    before: DbView,
    after: DbView,
    answer: Answer,
    other_after: DbView,
    other_answer: Answer,
)
    requires
        decided(tx, before, after, answer),
        decided(tx, before, other_after, other_answer),
    ensures
        after.history == other_after.history,
        answer == other_answer,
{
    let outcome = choose|outcome: Result<(), TxnError>| #[trigger]
        decides(tx, before, after, outcome) && answer == told(outcome, before.clock.next);
    let other = choose|outcome: Result<(), TxnError>| #[trigger]
        decides(tx, before, other_after, outcome) && other_answer == told(
            outcome,
            before.clock.next,
        );
    let ts = before.clock.next;
    laws::law_conflicts_decide_commits(tx, before.history, after.history, ts, outcome);
    laws::law_conflicts_decide_commits(tx, before.history, other_after.history, ts, other);
}

/// The store does not matter: a program that makes the same calls to two
/// databases in the same state, over whatever stores that never fail, gets the
/// same values, the same timestamps and the same conflicts from both.
pub proof fn law_store_does_not_matter(
    states: Seq<Session>,
    replies: Seq<Answer>,
    other_states: Seq<Session>,
    other_replies: Seq<Answer>,
    calls: Seq<Call>,
)
    requires
        plays(states, calls, replies),
        plays(other_states, calls, other_replies),
        states[0] == other_states[0],
    ensures
        states == other_states,
        replies == other_replies,
{
    assert forall|i: int| 0 <= i <= calls.len() implies #[trigger] states[i]
        == other_states[i] by {
        lemma_same_state(states, replies, other_states, other_replies, calls, i);
    }
    assert(states =~= other_states);
    assert forall|i: int| 0 <= i < calls.len() implies #[trigger] replies[i]
        == other_replies[i] by {
        assert(states[i] == other_states[i]);
        law_calls_have_one_answer(
            states[i],
            calls[i],
            states[i + 1],
            replies[i],
            other_states[i + 1],
            other_replies[i],
        );
    }
    assert(replies =~= other_replies);
}

proof fn lemma_same_state(
    states: Seq<Session>,
    replies: Seq<Answer>,
    other_states: Seq<Session>,
    other_replies: Seq<Answer>,
    calls: Seq<Call>,
    i: int,
)
    requires
        plays(states, calls, replies),
        plays(other_states, calls, other_replies),
        states[0] == other_states[0],
        0 <= i <= calls.len(),
    ensures
        states[i] == other_states[i],
    decreases i,
{
    if i > 0 {
        let n = i - 1;
        lemma_same_state(states, replies, other_states, other_replies, calls, n);
        assert(states[n].names(calls[n]));
        assert(other_states[n].names(calls[n]));
        law_calls_have_one_answer(
            states[n],
            calls[n],
            states[n + 1],
            replies[n],
            other_states[n + 1],
            other_replies[n],
        );
    }
}

// ---------------------------------------------------------------------------
// The calls of a program are the operations of a database
// ---------------------------------------------------------------------------

/// A database over any empty store starts in the state that a new one does.
pub proof fn law_databases_start_alike<S: VersionStore>(store: S, db: Db<S>, fresh: Db)
    requires
        store.history() == Map::<Seq<u8>, Seq<history::VersionView>>::empty(),
        call_ensures(Db::<S>::with_store, (store,), db),
        call_ensures(Db::new, (), fresh),
    ensures
        Session::start(db@) == Session::start(fresh@),
{
}

/// [`Db::begin`] is a call of a program.
pub proof fn law_begin_answers<S: VersionStore>(
    session: Session,
    before: Db<S>,
    after: Db<S>,
    tx: Transaction,
)
    requires
        session.db == before@,
        exists|db: &mut Db<S>|
            *db == before && *final(db) == after && #[trigger] call_ensures(
                Db::<S>::begin,
                (db,),
                tx,
            ),
    ensures
        answers(
            session,
            Call::Begin { serializable: false },
            Session { db: after@, txs: session.txs.push(Some(tx@)), ..session },
            Answer::At(tx@.read_ts),
        ),
{
}

/// [`Db::begin_serializable`] is a call of a program.
pub proof fn law_begin_serializable_answers<S: VersionStore>(
    session: Session,
    before: Db<S>,
    after: Db<S>,
    tx: Transaction,
)
    requires
        session.db == before@,
        exists|db: &mut Db<S>|
            *db == before && *final(db) == after && #[trigger] call_ensures(
                Db::<S>::begin_serializable,
                (db,),
                tx,
            ),
    ensures
        answers(
            session,
            Call::Begin { serializable: true },
            Session { db: after@, txs: session.txs.push(Some(tx@)), ..session },
            Answer::At(tx@.read_ts),
        ),
{
}

/// [`Transaction::get`] is a call of a program: over a store that never fails it
/// has a value to return.
pub proof fn law_get_answers<S: VersionStore>(
    session: Session,
    at: int,
    before: Transaction,
    after: Transaction,
    db: Db<S>,
    key: &[u8],
    value: Result<Option<Arc<[u8]>>, TxnError>,
)
    requires
        !S::may_fail(),
        session.db == db@,
        session.has_tx(at, before@),
        exists|tx: &mut Transaction|
            *tx == before && *final(tx) == after && #[trigger] call_ensures(
                Transaction::get::<S>,
                (tx, &db, key),
                value,
            ),
    ensures
        value is Ok,
        answers(
            session,
            Call::Get { tx: at, key: key@ },
            session.with_tx(at, Some(after@)),
            Answer::Value(bytes::value_of(value->Ok_0)),
        ),
{
}

/// [`Transaction::put`] is a call of a program.
pub proof fn law_put_answers(
    session: Session,
    at: int,
    before: Transaction,
    after: Transaction,
    key: Vec<u8>,
    value: Vec<u8>,
)
    requires
        session.has_tx(at, before@),
        exists|tx: &mut Transaction|
            *tx == before && *final(tx) == after && #[trigger] call_ensures(
                Transaction::put,
                (tx, key, value),
                (),
            ),
    ensures
        answers(
            session,
            Call::Write { tx: at, key: key@, value: Some(value@) },
            session.with_tx(at, Some(after@)),
            Answer::Done,
        ),
{
}

/// [`Transaction::delete`] is a call of a program.
pub proof fn law_delete_answers(
    session: Session,
    at: int,
    before: Transaction,
    after: Transaction,
    key: Vec<u8>,
)
    requires
        session.has_tx(at, before@),
        exists|tx: &mut Transaction|
            *tx == before && *final(tx) == after && #[trigger] call_ensures(
                Transaction::delete,
                (tx, key),
                (),
            ),
    ensures
        answers(
            session,
            Call::Write { tx: at, key: key@, value: None },
            session.with_tx(at, Some(after@)),
            Answer::Done,
        ),
{
}

/// [`Transaction::commit`] is a call of a program: over a store that never fails
/// it returns a timestamp or a conflict.
pub proof fn law_commit_answers<S: VersionStore>(
    session: Session,
    at: int,
    tx: Transaction,
    before: Db<S>,
    after: Db<S>,
    outcome: Result<Timestamp, TxnError>,
)
    requires
        !S::may_fail(),
        session.db == before@,
        session.has_tx(at, tx@),
        exists|db: &mut Db<S>|
            *db == before && *final(db) == after && #[trigger] call_ensures(
                Transaction::commit::<S>,
                (tx, db),
                outcome,
            ),
    ensures
        outcome matches Err(e) ==> e is Conflict,
        answers(
            session,
            Call::Commit { tx: at },
            Session { db: after@, ..session }.with_tx(at, None),
            match outcome {
                Ok(ts) => Answer::At(ts@),
                Err(_) => Answer::Conflict,
            },
        ),
{
    if !tx@.writes.is_empty() {
        assert(decides(tx@, before@, after@, txn::plain(outcome)));
    }
}

/// [`Transaction::rollback`] is a call of a program.
pub proof fn law_rollback_answers<S: VersionStore>(
    session: Session,
    at: int,
    tx: Transaction,
    before: Db<S>,
    after: Db<S>,
)
    requires
        session.db == before@,
        session.has_tx(at, tx@),
        exists|db: &mut Db<S>|
            *db == before && *final(db) == after && #[trigger] call_ensures(
                Transaction::rollback::<S>,
                (tx, db),
                (),
            ),
    ensures
        answers(
            session,
            Call::Rollback { tx: at },
            Session { db: after@, ..session }.with_tx(at, None),
            Answer::Done,
        ),
{
}

/// [`Db::snapshot`] is a call of a program.
pub proof fn law_snapshot_answers<S: VersionStore>(
    session: Session,
    before: Db<S>,
    after: Db<S>,
    snapshot: Snapshot,
)
    requires
        session.db == before@,
        exists|db: &mut Db<S>|
            *db == before && *final(db) == after && #[trigger] call_ensures(
                Db::<S>::snapshot,
                (db,),
                snapshot,
            ),
    ensures
        answers(
            session,
            Call::Snapshot,
            Session {
                db: after@,
                snapshots: session.snapshots.push(Some(snapshot.read_at())),
                ..session
            },
            Answer::At(snapshot.read_at()),
        ),
{
}

/// [`Snapshot::get`] is a call of a program: over a store that never fails it has
/// a value to return.
pub proof fn law_snapshot_get_answers<S: VersionStore>(
    session: Session,
    at: int,
    snapshot: Snapshot,
    db: Db<S>,
    key: &[u8],
    value: Result<Option<Arc<[u8]>>, TxnError>,
)
    requires
        !S::may_fail(),
        session.db == db@,
        session.has_snapshot(at, snapshot.read_at()),
        call_ensures(Snapshot::get::<S>, (&snapshot, &db, key), value),
    ensures
        value is Ok,
        answers(
            session,
            Call::GetAt { snapshot: at, key: key@ },
            session,
            Answer::Value(bytes::value_of(value->Ok_0)),
        ),
{
}

/// [`Snapshot::release`] is a call of a program.
pub proof fn law_release_answers<S: VersionStore>(
    session: Session,
    at: int,
    snapshot: Snapshot,
    before: Db<S>,
    after: Db<S>,
)
    requires
        session.db == before@,
        session.has_snapshot(at, snapshot.read_at()),
        exists|db: &mut Db<S>|
            *db == before && *final(db) == after && #[trigger] call_ensures(
                Snapshot::release::<S>,
                (snapshot, db),
                (),
            ),
    ensures
        answers(
            session,
            Call::Release { snapshot: at },
            Session { db: after@, ..session }.without_snapshot(at),
            Answer::Done,
        ),
{
}

/// [`Db::get`] is a call of a program: over a store that never fails it has a
/// value to return.
pub proof fn law_get_now_answers<S: VersionStore>(
    session: Session,
    db: Db<S>,
    key: &[u8],
    value: Result<Option<Arc<[u8]>>, TxnError>,
)
    requires
        !S::may_fail(),
        session.db == db@,
        call_ensures(Db::<S>::get, (&db, key), value),
    ensures
        value is Ok,
        answers(
            session,
            Call::GetNow { key: key@ },
            session,
            Answer::Value(bytes::value_of(value->Ok_0)),
        ),
{
}

/// [`Db::try_put`] is a call of a program: over a store that never fails it
/// returns a timestamp or a conflict.
pub proof fn law_try_put_answers<S: VersionStore>(
    session: Session,
    before: Db<S>,
    after: Db<S>,
    key: Vec<u8>,
    value: Vec<u8>,
    outcome: Result<Timestamp, TxnError>,
)
    requires
        !S::may_fail(),
        session.db == before@,
        exists|db: &mut Db<S>|
            *db == before && *final(db) == after && #[trigger] call_ensures(
                Db::<S>::try_put,
                (db, key, value),
                outcome,
            ),
    ensures
        outcome matches Err(e) ==> e is Conflict,
        answers(
            session,
            Call::WriteNow { key: key@, value: Some(value@) },
            Session { db: after@, ..session },
            match outcome {
                Ok(ts) => Answer::At(ts@),
                Err(_) => Answer::Conflict,
            },
        ),
{
    let tx = TxnView::fresh(before@.clock.watermark, false).after_write(key@, Some(value@));
    let answer = told(txn::plain(outcome), before@.clock.next);
    assert(decides(tx, before@, after@, txn::plain(outcome)));
    assert(decided(tx, before@, after@, answer));
}

/// [`Db::try_delete`] is a call of a program: over a store that never fails it
/// returns a timestamp or a conflict.
pub proof fn law_try_delete_answers<S: VersionStore>(
    session: Session,
    before: Db<S>,
    after: Db<S>,
    key: Vec<u8>,
    outcome: Result<Timestamp, TxnError>,
)
    requires
        !S::may_fail(),
        session.db == before@,
        exists|db: &mut Db<S>|
            *db == before && *final(db) == after && #[trigger] call_ensures(
                Db::<S>::try_delete,
                (db, key),
                outcome,
            ),
    ensures
        outcome matches Err(e) ==> e is Conflict,
        answers(
            session,
            Call::WriteNow { key: key@, value: None },
            Session { db: after@, ..session },
            match outcome {
                Ok(ts) => Answer::At(ts@),
                Err(_) => Answer::Conflict,
            },
        ),
{
    let tx = TxnView::fresh(before@.clock.watermark, false).after_write(key@, None);
    let answer = told(txn::plain(outcome), before@.clock.next);
    assert(decides(tx, before@, after@, txn::plain(outcome)));
    assert(decided(tx, before@, after@, answer));
}

/// [`Db::last_committed`] is a call of a program.
pub proof fn law_last_committed_answers<S: VersionStore>(
    session: Session,
    db: Db<S>,
    ts: Timestamp,
)
    requires
        session.db == db@,
        call_ensures(Db::<S>::last_committed, (&db,), ts),
    ensures
        answers(session, Call::LastCommitted, session, Answer::At(ts@)),
{
}

// ---------------------------------------------------------------------------
// Beginning, and attempts to commit
// ---------------------------------------------------------------------------

/// A transaction that begins, of either kind, reads at the last commit and has
/// nothing to commit: committing it at once returns that same timestamp.
/// Beginning asks nothing of the store and leaves the last commit where it was.
pub proof fn law_begin_is_at_the_last_commit<S: VersionStore>(
    before: Db<S>,
    after: Db<S>,
    tx: Transaction,
    last: Timestamp,
    last_after: Timestamp,
    last_db: Db<S>,
    outcome: Result<Timestamp, TxnError>,
)
    requires
        (exists|db: &mut Db<S>|
            *db == before && *final(db) == after && #[trigger] call_ensures(
                Db::<S>::begin,
                (db,),
                tx,
            )) || (exists|db: &mut Db<S>|
            *db == before && *final(db) == after && #[trigger] call_ensures(
                Db::<S>::begin_serializable,
                (db,),
                tx,
            )),
        call_ensures(Db::<S>::last_committed, (&before,), last),
        call_ensures(Db::<S>::last_committed, (&after,), last_after),
        exists|db: &mut Db<S>|
            *db == after && *final(db) == last_db && #[trigger] call_ensures(
                Transaction::commit::<S>,
                (tx, db),
                outcome,
            ),
    ensures
        tx@.read_ts == last@,
        tx@.writes.is_empty(),
        outcome matches Ok(ts) && ts@ == last@,
        last_after@ == last@,
        after.backing() == before.backing(),
{
    assert(tx@.writes =~= Map::empty());
}

/// An attempt to commit, while no other is in flight, asks the store once, with
/// what it was given and the next timestamp, and hands the answer on: that
/// timestamp, or the store's own error. Either way the timestamp is used up, and
/// is the last commit from then on.
pub proof fn law_attempt_hands_the_answer_on<S: VersionStore>(
    before: Db<S>,
    after: Db<S>,
    read_ts: Timestamp,
    writes: Vec<WriteEntry>,
    reads: &[Arc<[u8]>],
    outcome: Result<Timestamp, TxnError>,
    last: Timestamp,
)
    requires
        before.wf(),
        before@.clock.watermark + 1 == before@.clock.next,
        before@.clock.next < u64::MAX,
        exists|db: &mut Db<S>|
            *db == before && *final(db) == after && #[trigger] call_ensures(
                Db::<S>::commit_writes,
                (db, read_ts, writes, reads),
                outcome,
            ),
        call_ensures(Db::<S>::last_committed, (&after,), last),
    ensures
        exists|store: &mut S, commit_ts: Timestamp|
            {
                &&& *store == before.backing()
                &&& *final(store) == after.backing()
                &&& commit_ts@ == before@.clock.next
                &&& #[trigger] call_ensures(
                    S::try_commit,
                    (store, read_ts, commit_ts, writes, reads),
                    txn::plain(outcome),
                )
            },
        outcome matches Ok(ts) ==> ts@ == before@.clock.next,
        after@.clock.next == before@.clock.next + 1,
        last@ == before@.clock.next,
{
    laws::law_attempt_does_not_stall_readers(before@.clock);
}

} // verus!
