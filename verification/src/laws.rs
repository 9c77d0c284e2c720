//! What the database promises across operations.
//!
//! The contract of each operation says what that operation does to the state of
//! a database, a [`DbView`]. The laws here say what follows for everyone who uses
//! the database: that snapshots are stable, that commits are atomic, that
//! conflicting commits are rejected and others are not, that serializable
//! transactions behave as if they ran one at a time, and that garbage collection
//! is invisible.

use vstd::prelude::*;

use crate::db::DbView;
use crate::durable::RecordView;
use crate::error::TxnError;
use crate::history;
use crate::history::{History, VersionView, WriteSet};
use crate::oracle;
use crate::oracle::Clock;
use crate::recovery;
use crate::txn::TxnView;

verus! {

// ---------------------------------------------------------------------------
// Visibility
// ---------------------------------------------------------------------------

/// A commit is atomic. A reader before its timestamp sees nothing of it, at any
/// key. A reader at or after its timestamp sees all of it: every written key has
/// the written value, and every other key is as it was.
pub proof fn law_commit_is_atomic(
    history: History,
    writes: WriteSet,
    commit_ts: u64,
    key: Seq<u8>,
    ts: u64,
)
    ensures
        ts < commit_ts ==> history::visible(
            history::install(history, writes, commit_ts),
            key,
            ts,
        ) == history::visible(history, key, ts),
        ts >= commit_ts && writes.contains_key(key) ==> history::visible(
            history::install(history, writes, commit_ts),
            key,
            ts,
        ) == writes[key],
        !writes.contains_key(key) ==> history::visible(
            history::install(history, writes, commit_ts),
            key,
            ts,
        ) == history::visible(history, key, ts),
{
    let before = history::chain_of(history, key);
    let after = history::chain_of(history::install(history, writes, commit_ts), key);
    if writes.contains_key(key) {
        let version = VersionView { commit_ts, value: writes[key] };
        assert(after =~= before + seq![version]);
        if ts < commit_ts {
            history::lemma_reached_ignores_newer(before, seq![version], ts);
        } else {
            assert(after.last() == version);
        }
    } else {
        assert(after == before);
    }
}

/// A commit that has not finished is invisible to every reader that begins
/// before it does: the watermark, at which readers begin, is below its
/// timestamp.
pub proof fn law_unfinished_commit_is_invisible(
    clock: Clock,
    history: History,
    writes: WriteSet,
    commit_ts: u64,
    key: Seq<u8>,
)
    requires
        clock.outstanding(commit_ts),
    ensures
        history::visible(
            history::install(history, writes, commit_ts),
            key,
            clock.watermark,
        ) == history::visible(history, key, clock.watermark),
{
    law_commit_is_atomic(history, writes, commit_ts, key, clock.watermark);
}

/// If no version is later than `ts`, a reader at `ts` sees the newest value of
/// every key.
pub proof fn law_latest_reader_sees_newest(history: History, key: Seq<u8>, ts: u64)
    requires
        history::up_to(history, ts),
        history.contains_key(key),
        history[key].len() > 0,
    ensures
        history::visible(history, key, ts) == history[key].last().value,
{
    let chain = history::chain_of(history, key);
    assert(!history::changed_since(history, key, ts));
    assert(chain[chain.len() - 1].commit_ts <= ts);
}

// ---------------------------------------------------------------------------
// Transactions
// ---------------------------------------------------------------------------

/// Read-your-own-writes: a transaction sees what it wrote last to a key, and its
/// other reads are unaffected.
pub proof fn law_transaction_reads_its_own_writes(
    tx: TxnView,
    history: History,
    key: Seq<u8>,
    value: Option<Seq<u8>>,
    other: Seq<u8>,
)
    ensures
        tx.after_write(key, value).sees(history, key) == value,
        other != key ==> tx.after_write(key, value).sees(history, other) == tx.sees(
            history,
            other,
        ),
{
}

/// Writing a key twice keeps the last value.
pub proof fn law_last_write_wins(
    tx: TxnView,
    key: Seq<u8>,
    first: Option<Seq<u8>>,
    second: Option<Seq<u8>>,
)
    ensures
        tx.after_write(key, first).after_write(key, second) == tx.after_write(key, second),
{
    assert(tx.after_write(key, first).after_write(key, second) =~= tx.after_write(key, second));
}

/// Only a serializable transaction depends on what it read.
pub proof fn law_only_serializable_reads_are_validated(tx: TxnView, key: Seq<u8>)
    ensures
        !tx.serializable ==> tx.after_read(key) == tx,
        tx.serializable ==> tx.after_read(key).touches(key),
{
}

/// A transaction never forgets what it depends on: a read and a write each leave
/// it depending on every key it depended on before, a write also on the key
/// written, and a serializable transaction's read also on the key read. It comes
/// to depend on no other key.
pub proof fn law_dependencies_only_grow(
    tx: TxnView,
    key: Seq<u8>,
    value: Option<Seq<u8>>,
    other: Seq<u8>,
)
    ensures
        tx.touches(other) ==> tx.after_read(key).touches(other),
        tx.touches(other) ==> tx.after_write(key, value).touches(other),
        tx.serializable ==> tx.after_read(key).touches(key),
        tx.after_write(key, value).touches(key),
        other != key ==> tx.after_read(key).touches(other) == tx.touches(other),
        other != key ==> tx.after_write(key, value).touches(other) == tx.touches(other),
        !tx.serializable ==> tx.after_read(key).touches(other) == tx.touches(other),
{
}

/// What a transaction saw of a key it wrote is what it commits: every reader at or
/// after its commit timestamp sees that value.
pub proof fn law_commit_shows_what_the_transaction_saw(
    history: History,
    tx: TxnView,
    commit_ts: u64,
    key: Seq<u8>,
    ts: u64,
)
    requires
        tx.writes.contains_key(key),
        commit_ts <= ts,
    ensures
        history::visible(history::install(history, tx.writes, commit_ts), key, ts) == tx.sees(
            history,
            key,
        ),
{
    law_commit_is_atomic(history, tx.writes, commit_ts, key, ts);
}

/// The first committer wins: once a transaction has committed a write to a key,
/// no transaction that depends on the key and began before can commit. So of two
/// transactions from one snapshot that write the same key at most one commits,
/// no update is lost, and the second of two serializable transactions that each
/// write what the other read is rejected.
pub proof fn law_first_committer_wins(
    history: History,
    first: TxnView,
    second: TxnView,
    commit_ts: u64,
    key: Seq<u8>,
)
    requires
        second.read_ts < commit_ts,
        first.writes.contains_key(key),
        second.writes.contains_key(key) || second.reads.contains(key),
    ensures
        second.conflicts(history::install(history, first.writes, commit_ts)),
{
    let after = history::install(history, first.writes, commit_ts);
    let chain = history::chain_of(after, key);
    assert(chain.last().commit_ts == commit_ts);
    assert(chain[chain.len() - 1].commit_ts > second.read_ts);
    assert(second.touches(key) && history::changed_since(after, key, second.read_ts));
}

/// Transactions that share no key do not conflict: a commit leaves every
/// transaction that has neither written nor, being serializable, read one of the
/// written keys as free to commit as it was. Under snapshot isolation this holds
/// whatever the transaction has read, so write skew is permitted there.
pub proof fn law_disjoint_transactions_do_not_conflict(
    history: History,
    first: TxnView,
    second: TxnView,
    commit_ts: u64,
)
    requires
        forall|key: Seq<u8>| #[trigger]
            second.writes.contains_key(key) ==> !first.writes.contains_key(key),
        forall|key: Seq<u8>| #[trigger]
            second.reads.contains(key) ==> !first.writes.contains_key(key),
    ensures
        second.conflicts(history::install(history, first.writes, commit_ts))
            == second.conflicts(history),
{
    let after = history::install(history, first.writes, commit_ts);
    assert forall|key: Seq<u8>| #[trigger] second.touches(key) implies history::chain_of(
        after,
        key,
    ) == history::chain_of(history, key) by {}
    if second.conflicts(history) {
        let key = choose|key: Seq<u8>| #[trigger]
            second.touches(key) && history::changed_since(history, key, second.read_ts);
        assert(second.touches(key) && history::changed_since(after, key, second.read_ts));
    }
    if second.conflicts(after) {
        let key = choose|key: Seq<u8>| #[trigger]
            second.touches(key) && history::changed_since(after, key, second.read_ts);
        assert(second.touches(key) && history::changed_since(history, key, second.read_ts));
    }
}

/// Serializability: when a transaction commits, every key it depends on still
/// has the value its snapshot showed, at every time up to the commit. So it read
/// what it would have read had it run alone at its commit timestamp: the
/// serialization order is the commit order.
pub proof fn law_committed_reads_are_current(
    history: History,
    tx: TxnView,
    key: Seq<u8>,
    ts: u64,
)
    requires
        !tx.conflicts(history),
        tx.writes.contains_key(key) || tx.reads.contains(key),
        tx.read_ts <= ts,
    ensures
        history::visible(history, key, ts) == history::visible(history, key, tx.read_ts),
{
    let chain = history::chain_of(history, key);
    assert(tx.touches(key));
    assert(!history::changed_since(history, key, tx.read_ts));
    assert forall|i: int| 0 <= i < chain.len() implies (#[trigger] chain[i]).commit_ts
        <= tx.read_ts by {}
    history::lemma_reached(chain, ts);
    history::lemma_reached(chain, tx.read_ts);
}

/// A transaction that nobody has committed past always commits: it conflicts
/// with nothing if no version is later than its snapshot.
pub proof fn law_uncontended_transaction_commits(history: History, tx: TxnView)
    requires
        history::up_to(history, tx.read_ts),
    ensures
        !tx.conflicts(history),
{
}

/// A commit is rejected only for a conflict that is there.
proof fn lemma_conflict_is_found(
    tx: TxnView,
    before: History,
    after: History,
    commit_ts: u64,
    outcome: Result<(), TxnError>,
    may_fail: bool,
)
    requires
        tx.commit_effect(before, after, commit_ts, outcome, may_fail),
    ensures
        outcome matches Err(TxnError::Conflict { .. }) ==> tx.conflicts(before),
{
    if let Err(TxnError::Conflict { key_len }) = outcome {
        let key = choose|key: Seq<u8>| #[trigger]
            tx.touches(key) && history::changed_since(before, key, tx.read_ts) && key_len
                == key.len();
        assert(tx.touches(key) && history::changed_since(before, key, tx.read_ts));
    }
}

/// Over a store that never fails, conflicts alone decide: a commit succeeds
/// exactly if nothing the transaction depends on has changed, and what is
/// returned otherwise is a conflict, which is retryable.
pub proof fn law_conflicts_decide_commits(
    tx: TxnView,
    before: History,
    after: History,
    commit_ts: u64,
    outcome: Result<(), TxnError>,
)
    requires
        tx.commit_effect(before, after, commit_ts, outcome, false),
    ensures
        outcome is Ok <==> !tx.conflicts(before),
        outcome matches Err(e) ==> e is Conflict,
        after == if tx.conflicts(before) {
            before
        } else {
            history::install(before, tx.writes, commit_ts)
        },
{
    lemma_conflict_is_found(tx, before, after, commit_ts, outcome, false);
}

// ---------------------------------------------------------------------------
// The clock
// ---------------------------------------------------------------------------

/// The watermark is the largest timestamp such that every commit at or below it
/// has finished.
pub proof fn law_watermark_is_tight(clock: Clock)
    requires
        clock.wf(),
    ensures
        forall|ts: u64| ts <= clock.watermark ==> !#[trigger] clock.outstanding(ts),
        clock.watermark + 1 == clock.next || clock.outstanding((clock.watermark + 1) as u64),
{
}

/// The watermark only moves forward, and passes a commit only once it, and every
/// earlier one, has finished.
pub proof fn law_watermark_waits_for_earlier_commits(clock: Clock, ts: u64, other: u64)
    requires
        clock.wf(),
        clock.outstanding(ts),
        clock.outstanding(other),
        other != ts,
    ensures
        clock.watermark <= clock.complete(ts).watermark < other,
{
    oracle::lemma_complete(clock, ts);
    assert(clock.complete(ts).outstanding(other));
}

/// When nothing else is outstanding, an attempt to commit uses up its timestamp
/// and moves the watermark to it, whether it succeeded or was rejected: an aborted
/// commit never stalls readers.
pub proof fn law_attempt_does_not_stall_readers(clock: Clock)
    requires
        clock.wf(),
        clock.watermark + 1 == clock.next,
        clock.next < u64::MAX,
    ensures
        clock.allocate().complete(clock.next).watermark == clock.next,
        clock.allocate().complete(clock.next).next == clock.next + 1,
{
    oracle::lemma_allocate(clock);
    assert(clock.allocate().outstanding(clock.next));
    oracle::lemma_complete(clock.allocate(), clock.next);
    let after = clock.allocate().complete(clock.next);
    if after.watermark != clock.next {
        assert(after.outstanding((after.watermark + 1) as u64));
    }
}

/// Commit timestamps are unique and increase: the one handed out next is later
/// than every one handed out before.
pub proof fn law_commit_timestamps_increase(clock: Clock, ts: u64)
    requires
        clock.wf(),
        clock.next < u64::MAX,
    ensures
        ts <= clock.watermark || clock.outstanding(ts) || clock.ahead.contains(ts) ==> ts
            < clock.next,
        clock.allocate().next > clock.next,
{
}

// ---------------------------------------------------------------------------
// Garbage collection
// ---------------------------------------------------------------------------

/// Collection is invisible to every live reader and to every reader to come: at
/// each timestamp one of them may read at, every key reads as before, and has
/// changed since then exactly if it had before.
pub proof fn law_collection_is_invisible(
    clock: Clock,
    history: History,
    low: u64,
    key: Seq<u8>,
    ts: u64,
)
    requires
        clock.wf(),
        history::history_wf(history),
        clock.is_low_watermark(low),
        clock.readable(ts),
    ensures
        history::visible(history::collected(history, low), key, ts) == history::visible(
            history,
            key,
            ts,
        ),
        history::changed_since(history::collected(history, low), key, ts)
            == history::changed_since(history, key, ts),
{
    history::lemma_collected(history, low);
}

/// Collection at the low watermark is a step of the database.
pub proof fn law_collection_is_a_step(db: DbView, low: u64)
    requires
        sound(db),
        db.clock.is_low_watermark(low),
    ensures
        possible(db, Step::Collect { kept: history::collected(db.history, low) }),
{
    history::lemma_collected(db.history, low);
}

/// Collection reclaims everything it can: of each key at most the oldest
/// remaining version is at or below the low watermark, and a key that is
/// absent for every reader is gone.
pub proof fn law_collection_keeps_no_dead_version(history: History, low: u64, key: Seq<u8>)
    requires
        history::history_wf(history),
        history::collected(history, low).contains_key(key),
    ensures
        forall|i: int|
            0 < i < history::collected(history, low)[key].len() ==> (#[trigger] history::collected(
                history,
                low,
            )[key][i]).commit_ts > low,
        !history::dead(history::collected(history, low)[key], low),
{
    let chain = history[key];
    history::lemma_reached(chain, low);
    let n = history::reached(chain, low);
    let kept = history::collected(history, low)[key];
    assert forall|i: int| 0 < i < kept.len() implies (#[trigger] kept[i]).commit_ts > low by {
        if n > 1 {
            assert(kept[i] == chain[i + n - 1]);
        }
    }
}

// ---------------------------------------------------------------------------
// Every history of a database
// ---------------------------------------------------------------------------

/// One operation of a database, as far as it changes its state.
pub enum Step {
    /// A transaction or a snapshot begins.
    Begin,
    /// A transaction or a snapshot at `read_ts` ends, with nothing to commit.
    End { read_ts: u64 },
    /// A transaction commits its writes, or is rejected.
    Commit { tx: TxnView },
    /// A transaction applies its writes, which are still to be logged, or is
    /// rejected.
    Prepare { tx: TxnView },
    /// A transaction is turned down by a store that fails.
    Refuse { tx: TxnView },
    /// A commit that was applied has been logged, or could not be.
    Finish { commit_ts: u64, read_ts: u64 },
    /// Versions that no reader can observe are reclaimed, as many as the store
    /// cares to. `kept` is what is left.
    Collect { kept: History },
}

/// `kept` is a history that reads as `history` does at every timestamp at which
/// a reader may still look.
pub open spec fn reads_alike(clock: Clock, history: History, kept: History) -> bool {
    &&& history::history_wf(kept)
    &&& forall|key: Seq<u8>, ts: u64|
        clock.readable(ts) ==> #[trigger] history::visible(kept, key, ts) == history::visible(
            history,
            key,
            ts,
        )
    &&& forall|key: Seq<u8>, ts: u64|
        clock.readable(ts) ==> #[trigger] history::changed_since(kept, key, ts)
            == history::changed_since(history, key, ts)
}

/// A database in which an operation can happen.
pub open spec fn possible(db: DbView, step: Step) -> bool {
    match step {
        Step::Begin => db.clock.reader_count(db.clock.watermark) < usize::MAX,
        Step::End { .. } => true,
        Step::Commit { tx } | Step::Prepare { tx } | Step::Refuse { tx } => {
            &&& !tx.writes.is_empty()
            &&& tx.read_ts <= db.clock.watermark
            &&& db.clock.next < u64::MAX
        },
        Step::Finish { commit_ts, .. } => db.clock.outstanding(commit_ts),
        Step::Collect { kept } => reads_alike(db.clock, db.history, kept),
    }
}

/// The state of a database after an operation.
pub open spec fn after(db: DbView, step: Step) -> DbView {
    match step {
        Step::Begin => DbView { clock: db.clock.register(), ..db },
        Step::End { read_ts } => DbView { clock: db.clock.release(read_ts), ..db },
        Step::Commit { tx } => DbView {
            history: if tx.conflicts(db.history) {
                db.history
            } else {
                history::install(db.history, tx.writes, db.clock.next)
            },
            clock: db.clock.allocate().complete(db.clock.next).release(tx.read_ts),
        },
        Step::Prepare { tx } => if tx.conflicts(db.history) {
            DbView {
                clock: db.clock.allocate().complete(db.clock.next).release(tx.read_ts),
                ..db
            }
        } else {
            DbView {
                history: history::install(db.history, tx.writes, db.clock.next),
                clock: db.clock.allocate(),
            }
        },
        Step::Refuse { tx } => DbView {
            clock: db.clock.allocate().complete(db.clock.next).release(tx.read_ts),
            ..db
        },
        Step::Finish { commit_ts, read_ts } => DbView {
            clock: db.clock.complete(commit_ts).release(read_ts),
            ..db
        },
        Step::Collect { kept } => DbView { history: kept, ..db },
    }
}

/// Committing is a step, over any store. Conflicts decide it, unless the store
/// fails.
pub proof fn law_commit_is_a_step(
    before: DbView,
    done: DbView,
    tx: TxnView,
    outcome: Result<(), TxnError>,
    may_fail: bool,
)
    requires
        tx.commit_effect(before.history, done.history, before.clock.next, outcome, may_fail),
        done.clock == before.clock.allocate().complete(before.clock.next).release(tx.read_ts),
    ensures
        match outcome {
            Ok(_) => !tx.conflicts(before.history) && done == after(before, Step::Commit { tx }),
            Err(TxnError::Conflict { .. }) => tx.conflicts(before.history) && done == after(
                before,
                Step::Commit { tx },
            ),
            Err(_) => may_fail && done == after(before, Step::Refuse { tx }),
        },
{
    lemma_conflict_is_found(tx, before.history, done.history, before.clock.next, outcome, may_fail);
}

/// Preparing a commit is a step, over any store: its timestamp stays outstanding
/// exactly if the writes are applied.
pub proof fn law_prepare_is_a_step(
    before: DbView,
    done: DbView,
    tx: TxnView,
    outcome: Result<(), TxnError>,
    may_fail: bool,
)
    requires
        tx.commit_effect(before.history, done.history, before.clock.next, outcome, may_fail),
        done.clock == if outcome is Ok {
            before.clock.allocate()
        } else {
            before.clock.allocate().complete(before.clock.next).release(tx.read_ts)
        },
    ensures
        match outcome {
            Ok(_) => !tx.conflicts(before.history) && done == after(before, Step::Prepare { tx }),
            Err(TxnError::Conflict { .. }) => tx.conflicts(before.history) && done == after(
                before,
                Step::Prepare { tx },
            ),
            Err(_) => may_fail && done == after(before, Step::Refuse { tx }),
        },
{
    lemma_conflict_is_found(tx, before.history, done.history, before.clock.next, outcome, may_fail);
}

/// A single-key write is two steps, over any store: a transaction begins, and
/// commits, is rejected, or is turned down. So whatever holds across steps holds
/// across single-key writes too.
pub proof fn law_single_write_is_two_steps(
    before: DbView,
    done: DbView,
    key: Seq<u8>,
    value: Option<Seq<u8>>,
    outcome: Result<(), TxnError>,
    may_fail: bool,
)
    requires
        sound(before),
        possible(before, Step::Begin),
        before.clock.next < u64::MAX,
        TxnView::fresh(before.clock.watermark, false).after_write(key, value).commit_effect(
            before.history,
            done.history,
            before.clock.next,
            outcome,
            may_fail,
        ),
        done.clock == before.clock.allocate().complete(before.clock.next),
    ensures
        ({
            let tx = TxnView::fresh(before.clock.watermark, false).after_write(key, value);
            let begun = after(before, Step::Begin);
            match outcome {
                Ok(_) => {
                    &&& !tx.conflicts(before.history)
                    &&& possible(begun, Step::Commit { tx })
                    &&& done == after(begun, Step::Commit { tx })
                },
                Err(TxnError::Conflict { .. }) => {
                    &&& tx.conflicts(before.history)
                    &&& possible(begun, Step::Commit { tx })
                    &&& done == after(begun, Step::Commit { tx })
                },
                Err(_) => {
                    &&& may_fail
                    &&& possible(begun, Step::Refuse { tx })
                    &&& done == after(begun, Step::Refuse { tx })
                },
            }
        }),
{
    let tx = TxnView::fresh(before.clock.watermark, false).after_write(key, value);
    let begun = after(before, Step::Begin);
    assert(tx.writes.contains_key(key));
    assert(!tx.writes.is_empty());
    lemma_conflict_is_found(tx, before.history, done.history, before.clock.next, outcome, may_fail);
    let both = begun.clock.allocate().complete(begun.clock.next).release(tx.read_ts);
    assert(both.readers =~= before.clock.readers);
    assert(both =~= done.clock);
}

/// What holds of a database at all times: its clock and its history are well
/// formed, and no version is later than the last timestamp handed out.
pub open spec fn sound(db: DbView) -> bool {
    &&& db.clock.wf()
    &&& history::history_wf(db.history)
    &&& history::up_to(db.history, (db.clock.next - 1) as u64)
}

/// The state of a database after some operations.
pub open spec fn run(db: DbView, steps: Seq<Step>) -> DbView
    decreases steps.len(),
{
    if steps.len() == 0 {
        db
    } else {
        after(run(db, steps.drop_last()), steps.last())
    }
}

/// Each of the operations can happen when its turn comes.
pub open spec fn all_possible(db: DbView, steps: Seq<Step>) -> bool {
    forall|n: int|
        0 <= n < steps.len() ==> possible(#[trigger] run(db, steps.take(n)), steps[n])
}

/// An attempt to commit leaves the clock well formed.
proof fn lemma_attempt(clock: Clock)
    requires
        clock.wf(),
        clock.next < u64::MAX,
    ensures
        clock.allocate().wf(),
        clock.allocate().complete(clock.next).wf(),
{
    oracle::lemma_allocate(clock);
    assert(clock.allocate().outstanding(clock.next));
    oracle::lemma_complete(clock.allocate(), clock.next);
}

/// Installing writes at a timestamp not handed out before keeps a history whole.
proof fn lemma_install(history: History, writes: WriteSet, last: u64, ts: u64)
    requires
        history::history_wf(history),
        history::up_to(history, last),
        last < ts,
    ensures
        history::history_wf(history::install(history, writes, ts)),
        history::up_to(history::install(history, writes, ts), ts),
{
    let done = history::install(history, writes, ts);
    assert forall|key: Seq<u8>| #[trigger] done.contains_key(key) implies done[key].len() > 0
        && history::ascending(done[key]) by {
        assert(!history::changed_since(history, key, last));
        let chain = history::chain_of(history, key);
        if writes.contains_key(key) && history.contains_key(key) {
            assert forall|i: int| 0 <= i < chain.len() implies (#[trigger] chain[i]).commit_ts
                <= last by {}
        }
    }
    assert forall|key: Seq<u8>| !#[trigger] history::changed_since(done, key, ts) by {
        assert(!history::changed_since(history, key, last));
        let chain = history::chain_of(history, key);
        assert forall|i: int| 0 <= i < history::chain_of(done, key).len() implies (
        #[trigger] history::chain_of(done, key)[i]).commit_ts <= ts by {
            if i < chain.len() {
                assert(chain[i].commit_ts <= last);
            }
        }
    }
}

/// Every operation leaves a sound database sound.
pub proof fn law_operations_keep_soundness(db: DbView, step: Step)
    requires
        sound(db),
        possible(db, step),
    ensures
        sound(after(db, step)),
{
    let clock = db.clock;
    match step {
        Step::Begin => {
            oracle::lemma_register(clock);
        },
        Step::End { read_ts } => {
            oracle::lemma_release(clock, read_ts);
        },
        Step::Commit { tx } | Step::Prepare { tx } | Step::Refuse { tx } => {
            lemma_attempt(clock);
            oracle::lemma_release(clock.allocate().complete(clock.next), tx.read_ts);
            lemma_install(db.history, tx.writes, (clock.next - 1) as u64, clock.next);
            lemma_up_to_later(db.history, (clock.next - 1) as u64, clock.next);
        },
        Step::Finish { commit_ts, read_ts } => {
            oracle::lemma_complete(clock, commit_ts);
            oracle::lemma_release(clock.complete(commit_ts), read_ts);
        },
        Step::Collect { kept } => {
            let last = (clock.next - 1) as u64;
            assert(clock.readable(last));
            assert forall|key: Seq<u8>| !#[trigger] history::changed_since(kept, key, last) by {
                assert(!history::changed_since(db.history, key, last));
            }
        },
    }
}

proof fn lemma_up_to_later(history: History, early: u64, late: u64)
    requires
        history::up_to(history, early),
        early <= late,
    ensures
        history::up_to(history, late),
{
    assert forall|key: Seq<u8>| !#[trigger] history::changed_since(history, key, late) by {
        assert(!history::changed_since(history, key, early));
        let chain = history::chain_of(history, key);
        assert forall|i: int| 0 <= i < chain.len() implies (#[trigger] chain[i]).commit_ts
            <= late by {
            assert(chain[i].commit_ts <= early);
        }
    }
}

/// No operation changes what a live reader sees, of any key.
pub proof fn law_live_reader_is_undisturbed(db: DbView, step: Step, reader: u64, key: Seq<u8>)
    requires
        sound(db),
        possible(db, step),
        db.clock.reader_count(reader) > 0,
    ensures
        history::visible(after(db, step).history, key, reader) == history::visible(
            db.history,
            key,
            reader,
        ),
{
    match step {
        Step::Commit { tx } | Step::Prepare { tx } => {
            law_commit_is_atomic(db.history, tx.writes, db.clock.next, key, reader);
        },
        Step::Collect { .. } => {
            assert(db.clock.readers.contains_key(reader));
            assert(db.clock.readable(reader));
        },
        _ => {},
    }
}

/// A snapshot never changes: whatever transactions begin, commit, fail to commit
/// or end, in whatever order, and however often versions are reclaimed, a reader
/// sees the same value of every key for as long as it is live.
pub proof fn law_snapshot_never_changes(
    db: DbView,
    steps: Seq<Step>,
    reader: u64,
    key: Seq<u8>,
)
    requires
        sound(db),
        all_possible(db, steps),
        forall|n: int|
            0 <= n < steps.len() ==> (#[trigger] run(db, steps.take(n))).clock.reader_count(reader)
                > 0,
    ensures
        sound(run(db, steps)),
        history::visible(run(db, steps).history, key, reader) == history::visible(
            db.history,
            key,
            reader,
        ),
    decreases steps.len(),
{
    if steps.len() > 0 {
        let front = steps.drop_last();
        let n = front.len() as int;
        assert forall|m: int| 0 <= m < front.len() implies possible(
            #[trigger] run(db, front.take(m)),
            front[m],
        ) && run(db, front.take(m)).clock.reader_count(reader) > 0 by {
            assert(front.take(m) =~= steps.take(m));
            assert(possible(run(db, steps.take(m)), steps[m]));
        }
        law_snapshot_never_changes(db, front, reader, key);
        assert(steps.take(n) =~= front);
        assert(possible(run(db, steps.take(n)), steps[n]));
        law_operations_keep_soundness(run(db, front), steps.last());
        law_live_reader_is_undisturbed(run(db, front), steps.last(), reader, key);
    }
}

/// In a sound database with no unfinished commit, a reader that begins sees the
/// newest value of every key, and a transaction that begins and commits with
/// nothing in between never conflicts.
pub proof fn law_idle_database_shows_newest(db: DbView, key: Seq<u8>, tx: TxnView)
    requires
        sound(db),
        db.clock.watermark + 1 == db.clock.next,
        tx.read_ts == db.clock.watermark,
    ensures
        db.history.contains_key(key) ==> history::visible(db.history, key, db.clock.watermark)
            == db.history[key].last().value,
        !db.history.contains_key(key) ==> history::visible(db.history, key, db.clock.watermark)
            is None,
        !tx.conflicts(db.history),
{
    if db.history.contains_key(key) {
        law_latest_reader_sees_newest(db.history, key, db.clock.watermark);
    }
    law_uncontended_transaction_commits(db.history, tx);
}

/// Timestamps are handed out in order, whatever happens.
proof fn lemma_run_next(db: DbView, steps: Seq<Step>)
    requires
        sound(db),
        all_possible(db, steps),
    ensures
        sound(run(db, steps)),
        db.clock.next <= run(db, steps).clock.next,
    decreases steps.len(),
{
    if steps.len() > 0 {
        let front = steps.drop_last();
        let n = front.len() as int;
        lemma_all_possible_prefix(db, steps);
        lemma_run_next(db, front);
        assert(steps.take(n) =~= front);
        assert(possible(run(db, steps.take(n)), steps[n]));
        law_operations_keep_soundness(run(db, front), steps.last());
    }
}

proof fn lemma_all_possible_prefix(db: DbView, steps: Seq<Step>)
    requires
        steps.len() > 0,
        all_possible(db, steps),
    ensures
        all_possible(db, steps.drop_last()),
        possible(run(db, steps.drop_last()), steps.last()),
{
    let front = steps.drop_last();
    assert forall|m: int| 0 <= m < front.len() implies possible(
        #[trigger] run(db, front.take(m)),
        front[m],
    ) by {
        assert(front.take(m) =~= steps.take(m));
        assert(possible(run(db, steps.take(m)), steps[m]));
    }
    assert(steps.take(front.len() as int) =~= front);
    assert(possible(run(db, steps.take(front.len() as int)), steps[front.len() as int]));
}

/// Without collection, the past never changes: whatever happens later, a reader
/// before the timestamps still to come sees what one sees now.
pub proof fn law_past_never_changes(db: DbView, steps: Seq<Step>, key: Seq<u8>, ts: u64)
    requires
        sound(db),
        all_possible(db, steps),
        forall|n: int| 0 <= n < steps.len() ==> !(#[trigger] steps[n] is Collect),
        ts < db.clock.next,
    ensures
        history::visible(run(db, steps).history, key, ts) == history::visible(
            db.history,
            key,
            ts,
        ),
    decreases steps.len(),
{
    if steps.len() > 0 {
        let front = steps.drop_last();
        lemma_all_possible_prefix(db, steps);
        assert forall|n: int| 0 <= n < front.len() implies !(#[trigger] front[n] is Collect) by {
            assert(steps[n] == front[n]);
        }
        law_past_never_changes(db, front, key, ts);
        lemma_run_next(db, front);
        assert(!(steps[front.len() as int] is Collect));
        let before = run(db, front);
        match steps.last() {
            Step::Commit { tx } | Step::Prepare { tx } => {
                law_commit_is_atomic(before.history, tx.writes, before.clock.next, key, ts);
            },
            _ => {},
        }
    }
}

/// Serial equivalence: a transaction that commits read, of every key it depends
/// on, what the final history shows just before its commit timestamp. For
/// serializable transactions this is every key they read from their snapshot, so
/// running them one at a time in commit order gives every one of them the same
/// values. It is so whether the transaction was committed at once or prepared
/// and logged.
pub proof fn law_serial_equivalence(
    db: DbView,
    tx: TxnView,
    step: Step,
    later: Seq<Step>,
    key: Seq<u8>,
)
    requires
        sound(db),
        step == (Step::Commit { tx }) || step == (Step::Prepare { tx }),
        possible(db, step),
        !tx.conflicts(db.history),
        tx.touches(key),
        all_possible(after(db, step), later),
        forall|n: int| 0 <= n < later.len() ==> !(#[trigger] later[n] is Collect),
    ensures
        history::visible(
            run(after(db, step), later).history,
            key,
            (db.clock.next - 1) as u64,
        ) == history::visible(db.history, key, tx.read_ts),
{
    let just_before = (db.clock.next - 1) as u64;
    let committed = after(db, step);
    law_operations_keep_soundness(db, step);
    law_past_never_changes(committed, later, key, just_before);
    law_commit_is_atomic(db.history, tx.writes, db.clock.next, key, just_before);
    law_committed_reads_are_current(db.history, tx, key, just_before);
}

// ---------------------------------------------------------------------------
// Durability
// ---------------------------------------------------------------------------

/// The writes that an operation applies; `None` if it applies none.
pub open spec fn applied(db: DbView, step: Step) -> Option<WriteSet> {
    match step {
        Step::Commit { tx } | Step::Prepare { tx } => if tx.conflicts(db.history) {
            None
        } else {
            Some(tx.writes)
        },
        _ => None,
    }
}

/// `log` records the commits that the operations applied, in the order they were
/// applied.
pub open spec fn log_of(db: DbView, steps: Seq<Step>, log: Seq<RecordView>) -> bool
    decreases steps.len(),
{
    if steps.len() == 0 {
        log.len() == 0
    } else {
        let before = run(db, steps.drop_last());
        match applied(before, steps.last()) {
            Some(writes) => {
                &&& log.len() > 0
                &&& log.last().commit_ts == before.clock.next
                &&& history::lists(log.last().writes, writes)
                &&& log_of(db, steps.drop_last(), log.drop_last())
            },
            None => log_of(db, steps.drop_last(), log),
        }
    }
}

/// The database that a log recovers to.
pub open spec fn reopened(log: Seq<RecordView>) -> DbView {
    DbView { history: recovery::recovered(log), clock: Clock::at(recovery::highest(log)) }
}

/// An empty log recovers to an empty database.
pub proof fn law_empty_log_reopens_empty()
    ensures
        reopened(Seq::empty()) == (DbView { history: Map::empty(), clock: Clock::at(0) }),
{
    assert(recovery::recovered(Seq::empty()) =~= Map::empty());
}

/// A recovered database is sound.
pub proof fn law_reopened_database_is_sound(log: Seq<RecordView>)
    requires
        recovery::highest(log) < u64::MAX,
    ensures
        sound(reopened(log)),
{
    recovery::law_recovered_history_is_whole(log);
}

/// The commits of a log come in the order of their timestamps, all of them
/// handed out, after those of the log the database was recovered from.
proof fn lemma_log_of(earlier: Seq<RecordView>, steps: Seq<Step>, log: Seq<RecordView>)
    requires
        recovery::highest(earlier) < u64::MAX,
        all_possible(reopened(earlier), steps),
        log_of(reopened(earlier), steps, log),
    ensures
        sound(run(reopened(earlier), steps)),
        recovery::distinct(log),
        forall|i: int|
            0 <= i < log.len() ==> recovery::highest(earlier) < (#[trigger] log[i]).commit_ts
                < run(reopened(earlier), steps).clock.next,
    decreases steps.len(),
{
    let start = reopened(earlier);
    law_reopened_database_is_sound(earlier);
    lemma_run_next(start, steps);
    if steps.len() > 0 {
        let front = steps.drop_last();
        let before = run(start, front);
        lemma_all_possible_prefix(start, steps);
        lemma_run_next(start, front);
        match applied(before, steps.last()) {
            Some(_) => {
                let shorter = log.drop_last();
                lemma_log_of(earlier, front, shorter);
                assert forall|i: int, j: int| 0 <= i < j < log.len() implies (
                #[trigger] log[i]).commit_ts != (#[trigger] log[j]).commit_ts by {
                    assert(log[i] == shorter[i]);
                    if j < shorter.len() {
                        assert(log[j] == shorter[j]);
                    }
                }
                assert forall|i: int| 0 <= i < log.len() implies recovery::highest(earlier) < (
                #[trigger] log[i]).commit_ts < run(start, steps).clock.next by {
                    if i < shorter.len() {
                        assert(log[i] == shorter[i]);
                    }
                }
            },
            None => {
                lemma_log_of(earlier, front, log);
            },
        }
    }
}

/// A timestamp that is readable after an operation was readable before it.
proof fn lemma_readable_before(db: DbView, step: Step, ts: u64)
    requires
        sound(db),
        possible(db, step),
        after(db, step).clock.readable(ts),
    ensures
        db.clock.readable(ts),
{
    let now = after(db, step).clock;
    match step {
        Step::Commit { .. } | Step::Prepare { .. } | Step::Refuse { .. } => {
            lemma_attempt(db.clock);
            oracle::lemma_allocate(db.clock);
            assert(db.clock.allocate().outstanding(db.clock.next));
            oracle::lemma_complete(db.clock.allocate(), db.clock.next);
        },
        Step::Finish { commit_ts, .. } => {
            oracle::lemma_complete(db.clock, commit_ts);
        },
        _ => {},
    }
    if now.watermark > ts {
        let reader = choose|reader: u64| #[trigger]
            now.readers.contains_key(reader) && reader <= ts;
        assert(db.clock.readers.contains_key(reader) || reader == db.clock.watermark);
    }
}

/// `kept` is `log` without some of the commits later than `ts`.
pub open spec fn keeps_up_to(log: Seq<RecordView>, kept: Seq<RecordView>, ts: u64) -> bool
    decreases log.len(),
{
    if log.len() == 0 {
        kept.len() == 0
    } else {
        ||| {
            &&& kept.len() > 0
            &&& kept.last() == log.last()
            &&& keeps_up_to(log.drop_last(), kept.drop_last(), ts)
        }
        ||| {
            &&& log.last().commit_ts > ts
            &&& keeps_up_to(log.drop_last(), kept, ts)
        }
    }
}

/// What is kept of a log is as distinct as the log, and between the same bounds.
proof fn lemma_keeps_up_to(
    log: Seq<RecordView>,
    kept: Seq<RecordView>,
    ts: u64,
    low: u64,
    high: u64,
)
    requires
        keeps_up_to(log, kept, ts),
        recovery::distinct(log),
        forall|i: int| 0 <= i < log.len() ==> low < (#[trigger] log[i]).commit_ts < high,
    ensures
        recovery::distinct(kept),
        forall|i: int| 0 <= i < kept.len() ==> log.contains(#[trigger] kept[i]),
        forall|i: int| 0 <= i < kept.len() ==> low < (#[trigger] kept[i]).commit_ts < high,
    decreases log.len(),
{
    if log.len() > 0 {
        let front = log.drop_last();
        assert forall|i: int| 0 <= i < front.len() implies low < (
        #[trigger] front[i]).commit_ts < high by {
            assert(front[i] == log[i]);
        }
        assert forall|record: RecordView| #[trigger] front.contains(record) implies log.contains(
            record,
        ) by {
            let i = front.index_of(record);
            assert(log[i] == record);
        }
        if kept.len() > 0 && kept.last() == log.last() && keeps_up_to(
            front,
            kept.drop_last(),
            ts,
        ) {
            let rest = kept.drop_last();
            lemma_keeps_up_to(front, rest, ts, low, high);
            assert forall|i: int| 0 <= i < kept.len() implies log.contains(#[trigger] kept[i]) by {
                if i < rest.len() {
                    assert(kept[i] == rest[i]);
                } else {
                    assert(kept[i] == log[log.len() - 1]);
                }
            }
            assert forall|i: int| 0 <= i < kept.len() implies low < (
            #[trigger] kept[i]).commit_ts < high by {
                let j = log.index_of(kept[i]);
                assert(low < log[j].commit_ts < high);
            }
            assert forall|i: int, j: int| 0 <= i < j < kept.len() implies (
            #[trigger] kept[i]).commit_ts != (#[trigger] kept[j]).commit_ts by {
                assert(kept[i] == rest[i]);
                if j < rest.len() {
                    assert(kept[j] == rest[j]);
                } else {
                    let k = front.index_of(rest[i]);
                    assert(log[k] == front[k]);
                    assert(log[log.len() - 1] == kept[j]);
                }
            }
        } else {
            lemma_keeps_up_to(front, kept, ts, low, high);
        }
    }
}

/// A log and what was logged after it have timestamps of their own.
proof fn lemma_continued_log(earlier: Seq<RecordView>, kept: Seq<RecordView>)
    requires
        recovery::distinct(earlier),
        recovery::distinct(kept),
        forall|i: int|
            0 <= i < kept.len() ==> recovery::highest(earlier) < (#[trigger] kept[i]).commit_ts,
    ensures
        recovery::distinct(earlier + kept),
{
    let whole = earlier + kept;
    recovery::lemma_highest(earlier);
    assert forall|i: int, j: int| 0 <= i < j < whole.len() implies (
    #[trigger] whole[i]).commit_ts != (#[trigger] whole[j]).commit_ts by {
        let n = earlier.len() as int;
        if i < n {
            assert(whole[i] == earlier[i]);
        } else {
            assert(whole[i] == kept[i - n]);
        }
        if j < n {
            assert(whole[j] == earlier[j]);
        } else {
            assert(whole[j] == kept[j - n]);
        }
    }
}

/// Committed work survives a crash, and every crash after it. Take a database
/// that was recovered from a log, an empty one if it is new, and any operations
/// on it, and a log of the commits they made. Commits later than `ts` may be
/// missing from what was logged, as those are that had not been logged when the
/// crash came: an unfinished commit is later than the watermark. In whatever
/// order all of them were logged, recovery gives back every value that a reader
/// at `ts` could see, however much of the history had been collected. Nothing
/// that was not committed is recovered.
pub proof fn law_recovery_restores_the_database(
    earlier: Seq<RecordView>,
    steps: Seq<Step>,
    log: Seq<RecordView>,
    kept: Seq<RecordView>,
    shuffled: Seq<RecordView>,
    key: Seq<u8>,
    ts: u64,
)
    requires
        recovery::distinct(earlier),
        recovery::highest(earlier) < u64::MAX,
        all_possible(reopened(earlier), steps),
        log_of(reopened(earlier), steps, log),
        keeps_up_to(log, kept, ts),
        (earlier + kept).to_multiset() == shuffled.to_multiset(),
        run(reopened(earlier), steps).clock.readable(ts),
    ensures
        history::visible(recovery::recovered(shuffled), key, ts) == history::visible(
            run(reopened(earlier), steps).history,
            key,
            ts,
        ),
{
    lemma_log_of(earlier, steps, log);
    lemma_keeps_up_to(
        log,
        kept,
        ts,
        recovery::highest(earlier),
        run(reopened(earlier), steps).clock.next,
    );
    lemma_continued_log(earlier, kept);
    recovery::law_recovery_ignores_log_order(earlier + kept, shuffled);
    lemma_log_restores(earlier, steps, log, kept, key, ts);
}

/// Recovery from a log in the order of the commits.
proof fn lemma_log_restores(
    earlier: Seq<RecordView>,
    steps: Seq<Step>,
    log: Seq<RecordView>,
    kept: Seq<RecordView>,
    key: Seq<u8>,
    ts: u64,
)
    requires
        recovery::highest(earlier) < u64::MAX,
        all_possible(reopened(earlier), steps),
        log_of(reopened(earlier), steps, log),
        keeps_up_to(log, kept, ts),
        run(reopened(earlier), steps).clock.readable(ts),
    ensures
        history::visible(recovery::recovered(earlier + kept), key, ts) == history::visible(
            run(reopened(earlier), steps).history,
            key,
            ts,
        ),
    decreases steps.len(),
{
    let start = reopened(earlier);
    if steps.len() == 0 {
        assert(earlier + kept =~= earlier);
    } else {
        let front = steps.drop_last();
        let before = run(start, front);
        law_reopened_database_is_sound(earlier);
        lemma_all_possible_prefix(start, steps);
        lemma_run_next(start, front);
        lemma_readable_before(before, steps.last(), ts);
        match applied(before, steps.last()) {
            Some(writes) => {
                let shorter = log.drop_last();
                let record = log.last();
                lemma_log_of(earlier, front, shorter);
                law_commit_is_atomic(before.history, writes, before.clock.next, key, ts);
                if kept.len() > 0 && kept.last() == record && keeps_up_to(
                    shorter,
                    kept.drop_last(),
                    ts,
                ) {
                    let rest = kept.drop_last();
                    lemma_keeps_up_to(
                        shorter,
                        rest,
                        ts,
                        recovery::highest(earlier),
                        before.clock.next,
                    );
                    lemma_log_restores(earlier, front, shorter, rest, key, ts);
                    let logged = earlier + rest;
                    lemma_highest_of_continued(earlier, rest, before.clock.next);
                    assert(logged.push(record) =~= earlier + kept);
                    recovery::law_logged_commit_is_recovered(logged, record, writes);
                    law_commit_is_atomic(
                        recovery::recovered(logged),
                        writes,
                        before.clock.next,
                        key,
                        ts,
                    );
                } else {
                    lemma_log_restores(earlier, front, shorter, kept, key, ts);
                }
            },
            None => {
                lemma_log_restores(earlier, front, log, kept, key, ts);
            },
        }
    }
}

/// A bound on a log and on what was logged after it is one on both.
proof fn lemma_highest_of_continued(earlier: Seq<RecordView>, rest: Seq<RecordView>, bound: u64)
    requires
        recovery::highest(earlier) < bound,
        forall|i: int| 0 <= i < rest.len() ==> (#[trigger] rest[i]).commit_ts < bound,
    ensures
        recovery::highest(earlier + rest) < bound,
{
    let whole = earlier + rest;
    recovery::lemma_highest(earlier);
    recovery::lemma_highest(whole);
    if whole.len() > 0 {
        let i = choose|i: int|
            0 <= i < whole.len() && (#[trigger] whole[i]).commit_ts == recovery::highest(whole);
        if i < earlier.len() {
            assert(whole[i] == earlier[i]);
        } else {
            assert(whole[i] == rest[i - earlier.len()]);
        }
    }
}

// ---------------------------------------------------------------------------
// Beginning and committing
// ---------------------------------------------------------------------------

/// A transaction that begins reads as of the last commit: it has no writes of its
/// own, it sees every key as a read of the database does, and beginning changes
/// neither the last commit nor anything that is stored.
pub proof fn law_begin_reads_the_last_commit(db: DbView, serializable: bool, key: Seq<u8>)
    ensures
        TxnView::fresh(db.clock.watermark, serializable).writes.is_empty(),
        TxnView::fresh(db.clock.watermark, serializable).sees(db.history, key)
            == history::visible(db.history, key, db.clock.watermark),
        after(db, Step::Begin).clock.watermark == db.clock.watermark,
        after(db, Step::Begin).clock.next == db.clock.next,
        after(db, Step::Begin).history == db.history,
{
}

/// A commit that succeeds while no other is in flight is the last commit: its
/// timestamp is later than the snapshot and than every timestamp handed out
/// before. A reader that begins afterward sees what the transaction wrote last to
/// each key it wrote, and every other key as before; a reader that began earlier
/// sees what it saw.
pub proof fn law_commit_becomes_the_last(
    db: DbView,
    tx: TxnView,
    issued: u64,
    key: Seq<u8>,
    earlier: u64,
)
    requires
        sound(db),
        possible(db, Step::Commit { tx }),
        db.clock.watermark + 1 == db.clock.next,
        !tx.conflicts(db.history),
        issued <= db.clock.watermark || db.clock.outstanding(issued) || db.clock.ahead.contains(
            issued,
        ),
        earlier <= db.clock.watermark,
    ensures
        db.clock.next > tx.read_ts,
        db.clock.next > issued,
        after(db, Step::Commit { tx }).clock.watermark == db.clock.next,
        history::visible(after(db, Step::Commit { tx }).history, key, db.clock.next)
            == if tx.writes.contains_key(key) {
            tx.writes[key]
        } else {
            history::visible(db.history, key, db.clock.watermark)
        },
        history::visible(after(db, Step::Commit { tx }).history, key, earlier)
            == history::visible(db.history, key, earlier),
{
    law_attempt_does_not_stall_readers(db.clock);
    law_commit_is_atomic(db.history, tx.writes, db.clock.next, key, db.clock.next);
    law_commit_is_atomic(db.history, tx.writes, db.clock.next, key, earlier);
    if !tx.writes.contains_key(key) {
        let chain = history::chain_of(db.history, key);
        assert(!history::changed_since(db.history, key, db.clock.watermark));
        assert forall|i: int| 0 <= i < chain.len() implies (#[trigger] chain[i]).commit_ts
            <= db.clock.watermark by {}
        history::lemma_reached(chain, db.clock.watermark);
        history::lemma_reached(chain, db.clock.next);
    }
}

} // verus!
