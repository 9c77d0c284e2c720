//! What a program can rely on when it calls one operation after another.
//!
//! Each law speaks of calls that were made and of what they returned: of the keys
//! and values that went in and the bytes that came out.

use std::sync::Arc;

use vstd::arithmetic::power2::pow2;
use vstd::prelude::*;

use crate::bytes;
use crate::db;
use crate::db::Db;
use crate::durable;
use crate::durable::{RecordView, RecoveredCommit};
use crate::error::TxnError;
use crate::history;
use crate::history::WriteView;
use crate::laws;
use crate::meanings;
use crate::recovery;
use crate::store;
use crate::store::{MemoryStore, VersionStore, WriteEntry};
use crate::text;
use crate::timestamp::Timestamp;
use crate::txn;
use crate::txn::{AppliedCommit, Prepared, Snapshot, Transaction, TxnView};

verus! {

// ---------------------------------------------------------------------------
// What a transaction remembers
// ---------------------------------------------------------------------------

/// One thing that a transaction is asked for.
pub enum Deed {
    /// A write: `None` is a delete.
    Write { key: Seq<u8>, value: Option<Seq<u8>> },
    /// A read.
    Read { key: Seq<u8> },
}

/// `db` begins a transaction.
pub open spec fn begins<S: VersionStore>(
    db: &mut Db<S>,
    serializable: bool,
    tx: Transaction,
) -> bool {
    if serializable {
        call_ensures(Db::<S>::begin_serializable, (db,), tx)
    } else {
        call_ensures(Db::<S>::begin, (db,), tx)
    }
}

/// `tx` is asked for `deed`: a put, a delete, or a get from whatever the database
/// holds at that moment.
pub open spec fn asked<S: VersionStore>(tx: &mut Transaction, deed: Deed) -> bool {
    match deed {
        Deed::Write { key, value } => match value {
            Some(value) => exists|k: Vec<u8>, v: Vec<u8>|
                k@ == key && v@ == value && #[trigger] call_ensures(
                    Transaction::put,
                    (tx, k, v),
                    (),
                ),
            None => exists|k: Vec<u8>|
                k@ == key && #[trigger] call_ensures(Transaction::delete, (tx, k), ()),
        },
        Deed::Read { key } => exists|
            db: Db<S>,
            k: &[u8],
            answer: Result<Option<Arc<[u8]>>, TxnError>,
        |
            k@ == key && #[trigger] call_ensures(Transaction::get::<S>, (tx, &db, k), answer),
    }
}

/// The deed writes `key`.
pub open spec fn writes_key(deed: Deed, key: Seq<u8>) -> bool {
    deed matches Deed::Write { key: written, .. } && written == key
}

/// The deed reads `key`.
pub open spec fn reads_key(deed: Deed, key: Seq<u8>) -> bool {
    deed matches Deed::Read { key: read } && read == key
}

/// The deed makes a transaction depend on `key`: it writes the key, or it reads it
/// and the transaction is serializable.
pub open spec fn depends_on(deed: Deed, serializable: bool, key: Seq<u8>) -> bool {
    writes_key(deed, key) || (serializable && reads_key(deed, key))
}

/// What one deed makes of a transaction.
proof fn lemma_asked<S: VersionStore>(before: Transaction, after: Transaction, deed: Deed)
    requires
        exists|tx: &mut Transaction|
            *tx == before && *final(tx) == after && #[trigger] asked::<S>(tx, deed),
    ensures
        after@ == (match deed {
            Deed::Write { key, value } => before@.after_write(key, value),
            Deed::Read { key } => before@.after_read(key),
        }),
{
    let tx = choose|tx: &mut Transaction|
        *tx == before && *final(tx) == after && #[trigger] asked::<S>(tx, deed);
    assert(asked::<S>(tx, deed));
}

/// The states of a transaction that starts fresh and is asked for `deeds`.
spec fn played(states: Seq<TxnView>, deeds: Seq<Deed>, read_ts: u64, serializable: bool) -> bool {
    &&& states.len() == deeds.len() + 1
    &&& states[0] == TxnView::fresh(read_ts, serializable)
    &&& forall|i: int|
        #![trigger deeds[i]]
        0 <= i < deeds.len() ==> states[i + 1] == (match deeds[i] {
            Deed::Write { key, value } => states[i].after_write(key, value),
            Deed::Read { key } => states[i].after_read(key),
        })
}

proof fn lemma_played_prefix(
    states: Seq<TxnView>,
    deeds: Seq<Deed>,
    read_ts: u64,
    serializable: bool,
)
    requires
        played(states, deeds, read_ts, serializable),
        deeds.len() > 0,
    ensures
        played(states.drop_last(), deeds.drop_last(), read_ts, serializable),
        states.last() == (match deeds.last() {
            Deed::Write { key, value } => states.drop_last().last().after_write(key, value),
            Deed::Read { key } => states.drop_last().last().after_read(key),
        }),
{
    let fewer = deeds.drop_last();
    let prior = states.drop_last();
    assert forall|i: int|
        #![trigger fewer[i]]
        0 <= i < fewer.len() implies prior[i + 1] == (match fewer[i] {
        Deed::Write { key, value } => prior[i].after_write(key, value),
        Deed::Read { key } => prior[i].after_read(key),
    }) by {
        assert(fewer[i] == deeds[i]);
    }
    let n = deeds.len() - 1;
    assert(deeds[n] == deeds.last());
    assert(states[n + 1] == states.last());
    assert(prior.last() == states[n]);
}

proof fn lemma_deeds_written(
    states: Seq<TxnView>,
    deeds: Seq<Deed>,
    read_ts: u64,
    serializable: bool,
    key: Seq<u8>,
)
    requires
        played(states, deeds, read_ts, serializable),
    ensures
        states.last().read_ts == read_ts,
        states.last().serializable == serializable,
        states.last().writes.contains_key(key) <==> exists|i: int|
            0 <= i < deeds.len() && writes_key(#[trigger] deeds[i], key),
    decreases deeds.len(),
{
    if deeds.len() > 0 {
        let fewer = deeds.drop_last();
        let n = fewer.len() as int;
        lemma_played_prefix(states, deeds, read_ts, serializable);
        lemma_deeds_written(states.drop_last(), fewer, read_ts, serializable, key);
        if exists|i: int| 0 <= i < fewer.len() && writes_key(#[trigger] fewer[i], key) {
            let i = choose|i: int| 0 <= i < fewer.len() && writes_key(#[trigger] fewer[i], key);
            assert(writes_key(deeds[i], key));
        }
        if exists|i: int| 0 <= i < deeds.len() && writes_key(#[trigger] deeds[i], key) {
            let i = choose|i: int| 0 <= i < deeds.len() && writes_key(#[trigger] deeds[i], key);
            if i < n {
                assert(writes_key(fewer[i], key));
            }
        }
        if writes_key(deeds.last(), key) {
            assert(writes_key(deeds[n], key));
        }
    }
}

proof fn lemma_deeds_read(
    states: Seq<TxnView>,
    deeds: Seq<Deed>,
    read_ts: u64,
    serializable: bool,
    key: Seq<u8>,
)
    requires
        played(states, deeds, read_ts, serializable),
    ensures
        states.last().reads.contains(key) <==> serializable && exists|i: int|
            #![trigger deeds[i]]
            {
                &&& 0 <= i < deeds.len()
                &&& reads_key(deeds[i], key)
                &&& forall|j: int| 0 <= j < i ==> !writes_key(#[trigger] deeds[j], key)
            },
    decreases deeds.len(),
{
    if deeds.len() > 0 {
        let fewer = deeds.drop_last();
        let prior = states.drop_last();
        let n = fewer.len() as int;
        lemma_played_prefix(states, deeds, read_ts, serializable);
        lemma_deeds_read(prior, fewer, read_ts, serializable, key);
        lemma_deeds_written(prior, fewer, read_ts, serializable, key);
        assert(deeds[n] == deeds.last());
        assert(forall|j: int| 0 <= j < n ==> #[trigger] fewer[j] == deeds[j]);
        assert(forall|j: int| 0 <= j < n ==> #[trigger] deeds[j] == fewer[j]);
        if prior.last().reads.contains(key) {
            let i = choose|i: int|
                #![trigger fewer[i]]
                {
                    &&& 0 <= i < fewer.len()
                    &&& reads_key(fewer[i], key)
                    &&& forall|j: int| 0 <= j < i ==> !writes_key(#[trigger] fewer[j], key)
                };
            assert(reads_key(deeds[i], key));
            assert forall|j: int| 0 <= j < i implies !writes_key(#[trigger] deeds[j], key) by {
                assert(!writes_key(fewer[j], key));
            }
        } else if states.last().reads.contains(key) {
            assert(reads_key(deeds[n], key));
            assert forall|j: int| 0 <= j < n implies !writes_key(#[trigger] deeds[j], key) by {
                assert(!writes_key(fewer[j], key));
            }
        }
        if serializable && exists|i: int|
            #![trigger deeds[i]]
            {
                &&& 0 <= i < deeds.len()
                &&& reads_key(deeds[i], key)
                &&& forall|j: int| 0 <= j < i ==> !writes_key(#[trigger] deeds[j], key)
            } {
            let i = choose|i: int|
                #![trigger deeds[i]]
                {
                    &&& 0 <= i < deeds.len()
                    &&& reads_key(deeds[i], key)
                    &&& forall|j: int| 0 <= j < i ==> !writes_key(#[trigger] deeds[j], key)
                };
            if i < n {
                assert(reads_key(fewer[i], key));
                assert forall|j: int| 0 <= j < i implies !writes_key(#[trigger] fewer[j], key) by {
                    assert(!writes_key(deeds[j], key));
                }
                assert(prior.last().reads.contains(key));
            } else {
                assert forall|j: int| 0 <= j < n implies !writes_key(#[trigger] fewer[j], key) by {
                    assert(!writes_key(deeds[j], key));
                }
                assert(!prior.last().writes.contains_key(key));
                assert(prior.last().serializable);
            }
        }
    }
}

proof fn lemma_deeds_last(
    states: Seq<TxnView>,
    deeds: Seq<Deed>,
    read_ts: u64,
    serializable: bool,
    key: Seq<u8>,
    at: int,
)
    requires
        played(states, deeds, read_ts, serializable),
        0 <= at < deeds.len(),
        writes_key(deeds[at], key),
        forall|j: int| at < j < deeds.len() ==> !writes_key(#[trigger] deeds[j], key),
    ensures
        states.last().writes[key] == deeds[at]->value,
    decreases deeds.len(),
{
    let fewer = deeds.drop_last();
    let prior = states.drop_last();
    let n = fewer.len() as int;
    lemma_played_prefix(states, deeds, read_ts, serializable);
    assert(deeds[n] == deeds.last());
    if at < n {
        assert(!writes_key(deeds[n], key));
        assert(fewer[at] == deeds[at]);
        assert forall|j: int| at < j < fewer.len() implies !writes_key(
            #[trigger] fewer[j],
            key,
        ) by {
            assert(fewer[j] == deeds[j]);
        }
        lemma_deeds_last(prior, fewer, read_ts, serializable, key, at);
    }
}

proof fn lemma_remembers(
    states: Seq<TxnView>,
    deeds: Seq<Deed>,
    ts: u64,
    serializable: bool,
    key: Seq<u8>,
)
    requires
        played(states, deeds, ts, serializable),
    ensures
        states.last().read_ts == ts,
        states.last().serializable == serializable,
        states.last().writes.contains_key(key) <==> exists|i: int|
            0 <= i < deeds.len() && writes_key(#[trigger] deeds[i], key),
        forall|i: int|
            #![trigger deeds[i]]
            {
                &&& 0 <= i < deeds.len()
                &&& writes_key(deeds[i], key)
                &&& forall|j: int| i < j < deeds.len() ==> !writes_key(#[trigger] deeds[j], key)
            } ==> states.last().writes[key] == deeds[i]->value,
        states.last().reads.contains(key) <==> serializable && exists|i: int|
            #![trigger deeds[i]]
            {
                &&& 0 <= i < deeds.len()
                &&& reads_key(deeds[i], key)
                &&& forall|j: int| 0 <= j < i ==> !writes_key(#[trigger] deeds[j], key)
            },
        states.last().touches(key) <==> exists|i: int|
            0 <= i < deeds.len() && depends_on(#[trigger] deeds[i], serializable, key),
{
    lemma_deeds_written(states, deeds, ts, serializable, key);
    lemma_deeds_read(states, deeds, ts, serializable, key);
    assert forall|i: int|
        #![trigger deeds[i]]
        {
            &&& 0 <= i < deeds.len()
            &&& writes_key(deeds[i], key)
            &&& forall|j: int| i < j < deeds.len() ==> !writes_key(#[trigger] deeds[j], key)
        } implies states.last().writes[key] == deeds[i]->value by {
        lemma_deeds_last(states, deeds, ts, serializable, key, i);
    }
    if states.last().writes.contains_key(key) {
        let i = choose|i: int| 0 <= i < deeds.len() && writes_key(#[trigger] deeds[i], key);
        assert(depends_on(deeds[i], serializable, key));
    } else if states.last().reads.contains(key) {
        let i = choose|i: int|
            #![trigger deeds[i]]
            {
                &&& 0 <= i < deeds.len()
                &&& reads_key(deeds[i], key)
                &&& forall|j: int| 0 <= j < i ==> !writes_key(#[trigger] deeds[j], key)
            };
        assert(depends_on(deeds[i], serializable, key));
    }
    if exists|i: int| 0 <= i < deeds.len() && depends_on(#[trigger] deeds[i], serializable, key) {
        let i = choose|i: int|
            0 <= i < deeds.len() && depends_on(#[trigger] deeds[i], serializable, key);
        if !states.last().writes.contains_key(key) {
            assert(reads_key(deeds[i], key));
            assert forall|j: int| 0 <= j < i implies !writes_key(#[trigger] deeds[j], key) by {}
        }
    }
}

/// From its beginning on, whatever it is asked for, a transaction holds exactly
/// the keys that it was asked to write, each with the value given last, and, if it
/// is serializable, exactly the keys it was asked to read before it wrote them. So
/// it depends on a key exactly if it was asked to write it, or is serializable and
/// was asked to read it. Nothing it was asked for is forgotten.
pub proof fn law_transaction_remembers_what_it_was_asked<S: VersionStore>(
    before: Db<S>,
    after: Db<S>,
    serializable: bool,
    txs: Seq<Transaction>,
    deeds: Seq<Deed>,
    key: Seq<u8>,
)
    requires
        txs.len() == deeds.len() + 1,
        exists|db: &mut Db<S>|
            *db == before && *final(db) == after && #[trigger] begins(db, serializable, txs[0]),
        forall|i: int|
            #![trigger deeds[i]]
            0 <= i < deeds.len() ==> exists|tx: &mut Transaction|
                *tx == txs[i] && *final(tx) == txs[i + 1] && #[trigger] asked::<S>(tx, deeds[i]),
    ensures
        txs.last()@.read_ts == before@.clock.watermark,
        txs.last()@.serializable == serializable,
        txs.last()@.writes.contains_key(key) <==> exists|i: int|
            0 <= i < deeds.len() && writes_key(#[trigger] deeds[i], key),
        forall|i: int|
            #![trigger deeds[i]]
            {
                &&& 0 <= i < deeds.len()
                &&& writes_key(deeds[i], key)
                &&& forall|j: int| i < j < deeds.len() ==> !writes_key(#[trigger] deeds[j], key)
            } ==> txs.last()@.writes[key] == deeds[i]->value,
        txs.last()@.reads.contains(key) <==> serializable && exists|i: int|
            #![trigger deeds[i]]
            {
                &&& 0 <= i < deeds.len()
                &&& reads_key(deeds[i], key)
                &&& forall|j: int| 0 <= j < i ==> !writes_key(#[trigger] deeds[j], key)
            },
        txs.last()@.touches(key) <==> exists|i: int|
            0 <= i < deeds.len() && depends_on(#[trigger] deeds[i], serializable, key),
{
    let states = Seq::new(txs.len(), |i: int| txs[i]@);
    assert forall|i: int|
        #![trigger deeds[i]]
        0 <= i < deeds.len() implies states[i + 1] == (match deeds[i] {
        Deed::Write { key, value } => states[i].after_write(key, value),
        Deed::Read { key } => states[i].after_read(key),
    }) by {
        lemma_asked::<S>(txs[i], txs[i + 1], deeds[i]);
    }
    lemma_remembers(states, deeds, before@.clock.watermark, serializable, key);
    assert(states.last() == txs.last()@);
}

/// What a commit depends on. Over a store that never fails, a transaction that was
/// asked to write anything commits exactly if no key that it was asked to write,
/// or, being serializable, to read, has a version later than its snapshot; any
/// other key may have changed. If it does not commit, it conflicts, and the error
/// carries the length of such a key.
pub proof fn law_commit_depends_on_what_was_asked<S: VersionStore>(
    start: Db<S>,
    begun: Db<S>,
    serializable: bool,
    txs: Seq<Transaction>,
    deeds: Seq<Deed>,
    before: Db<S>,
    after: Db<S>,
    outcome: Result<Timestamp, TxnError>,
)
    requires
        !S::may_fail(),
        txs.len() == deeds.len() + 1,
        exists|db: &mut Db<S>|
            *db == start && *final(db) == begun && #[trigger] begins(db, serializable, txs[0]),
        forall|i: int|
            #![trigger deeds[i]]
            0 <= i < deeds.len() ==> exists|tx: &mut Transaction|
                *tx == txs[i] && *final(tx) == txs[i + 1] && #[trigger] asked::<S>(tx, deeds[i]),
        exists|db: &mut Db<S>|
            *db == before && *final(db) == after && #[trigger] call_ensures(
                Transaction::commit::<S>,
                (txs.last(), db),
                outcome,
            ),
        exists|i: int| 0 <= i < deeds.len() && (#[trigger] deeds[i]) is Write,
    ensures
        outcome is Ok <==> forall|i: int, key: Seq<u8>, version: int|
            {
                &&& 0 <= i < deeds.len()
                &&& #[trigger] depends_on(deeds[i], serializable, key)
                &&& before@.history.contains_key(key)
                &&& 0 <= version < before@.history[key].len()
            } ==> (#[trigger] before@.history[key][version]).commit_ts <= start@.clock.watermark,
        outcome matches Err(e) ==> {
            &&& e is Conflict
            &&& exists|i: int, key: Seq<u8>, version: int|
                {
                    &&& 0 <= i < deeds.len()
                    &&& #[trigger] depends_on(deeds[i], serializable, key)
                    &&& before@.history.contains_key(key)
                    &&& 0 <= version < before@.history[key].len()
                    &&& (#[trigger] before@.history[key][version]).commit_ts
                        > start@.clock.watermark
                    &&& e->key_len == key.len()
                }
        },
{
    let tx = txs.last()@;
    let history = before@.history;
    let states = Seq::new(txs.len(), |i: int| txs[i]@);
    assert forall|i: int|
        #![trigger deeds[i]]
        0 <= i < deeds.len() implies states[i + 1] == (match deeds[i] {
        Deed::Write { key, value } => states[i].after_write(key, value),
        Deed::Read { key } => states[i].after_read(key),
    }) by {
        lemma_asked::<S>(txs[i], txs[i + 1], deeds[i]);
    }
    let ts = start@.clock.watermark;
    assert(states.last() == tx);
    let w = choose|i: int| 0 <= i < deeds.len() && (#[trigger] deeds[i]) is Write;
    let written = deeds[w]->Write_key;
    assert(writes_key(deeds[w], written));
    lemma_remembers(states, deeds, ts, serializable, written);
    assert(tx.writes.contains_key(written));
    assert(!tx.writes.is_empty());
    match outcome {
        Ok(_) => {
            assert(!tx.conflicts(history));
            assert forall|i: int, key: Seq<u8>, version: int|
                {
                    &&& 0 <= i < deeds.len()
                    &&& #[trigger] depends_on(deeds[i], serializable, key)
                    &&& history.contains_key(key)
                    &&& 0 <= version < history[key].len()
                } implies (#[trigger] history[key][version]).commit_ts
                <= start@.clock.watermark by {
                lemma_remembers(states, deeds, ts, serializable, key);
                assert(tx.touches(key));
                meanings::law_changed_means_a_later_version(history, key, tx.read_ts);
            }
        },
        Err(e) => {
            assert(e is Conflict);
            let key_len = e->key_len;
            let key = choose|key: Seq<u8>| #[trigger]
                tx.touches(key) && history::changed_since(history, key, tx.read_ts) && key_len
                    == key.len();
            meanings::law_changed_means_a_later_version(history, key, tx.read_ts);
            lemma_remembers(states, deeds, ts, serializable, key);
            let version = choose|i: int|
                0 <= i < history[key].len() && (#[trigger] history[key][i]).commit_ts > tx.read_ts;
            let i = choose|i: int|
                0 <= i < deeds.len() && depends_on(#[trigger] deeds[i], serializable, key);
            assert(history[key][version].commit_ts > start@.clock.watermark);
            assert(depends_on(deeds[i], serializable, key));
        },
    }
}

// ---------------------------------------------------------------------------
// Commits
// ---------------------------------------------------------------------------

/// Transactions that share no key do not hinder each other: if `second` could
/// commit, and neither wrote nor, being serializable, read any key that `first`
/// writes, it can still commit once `first` has.
pub proof fn law_disjoint_commits_both_succeed<S: VersionStore>(
    first: Transaction,
    second: Transaction,
    before: Db<S>,
    alone: Db<S>,
    alone_outcome: Result<Timestamp, TxnError>,
    between: Db<S>,
    first_outcome: Result<Timestamp, TxnError>,
    after: Db<S>,
    outcome: Result<Timestamp, TxnError>,
)
    requires
        !S::may_fail(),
        forall|key: Seq<u8>| #[trigger]
            second@.writes.contains_key(key) ==> !first@.writes.contains_key(key),
        forall|key: Seq<u8>| #[trigger]
            second@.reads.contains(key) ==> !first@.writes.contains_key(key),
        exists|db: &mut Db<S>|
            *db == before && *final(db) == alone && #[trigger] call_ensures(
                Transaction::commit::<S>,
                (second, db),
                alone_outcome,
            ),
        alone_outcome is Ok,
        exists|db: &mut Db<S>|
            *db == before && *final(db) == between && #[trigger] call_ensures(
                Transaction::commit::<S>,
                (first, db),
                first_outcome,
            ),
        exists|db: &mut Db<S>|
            *db == between && *final(db) == after && #[trigger] call_ensures(
                Transaction::commit::<S>,
                (second, db),
                outcome,
            ),
    ensures
        outcome is Ok,
{
    if !second@.writes.is_empty() {
        laws::law_conflicts_decide_commits(
            second@,
            before@.history,
            alone@.history,
            before@.clock.next,
            txn::plain(alone_outcome),
        );
        laws::law_conflicts_decide_commits(
            second@,
            between@.history,
            after@.history,
            between@.clock.next,
            txn::plain(outcome),
        );
        if !first@.writes.is_empty() {
            laws::law_disjoint_transactions_do_not_conflict(
                before@.history,
                first@,
                second@,
                before@.clock.next,
            );
        }
    }
}

/// The first committer wins: once `first` has committed a write to a key, every
/// transaction with writes that began before and wrote the key, or being
/// serializable read it, is turned away with a conflict, and changes nothing.
pub proof fn law_overlapping_commit_is_rejected<S: VersionStore>(
    first: Transaction,
    second: Transaction,
    before: Db<S>,
    between: Db<S>,
    first_outcome: Result<Timestamp, TxnError>,
    after: Db<S>,
    outcome: Result<Timestamp, TxnError>,
    key: Seq<u8>,
)
    requires
        !S::may_fail(),
        second@.read_ts < before@.clock.next,
        first@.writes.contains_key(key),
        second@.writes.contains_key(key) || second@.reads.contains(key),
        !second@.writes.is_empty(),
        exists|db: &mut Db<S>|
            *db == before && *final(db) == between && #[trigger] call_ensures(
                Transaction::commit::<S>,
                (first, db),
                first_outcome,
            ),
        first_outcome is Ok,
        exists|db: &mut Db<S>|
            *db == between && *final(db) == after && #[trigger] call_ensures(
                Transaction::commit::<S>,
                (second, db),
                outcome,
            ),
    ensures
        outcome matches Err(e) && e is Conflict,
        after@.history == between@.history,
{
    assert(!first@.writes.is_empty());
    laws::law_first_committer_wins(
        before@.history,
        first@,
        second@,
        before@.clock.next,
        key,
    );
    laws::law_conflicts_decide_commits(
        second@,
        between@.history,
        after@.history,
        between@.clock.next,
        txn::plain(outcome),
    );
}

/// What was committed is read back: after a commit at `ts`, a snapshot at or after
/// `ts` reads of a written key the very bytes that were written, or that it was
/// deleted; of any other key, and before `ts` of every key, it reads what it read
/// before the commit.
pub proof fn law_committed_bytes_are_read_back<S: VersionStore>(
    tx: Transaction,
    before: Db<S>,
    after: Db<S>,
    ts: Timestamp,
    snapshot: Snapshot,
    key: &[u8],
    earlier: Option<Arc<[u8]>>,
    value: Option<Arc<[u8]>>,
)
    requires
        exists|db: &mut Db<S>|
            *db == before && *final(db) == after && #[trigger] call_ensures(
                Transaction::commit::<S>,
                (tx, db),
                Ok(ts),
            ),
        call_ensures(Snapshot::get::<S>, (&snapshot, &before, key), Ok(earlier)),
        call_ensures(Snapshot::get::<S>, (&snapshot, &after, key), Ok(value)),
    ensures
        tx@.writes.contains_key(key@) && ts@ <= snapshot.read_at() ==> match tx@.writes[key@] {
            Some(written) => value matches Some(v) && (*v)@ == written,
            None => value is None,
        },
        !tx@.writes.contains_key(key@) || (snapshot.read_at() < ts@) ==> match earlier {
            Some(shown) => value matches Some(v) && (*v)@ == (*shown)@,
            None => value is None,
        },
{
    if tx@.writes.is_empty() {
        assert(!tx@.writes.contains_key(key@));
    } else {
        laws::law_commit_is_atomic(before@.history, tx@.writes, ts@, key@, snapshot.read_at());
    }
}

/// A single put is read back: once it has succeeded at `ts`, a snapshot at or
/// after `ts` reads the bytes that were put.
pub proof fn law_put_bytes_are_read_back<S: VersionStore>(
    before: Db<S>,
    after: Db<S>,
    key: Vec<u8>,
    value: Vec<u8>,
    ts: Timestamp,
    snapshot: Snapshot,
    asked: &[u8],
    shown: Option<Arc<[u8]>>,
)
    requires
        exists|db: &mut Db<S>|
            *db == before && *final(db) == after && #[trigger] call_ensures(
                Db::<S>::try_put,
                (db, key, value),
                Ok(ts),
            ),
        asked@ == key@,
        ts@ <= snapshot.read_at(),
        call_ensures(Snapshot::get::<S>, (&snapshot, &after, asked), Ok(shown)),
    ensures
        shown matches Some(v) && (*v)@ == value@,
{
    let writes = Map::empty().insert(key@, Some(value@));
    laws::law_commit_is_atomic(before@.history, writes, ts@, key@, snapshot.read_at());
}

/// A single delete is seen: once it has succeeded at `ts`, a snapshot at or after
/// `ts` reads nothing.
pub proof fn law_deleted_key_reads_as_absent<S: VersionStore>(
    before: Db<S>,
    after: Db<S>,
    key: Vec<u8>,
    ts: Timestamp,
    snapshot: Snapshot,
    asked: &[u8],
    shown: Option<Arc<[u8]>>,
)
    requires
        exists|db: &mut Db<S>|
            *db == before && *final(db) == after && #[trigger] call_ensures(
                Db::<S>::try_delete,
                (db, key),
                Ok(ts),
            ),
        asked@ == key@,
        ts@ <= snapshot.read_at(),
        call_ensures(Snapshot::get::<S>, (&snapshot, &after, asked), Ok(shown)),
    ensures
        shown is None,
{
    let writes = Map::empty().insert(key@, None);
    laws::law_commit_is_atomic(before@.history, writes, ts@, key@, snapshot.read_at());
}

/// A single write touches one key: it succeeds exactly if that key, whatever
/// others do, has no version that is not visible yet, and leaves every other key
/// as it was.
pub proof fn law_single_write_depends_on_its_key<S: VersionStore>(
    before: Db<S>,
    after: Db<S>,
    key: Vec<u8>,
    value: Vec<u8>,
    outcome: Result<Timestamp, TxnError>,
    other: Seq<u8>,
)
    requires
        !S::may_fail(),
        exists|db: &mut Db<S>|
            *db == before && *final(db) == after && (#[trigger] call_ensures(
                Db::<S>::try_put,
                (db, key, value),
                outcome,
            ) || call_ensures(Db::<S>::try_delete, (db, key), outcome)),
    ensures
        outcome is Ok <==> !(before@.history.contains_key(key@) && exists|i: int|
            0 <= i < before@.history[key@].len() && (#[trigger] before@.history[key@][i]).commit_ts
                > before@.clock.watermark),
        outcome matches Err(e) ==> e == (TxnError::Conflict { key_len: key@.len() as usize }),
        outcome is Err ==> after@.history == before@.history,
        other != key@ ==> {
            &&& after@.history.contains_key(other) == before@.history.contains_key(other)
            &&& before@.history.contains_key(other) ==> after@.history[other]
                == before@.history[other]
        },
{
    let db = choose|db: &mut Db<S>|
        *db == before && *final(db) == after && (#[trigger] call_ensures(
            Db::<S>::try_put,
            (db, key, value),
            outcome,
        ) || call_ensures(Db::<S>::try_delete, (db, key), outcome));
    let fresh = TxnView::fresh(before@.clock.watermark, false);
    let tx = if call_ensures(Db::<S>::try_put, (db, key, value), outcome) {
        fresh.after_write(key@, Some(value@))
    } else {
        fresh.after_write(key@, None)
    };
    assert forall|k: Seq<u8>| tx.touches(k) <==> k == key@ by {}
    laws::law_conflicts_decide_commits(
        tx,
        before@.history,
        after@.history,
        before@.clock.next,
        txn::plain(outcome),
    );
    meanings::law_changed_means_a_later_version(before@.history, key@, before@.clock.watermark);
    if history::changed_since(before@.history, key@, before@.clock.watermark) {
        assert(tx.touches(key@));
        assert(tx.conflicts(before@.history));
    }
}

/// Committing in two steps is committing: over a store that never fails, preparing
/// a transaction and finishing it once its record is logged leaves the database as
/// a commit does, and returns the same timestamp. What `prepare` alone rejects,
/// `commit` rejects too.
pub proof fn law_prepare_and_finish_is_commit<S: VersionStore>(
    tx: Transaction,
    before: Db<S>,
    committed: Db<S>,
    outcome: Result<Timestamp, TxnError>,
    between: Db<S>,
    prepared: Prepared,
    after: Db<S>,
    finished: Result<Timestamp, TxnError>,
)
    requires
        !S::may_fail(),
        exists|db: &mut Db<S>|
            *db == before && *final(db) == committed && #[trigger] call_ensures(
                Transaction::commit::<S>,
                (tx, db),
                outcome,
            ),
        exists|db: &mut Db<S>|
            *db == before && *final(db) == between && #[trigger] call_ensures(
                Transaction::prepare::<S>,
                (tx, db),
                prepared,
            ),
        prepared matches Prepared::Applied(applied) ==> exists|db: &mut Db<S>|
            *db == between && *final(db) == after && #[trigger] call_ensures(
                Db::<S>::finish,
                (db, applied, Ok(())),
                finished,
            ),
        prepared matches Prepared::Finished(result) ==> after == between && finished == result,
    ensures
        after@ == committed@,
        outcome is Ok <==> finished is Ok,
        outcome matches Ok(ts) ==> finished->Ok_0@ == ts@,
        outcome matches Err(e) ==> e is Conflict && finished->Err_0 is Conflict,
{
    if !tx@.writes.is_empty() {
        laws::law_conflicts_decide_commits(
            tx@,
            before@.history,
            committed@.history,
            before@.clock.next,
            txn::plain(outcome),
        );
        laws::law_conflicts_decide_commits(
            tx@,
            before@.history,
            between@.history,
            before@.clock.next,
            prepared.outcome(),
        );
    }
}

// ---------------------------------------------------------------------------
// The log
// ---------------------------------------------------------------------------

/// A list of a write set is as long as the set.
proof fn lemma_listed_length(listed: Seq<WriteView>, writes: history::WriteSet)
    requires
        history::lists(listed, writes),
    ensures
        writes.dom().finite(),
        writes.dom().len() == listed.len(),
{
    broadcast use vstd::seq_lib::seq_to_set_is_finite;

    let keys = history::written_keys(listed);
    assert(writes.dom() =~= keys.to_set()) by {
        assert forall|key: Seq<u8>| writes.dom().contains(key) <==> keys.to_set().contains(
            key,
        ) by {
            assert(writes.contains_key(key) <==> keys.contains(key));
        }
    }
    keys.unique_seq_to_set();
}

/// The whole commit is logged. The record of a prepared commit reads back as a
/// commit at its timestamp that lists every write of the transaction, each once
/// with its value, and nothing else, provided that the lengths fit the format:
/// the number of writes, and the length of each key and value, are 32-bit numbers.
pub proof fn law_prepared_record_is_the_whole_commit<S: VersionStore>(
    tx: Transaction,
    before: Db<S>,
    after: Db<S>,
    applied: AppliedCommit,
    bytes: &[u8],
    commit: Result<RecoveredCommit, TxnError>,
)
    requires
        exists|db: &mut Db<S>|
            *db == before && *final(db) == after && #[trigger] call_ensures(
                Transaction::prepare::<S>,
                (tx, db),
                Prepared::Applied(applied),
            ),
        tx@.writes.dom().len() <= u32::MAX,
        forall|key: Seq<u8>| #[trigger]
            tx@.writes.contains_key(key) ==> key.len() <= u32::MAX && (
            tx@.writes[key] matches Some(value) ==> value.len() <= u32::MAX),
        call_ensures(AppliedCommit::record, (&applied,), bytes),
        call_ensures(durable::decode_commit, (bytes,), commit),
    ensures
        durable::parse_record(applied.logged()) matches Ok(record) && record.commit_ts
            == applied.committed_at() && history::lists(record.writes, tx@.writes),
        applied.committed_at() == before@.clock.next,
        commit is Ok,
        commit->Ok_0.commit_ts@ == before@.clock.next,
        commit->Ok_0.writes@.len() == tx@.writes.dom().len(),
        forall|key: Seq<u8>| #[trigger]
            tx@.writes.contains_key(key) ==> exists|i: int|
                {
                    &&& 0 <= i < commit->Ok_0.writes@.len()
                    &&& (*(#[trigger] commit->Ok_0.writes@[i]).0)@ == key
                    &&& bytes::value_of(commit->Ok_0.writes@[i].1) == tx@.writes[key]
                },
{
    let writes = tx@.writes;
    let listed = choose|listed: Seq<WriteView>| #[trigger]
        history::lists(listed, writes) && applied.logged() == durable::record_bytes(
            RecordView { commit_ts: applied.committed_at(), writes: listed },
        );
    let record = RecordView { commit_ts: applied.committed_at(), writes: listed };
    lemma_listed_length(listed, writes);
    meanings::law_lists_means_each_write_once(listed, writes);
    assert forall|i: int| 0 <= i < record.writes.len() implies (
    #[trigger] record.writes[i]).0.len() <= u32::MAX && (record.writes[i].1 matches Some(value)
        ==> value.len() <= u32::MAX) by {
        assert(writes.contains_key(listed[i].0));
    }
    meanings::law_fitting_records(record);
    durable::law_record_round_trip(record);
    let entries = commit->Ok_0.writes@;
    assert(commit->Ok_0@ == record);
    meanings::law_batches_are_their_bytes(entries, Seq::empty());
    assert forall|key: Seq<u8>| #[trigger] writes.contains_key(key) implies exists|i: int|
        {
            &&& 0 <= i < entries.len()
            &&& (*(#[trigger] entries[i]).0)@ == key
            &&& bytes::value_of(entries[i].1) == writes[key]
        } by {
        let i = choose|i: int| 0 <= i < listed.len() && (#[trigger] listed[i]).0 == key;
        assert(store::writes_of(entries)[i] == listed[i]);
        assert((*entries[i].0)@ == key);
    }
}

/// Decoding accepts exactly the records. What it accepts is the very record whose
/// bytes were given, and bytes that no record has, whose lengths fit the format,
/// are refused as a failure of the log.
pub proof fn law_decoding_accepts_exactly_records(
    given: &[u8],
    decoded: Result<RecoveredCommit, TxnError>,
)
    requires
        call_ensures(durable::decode_commit, (given,), decoded),
    ensures
        decoded matches Ok(commit) ==> given@ == durable::record_bytes(
            RecordView { commit_ts: commit.commit_ts@, writes: store::writes_of(commit.writes@) },
        ),
        decoded matches Err(e) ==> e is Durability && forall|record: RecordView|
            durable::record_fits(record) ==> #[trigger] durable::record_bytes(record) != given@,
{
    durable::law_accepted_bytes_are_the_record(given@);
    if decoded is Err {
        assert forall|record: RecordView| durable::record_fits(
            record,
        ) implies #[trigger] durable::record_bytes(record) != given@ by {
            durable::law_record_round_trip(record);
        }
    }
}

/// A record cut short, and a record with bytes after it, are refused.
pub proof fn law_damaged_records_are_refused(
    record: RecordView,
    len: int,
    tail: Seq<u8>,
    cut: &[u8],
    cut_decoded: Result<RecoveredCommit, TxnError>,
    longer: &[u8],
    longer_decoded: Result<RecoveredCommit, TxnError>,
)
    requires
        record.writes.len() <= u32::MAX,
        forall|i: int|
            0 <= i < record.writes.len() ==> (#[trigger] record.writes[i]).0.len() <= u32::MAX && (
            record.writes[i].1 matches Some(value) ==> value.len() <= u32::MAX),
        0 <= len < durable::record_bytes(record).len(),
        cut@ == durable::record_bytes(record).take(len),
        tail.len() > 0,
        longer@ == durable::record_bytes(record) + tail,
        call_ensures(durable::decode_commit, (cut,), cut_decoded),
        call_ensures(durable::decode_commit, (longer,), longer_decoded),
    ensures
        cut_decoded matches Err(e) && e is Durability,
        longer_decoded matches Err(e) && e is Durability,
{
    meanings::law_fitting_records(record);
    durable::law_truncated_record_rejected(record, len);
    durable::law_trailing_bytes_rejected(record, tail);
}

/// Putting commits in order gives the same commits, and none before an earlier one.
pub proof fn law_ordering_sorts_commits(
    commits: Vec<RecoveredCommit>,
    sorted: Vec<RecoveredCommit>,
)
    requires
        call_ensures(recovery::order_commits, (commits,), sorted),
    ensures
        sorted@.len() == commits@.len(),
        forall|i: int, j: int|
            0 <= i <= j < sorted@.len() ==> (#[trigger] sorted@[i]).commit_ts@ <= (
            #[trigger] sorted@[j]).commit_ts@,
        recovery::records_of(sorted@).to_multiset() == recovery::records_of(
            commits@,
        ).to_multiset(),
{
    let records = recovery::records_of(commits@);
    let listed = recovery::records_of(sorted@);
    recovery::lemma_in_commit_order(records);
    assert(listed.len() == sorted@.len());
    assert forall|i: int, j: int| 0 <= i <= j < sorted@.len() implies (
    #[trigger] sorted@[i]).commit_ts@ <= (#[trigger] sorted@[j]).commit_ts@ by {
        assert(listed[i].commit_ts <= listed[j].commit_ts);
    }
}

/// The last write of a batch to a key is the last version it adds.
proof fn lemma_last_written(writes: Seq<WriteView>, ts: u64, key: Seq<u8>, at: int)
    requires
        0 <= at < writes.len(),
        writes[at].0 == key,
        forall|j: int| at < j < writes.len() ==> (#[trigger] writes[j]).0 != key,
    ensures
        history::written(writes, ts, key).len() > 0,
        history::written(writes, ts, key).last().value == writes[at].1,
    decreases writes.len(),
{
    let front = writes.drop_last();
    let n = front.len() as int;
    assert(writes.last() == writes[n]);
    if at < n {
        assert forall|j: int| at < j < front.len() implies (#[trigger] front[j]).0 != key by {
            assert(front[j] == writes[j]);
        }
        lemma_last_written(front, ts, key, at);
    }
}

/// A batch that does not name a key adds no version to it.
proof fn lemma_not_written(writes: Seq<WriteView>, ts: u64, key: Seq<u8>)
    requires
        forall|j: int| 0 <= j < writes.len() ==> (#[trigger] writes[j]).0 != key,
    ensures
        history::written(writes, ts, key).len() == 0,
{
    history::lemma_written(writes, ts, key);
    let keys = history::written_keys(writes);
    if keys.contains(key) {
        let i = keys.index_of(key);
        assert(writes[i].0 == key);
    }
}

/// The last commit to write a key decides what a replay leaves of it.
proof fn lemma_last_replayed(commits: Seq<RecordView>, key: Seq<u8>, at: int, write: int)
    requires
        0 <= at < commits.len(),
        0 <= write < commits[at].writes.len(),
        commits[at].writes[write].0 == key,
        forall|j: int|
            write < j < commits[at].writes.len() ==> (#[trigger] commits[at].writes[j]).0 != key,
        forall|i: int, j: int|
            at < i < commits.len() && 0 <= j < commits[i].writes.len() ==> (
            #[trigger] commits[i].writes[j]).0 != key,
    ensures
        ({
            let chain = history::chain_of(recovery::replay(Map::empty(), commits), key);
            chain.len() > 0 && chain.last().value == commits[at].writes[write].1
        }),
    decreases commits.len(),
{
    let front = commits.drop_last();
    let last = commits.last();
    let n = front.len() as int;
    let before = recovery::replay(Map::empty(), front);
    assert(commits[n] == last);
    history::lemma_apply_chain(before, last.writes, last.commit_ts, key);
    if at < n {
        assert(front[at] == commits[at]);
        assert forall|i: int, j: int|
            at < i < front.len() && 0 <= j < front[i].writes.len() implies (
        #[trigger] front[i].writes[j]).0 != key by {
            assert(front[i] == commits[i]);
            assert(commits[i].writes[j].0 != key);
        }
        lemma_last_replayed(front, key, at, write);
        assert forall|j: int| 0 <= j < last.writes.len() implies (#[trigger] last.writes[j]).0
            != key by {
            assert(commits[n].writes[j].0 != key);
        }
        lemma_not_written(last.writes, last.commit_ts, key);
        assert(history::chain_of(before, key) + Seq::empty() =~= history::chain_of(before, key));
        assert(history::written(last.writes, last.commit_ts, key) =~= Seq::empty());
    } else {
        lemma_last_written(last.writes, last.commit_ts, key, write);
    }
}

/// Reopening a log gives the data back. If the entries of a log are the records of
/// commits with timestamps of their own, in any order, and their lengths fit the
/// format, then the database made from the decoded log reads of each key the value
/// that the latest commit to write it wrote last.
pub proof fn law_reopened_log_reads_back(
    records: Seq<RecordView>,
    log: &[Vec<u8>],
    decoded: Result<Vec<RecoveredCommit>, TxnError>,
    db: Db,
    at: int,
    write: int,
    key: &[u8],
    value: Result<Option<Arc<[u8]>>, TxnError>,
)
    requires
        records.len() == log@.len(),
        forall|i: int|
            0 <= i < records.len() ==> (#[trigger] log@[i])@ == durable::record_bytes(records[i]),
        forall|i: int|
            0 <= i < records.len() ==> (#[trigger] records[i]).writes.len() <= u32::MAX
                && records[i].commit_ts < u64::MAX,
        forall|i: int, j: int|
            0 <= i < records.len() && 0 <= j < records[i].writes.len() ==> (
            #[trigger] records[i].writes[j]).0.len() <= u32::MAX && (
            records[i].writes[j].1 matches Some(v) ==> v.len() <= u32::MAX),
        forall|i: int, j: int|
            0 <= i < j < records.len() ==> (#[trigger] records[i]).commit_ts != (
            #[trigger] records[j]).commit_ts,
        call_ensures(recovery::decode_log, (log,), decoded),
        decoded is Ok ==> call_ensures(Db::recover, (decoded->Ok_0,), db),
        0 <= at < records.len(),
        0 <= write < records[at].writes.len(),
        records[at].writes[write].0 == key@,
        forall|j: int|
            write < j < records[at].writes.len() ==> (#[trigger] records[at].writes[j]).0 != key@,
        forall|i: int, j: int|
            {
                &&& 0 <= i < records.len()
                &&& records[i].commit_ts > records[at].commit_ts
                &&& 0 <= j < records[i].writes.len()
            } ==> (#[trigger] records[i].writes[j]).0 != key@,
        call_ensures(Db::<MemoryStore>::get, (&db, key), value),
    ensures
        decoded is Ok,
        value is Ok,
        match records[at].writes[write].1 {
            Some(written) => value->Ok_0 matches Some(v) && (*v)@ == written,
            None => value->Ok_0 is None,
        },
{
    let encode = |record: RecordView| durable::record_bytes(record);
    assert forall|i: int| 0 <= i < records.len() implies durable::record_fits(
        #[trigger] records[i],
    ) by {
        assert forall|j: int| 0 <= j < records[i].writes.len() implies (
        #[trigger] records[i].writes[j]).0.len() <= u32::MAX && (
        records[i].writes[j].1 matches Some(v) ==> v.len() <= u32::MAX) by {}
        meanings::law_fitting_records(records[i]);
    }
    recovery::law_log_reads_back(records);
    assert(recovery::entries_of(log@) =~= records.map_values(encode)) by {
        assert forall|i: int| 0 <= i < records.len() implies recovery::entries_of(log@)[i]
            == #[trigger] records.map_values(encode)[i] by {
            assert(log@[i]@ == durable::record_bytes(records[i]));
        }
    }
    assert(recovery::records_of(decoded->Ok_0@) == records);
    let sorted = recovery::in_commit_order(records);
    recovery::lemma_in_commit_order(records);
    assert(records.contains(records[at]));
    vstd::seq_lib::to_multiset_contains(records, records[at]);
    vstd::seq_lib::to_multiset_contains(sorted, records[at]);
    let p = sorted.index_of(records[at]);
    assert(sorted[p] == records[at]);
    assert forall|i: int, j: int|
        p < i < sorted.len() && 0 <= j < sorted[i].writes.len() implies (
    #[trigger] sorted[i].writes[j]).0 != key@ by {
        assert(sorted.contains(sorted[i]));
        vstd::seq_lib::to_multiset_contains(sorted, sorted[i]);
        vstd::seq_lib::to_multiset_contains(records, sorted[i]);
        let k = records.index_of(sorted[i]);
        assert(sorted[p].commit_ts <= sorted[i].commit_ts);
        recovery::lemma_in_commit_order_distinct(records);
        assert(sorted[p].commit_ts != sorted[i].commit_ts);
        assert(records[k].writes[j].0 != key@);
    }
    lemma_last_replayed(sorted, key@, p, write);
    recovery::law_recovered_history_is_whole(records);
    recovery::lemma_highest(records);
    let history = recovery::recovered(records);
    laws::law_latest_reader_sees_newest(history, key@, recovery::highest(records));
}

// ---------------------------------------------------------------------------
// Counting
// ---------------------------------------------------------------------------

/// Collection says how many versions it removed: the number that the history has
/// lost, whenever that fits a `usize`.
pub proof fn law_collection_counts_what_it_removes<S: VersionStore>(
    before: Db<S>,
    after: Db<S>,
    reclaimed: usize,
)
    requires
        exists|db: &mut Db<S>|
            *db == before && *final(db) == after && #[trigger] call_ensures(
                Db::<S>::collect_garbage,
                (db,),
                reclaimed,
            ),
        0 <= history::version_count(before@.history) - history::version_count(after@.history)
            <= usize::MAX,
    ensures
        reclaimed + history::version_count(after@.history) == history::version_count(
            before@.history,
        ),
{
}

/// The same of the store itself.
pub proof fn law_store_counts_what_it_removes<S: VersionStore>(
    before: S,
    after: S,
    low: Timestamp,
    reclaimed: usize,
)
    requires
        exists|store: &mut S|
            *store == before && *final(store) == after && #[trigger] call_ensures(
                S::collect_garbage,
                (store, low),
                reclaimed,
            ),
        0 <= history::version_count(before.history()) - history::version_count(after.history())
            <= usize::MAX,
    ensures
        reclaimed + history::version_count(after.history()) == history::version_count(
            before.history(),
        ),
{
}

/// The number of keys of a store is exact whenever it fits a `usize`.
pub proof fn law_key_count_is_exact(store: MemoryStore, count: usize)
    requires
        call_ensures(MemoryStore::key_count, (&store,), count),
        store.history().dom().len() <= usize::MAX,
    ensures
        store.history().dom().finite(),
        count == store.history().dom().len(),
{
}

// ---------------------------------------------------------------------------
// What never happens
// ---------------------------------------------------------------------------

/// The in-memory store never fails: it answers every read, and turns a commit down
/// for a conflict only.
pub proof fn law_memory_store_never_fails(
    store: MemoryStore,
    after: MemoryStore,
    key: &[u8],
    read_ts: Timestamp,
    value: Result<Option<Arc<[u8]>>, TxnError>,
    commit_ts: Timestamp,
    writes: Vec<WriteEntry>,
    reads: &[Arc<[u8]>],
    outcome: Result<(), TxnError>,
)
    requires
        call_ensures(MemoryStore::get, (&store, key, read_ts), value),
        exists|held: &mut MemoryStore|
            *held == store && *final(held) == after && #[trigger] call_ensures(
                MemoryStore::try_commit,
                (held, read_ts, commit_ts, writes, reads),
                outcome,
            ),
    ensures
        value is Ok,
        outcome matches Err(e) ==> e is Conflict,
        !MemoryStore::may_fail(),
{
}

/// A rollback changes nothing that anyone can read: a key reads as it did.
pub proof fn law_rollback_is_invisible<S: VersionStore>(
    tx: Transaction,
    before: Db<S>,
    after: Db<S>,
    key: &[u8],
    earlier: Option<Arc<[u8]>>,
    value: Option<Arc<[u8]>>,
)
    requires
        exists|db: &mut Db<S>|
            *db == before && *final(db) == after && #[trigger] call_ensures(
                Transaction::rollback::<S>,
                (tx, db),
                (),
            ),
        call_ensures(Db::<S>::get, (&before, key), Ok(earlier)),
        call_ensures(Db::<S>::get, (&after, key), Ok(value)),
    ensures
        after@.history == before@.history,
        match earlier {
            Some(shown) => value matches Some(v) && (*v)@ == (*shown)@,
            None => value is None,
        },
{
}

/// A new database is empty: every key reads as absent.
pub proof fn law_new_database_is_empty(db: Db, key: &[u8], value: Result<Option<Arc<[u8]>>, TxnError>)
    requires
        call_ensures(Db::new, (), db),
        call_ensures(Db::<MemoryStore>::get, (&db, key), value),
    ensures
        value matches Ok(v) && v is None,
{
}

/// Collection takes nothing away from a live reader: a snapshot that is still
/// registered reads every key as it did before.
pub proof fn law_collection_is_invisible_to_snapshots<S: VersionStore>(
    before: Db<S>,
    after: Db<S>,
    reclaimed: usize,
    snapshot: Snapshot,
    key: &[u8],
    earlier: Option<Arc<[u8]>>,
    value: Option<Arc<[u8]>>,
)
    requires
        exists|db: &mut Db<S>|
            *db == before && *final(db) == after && #[trigger] call_ensures(
                Db::<S>::collect_garbage,
                (db,),
                reclaimed,
            ),
        before@.clock.readers.contains_key(snapshot.read_at()) || before@.clock.watermark
            <= snapshot.read_at(),
        call_ensures(Snapshot::get::<S>, (&snapshot, &before, key), Ok(earlier)),
        call_ensures(Snapshot::get::<S>, (&snapshot, &after, key), Ok(value)),
    ensures
        match earlier {
            Some(shown) => value matches Some(v) && (*v)@ == (*shown)@,
            None => value is None,
        },
{
    assert(before@.clock.readable(snapshot.read_at()));
}

/// A transaction that wrote nothing always commits: it returns the timestamp of
/// its snapshot, and the database holds what it held.
pub proof fn law_reading_transaction_commits<S: VersionStore>(
    tx: Transaction,
    before: Db<S>,
    after: Db<S>,
    outcome: Result<Timestamp, TxnError>,
)
    requires
        forall|key: Seq<u8>| !#[trigger] tx@.writes.contains_key(key),
        exists|db: &mut Db<S>|
            *db == before && *final(db) == after && #[trigger] call_ensures(
                Transaction::commit::<S>,
                (tx, db),
                outcome,
            ),
    ensures
        outcome matches Ok(ts) && ts@ == tx@.read_ts,
        after@.history == before@.history,
        after@.clock.next == before@.clock.next,
        after@.clock.watermark == before@.clock.watermark,
{
    assert(tx@.writes =~= Map::empty());
}

/// Commit timestamps increase: of two commits with writes, the later one has the
/// later timestamp.
pub proof fn law_later_commit_has_later_timestamp<S: VersionStore>(
    first: Transaction,
    second: Transaction,
    before: Db<S>,
    between: Db<S>,
    after: Db<S>,
    first_ts: Timestamp,
    second_ts: Timestamp,
)
    requires
        !first@.writes.is_empty(),
        !second@.writes.is_empty(),
        before@.clock.next < u64::MAX,
        exists|db: &mut Db<S>|
            *db == before && *final(db) == between && #[trigger] call_ensures(
                Transaction::commit::<S>,
                (first, db),
                Ok(first_ts),
            ),
        exists|db: &mut Db<S>|
            *db == between && *final(db) == after && #[trigger] call_ensures(
                Transaction::commit::<S>,
                (second, db),
                Ok(second_ts),
            ),
    ensures
        first_ts@ == before@.clock.next,
        first_ts@ < second_ts@,
{
}

/// A commit whose record could not be logged is not acknowledged: it returns the
/// log's own words, as a fatal error. One whose record was logged returns its
/// timestamp.
pub proof fn law_unlogged_commit_is_not_acknowledged<S: VersionStore>(
    applied: AppliedCommit,
    logged: Result<(), String>,
    before: Db<S>,
    after: Db<S>,
    outcome: Result<Timestamp, TxnError>,
)
    requires
        exists|db: &mut Db<S>|
            *db == before && *final(db) == after && #[trigger] call_ensures(
                Db::<S>::finish,
                (db, applied, logged),
                outcome,
            ),
    ensures
        logged is Ok ==> outcome is Ok && outcome->Ok_0@ == applied.committed_at(),
        logged is Err ==> outcome is Err && outcome->Err_0 is Durability
            && outcome->Err_0->Durability_detail@ == logged->Err_0@,
        after@.history == before@.history,
{
}

/// Over an in-memory store, collection removes all that no reader can observe, and
/// nothing else.
pub proof fn law_memory_database_collects(before: Db, after: Db, reclaimed: usize)
    requires
        exists|db: &mut Db|
            *db == before && *final(db) == after && #[trigger] call_ensures(
                Db::<MemoryStore>::collect_garbage,
                (db,),
                reclaimed,
            ),
    ensures
        exists|low: u64| #[trigger]
            before@.clock.is_low_watermark(low) && after@.history == history::collected(
                before@.history,
                low,
            ),
{
    db::law_memory_database_is_collected(before, after, reclaimed);
}

// ---------------------------------------------------------------------------
// The store's own answers
// ---------------------------------------------------------------------------

/// A read is the store's: what a snapshot, or the database, returns is what the
/// store answers for that key at that timestamp, its own error included. So is
/// what a transaction returns for a key that it has not written.
pub proof fn law_store_answers_are_handed_on<S: VersionStore>(
    db: Db<S>,
    key: &[u8],
    now: Result<Option<Arc<[u8]>>, TxnError>,
    snapshot: Snapshot,
    then: Result<Option<Arc<[u8]>>, TxnError>,
    before: Transaction,
    after: Transaction,
    seen: Result<Option<Arc<[u8]>>, TxnError>,
)
    requires
        call_ensures(Db::<S>::get, (&db, key), now),
        call_ensures(Snapshot::get::<S>, (&snapshot, &db, key), then),
        exists|tx: &mut Transaction|
            *tx == before && *final(tx) == after && #[trigger] call_ensures(
                Transaction::get::<S>,
                (tx, &db, key),
                seen,
            ),
    ensures
        exists|ts: Timestamp|
            ts@ == db@.clock.watermark && #[trigger] call_ensures(
                S::get,
                (&db.backing(), key, ts),
                now,
            ),
        exists|ts: Timestamp|
            ts@ == snapshot.read_at() && #[trigger] call_ensures(
                S::get,
                (&db.backing(), key, ts),
                then,
            ),
        !before@.writes.contains_key(key@) ==> exists|ts: Timestamp|
            ts@ == before@.read_ts && #[trigger] call_ensures(
                S::get,
                (&db.backing(), key, ts),
                seen,
            ),
        before@.writes.contains_key(key@) ==> seen is Ok && bytes::value_of(seen->Ok_0)
            == before@.writes[key@],
{
}

/// The answer of a store that a commit hands on.
pub open spec fn answer_behind(outcome: Result<Timestamp, TxnError>) -> Result<(), TxnError> {
    match outcome {
        Ok(_) => Ok(()),
        Err(e) => Err(e),
    }
}

/// The answer of a store that a prepared commit hands on.
pub open spec fn answer_behind_prepared(prepared: Prepared) -> Result<(), TxnError> {
    match prepared {
        Prepared::Finished(outcome) => answer_behind(outcome),
        Prepared::Applied(_) => Ok(()),
    }
}

/// A transaction that writes one key and reads none.
pub open spec fn lone_write(read_ts: u64, key: Vec<u8>, value: Option<Vec<u8>>) -> TxnView {
    TxnView {
        read_ts,
        writes: Map::empty().insert(
            key@,
            match value {
                Some(v) => Some(v@),
                None => None,
            },
        ),
        reads: Set::empty(),
        serializable: false,
    }
}

/// `store` is asked to commit at `commit_ts` what a transaction did that reads at
/// `read_ts`: every write once, and exactly the keys that were read.
pub open spec fn is_asked_to_commit<S: VersionStore>(
    store: &mut S,
    tx: TxnView,
    commit_ts: u64,
    answer: Result<(), TxnError>,
) -> bool {
    exists|snapshot: Timestamp, at: Timestamp, batch: Vec<WriteEntry>, read: &[Arc<[u8]>]|
        {
            &&& snapshot@ == tx.read_ts
            &&& at@ == commit_ts
            &&& history::lists(store::writes_of(batch@), tx.writes)
            &&& forall|key: Seq<u8>| #[trigger]
                tx.reads.contains(key) <==> exists|i: int|
                    0 <= i < read@.len() && (*#[trigger] read@[i])@ == key
            &&& #[trigger] call_ensures(S::try_commit, (store, snapshot, at, batch, read), answer)
        }
}

proof fn lemma_is_asked_to_commit<S: VersionStore>(
    before: S,
    after: S,
    tx: TxnView,
    commit_ts: u64,
    answer: Result<(), TxnError>,
)
    requires
        exists|store: &mut S|
            {
                &&& *store == before
                &&& *final(store) == after
                &&& #[trigger] db::store_commits(store, tx, commit_ts, answer)
            },
    ensures
        exists|store: &mut S|
            {
                &&& *store == before
                &&& *final(store) == after
                &&& #[trigger] is_asked_to_commit(store, tx, commit_ts, answer)
            },
{
    let store = choose|store: &mut S|
        {
            &&& *store == before
            &&& *final(store) == after
            &&& #[trigger] db::store_commits(store, tx, commit_ts, answer)
        };
    let (read_ts, at, writes, reads) = choose|
        read_ts: Timestamp,
        at: Timestamp,
        writes: Vec<WriteEntry>,
        reads: &[Arc<[u8]>],
    |
        {
            &&& read_ts@ == tx.read_ts
            &&& at@ == commit_ts
            &&& tx.hands_over(writes@, reads@)
            &&& #[trigger] call_ensures(S::try_commit, (store, read_ts, at, writes, reads), answer)
        };
    meanings::law_store_is_handed_the_transaction(tx, writes@, reads@);
    assert forall|key: Seq<u8>| #[trigger] tx.reads.contains(key) <==> exists|i: int|
        0 <= i < reads@.len() && (*#[trigger] reads@[i])@ == key by {
        if exists|i: int| 0 <= i < reads@.len() && (*#[trigger] reads@[i])@ == key {
            let i = choose|i: int| 0 <= i < reads@.len() && (*#[trigger] reads@[i])@ == key;
            assert(tx.reads.contains((*reads@[i])@));
        }
    }
    assert(call_ensures(S::try_commit, (store, read_ts, at, writes, reads), answer));
    assert(is_asked_to_commit(store, tx, commit_ts, answer));
}

/// A commit with writes is the store's: the store is asked once, for the next
/// timestamp, and its answer, its own error included, is what is returned.
pub proof fn law_store_decides_commits<S: VersionStore>(
    tx: Transaction,
    before: Db<S>,
    after: Db<S>,
    outcome: Result<Timestamp, TxnError>,
)
    requires
        !tx@.writes.is_empty(),
        exists|db: &mut Db<S>|
            *db == before && *final(db) == after && #[trigger] call_ensures(
                Transaction::commit::<S>,
                (tx, db),
                outcome,
            ),
    ensures
        exists|store: &mut S|
            {
                &&& *store == before.backing()
                &&& *final(store) == after.backing()
                &&& #[trigger] is_asked_to_commit(
                    store,
                    tx@,
                    before@.clock.next,
                    answer_behind(outcome),
                )
            },
{
    lemma_is_asked_to_commit(
        before.backing(),
        after.backing(),
        tx@,
        before@.clock.next,
        txn::plain(outcome),
    );
}

/// The same of a commit that is prepared.
pub proof fn law_store_decides_prepared_commits<S: VersionStore>(
    tx: Transaction,
    before: Db<S>,
    after: Db<S>,
    prepared: Prepared,
)
    requires
        !tx@.writes.is_empty(),
        exists|db: &mut Db<S>|
            *db == before && *final(db) == after && #[trigger] call_ensures(
                Transaction::prepare::<S>,
                (tx, db),
                prepared,
            ),
    ensures
        exists|store: &mut S|
            {
                &&& *store == before.backing()
                &&& *final(store) == after.backing()
                &&& #[trigger] is_asked_to_commit(
                    store,
                    tx@,
                    before@.clock.next,
                    answer_behind_prepared(prepared),
                )
            },
        prepared matches Prepared::Finished(outcome) ==> outcome is Err,
{
    lemma_is_asked_to_commit(
        before.backing(),
        after.backing(),
        tx@,
        before@.clock.next,
        prepared.outcome(),
    );
}

/// The same of a single put and a single delete: the store is asked for one write,
/// as of the watermark, and for no key that was read.
pub proof fn law_store_decides_single_writes<S: VersionStore>(
    before: Db<S>,
    after: Db<S>,
    key: Vec<u8>,
    value: Option<Vec<u8>>,
    outcome: Result<Timestamp, TxnError>,
)
    requires
        exists|db: &mut Db<S>|
            *db == before && *final(db) == after && #[trigger] single_write(
                db,
                key,
                value,
                outcome,
            ),
    ensures
        exists|store: &mut S|
            {
                &&& *store == before.backing()
                &&& *final(store) == after.backing()
                &&& #[trigger] is_asked_to_commit(
                    store,
                    lone_write(before@.clock.watermark, key, value),
                    before@.clock.next,
                    answer_behind(outcome),
                )
            },
{
    let tx = lone_write(before@.clock.watermark, key, value);
    let db = choose|db: &mut Db<S>|
        *db == before && *final(db) == after && #[trigger] single_write(db, key, value, outcome);
    assert(single_write(db, key, value, outcome));
    lemma_is_asked_to_commit(
        before.backing(),
        after.backing(),
        tx,
        before@.clock.next,
        txn::plain(outcome),
    );
}

/// `db` is asked for a single put, or a single delete.
pub open spec fn single_write<S: VersionStore>(
    db: &mut Db<S>,
    key: Vec<u8>,
    value: Option<Vec<u8>>,
    outcome: Result<Timestamp, TxnError>,
) -> bool {
    match value {
        Some(value) => call_ensures(Db::<S>::try_put, (db, key, value), outcome),
        None => call_ensures(Db::<S>::try_delete, (db, key), outcome),
    }
}

// ---------------------------------------------------------------------------
// Handles, errors and shards
// ---------------------------------------------------------------------------

/// The handles tell the timestamps that they stand for, and the database whether
/// it has a timestamp and a place for a reader left.
pub proof fn law_handles_tell_their_timestamps<S: VersionStore>(
    tx: Transaction,
    tx_ts: Timestamp,
    some: bool,
    snapshot: Snapshot,
    snapshot_ts: Timestamp,
    applied: AppliedCommit,
    commit_ts: Timestamp,
    read_ts: Timestamp,
    db: Db<S>,
    last: Timestamp,
    left: bool,
    can: bool,
)
    requires
        call_ensures(Transaction::read_timestamp, (&tx,), tx_ts),
        call_ensures(Transaction::has_writes, (&tx,), some),
        call_ensures(Snapshot::read_timestamp, (&snapshot,), snapshot_ts),
        call_ensures(AppliedCommit::commit_timestamp, (&applied,), commit_ts),
        call_ensures(AppliedCommit::read_timestamp, (&applied,), read_ts),
        call_ensures(Db::<S>::last_committed, (&db,), last),
        call_ensures(Db::<S>::has_timestamps, (&db,), left),
        call_ensures(Db::<S>::can_begin, (&db,), can),
    ensures
        tx_ts@ == tx@.read_ts,
        some <==> exists|key: Seq<u8>| #[trigger] tx@.writes.contains_key(key),
        snapshot_ts@ == snapshot.read_at(),
        commit_ts@ == applied.committed_at(),
        read_ts@ == applied.read_at(),
        last@ == db@.clock.watermark,
        left <==> db@.clock.next < u64::MAX,
        can <==> !db@.clock.readers.contains_key(db@.clock.watermark)
            || db@.clock.readers[db@.clock.watermark] < usize::MAX,
{
    if some {
        if forall|key: Seq<u8>| !#[trigger] tx@.writes.contains_key(key) {
            assert(tx@.writes =~= Map::empty());
        }
    } else {
        assert(forall|key: Seq<u8>| !#[trigger] tx@.writes.contains_key(key));
    }
}

/// What an error says of itself: only a conflict is worth a retry, only a failure
/// of the log is fatal, and each tells its name.
pub proof fn law_errors_tell_what_to_do(
    error: TxnError,
    retryable: bool,
    fatal: bool,
    kind: &'static str,
    shown: String,
)
    requires
        call_ensures(TxnError::is_retryable, (&error,), retryable),
        call_ensures(TxnError::is_fatal, (&error,), fatal),
        call_ensures(TxnError::kind, (&error,), kind),
        call_ensures(TxnError::to_string, (&error,), shown),
    ensures
        retryable <==> error is Conflict,
        fatal <==> error is Durability,
        error is Conflict ==> kind@ == "Conflict"@ && shown@ == "write-write conflict on a "@
            + text::decimal(error->key_len as nat) + "-byte key; retry the transaction"@,
        error is Store ==> kind@ == "Store"@ && shown@ == "version store error while "@
            + error->context@ + ": "@ + error->Store_detail@,
        error is Durability ==> kind@ == "Durability"@ && shown@ == "durable commit log error: "@
            + error->Durability_detail@,
{
}

/// The number of shards is the least power of two that is not less than what was
/// asked for, and the mask is one less.
pub proof fn law_shards_are_the_least_power_of_two(
    shards: usize,
    store: MemoryStore,
    count: usize,
    mask: usize,
    k: nat,
)
    requires
        call_ensures(MemoryStore::with_shards, (shards,), store),
        call_ensures(MemoryStore::mask, (&store,), mask),
        call_ensures(MemoryStore::shard_count, (&store,), count),
    ensures
        exists|j: nat| count == #[trigger] pow2(j),
        shards <= count,
        shards <= pow2(k) ==> count <= pow2(k),
        mask + 1 == count,
{
    meanings::law_powers_of_two(count as nat);
    let j = choose|j: nat| count == #[trigger] pow2(j);
    if k < j {
        vstd::arithmetic::power2::lemma_pow2_unfold(j);
        vstd::arithmetic::power2::lemma_pow2_pos((j - 1) as nat);
        assert(count / 2 == pow2((j - 1) as nat));
        if k < j - 1 {
            vstd::arithmetic::power2::lemma_pow2_strictly_increases(k, (j - 1) as nat);
        }
    } else if j < k {
        vstd::arithmetic::power2::lemma_pow2_strictly_increases(j, k);
    }
}

/// The in-memory store returns the bytes of the newest version at or below the
/// timestamp that it is asked for.
pub proof fn law_memory_store_reads_newest_reached(
    store: MemoryStore,
    key: &[u8],
    read_ts: Timestamp,
    value: Result<Option<Arc<[u8]>>, TxnError>,
    i: int,
)
    requires
        call_ensures(MemoryStore::get, (&store, key, read_ts), value),
        store.history().contains_key(key@),
        0 <= i < store.history()[key@].len(),
        store.history()[key@][i].commit_ts <= read_ts@,
        forall|j: int|
            i < j < store.history()[key@].len() ==> (
            #[trigger] store.history()[key@][j]).commit_ts > read_ts@,
    ensures
        value is Ok,
        match store.history()[key@][i].value {
            Some(stored) => value->Ok_0 matches Some(v) && (*v)@ == stored,
            None => value->Ok_0 is None,
        },
{
    meanings::law_reader_sees_newest_reached(store.history(), key@, read_ts@, i);
}

} // verus!
