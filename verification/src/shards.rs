//! The number of shards of a [`MemoryStore`] cannot be observed.
//!
//! What the operations of a store return, and what they make of its history,
//! follows from the history alone. So stores with different numbers of shards
//! answer the same calls alike, and collection changes no answer that a live
//! reader can get.

use std::sync::Arc;

use vstd::prelude::*;

use crate::bytes;
use crate::error::TxnError;
use crate::history;
use crate::history::{History, VersionView, WriteView};
use crate::store;
use crate::store::{MemoryStore, VersionStore, WriteEntry};
use crate::timestamp::Timestamp;

verus! {

/// One call of a store.
pub enum StoreCall {
    /// Read a key as of a timestamp.
    Get { key: Seq<u8>, read_ts: u64 },
    /// Validate a batch, and apply it.
    TryCommit {
        read_ts: u64,
        commit_ts: u64,
        writes: Seq<WriteView>,
        reads: Seq<Seq<u8>>,
    },
    /// Install a recovered commit.
    Install { commit_ts: u64, writes: Seq<WriteView> },
    /// Reclaim versions.
    Collect { low: u64 },
    /// Count the keys.
    KeyCount,
}

/// What a store returns.
pub enum StoreAnswer {
    /// Nothing.
    Done,
    /// The value of a key.
    Value(Option<Seq<u8>>),
    /// The batch was applied.
    Applied,
    /// The batch conflicts; the length of the first key that has changed.
    Conflict(usize),
    /// A number, of keys or of versions.
    Count(usize),
}

/// What the contracts of a [`MemoryStore`] say of a call: it may lead from the
/// history `before` to `after`, with `answer` returned.
pub open spec fn replies(
    before: History,
    call: StoreCall,
    after: History,
    answer: StoreAnswer,
) -> bool {
    match call {
        StoreCall::Get { key, read_ts } => {
            &&& after == before
            &&& answer == StoreAnswer::Value(history::visible(before, key, read_ts))
        },
        StoreCall::TryCommit { read_ts, commit_ts, writes, reads } => {
            let keys = history::written_keys(writes) + reads;
            if history::any_changed(before, keys, read_ts) {
                &&& after == before
                &&& exists|i: int| #[trigger]
                    history::first_changed(before, keys, read_ts, i) && answer
                        == StoreAnswer::Conflict(keys[i].len() as usize)
            } else {
                &&& after == history::apply(before, writes, commit_ts)
                &&& answer == StoreAnswer::Applied
            }
        },
        StoreCall::Install { commit_ts, writes } => {
            &&& after == history::apply(before, writes, commit_ts)
            &&& answer == StoreAnswer::Done
        },
        StoreCall::Collect { low } => {
            &&& after == history::collected(before, low)
            &&& answer == StoreAnswer::Count(
                history::clamp(
                    (history::version_count(before) - history::version_count(after)) as nat,
                ),
            )
        },
        StoreCall::KeyCount => {
            &&& after == before
            &&& answer == StoreAnswer::Count(history::clamp(before.dom().len()))
        },
    }
}

/// `states` and `answers` are what a store that is called with `calls` goes
/// through.
pub open spec fn serves(
    states: Seq<History>,
    calls: Seq<StoreCall>,
    answers: Seq<StoreAnswer>,
) -> bool {
    &&& states.len() == calls.len() + 1
    &&& answers.len() == calls.len()
    &&& forall|i: int|
        0 <= i < calls.len() ==> replies(
            #[trigger] states[i],
            calls[i],
            states[i + 1],
            answers[i],
        )
}

/// A call has one answer, and leads to one history.
pub proof fn law_store_calls_have_one_answer(
    before: History,
    call: StoreCall,
    after: History,
    answer: StoreAnswer,
    other_after: History,
    other_answer: StoreAnswer,
)
    requires
        replies(before, call, after, answer),
        replies(before, call, other_after, other_answer),
    ensures
        after == other_after,
        answer == other_answer,
{
    if let StoreCall::TryCommit { read_ts, commit_ts, writes, reads } = call {
        let keys = history::written_keys(writes) + reads;
        if history::any_changed(before, keys, read_ts) {
            let i = choose|i: int| #[trigger]
                history::first_changed(before, keys, read_ts, i) && answer
                    == StoreAnswer::Conflict(keys[i].len() as usize);
            let j = choose|j: int| #[trigger]
                history::first_changed(before, keys, read_ts, j) && other_answer
                    == StoreAnswer::Conflict(keys[j].len() as usize);
            lemma_one_first_changed(before, keys, read_ts, i, j);
        }
    }
}

/// Only one key is the first that has changed.
proof fn lemma_one_first_changed(
    before: History,
    keys: Seq<Seq<u8>>,
    ts: u64,
    i: int,
    j: int,
)
    requires
        history::first_changed(before, keys, ts, i),
        history::first_changed(before, keys, ts, j),
    ensures
        i == j,
{
    if i < j {
        assert(!history::changed_since(before, keys[i], ts));
    }
    if j < i {
        assert(!history::changed_since(before, keys[j], ts));
    }
}

/// The number of shards cannot be observed: two stores with the same history,
/// however many shards each has, that are called with the same calls return the
/// same answers and hold the same histories throughout.
pub proof fn law_shard_count_is_unobservable(
    states: Seq<History>,
    answers: Seq<StoreAnswer>,
    other_states: Seq<History>,
    other_answers: Seq<StoreAnswer>,
    calls: Seq<StoreCall>,
)
    requires
        serves(states, calls, answers),
        serves(other_states, calls, other_answers),
        states[0] == other_states[0],
    ensures
        states == other_states,
        answers == other_answers,
{
    assert forall|i: int| 0 <= i <= calls.len() implies #[trigger] states[i]
        == other_states[i] by {
        lemma_same_history(states, answers, other_states, other_answers, calls, i);
    }
    assert(states =~= other_states);
    assert forall|i: int| 0 <= i < calls.len() implies #[trigger] answers[i]
        == other_answers[i] by {
        assert(states[i] == other_states[i]);
        law_store_calls_have_one_answer(
            states[i],
            calls[i],
            states[i + 1],
            answers[i],
            other_states[i + 1],
            other_answers[i],
        );
    }
    assert(answers =~= other_answers);
}

proof fn lemma_same_history(
    states: Seq<History>,
    answers: Seq<StoreAnswer>,
    other_states: Seq<History>,
    other_answers: Seq<StoreAnswer>,
    calls: Seq<StoreCall>,
    i: int,
)
    requires
        serves(states, calls, answers),
        serves(other_states, calls, other_answers),
        states[0] == other_states[0],
        0 <= i <= calls.len(),
    ensures
        states[i] == other_states[i],
    decreases i,
{
    if i > 0 {
        let n = i - 1;
        lemma_same_history(states, answers, other_states, other_answers, calls, n);
        assert(replies(states[n], calls[n], states[n + 1], answers[n]));
        assert(replies(other_states[n], calls[n], other_states[n + 1], other_answers[n]));
        law_store_calls_have_one_answer(
            states[n],
            calls[n],
            states[n + 1],
            answers[n],
            other_states[n + 1],
            other_answers[n],
        );
    }
}

// ---------------------------------------------------------------------------
// The calls are the operations of a store
// ---------------------------------------------------------------------------

/// Stores with whatever number of shards start with the same history, an empty
/// one.
pub proof fn law_stores_start_alike(shards: usize, store: MemoryStore, fresh: MemoryStore)
    requires
        call_ensures(MemoryStore::with_shards, (shards,), store),
        call_ensures(MemoryStore::new, (), fresh),
    ensures
        store.history() == fresh.history(),
        store.history() == Map::<Seq<u8>, Seq<VersionView>>::empty(),
{
}

/// Reading is a call of a store.
pub proof fn law_store_get_replies(
    held: MemoryStore,
    key: &[u8],
    read_ts: Timestamp,
    value: Result<Option<Arc<[u8]>>, TxnError>,
)
    requires
        call_ensures(MemoryStore::get, (&held, key, read_ts), value),
    ensures
        value is Ok,
        replies(
            held.history(),
            StoreCall::Get { key: key@, read_ts: read_ts@ },
            held.history(),
            StoreAnswer::Value(bytes::value_of(value->Ok_0)),
        ),
{
}

/// What the outcome of [`VersionStore::try_commit`] tells its caller.
pub open spec fn told(outcome: Result<(), TxnError>) -> StoreAnswer {
    match outcome {
        Ok(_) => StoreAnswer::Applied,
        Err(TxnError::Conflict { key_len }) => StoreAnswer::Conflict(key_len),
        Err(_) => StoreAnswer::Done,
    }
}

/// Committing is a call of a store, which applies the batch or finds a conflict.
pub proof fn law_store_try_commit_replies(
    before: MemoryStore,
    after: MemoryStore,
    read_ts: Timestamp,
    commit_ts: Timestamp,
    writes: Vec<WriteEntry>,
    reads: &[Arc<[u8]>],
    outcome: Result<(), TxnError>,
)
    requires
        exists|held: &mut MemoryStore|
            {
                &&& *held == before
                &&& *final(held) == after
                &&& #[trigger] call_ensures(
                    MemoryStore::try_commit,
                    (held, read_ts, commit_ts, writes, reads),
                    outcome,
                )
            },
    ensures
        outcome matches Err(e) ==> e is Conflict,
        replies(
            before.history(),
            StoreCall::TryCommit {
                read_ts: read_ts@,
                commit_ts: commit_ts@,
                writes: store::writes_of(writes@),
                reads: bytes::keys_of(reads@),
            },
            after.history(),
            told(outcome),
        ),
{
    let keys = store::touched(writes@, reads@);
    if outcome is Err {
        let i = choose|i: int|
            {
                &&& #[trigger] history::first_changed(before.history(), keys, read_ts@, i)
                &&& outcome->Err_0 == (TxnError::Conflict { key_len: keys[i].len() as usize })
            };
        assert(history::first_changed(before.history(), keys, read_ts@, i));
        assert(history::changed_since(before.history(), keys[i], read_ts@));
        assert(history::any_changed(before.history(), keys, read_ts@));
    }
}

/// Installing a recovered commit is a call of a store.
pub proof fn law_store_install_replies(
    before: MemoryStore,
    after: MemoryStore,
    commit_ts: Timestamp,
    writes: Vec<WriteEntry>,
)
    requires
        exists|held: &mut MemoryStore|
            *held == before && *final(held) == after && #[trigger] call_ensures(
                MemoryStore::install_recovered,
                (held, commit_ts, writes),
                (),
            ),
    ensures
        replies(
            before.history(),
            StoreCall::Install { commit_ts: commit_ts@, writes: store::writes_of(writes@) },
            after.history(),
            StoreAnswer::Done,
        ),
{
}

/// Collection is a call of a store.
pub proof fn law_store_collect_replies(
    before: MemoryStore,
    after: MemoryStore,
    low: Timestamp,
    reclaimed: usize,
)
    requires
        exists|held: &mut MemoryStore|
            *held == before && *final(held) == after && #[trigger] call_ensures(
                MemoryStore::collect_garbage,
                (held, low),
                reclaimed,
            ),
    ensures
        replies(
            before.history(),
            StoreCall::Collect { low: low@ },
            after.history(),
            StoreAnswer::Count(reclaimed),
        ),
{
}

/// Counting the keys is a call of a store.
pub proof fn law_store_key_count_replies(held: MemoryStore, count: usize)
    requires
        call_ensures(MemoryStore::key_count, (&held,), count),
    ensures
        replies(held.history(), StoreCall::KeyCount, held.history(), StoreAnswer::Count(count)),
{
}

// ---------------------------------------------------------------------------
// Collection and conflicts
// ---------------------------------------------------------------------------

/// Collection leaves conflict detection as it was for every live reader: at or
/// after the low watermark, the same keys have changed, and the same one first.
pub proof fn law_collection_keeps_conflicts(
    held: History,
    low: u64,
    keys: Seq<Seq<u8>>,
    read_ts: u64,
    i: int,
)
    requires
        history::history_wf(held),
        low <= read_ts,
    ensures
        history::any_changed(history::collected(held, low), keys, read_ts)
            == history::any_changed(held, keys, read_ts),
        history::first_changed(history::collected(held, low), keys, read_ts, i)
            == history::first_changed(held, keys, read_ts, i),
{
    let kept = history::collected(held, low);
    history::lemma_collected(held, low);
    assert forall|key: Seq<u8>| #[trigger] history::changed_since(kept, key, read_ts)
        == history::changed_since(held, key, read_ts) by {}
    if history::any_changed(held, keys, read_ts) {
        let j = choose|j: int|
            0 <= j < keys.len() && history::changed_since(held, #[trigger] keys[j], read_ts);
        assert(history::changed_since(kept, keys[j], read_ts));
    }
    if history::any_changed(kept, keys, read_ts) {
        let j = choose|j: int|
            0 <= j < keys.len() && history::changed_since(kept, #[trigger] keys[j], read_ts);
        assert(history::changed_since(held, keys[j], read_ts));
    }
}

/// A commit of a live reader has the same outcome, the length of the conflicting
/// key included, whether or not the store was collected first.
pub proof fn law_collection_keeps_commit_outcomes(
    before: MemoryStore,
    collected: MemoryStore,
    low: Timestamp,
    reclaimed: usize,
    read_ts: Timestamp,
    commit_ts: Timestamp,
    writes: Vec<WriteEntry>,
    reads: &[Arc<[u8]>],
    after: MemoryStore,
    outcome: Result<(), TxnError>,
    after_collected: MemoryStore,
    outcome_collected: Result<(), TxnError>,
)
    requires
        before.wf(),
        low@ <= read_ts@,
        exists|held: &mut MemoryStore|
            *held == before && *final(held) == collected && #[trigger] call_ensures(
                MemoryStore::collect_garbage,
                (held, low),
                reclaimed,
            ),
        exists|held: &mut MemoryStore|
            {
                &&& *held == before
                &&& *final(held) == after
                &&& #[trigger] call_ensures(
                    MemoryStore::try_commit,
                    (held, read_ts, commit_ts, writes, reads),
                    outcome,
                )
            },
        exists|held: &mut MemoryStore|
            {
                &&& *held == collected
                &&& *final(held) == after_collected
                &&& #[trigger] call_ensures(
                    MemoryStore::try_commit,
                    (held, read_ts, commit_ts, writes, reads),
                    outcome_collected,
                )
            },
    ensures
        outcome == outcome_collected,
{
    let keys = store::touched(writes@, reads@);
    before.lemma_history_wf();
    law_store_collect_replies(before, collected, low, reclaimed);
    law_store_try_commit_replies(before, after, read_ts, commit_ts, writes, reads, outcome);
    law_store_try_commit_replies(
        collected,
        after_collected,
        read_ts,
        commit_ts,
        writes,
        reads,
        outcome_collected,
    );
    law_collection_keeps_conflicts(before.history(), low@, keys, read_ts@, 0);
    if history::any_changed(before.history(), keys, read_ts@) {
        let i = choose|i: int| #[trigger]
            history::first_changed(before.history(), keys, read_ts@, i) && told(outcome)
                == StoreAnswer::Conflict(keys[i].len() as usize);
        let j = choose|j: int| #[trigger]
            history::first_changed(collected.history(), keys, read_ts@, j) && told(
                outcome_collected,
            ) == StoreAnswer::Conflict(keys[j].len() as usize);
        law_collection_keeps_conflicts(before.history(), low@, keys, read_ts@, j);
        lemma_one_first_changed(before.history(), keys, read_ts@, i, j);
    } else {
        assert(outcome->Ok_0 == ());
        assert(outcome_collected->Ok_0 == ());
    }
}

} // verus!
