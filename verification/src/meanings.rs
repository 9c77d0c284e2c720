//! What the words of the contracts come to.
//!
//! The contracts speak of histories, clocks, transactions and records through
//! spec functions. Each law here says what one of them amounts to, in terms of
//! the keys, versions, timestamps and bytes themselves.

use std::sync::Arc;

use vstd::arithmetic::power2::pow2;
use vstd::prelude::*;

use crate::bytes;
use crate::durable;
use crate::durable::{RecordFault, RecordView, RecoveredCommit};
use crate::error::TxnError;
use crate::history;
use crate::history::{History, VersionView, WriteSet, WriteView};
use crate::oracle;
use crate::oracle::Clock;
use crate::recovery;
use crate::store;
use crate::store::WriteEntry;
use crate::text;
use crate::timestamp::Timestamp;
use crate::txn;
use crate::txn::{AppliedCommit, Prepared, TxnView};

verus! {

// ---------------------------------------------------------------------------
// Histories
// ---------------------------------------------------------------------------

/// The snapshot-read rule: a reader at `ts` sees the value of the version `i` at
/// or below `ts` that only versions later than `ts` follow.
pub proof fn law_reader_sees_newest_reached(history: History, key: Seq<u8>, ts: u64, i: int)
    requires
        history.contains_key(key),
        0 <= i < history[key].len(),
        history[key][i].commit_ts <= ts,
        forall|j: int| i < j < history[key].len() ==> (#[trigger] history[key][j]).commit_ts > ts,
    ensures
        history::visible(history, key, ts) == history[key][i].value,
{
    history::lemma_reached_unique(history[key], ts, (i + 1) as nat);
}

/// A reader before the first version of a key sees none.
pub proof fn law_reader_before_the_first_sees_nothing(history: History, key: Seq<u8>, ts: u64)
    requires
        history.contains_key(key) ==> forall|j: int|
            0 <= j < history[key].len() ==> (#[trigger] history[key][j]).commit_ts > ts,
    ensures
        history::visible(history, key, ts) is None,
{
    if history.contains_key(key) {
        history::lemma_reached_unique(history[key], ts, 0);
    }
}

/// A key has changed since `ts` exactly if it has a version stamped later.
pub proof fn law_changed_means_a_later_version(history: History, key: Seq<u8>, ts: u64)
    ensures
        history::changed_since(history, key, ts) <==> history.contains_key(key) && exists|i: int|
            0 <= i < history[key].len() && (#[trigger] history[key][i]).commit_ts > ts,
{
}

/// Keys have changed if one of them has; the first that has is the one before
/// which none has.
pub proof fn law_changed_keys(history: History, keys: Seq<Seq<u8>>, ts: u64, at: int)
    ensures
        history::any_changed(history, keys, ts) <==> exists|i: int|
            0 <= i < keys.len() && history::changed_since(history, #[trigger] keys[i], ts),
        history::first_changed(history, keys, ts, at) <==> {
            &&& 0 <= at < keys.len()
            &&& history::changed_since(history, keys[at], ts)
            &&& forall|j: int|
                0 <= j < at ==> !history::changed_since(history, #[trigger] keys[j], ts)
        },
{
}

/// A history is well formed exactly if every key has a version, and no version
/// comes after one with a later timestamp.
pub proof fn law_well_formed_histories(history: History)
    ensures
        history::history_wf(history) <==> forall|key: Seq<u8>| #[trigger]
            history.contains_key(key) ==> history[key].len() > 0 && forall|i: int, j: int|
                0 <= i <= j < history[key].len() ==> (#[trigger] history[key][i]).commit_ts <= (
                #[trigger] history[key][j]).commit_ts,
{
    assert forall|chain: Seq<VersionView>| #[trigger] history::ascending(chain) <==> forall|
        i: int,
        j: int,
    |
        0 <= i <= j < chain.len() ==> (#[trigger] chain[i]).commit_ts <= (
        #[trigger] chain[j]).commit_ts by {}
}

/// A history is up to `ts` if no version is later; a batch goes to the ends of its
/// chains at `ts` if none of its keys has a later version.
pub proof fn law_nothing_later(history: History, writes: Seq<WriteView>, ts: u64)
    ensures
        history::up_to(history, ts) <==> forall|key: Seq<u8>, i: int|
            history.contains_key(key) && 0 <= i < history[key].len() ==> (
            #[trigger] history[key][i]).commit_ts <= ts,
        history::appends_in_order(history, writes, ts) <==> forall|i: int|
            0 <= i < writes.len() ==> !history::changed_since(
                history,
                (#[trigger] writes[i]).0,
                ts,
            ),
{
    if history::up_to(history, ts) {
        assert forall|key: Seq<u8>, i: int|
            history.contains_key(key) && 0 <= i < history[key].len() implies (
        #[trigger] history[key][i]).commit_ts <= ts by {
            assert(!history::changed_since(history, key, ts));
            assert(history::chain_of(history, key)[i].commit_ts <= ts);
        }
    }
    if forall|key: Seq<u8>, i: int|
        history.contains_key(key) && 0 <= i < history[key].len() ==> (
        #[trigger] history[key][i]).commit_ts <= ts {
        assert forall|key: Seq<u8>| !#[trigger] history::changed_since(history, key, ts) by {}
    }
    let keys = history::written_keys(writes);
    if history::appends_in_order(history, writes, ts) {
        assert forall|i: int| 0 <= i < writes.len() implies !history::changed_since(
            history,
            (#[trigger] writes[i]).0,
            ts,
        ) by {
            assert(!history::changed_since(history, keys[i], ts));
        }
    } else {
        let i = choose|i: int|
            0 <= i < keys.len() && history::changed_since(history, #[trigger] keys[i], ts);
        assert(history::changed_since(history, writes[i].0, ts));
    }
}

/// Applying a batch: nothing for an empty one; each further write adds one
/// version, stamped with the commit, to the end of its key's versions and changes
/// no other key.
pub proof fn law_each_write_adds_one_version(
    history: History,
    writes: Seq<WriteView>,
    key: Seq<u8>,
    value: Option<Seq<u8>>,
    ts: u64,
)
    ensures
        history::apply(history, Seq::empty(), ts) == history,
        ({
            let before = history::apply(history, writes, ts);
            let version = VersionView { commit_ts: ts, value };
            history::apply(history, writes.push((key, value)), ts) == before.insert(
                key,
                if before.contains_key(key) {
                    before[key].push(version)
                } else {
                    seq![version]
                },
            )
        }),
{
    history::lemma_apply_nothing(history, ts);
    history::lemma_apply_push(history, writes, (key, value), ts);
    let before = history::apply(history, writes, ts);
    let version = VersionView { commit_ts: ts, value };
    assert(Seq::<VersionView>::empty().push(version) =~= seq![version]);
}

/// Installing a write set: each written key gains exactly the version written to
/// it, at the end, and every other key keeps the versions it had.
pub proof fn law_install_adds_what_was_written(
    history: History,
    writes: WriteSet,
    ts: u64,
    key: Seq<u8>,
)
    ensures
        history::install(history, writes, ts).contains_key(key) <==> history.contains_key(key)
            || writes.contains_key(key),
        writes.contains_key(key) && history.contains_key(key) ==> history::install(
            history,
            writes,
            ts,
        )[key] == history[key].push(VersionView { commit_ts: ts, value: writes[key] }),
        writes.contains_key(key) && !history.contains_key(key) ==> history::install(
            history,
            writes,
            ts,
        )[key] == seq![VersionView { commit_ts: ts, value: writes[key] }],
        !writes.contains_key(key) && history.contains_key(key) ==> history::install(
            history,
            writes,
            ts,
        )[key] == history[key],
{
    let version = VersionView { commit_ts: ts, value: writes[key] };
    assert(Seq::<VersionView>::empty().push(version) =~= seq![version]);
}

/// A batch lists a write set exactly if no two of its writes name one key, every
/// key of the set is named, and each write has the value that the set has.
pub proof fn law_lists_means_each_write_once(writes: Seq<WriteView>, set: WriteSet)
    ensures
        history::lists(writes, set) <==> {
            &&& forall|i: int, j: int|
                0 <= i < j < writes.len() ==> (#[trigger] writes[i]).0 != (#[trigger] writes[j]).0
            &&& forall|key: Seq<u8>| #[trigger]
                set.contains_key(key) ==> exists|i: int|
                    0 <= i < writes.len() && (#[trigger] writes[i]).0 == key
            &&& forall|i: int|
                0 <= i < writes.len() ==> set.contains_key((#[trigger] writes[i]).0)
                    && set[writes[i].0] == writes[i].1
        },
{
    let keys = history::written_keys(writes);
    assert(keys.len() == writes.len());
    assert forall|i: int| 0 <= i < writes.len() implies #[trigger] keys[i] == writes[i].0 by {}
    if history::lists(writes, set) {
        assert forall|i: int, j: int| 0 <= i < j < writes.len() implies (
        #[trigger] writes[i]).0 != (#[trigger] writes[j]).0 by {
            assert(keys[i] != keys[j]);
        }
        assert forall|key: Seq<u8>| #[trigger] set.contains_key(key) implies exists|i: int|
            0 <= i < writes.len() && (#[trigger] writes[i]).0 == key by {
            let i = keys.index_of(key);
            assert(writes[i].0 == key);
        }
        assert forall|i: int| 0 <= i < writes.len() implies set.contains_key(
            (#[trigger] writes[i]).0,
        ) && set[writes[i].0] == writes[i].1 by {
            assert(keys.contains(keys[i]));
        }
    }
    if (forall|i: int, j: int|
        0 <= i < j < writes.len() ==> (#[trigger] writes[i]).0 != (#[trigger] writes[j]).0) && (
    forall|key: Seq<u8>| #[trigger]
        set.contains_key(key) ==> exists|i: int|
            0 <= i < writes.len() && (#[trigger] writes[i]).0 == key) && (forall|i: int|
        0 <= i < writes.len() ==> set.contains_key((#[trigger] writes[i]).0) && set[writes[i].0]
            == writes[i].1) {
        assert forall|i: int, j: int| 0 <= i < keys.len() && 0 <= j < keys.len() && i
            != j implies keys[i] != keys[j] by {
            assert(writes[i].0 == keys[i] && writes[j].0 == keys[j]);
        }
        assert forall|key: Seq<u8>| #[trigger] set.contains_key(key) <==> keys.contains(key) by {
            if set.contains_key(key) {
                let i = choose|i: int| 0 <= i < writes.len() && (#[trigger] writes[i]).0 == key;
                assert(keys[i] == key);
            }
            if keys.contains(key) {
                let i = keys.index_of(key);
                assert(writes[i].0 == key);
            }
        }
    }
}

/// Collection, for a key with a version `i` at or below the low watermark that
/// only later ones follow: that version and those after it stay, unless it is a
/// tombstone that nothing follows; then the key is gone.
pub proof fn law_collection_keeps_from_the_newest_reached(
    history: History,
    low: u64,
    key: Seq<u8>,
    i: int,
)
    requires
        history.contains_key(key),
        0 <= i < history[key].len(),
        history[key][i].commit_ts <= low,
        forall|j: int| i < j < history[key].len() ==> (#[trigger] history[key][j]).commit_ts > low,
    ensures
        i + 1 == history[key].len() && history[key][i].value is None
            ==> !history::collected(history, low).contains_key(key),
        !(i + 1 == history[key].len() && history[key][i].value is None) ==> history::collected(
            history,
            low,
        ).contains_key(key) && history::collected(history, low)[key] == history[key].skip(i),
{
    let chain = history[key];
    history::lemma_reached_unique(chain, low, (i + 1) as nat);
    assert(history::pruned(chain, low) =~= chain.skip(i));
    assert(chain.skip(i)[0] == chain[i]);
}

/// Collection, for a key with versions after the low watermark only: all stay. A
/// key that is not there does not appear.
pub proof fn law_collection_keeps_what_is_later(history: History, low: u64, key: Seq<u8>)
    requires
        history.contains_key(key) ==> forall|j: int|
            0 <= j < history[key].len() ==> (#[trigger] history[key][j]).commit_ts > low,
    ensures
        history::collected(history, low).contains_key(key) <==> history.contains_key(key),
        history.contains_key(key) ==> history::collected(history, low)[key] == history[key],
{
    if history.contains_key(key) {
        history::lemma_reached_unique(history[key], low, 0);
    }
}

/// The number of versions of a history: none for an empty one, and one more key
/// adds the number of its versions.
pub proof fn law_versions_are_counted(history: History, key: Seq<u8>, chain: Seq<VersionView>)
    requires
        history.dom().finite(),
        !history.contains_key(key),
    ensures
        history::version_count(Map::empty()) == 0,
        history::version_count(history.insert(key, chain)) == history::version_count(history)
            + chain.len(),
{
    history::lemma_version_count_insert(history, key, chain);
}

/// A count that fits a `usize` is returned as it is; one that does not is the
/// largest `usize`.
pub proof fn law_counts_are_exact(n: nat)
    ensures
        n <= usize::MAX ==> history::clamp(n) as nat == n,
        n > usize::MAX ==> history::clamp(n) == usize::MAX,
{
}

// ---------------------------------------------------------------------------
// Bytes
// ---------------------------------------------------------------------------

/// The bytes of a shared value are the bytes behind it; no value has none.
pub proof fn law_values_are_their_bytes(shared: Arc<[u8]>, keys: Seq<Arc<[u8]>>)
    ensures
        bytes::bytes_of(shared) == (*shared)@,
        bytes::value_of(Some(shared)) == Some((*shared)@),
        bytes::value_of(None) is None,
        bytes::keys_of(keys).len() == keys.len(),
        forall|i: int| 0 <= i < keys.len() ==> #[trigger] bytes::keys_of(keys)[i] == (*keys[i])@,
{
}

/// What a batch says is the bytes of its keys and values, in order; the keys it
/// touches are those it writes and then those that were read.
pub proof fn law_batches_are_their_bytes(writes: Seq<WriteEntry>, reads: Seq<Arc<[u8]>>)
    ensures
        store::writes_of(writes).len() == writes.len(),
        forall|i: int|
            0 <= i < writes.len() ==> (#[trigger] store::writes_of(writes)[i]).0
                == (*writes[i].0)@ && store::writes_of(writes)[i].1 == (match writes[i].1 {
                Some(value) => Some((*value)@),
                None => None,
            }),
        store::touched(writes, reads).len() == writes.len() + reads.len(),
        forall|i: int|
            0 <= i < writes.len() ==> #[trigger] store::touched(writes, reads)[i]
                == (*writes[i].0)@,
        forall|i: int|
            0 <= i < reads.len() ==> (*#[trigger] reads[i])@ == store::touched(writes, reads)[
                writes.len() + i],
{
}

/// The FNV-1a hash: its offset basis for no bytes, and for each further byte an
/// exclusive or and a multiplication by its prime.
pub proof fn law_hash_is_fnv_1a(key: Seq<u8>, byte: u8)
    ensures
        bytes::fnv_hash(Seq::empty()) == 0xcbf2_9ce4_8422_2325,
        bytes::fnv_hash(key.push(byte)) == (bytes::fnv_hash(key) ^ (byte as u64)).wrapping_mul(
            0x0000_0100_0000_01b3,
        ),
{
    assert(key.push(byte).drop_last() =~= key);
}

// ---------------------------------------------------------------------------
// Texts
// ---------------------------------------------------------------------------

/// Decimal numerals: a digit for a number below ten, and otherwise the numeral of
/// all but the last digit with the last digit after it.
pub proof fn law_numerals_are_decimal(n: nat, d: nat)
    requires
        d < 10,
    ensures
        text::decimal(d) == seq![(('0' as u32) + d) as char],
        n > 0 ==> text::decimal(10 * n + d) == text::decimal(n).push((('0' as u32) + d) as char),
{
    assert((10 * n + d) / 10 == n);
    assert((10 * n + d) % 10 == d);
}

/// The texts of the errors.
pub proof fn law_error_texts(key_len: usize, context: &'static str, detail: String)
    ensures
        (TxnError::Conflict { key_len }).text() == "write-write conflict on a "@ + text::decimal(
            key_len as nat,
        ) + "-byte key; retry the transaction"@,
        (TxnError::Store { context, detail }).text() == "version store error while "@ + context@
            + ": "@ + detail@,
        (TxnError::Durability { detail }).text() == "durable commit log error: "@ + detail@,
{
}

/// The texts of the faults of a record.
pub proof fn law_fault_texts(byte: u8)
    ensures
        durable::fault_text(RecordFault::Truncated) == "malformed commit record: "@
            + "record ends mid-field"@,
        durable::fault_text(RecordFault::Version(byte)) == "malformed commit record: "@ + (
        "unsupported format version "@ + text::decimal(byte as nat)),
        durable::fault_text(RecordFault::Count) == "malformed commit record: "@
            + "write count exceeds record size"@,
        durable::fault_text(RecordFault::Tag(byte)) == "malformed commit record: "@ + (
        "invalid value tag "@ + text::decimal(byte as nat)),
        durable::fault_text(RecordFault::Trailing) == "malformed commit record: "@
            + "trailing bytes after commit record"@,
{
}

// ---------------------------------------------------------------------------
// Transactions
// ---------------------------------------------------------------------------

/// A fresh transaction has neither written nor read anything.
pub proof fn law_fresh_transactions(read_ts: u64, serializable: bool, key: Seq<u8>)
    ensures
        TxnView::fresh(read_ts, serializable).read_ts == read_ts,
        TxnView::fresh(read_ts, serializable).serializable == serializable,
        !TxnView::fresh(read_ts, serializable).writes.contains_key(key),
        TxnView::fresh(read_ts, serializable).writes.is_empty(),
        !TxnView::fresh(read_ts, serializable).reads.contains(key),
{
    assert(TxnView::fresh(read_ts, serializable).writes =~= Map::empty());
}

/// What was put is what is buffered: writing `value` to `key` makes it the value
/// of that key in the write set, and changes nothing else.
pub proof fn law_write_buffers_what_it_is_given(
    tx: TxnView,
    key: Seq<u8>,
    value: Option<Seq<u8>>,
)
    ensures
        tx.after_write(key, value).writes == tx.writes.insert(key, value),
        tx.after_write(key, value).reads == tx.reads,
        tx.after_write(key, value).read_ts == tx.read_ts,
        tx.after_write(key, value).serializable == tx.serializable,
{
}

/// Reading buffers nothing. A serializable transaction adds the key to those it
/// has read, unless the value came from its own writes, and forgets none; another
/// transaction remembers nothing.
pub proof fn law_read_remembers_what_it_read(tx: TxnView, key: Seq<u8>)
    ensures
        tx.after_read(key).writes == tx.writes,
        tx.after_read(key).read_ts == tx.read_ts,
        tx.after_read(key).serializable == tx.serializable,
        tx.serializable && !tx.writes.contains_key(key) ==> tx.after_read(key).reads
            == tx.reads.insert(key),
        !tx.serializable || tx.writes.contains_key(key) ==> tx.after_read(key).reads == tx.reads,
{
}

/// A transaction sees its own pending write of a key, the very value, and
/// otherwise what its snapshot shows.
pub proof fn law_transaction_sees_its_buffer_first(tx: TxnView, history: History, key: Seq<u8>)
    ensures
        tx.writes.contains_key(key) ==> tx.sees(history, key) == tx.writes[key],
        !tx.writes.contains_key(key) ==> tx.sees(history, key) == history::visible(
            history,
            key,
            tx.read_ts,
        ),
{
}

/// A transaction depends on exactly the keys it has written and the keys it has
/// read, and conflicts exactly if one of these has a version later than its
/// snapshot.
pub proof fn law_conflict_means_a_later_version(tx: TxnView, history: History, key: Seq<u8>)
    ensures
        tx.touches(key) <==> tx.writes.contains_key(key) || tx.reads.contains(key),
        tx.conflicts(history) <==> exists|k: Seq<u8>, i: int|
            {
                &&& tx.writes.contains_key(k) || tx.reads.contains(k)
                &&& history.contains_key(k)
                &&& 0 <= i < history[k].len()
                &&& (#[trigger] history[k][i]).commit_ts > tx.read_ts
            },
{
    if tx.conflicts(history) {
        let k = choose|k: Seq<u8>| #[trigger]
            tx.touches(k) && history::changed_since(history, k, tx.read_ts);
        law_changed_means_a_later_version(history, k, tx.read_ts);
    }
    if exists|k: Seq<u8>, i: int|
        {
            &&& tx.writes.contains_key(k) || tx.reads.contains(k)
            &&& history.contains_key(k)
            &&& 0 <= i < history[k].len()
            &&& (#[trigger] history[k][i]).commit_ts > tx.read_ts
        } {
        let (k, i) = choose|k: Seq<u8>, i: int|
            {
                &&& tx.writes.contains_key(k) || tx.reads.contains(k)
                &&& history.contains_key(k)
                &&& 0 <= i < history[k].len()
                &&& (#[trigger] history[k][i]).commit_ts > tx.read_ts
            };
        law_changed_means_a_later_version(history, k, tx.read_ts);
        assert(tx.touches(k) && history::changed_since(history, k, tx.read_ts));
    }
}

/// What is handed over to a store: the writes, each once with its own value, and
/// exactly the keys that were read.
pub proof fn law_store_is_handed_the_transaction(
    tx: TxnView,
    writes: Seq<WriteEntry>,
    reads: Seq<Arc<[u8]>>,
)
    ensures
        tx.hands_over(writes, reads) <==> {
            &&& history::lists(store::writes_of(writes), tx.writes)
            &&& forall|key: Seq<u8>| #[trigger]
                tx.reads.contains(key) ==> exists|i: int|
                    0 <= i < reads.len() && (*#[trigger] reads[i])@ == key
            &&& forall|i: int|
                0 <= i < reads.len() ==> tx.reads.contains((*#[trigger] reads[i])@)
        },
{
    let keys = bytes::keys_of(reads);
    assert forall|i: int| 0 <= i < reads.len() implies #[trigger] keys[i] == (*reads[i])@ by {}
    if tx.hands_over(writes, reads) {
        assert forall|key: Seq<u8>| #[trigger] tx.reads.contains(key) implies exists|i: int|
            0 <= i < reads.len() && (*#[trigger] reads[i])@ == key by {
            let i = keys.index_of(key);
            assert((*reads[i])@ == key);
        }
        assert forall|i: int| 0 <= i < reads.len() implies tx.reads.contains(
            (*#[trigger] reads[i])@,
        ) by {
            assert(keys.contains(keys[i]));
        }
    }
    if (forall|key: Seq<u8>| #[trigger]
        tx.reads.contains(key) ==> exists|i: int|
            0 <= i < reads.len() && (*#[trigger] reads[i])@ == key) && (forall|i: int|
        0 <= i < reads.len() ==> tx.reads.contains((*#[trigger] reads[i])@)) {
        assert forall|key: Seq<u8>| #[trigger] tx.reads.contains(key) <==> keys.contains(key) by {
            if tx.reads.contains(key) {
                let i = choose|i: int| 0 <= i < reads.len() && (*#[trigger] reads[i])@ == key;
                assert(keys[i] == key);
            }
            if keys.contains(key) {
                let i = keys.index_of(key);
                assert((*reads[i])@ == key);
            }
        }
    }
}

/// What a commit does. Success means that nothing the transaction wrote or read
/// has changed, and installs exactly its writes. A conflict carries the length of
/// a key it wrote or read that has changed. No failure changes anything, and only
/// a store that may fail fails otherwise, with its own kind of error.
pub proof fn law_commit_effects(
    tx: TxnView,
    before: History,
    after: History,
    commit_ts: u64,
    outcome: Result<(), TxnError>,
    may_fail: bool,
)
    requires
        tx.commit_effect(before, after, commit_ts, outcome, may_fail),
    ensures
        match outcome {
            Ok(_) => {
                &&& forall|key: Seq<u8>|
                    tx.writes.contains_key(key) || tx.reads.contains(key)
                        ==> !#[trigger] history::changed_since(before, key, tx.read_ts)
                &&& after == history::install(before, tx.writes, commit_ts)
            },
            Err(TxnError::Conflict { key_len }) => {
                &&& after == before
                &&& exists|key: Seq<u8>|
                    {
                        &&& tx.writes.contains_key(key) || tx.reads.contains(key)
                        &&& #[trigger] history::changed_since(before, key, tx.read_ts)
                        &&& key_len == key.len()
                    }
            },
            Err(e) => after == before && may_fail && e is Store,
        },
{
    match outcome {
        Ok(_) => {
            assert forall|key: Seq<u8>|
                tx.writes.contains_key(key) || tx.reads.contains(
                    key,
                ) implies !#[trigger] history::changed_since(before, key, tx.read_ts) by {
                assert(tx.touches(key));
            }
        },
        Err(TxnError::Conflict { key_len }) => {
            let key = choose|key: Seq<u8>| #[trigger]
                tx.touches(key) && history::changed_since(before, key, tx.read_ts) && key_len
                    == key.len();
            assert(history::changed_since(before, key, tx.read_ts));
        },
        _ => {},
    }
}

/// What a store does with a batch, in the same words.
pub proof fn law_store_commit_effects(
    before: History,
    after: History,
    writes: Seq<WriteEntry>,
    reads: Seq<Arc<[u8]>>,
    read_ts: u64,
    commit_ts: u64,
    outcome: Result<(), TxnError>,
    may_fail: bool,
)
    requires
        store::commit_outcome(
            before,
            after,
            writes,
            reads,
            read_ts,
            commit_ts,
            outcome,
            may_fail,
        ),
    ensures
        match outcome {
            Ok(_) => {
                &&& forall|i: int|
                    0 <= i < writes.len() ==> !history::changed_since(
                        before,
                        (*(#[trigger] writes[i]).0)@,
                        read_ts,
                    )
                &&& forall|i: int|
                    0 <= i < reads.len() ==> !history::changed_since(
                        before,
                        (*#[trigger] reads[i])@,
                        read_ts,
                    )
                &&& after == history::apply(before, store::writes_of(writes), commit_ts)
            },
            Err(TxnError::Conflict { key_len }) => {
                &&& after == before
                &&& (exists|i: int|
                    {
                        &&& 0 <= i < writes.len()
                        &&& history::changed_since(
                            before,
                            (*(#[trigger] writes[i]).0)@,
                            read_ts,
                        )
                        &&& key_len == (*writes[i].0)@.len()
                    }) || (exists|i: int|
                    {
                        &&& 0 <= i < reads.len()
                        &&& history::changed_since(before, (*#[trigger] reads[i])@, read_ts)
                        &&& key_len == (*reads[i])@.len()
                    })
            },
            Err(e) => after == before && may_fail && e is Store,
        },
{
    let keys = store::touched(writes, reads);
    match outcome {
        Ok(_) => {
            assert forall|i: int| 0 <= i < writes.len() implies !history::changed_since(
                before,
                (*(#[trigger] writes[i]).0)@,
                read_ts,
            ) by {
                assert(keys[i] == (*writes[i].0)@);
            }
            assert forall|i: int| 0 <= i < reads.len() implies !history::changed_since(
                before,
                (*#[trigger] reads[i])@,
                read_ts,
            ) by {
                assert(keys[writes.len() + i] == (*reads[i])@);
            }
        },
        Err(TxnError::Conflict { key_len }) => {
            let i = choose|i: int|
                0 <= i < keys.len() && history::changed_since(before, #[trigger] keys[i], read_ts)
                    && key_len == keys[i].len();
            if i < writes.len() {
                assert(keys[i] == (*writes[i].0)@);
            } else {
                assert(keys[i] == (*reads[i - writes.len()])@);
            }
        },
        _ => {},
    }
}

/// The plain outcome of a commit fails exactly as the commit does.
pub proof fn law_plain_outcomes<T>(outcome: Result<T, TxnError>)
    ensures
        txn::plain(outcome) is Ok <==> outcome is Ok,
        outcome matches Err(e) ==> txn::plain(outcome) == Err::<(), TxnError>(e),
{
}

/// How a prepared commit has come out so far, and what its record is: the bytes of
/// a record at its timestamp of some list of the writes.
pub proof fn law_prepared_outcomes(
    result: Result<Timestamp, TxnError>,
    applied: AppliedCommit,
    writes: WriteSet,
)
    ensures
        Prepared::Finished(result).outcome() is Ok <==> result is Ok,
        result matches Err(e) ==> Prepared::Finished(result).outcome() == Err::<(), TxnError>(e),
        Prepared::Applied(applied).outcome() is Ok,
        applied.logs(writes) <==> exists|record: RecordView|
            {
                &&& record.commit_ts == applied.committed_at()
                &&& history::lists(record.writes, writes)
                &&& #[trigger] durable::record_bytes(record) == applied.logged()
            },
{
    if exists|record: RecordView|
        {
            &&& record.commit_ts == applied.committed_at()
            &&& history::lists(record.writes, writes)
            &&& #[trigger] durable::record_bytes(record) == applied.logged()
        } {
        let record = choose|record: RecordView|
            {
                &&& record.commit_ts == applied.committed_at()
                &&& history::lists(record.writes, writes)
                &&& #[trigger] durable::record_bytes(record) == applied.logged()
            };
        assert(record == RecordView { commit_ts: applied.committed_at(), writes: record.writes });
        assert(history::lists(record.writes, writes));
    }
    if applied.logs(writes) {
        let listed = choose|listed: Seq<WriteView>| #[trigger]
            history::lists(listed, writes) && applied.logged() == durable::record_bytes(
                RecordView { commit_ts: applied.committed_at(), writes: listed },
            );
        let record = RecordView { commit_ts: applied.committed_at(), writes: listed };
        assert(durable::record_bytes(record) == applied.logged());
    }
}

// ---------------------------------------------------------------------------
// The clock
// ---------------------------------------------------------------------------

/// The clock of a database in which every commit up to `highest` is applied.
pub proof fn law_clock_starts_after_the_highest(highest: u64, ts: u64)
    requires
        highest < u64::MAX,
    ensures
        Clock::at(highest).next == highest + 1,
        Clock::at(highest).watermark == highest,
        !Clock::at(highest).ahead.contains(ts),
        !Clock::at(highest).readers.contains_key(ts),
        !Clock::at(highest).outstanding(ts),
{
}

/// Handing out a timestamp takes the next one, and nothing else changes. It is
/// outstanding then, as every timestamp is that was handed out and has not
/// completed.
pub proof fn law_allocation_takes_the_next(clock: Clock, ts: u64)
    requires
        clock.next < u64::MAX,
    ensures
        clock.allocate().next == clock.next + 1,
        clock.allocate().watermark == clock.watermark,
        clock.allocate().ahead == clock.ahead,
        clock.allocate().readers == clock.readers,
        clock.outstanding(ts) <==> clock.watermark < ts && ts < clock.next
            && !clock.ahead.contains(ts),
{
}

/// Completing a timestamp: the watermark reaches a later timestamp `t` exactly if
/// every timestamp up to `t` has completed, and what has completed beyond it is
/// remembered.
pub proof fn law_watermark_reaches_what_is_complete(clock: Clock, ts: u64, t: u64)
    ensures
        clock.watermark <= t ==> (t <= clock.complete(ts).watermark <==> forall|done: u64|
            clock.watermark < done <= t ==> done == ts || #[trigger] clock.ahead.contains(done)),
        clock.watermark <= clock.complete(ts).watermark,
        clock.complete(ts).ahead.contains(t) <==> (clock.ahead.contains(t) || t == ts) && t
            > clock.complete(ts).watermark,
        clock.complete(ts).next == clock.next,
        clock.complete(ts).readers == clock.readers,
{
    let done = clock.ahead.insert(ts);
    let end = clock.complete(ts).watermark;
    oracle::lemma_run_end(clock.watermark, done);
    if t <= end {
        assert forall|d: u64| clock.watermark < d <= t implies d == ts
            || #[trigger] clock.ahead.contains(d) by {
            assert(done.contains(d));
        }
    }
    if clock.watermark <= t && t > end && forall|d: u64|
        clock.watermark < d <= t ==> d == ts || #[trigger] clock.ahead.contains(d) {
        let d = (end + 1) as u64;
        assert(d == ts || clock.ahead.contains(d));
        assert(done.contains(d));
    }
}

/// A reader that registers adds one to those at the watermark, and one that
/// leaves takes one off those at its timestamp, if there are any. Nothing else
/// changes.
pub proof fn law_readers_are_counted(clock: Clock, ts: u64, other: u64)
    requires
        clock.wf(),
    ensures
        clock.reader_count(other) == (if clock.readers.contains_key(other) {
            clock.readers[other] as nat
        } else {
            0
        }),
        clock.reader_count(clock.watermark) < usize::MAX ==> clock.register().reader_count(other)
            == clock.reader_count(other) + (if other
            == clock.watermark {
            1nat
        } else {
            0
        }),
        clock.release(ts).reader_count(other) == clock.reader_count(other) - (if other == ts
            && clock.reader_count(ts) > 0 {
            1int
        } else {
            0
        }),
        clock.reader_count(clock.watermark) < usize::MAX ==> (clock.register().readers.contains_key(
            other,
        ) <==> clock.register().reader_count(other) > 0),
        clock.release(ts).readers.contains_key(other) <==> clock.release(ts).reader_count(other)
            > 0,
        clock.register().next == clock.next && clock.release(ts).next == clock.next,
        clock.register().watermark == clock.watermark && clock.release(ts).watermark
            == clock.watermark,
        clock.register().ahead == clock.ahead && clock.release(ts).ahead == clock.ahead,
{
    if clock.readers.contains_key(other) {
        assert(clock.readers[other] > 0);
    }
    if clock.readers.contains_key(ts) {
        assert(clock.readers[ts] > 0);
    }
    if clock.readers.contains_key(clock.watermark) {
        assert(clock.readers[clock.watermark] > 0);
    }
}

/// A reader may look at a timestamp exactly if it is not before the watermark, or
/// not before some live reader; the low watermark is the least such timestamp.
pub proof fn law_low_watermark_is_least(clock: Clock, low: u64)
    requires
        clock.wf(),
    ensures
        clock.readable(low) <==> clock.watermark <= low || exists|reader: u64| #[trigger]
            clock.reader_count(reader) > 0 && reader <= low,
        clock.is_low_watermark(low) <==> clock.readable(low) && forall|ts: u64|
            ts < low ==> !#[trigger] clock.readable(ts),
{
    assert forall|reader: u64| #[trigger] clock.readers.contains_key(reader) <==>
        clock.reader_count(reader) > 0 by {}
    if clock.readable(low) && clock.watermark > low {
        let reader = choose|reader: u64| #[trigger]
            clock.readers.contains_key(reader) && reader <= low;
        assert(clock.reader_count(reader) > 0);
    }
    if clock.watermark > low && exists|reader: u64| #[trigger]
        clock.reader_count(reader) > 0 && reader <= low {
        let reader = choose|reader: u64| #[trigger]
            clock.reader_count(reader) > 0 && reader <= low;
        assert(clock.readers.contains_key(reader));
    }
    if clock.is_low_watermark(low) {
        if clock.readers.dom() == Set::<u64>::empty() {
            assert forall|ts: u64| ts < low implies !#[trigger] clock.readable(ts) by {
                assert forall|reader: u64| !#[trigger] clock.readers.contains_key(reader) by {
                    assert(!clock.readers.dom().contains(reader));
                }
            }
        } else {
            assert(clock.readers.contains_key(low));
            assert(low <= clock.watermark);
        }
    }
    if clock.readable(low) && forall|ts: u64| ts < low ==> !#[trigger] clock.readable(ts) {
        if clock.readers.dom() == Set::<u64>::empty() {
            assert forall|reader: u64| !#[trigger] clock.readers.contains_key(reader) by {
                assert(!clock.readers.dom().contains(reader));
            }
            if clock.watermark < low {
                assert(clock.readable(clock.watermark));
            }
        } else {
            assert forall|reader: u64| #[trigger] clock.readers.contains_key(reader) implies low
                <= reader by {
                if reader < low {
                    assert(clock.readable(reader));
                }
            }
            assert(exists|reader: u64| clock.readers.dom().contains(reader)) by {
                if forall|reader: u64| !clock.readers.dom().contains(reader) {
                    assert(clock.readers.dom() =~= Set::<u64>::empty());
                }
            }
            let reader = choose|reader: u64| clock.readers.dom().contains(reader);
            assert(clock.readers.contains_key(reader));
            if clock.watermark <= low {
                assert(reader <= clock.watermark);
                assert(low <= reader);
            }
        }
    }
}

/// A clock is well formed exactly if the watermark stands right before the first
/// outstanding timestamp, only timestamps between it and the next one have
/// completed early, and every live reader is at or below it.
pub proof fn law_well_formed_clocks(clock: Clock)
    ensures
        clock.wf() <==> {
            &&& clock.watermark < clock.next
            &&& clock.watermark + 1 < clock.next ==> !clock.ahead.contains(
                (clock.watermark + 1) as u64,
            )
            &&& forall|ts: u64| #[trigger]
                clock.ahead.contains(ts) ==> clock.watermark < ts && ts < clock.next
            &&& forall|ts: u64| #[trigger]
                clock.readers.contains_key(ts) ==> ts <= clock.watermark && clock.readers[ts] > 0
        },
{
}

// ---------------------------------------------------------------------------
// Records
// ---------------------------------------------------------------------------

/// Integers in records stand with the least significant byte first, and are read
/// back so.
pub proof fn law_integers_are_little_endian(x: nat, n: nat, byte: u8, s: Seq<u8>)
    ensures
        durable::le_bytes(x, 0) == Seq::<u8>::empty(),
        durable::le_bytes(x, n + 1) == seq![(x % 256) as u8] + durable::le_bytes(x / 256, n),
        durable::le_value(Seq::empty()) == 0,
        durable::le_value(seq![byte] + s) == byte + 256 * durable::le_value(s),
{
    assert((seq![byte] + s).skip(1) =~= s);
    assert((n + 1 - 1) as nat == n);
}

/// The layout of a record: the version byte 1, the timestamp in eight bytes, the
/// count in four, and the writes in order, each a key with its length in four
/// bytes and then a zero byte for a delete, or a one byte and the value with its
/// length.
pub proof fn law_record_layout(
    commit_ts: u64,
    writes: Seq<WriteView>,
    key: Seq<u8>,
    value: Seq<u8>,
    write: WriteView,
)
    ensures
        durable::record_bytes(RecordView { commit_ts, writes }) == seq![1u8] + durable::le_bytes(
            commit_ts as nat,
            8,
        ) + durable::le_bytes(writes.len(), 4) + durable::entries_bytes(writes),
        durable::entries_bytes(Seq::empty()) == Seq::<u8>::empty(),
        durable::entries_bytes(writes.push(write)) == durable::entries_bytes(writes)
            + durable::entry_bytes(write),
        durable::entry_bytes((key, None)) == durable::le_bytes(key.len(), 4) + key + seq![0u8],
        durable::entry_bytes((key, Some(value))) == durable::le_bytes(key.len(), 4) + key + (
        seq![1u8] + durable::le_bytes(value.len(), 4) + value),
{
    durable::lemma_entries_bytes_push(writes, write);
}

/// A record fits the format exactly if its keys, values and count have lengths of
/// 32 bits.
pub proof fn law_fitting_records(record: RecordView)
    ensures
        durable::record_fits(record) <==> record.writes.len() <= u32::MAX && forall|i: int|
            0 <= i < record.writes.len() ==> (#[trigger] record.writes[i]).0.len() <= u32::MAX && (
            record.writes[i].1 matches Some(value) ==> value.len() <= u32::MAX),
{
    assert forall|write: WriteView| #[trigger]
        durable::write_fits(write) <==> write.0.len() <= u32::MAX && (
        write.1 matches Some(value) ==> value.len() <= u32::MAX) by {}
    if record.writes.len() <= u32::MAX && forall|i: int|
        0 <= i < record.writes.len() ==> (#[trigger] record.writes[i]).0.len() <= u32::MAX && (
        record.writes[i].1 matches Some(value) ==> value.len() <= u32::MAX) {
        assert forall|i: int| 0 <= i < record.writes.len() implies durable::write_fits(
            #[trigger] record.writes[i],
        ) by {}
    }
    if durable::record_fits(record) {
        assert forall|i: int| 0 <= i < record.writes.len() implies (
        #[trigger] record.writes[i]).0.len() <= u32::MAX && (
        record.writes[i].1 matches Some(value) ==> value.len() <= u32::MAX) by {
            assert(durable::write_fits(record.writes[i]));
        }
    }
}

/// The faults of a record, from the front: no byte, a version other than 1, fewer
/// than thirteen bytes, and a count that five bytes a write would not allow. What
/// follows is the fault of the writes, or bytes that are left over.
pub proof fn law_record_faults(s: Seq<u8>)
    ensures
        s.len() == 0 ==> durable::parse_record(s) == Err::<RecordView, RecordFault>(
            RecordFault::Truncated,
        ),
        s.len() > 0 && s[0] != 1 ==> durable::parse_record(s) == Err::<RecordView, RecordFault>(
            RecordFault::Version(s[0]),
        ),
        0 < s.len() < 13 && s[0] == 1 ==> durable::parse_record(s) == Err::<
            RecordView,
            RecordFault,
        >(RecordFault::Truncated),
        s.len() >= 13 && s[0] == 1 ==> {
            let count = durable::le_value(s.subrange(9, 13));
            durable::parse_record(s) == if 5 * count > s.len() - 13 {
                Err::<RecordView, RecordFault>(RecordFault::Count)
            } else {
                match durable::parse_entries(s.skip(13), count) {
                    Err(fault) => Err(fault),
                    Ok((writes, rest)) => if rest.len() > 0 {
                        Err(RecordFault::Trailing)
                    } else {
                        Ok(
                            RecordView {
                                commit_ts: durable::le_value(s.subrange(1, 9)) as u64,
                                writes,
                            },
                        )
                    },
                }
            }
        },
{
    if s.len() >= 13 && s[0] == 1 {
        let count = durable::le_value(s.subrange(9, 13));
        let left = s.len() - 13;
        assert(5 * count > left <==> count > left / 5);
    }
}

/// The faults of the writes of a record, one after the other: a length that runs
/// past the end, no tag, or a tag that is neither zero nor one.
pub proof fn law_write_faults(s: Seq<u8>, count: nat)
    ensures
        durable::parse_entries(s, 0) == Ok::<(Seq<WriteView>, Seq<u8>), RecordFault>(
            (Seq::empty(), s),
        ),
        durable::parse_entries(s, count + 1) == (match durable::parse_entry(s) {
            Err(fault) => Err::<(Seq<WriteView>, Seq<u8>), RecordFault>(fault),
            Ok((write, rest)) => match durable::parse_entries(rest, count) {
                Err(fault) => Err(fault),
                Ok((more, rest)) => Ok((seq![write] + more, rest)),
            },
        }),
        durable::parse_entry(s) == (match durable::parse_field(s) {
            Err(fault) => Err::<(WriteView, Seq<u8>), RecordFault>(fault),
            Ok((key, rest)) => if rest.len() == 0 {
                Err(RecordFault::Truncated)
            } else if rest[0] == 0 {
                Ok(((key, None), rest.skip(1)))
            } else if rest[0] == 1 {
                match durable::parse_field(rest.skip(1)) {
                    Err(fault) => Err(fault),
                    Ok((value, left)) => Ok(((key, Some(value)), left)),
                }
            } else {
                Err(RecordFault::Tag(rest[0]))
            },
        }),
        durable::parse_field(s) == (if s.len() < 4 || s.len() < 4 + durable::le_value(s.take(4)) {
            Err::<(Seq<u8>, Seq<u8>), RecordFault>(RecordFault::Truncated)
        } else {
            Ok(
                (
                    s.subrange(4, (4 + durable::le_value(s.take(4))) as int),
                    s.skip((4 + durable::le_value(s.take(4))) as int),
                ),
            )
        }),
{
    assert((count + 1 - 1) as nat == count);
}

// ---------------------------------------------------------------------------
// Recovery
// ---------------------------------------------------------------------------

/// A log says what its entries say, one after the other, up to the first that is
/// not a record.
pub proof fn law_log_is_its_entries(log: Seq<Seq<u8>>, entry: Seq<u8>)
    ensures
        recovery::parse_log(Seq::empty()) == Ok::<Seq<RecordView>, RecordFault>(Seq::empty()),
        recovery::parse_log(log.push(entry)) == (match recovery::parse_log(log) {
            Err(fault) => Err::<Seq<RecordView>, RecordFault>(fault),
            Ok(records) => match durable::parse_record(entry) {
                Err(fault) => Err(fault),
                Ok(record) => Ok(records.push(record)),
            },
        }),
{
    assert(log.push(entry).drop_last() =~= log);
}

/// Commit order: each further commit goes after all that are not later than it
/// and before all that are; the others keep their places.
pub proof fn law_commit_takes_its_place(commits: Seq<RecordView>, commit: RecordView)
    ensures
        recovery::in_commit_order(Seq::empty()) == Seq::<RecordView>::empty(),
        exists|at: int|
            {
                &&& 0 <= at <= recovery::in_commit_order(commits).len()
                &&& #[trigger] recovery::in_commit_order(commits).insert(at, commit)
                    == recovery::in_commit_order(commits.push(commit))
                &&& forall|i: int|
                    0 <= i < at ==> (#[trigger] recovery::in_commit_order(commits)[i]).commit_ts
                        <= commit.commit_ts
                &&& forall|i: int|
                    at <= i < recovery::in_commit_order(commits).len() ==> (
                    #[trigger] recovery::in_commit_order(commits)[i]).commit_ts > commit.commit_ts
            },
{
    let before = recovery::in_commit_order(commits);
    let at = recovery::place(before, commit.commit_ts) as int;
    recovery::lemma_in_commit_order(commits);
    recovery::lemma_place(before, commit.commit_ts);
    assert(commits.push(commit).drop_last() =~= commits);
    assert(before.insert(at, commit) == recovery::in_commit_order(commits.push(commit)));
}

/// Recovery applies the commits of a log in commit order, each in full, to an
/// empty history.
pub proof fn law_recovery_replays_every_commit(
    log: Seq<RecordView>,
    history: History,
    commits: Seq<RecordView>,
    commit: RecordView,
)
    ensures
        recovery::recovered(log) == recovery::replay(
            Map::empty(),
            recovery::in_commit_order(log),
        ),
        recovery::replay(history, Seq::empty()) == history,
        recovery::replay(history, commits.push(commit)) == history::apply(
            recovery::replay(history, commits),
            commit.writes,
            commit.commit_ts,
        ),
{
    assert(commits.push(commit).drop_last() =~= commits);
}

/// The highest timestamp of a log is one of its timestamps, and none is later;
/// zero for an empty log.
pub proof fn law_highest_is_a_maximum(commits: Seq<RecordView>)
    ensures
        commits.len() == 0 ==> recovery::highest(commits) == 0,
        forall|i: int|
            0 <= i < commits.len() ==> (#[trigger] commits[i]).commit_ts <= recovery::highest(
                commits,
            ),
        commits.len() > 0 ==> exists|i: int|
            0 <= i < commits.len() && (#[trigger] commits[i]).commit_ts == recovery::highest(
                commits,
            ),
{
    recovery::lemma_highest(commits);
}

/// Commits are in order if none is later than one after it, and distinct if no two
/// share a timestamp.
pub proof fn law_orders_of_commits(commits: Seq<RecordView>)
    ensures
        recovery::ordered(commits) <==> forall|i: int, j: int|
            0 <= i <= j < commits.len() ==> (#[trigger] commits[i]).commit_ts <= (
            #[trigger] commits[j]).commit_ts,
        recovery::distinct(commits) <==> forall|i: int, j: int|
            0 <= i < j < commits.len() ==> (#[trigger] commits[i]).commit_ts != (
            #[trigger] commits[j]).commit_ts,
{
}

/// What recovered commits and log entries say is what they hold, one for one.
pub proof fn law_recovered_commits_are_their_contents(
    commits: Seq<RecoveredCommit>,
    log: Seq<Vec<u8>>,
)
    ensures
        recovery::records_of(commits).len() == commits.len(),
        forall|i: int|
            0 <= i < commits.len() ==> (#[trigger] recovery::records_of(commits)[i]).commit_ts
                == commits[i].commit_ts@ && recovery::records_of(commits)[i].writes
                == store::writes_of(commits[i].writes@),
        recovery::entries_of(log).len() == log.len(),
        forall|i: int|
            0 <= i < log.len() ==> #[trigger] recovery::entries_of(log)[i] == log[i]@,
{
}

// ---------------------------------------------------------------------------
// Shards
// ---------------------------------------------------------------------------

/// A power of two is one of one, two, four, and so on.
pub proof fn law_powers_of_two(n: nat)
    ensures
        store::is_power_of_two(n) <==> exists|k: nat| n == #[trigger] pow2(k),
    decreases n,
{
    vstd::arithmetic::power2::lemma2_to64();
    if store::is_power_of_two(n) {
        if n == 1 {
            assert(n == pow2(0));
        } else {
            law_powers_of_two(n / 2);
            let k = choose|k: nat| n / 2 == #[trigger] pow2(k);
            vstd::arithmetic::power2::lemma_pow2_unfold(k + 1);
            assert(n == pow2(k + 1));
        }
    }
    if exists|k: nat| n == #[trigger] pow2(k) {
        let k = choose|k: nat| n == #[trigger] pow2(k);
        if k > 0 {
            vstd::arithmetic::power2::lemma_pow2_unfold(k);
            vstd::arithmetic::power2::lemma_pow2_pos((k - 1) as nat);
            assert(n / 2 == pow2((k - 1) as nat));
            law_powers_of_two(n / 2);
        }
    }
}

} // verus!
