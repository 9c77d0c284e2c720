//! The mathematical model of a version store: for every key, the versions that
//! commits have installed, oldest first.

use vstd::prelude::*;

verus! {

/// One version of a key: the timestamp it became visible at and its value.
/// A `value` of `None` is a tombstone.
#[verifier::ext_equal]
pub struct VersionView {
    /// The timestamp of the commit that wrote it.
    pub commit_ts: u64,
    /// What was written.
    pub value: Option<Seq<u8>>,
}

/// What a version store holds: each key's versions, oldest first.
pub type History = Map<Seq<u8>, Seq<VersionView>>;

/// One write of a commit: a key and its new value, or `None` for a delete.
pub type WriteView = (Seq<u8>, Option<Seq<u8>>);

/// What a transaction writes: each key once.
pub type WriteSet = Map<Seq<u8>, Option<Seq<u8>>>;

/// The versions of `key`; none if it was never written.
pub open spec fn chain_of(history: History, key: Seq<u8>) -> Seq<VersionView> {
    if history.contains_key(key) {
        history[key]
    } else {
        Seq::empty()
    }
}

/// The versions of a key stand in the order of their timestamps.
pub open spec fn ascending(chain: Seq<VersionView>) -> bool {
    forall|i: int, j: int|
        0 <= i <= j < chain.len() ==> (#[trigger] chain[i]).commit_ts <= (
        #[trigger] chain[j]).commit_ts
}

/// Every key of the history has at least one version, in timestamp order.
pub open spec fn history_wf(history: History) -> bool {
    forall|key: Seq<u8>| #[trigger]
        history.contains_key(key) ==> history[key].len() > 0 && ascending(history[key])
}

/// How many versions of a chain a reader at `ts` has reached: the position
/// after the newest version at or below `ts`.
pub open spec fn reached(chain: Seq<VersionView>, ts: u64) -> nat
    decreases chain.len(),
{
    if chain.len() == 0 {
        0
    } else if chain.last().commit_ts <= ts {
        chain.len()
    } else {
        reached(chain.drop_last(), ts)
    }
}

/// The value of the newest version at or below `ts`: `None` if there is no such
/// version, or if it is a tombstone.
pub open spec fn visible_in(chain: Seq<VersionView>, ts: u64) -> Option<Seq<u8>> {
    let n = reached(chain, ts);
    if n == 0 {
        None
    } else {
        chain[n - 1].value
    }
}

/// The snapshot-read rule: what a reader at `ts` sees of `key`.
pub open spec fn visible(history: History, key: Seq<u8>, ts: u64) -> Option<Seq<u8>> {
    visible_in(chain_of(history, key), ts)
}

/// A chain has a version newer than `ts`.
pub open spec fn newer_in(chain: Seq<VersionView>, ts: u64) -> bool {
    exists|i: int| 0 <= i < chain.len() && (#[trigger] chain[i]).commit_ts > ts
}

/// `key` has a version newer than `ts`: it has changed since a snapshot at `ts`.
pub open spec fn changed_since(history: History, key: Seq<u8>, ts: u64) -> bool {
    newer_in(chain_of(history, key), ts)
}

/// Some of `keys` has changed since a snapshot at `ts`.
pub open spec fn any_changed(history: History, keys: Seq<Seq<u8>>, ts: u64) -> bool {
    exists|i: int| 0 <= i < keys.len() && changed_since(history, #[trigger] keys[i], ts)
}

/// The first of `keys` that has changed since a snapshot at `ts` is `keys[i]`.
pub open spec fn first_changed(history: History, keys: Seq<Seq<u8>>, ts: u64, i: int) -> bool {
    &&& 0 <= i < keys.len()
    &&& changed_since(history, keys[i], ts)
    &&& forall|j: int| 0 <= j < i ==> !changed_since(history, #[trigger] keys[j], ts)
}

/// The keys of a batch of writes.
pub open spec fn written_keys(writes: Seq<WriteView>) -> Seq<Seq<u8>> {
    Seq::new(writes.len(), |i: int| writes[i].0)
}

/// The versions that `writes` adds to `key` when it commits at `ts`, in order.
pub open spec fn written(writes: Seq<WriteView>, ts: u64, key: Seq<u8>) -> Seq<VersionView>
    decreases writes.len(),
{
    if writes.len() == 0 {
        Seq::empty()
    } else {
        let before = written(writes.drop_last(), ts, key);
        if writes.last().0 == key {
            before.push(VersionView { commit_ts: ts, value: writes.last().1 })
        } else {
            before
        }
    }
}

/// The history after `writes` commit at `ts`: every written key gains a version.
pub open spec fn apply(history: History, writes: Seq<WriteView>, ts: u64) -> History {
    Map::new(
        |key: Seq<u8>| history.contains_key(key) || written(writes, ts, key).len() > 0,
        |key: Seq<u8>| chain_of(history, key) + written(writes, ts, key),
    )
}

/// `writes` names each key of the write set `set` once, with its value.
pub open spec fn lists(writes: Seq<WriteView>, set: WriteSet) -> bool {
    &&& written_keys(writes).no_duplicates()
    &&& forall|key: Seq<u8>| #[trigger]
        set.contains_key(key) <==> written_keys(writes).contains(key)
    &&& forall|i: int| 0 <= i < writes.len() ==> set[(#[trigger] writes[i]).0] == writes[i].1
}

/// The history after a write set commits at `ts`.
pub open spec fn install(history: History, writes: WriteSet, ts: u64) -> History {
    Map::new(
        |key: Seq<u8>| history.contains_key(key) || writes.contains_key(key),
        |key: Seq<u8>|
            if writes.contains_key(key) {
                chain_of(history, key).push(VersionView { commit_ts: ts, value: writes[key] })
            } else {
                history[key]
            },
    )
}

/// No key of `writes` has a version newer than `ts`, so that a version stamped
/// `ts` goes to the end of its chain.
pub open spec fn appends_in_order(history: History, writes: Seq<WriteView>, ts: u64) -> bool {
    !any_changed(history, written_keys(writes), ts)
}

/// Every version of the history is stamped `ts` or earlier.
pub open spec fn up_to(history: History, ts: u64) -> bool {
    forall|key: Seq<u8>| !#[trigger] changed_since(history, key, ts)
}

/// The versions of a key that a reader at or after `low` can still observe: the
/// newest at or below `low`, and all later ones.
pub open spec fn pruned(chain: Seq<VersionView>, low: u64) -> Seq<VersionView> {
    let n = reached(chain, low);
    if n > 1 {
        chain.skip(n - 1)
    } else {
        chain
    }
}

/// A chain whose only version is a tombstone at or below `low`: the key is
/// absent for every reader at or after `low`.
pub open spec fn dead(chain: Seq<VersionView>, low: u64) -> bool {
    chain.len() == 1 && chain[0].commit_ts <= low && chain[0].value is None
}

/// The history after garbage collection at the low watermark `low`.
pub open spec fn collected(history: History, low: u64) -> History {
    Map::new(
        |key: Seq<u8>| history.contains_key(key) && !dead(pruned(history[key], low), low),
        |key: Seq<u8>| pruned(history[key], low),
    )
}

/// Number of versions in a history.
pub open spec fn version_count(history: History) -> nat
    decreases history.dom().len(), 
    when history.dom().finite()
{
    if history.dom().len() == 0 {
        0
    } else {
        let key = history.dom().choose();
        history[key].len() + version_count(history.remove(key))
    }
}

/// `n` as a `usize`, or the largest `usize` if it is larger.
pub open spec fn clamp(n: nat) -> usize {
    if n <= usize::MAX {
        n as usize
    } else {
        usize::MAX
    }
}

// ---------------------------------------------------------------------------
// Chains
// ---------------------------------------------------------------------------

/// `reached` splits a chain: a version at or below `ts` ends the first part, and
/// everything after it is newer than `ts`.
pub proof fn lemma_reached(chain: Seq<VersionView>, ts: u64)
    ensures
        reached(chain, ts) <= chain.len(),
        reached(chain, ts) > 0 ==> chain[reached(chain, ts) - 1].commit_ts <= ts,
        forall|i: int|
            reached(chain, ts) <= i < chain.len() ==> (#[trigger] chain[i]).commit_ts > ts,
    decreases chain.len(),
{
    if chain.len() > 0 && chain.last().commit_ts > ts {
        let front = chain.drop_last();
        lemma_reached(front, ts);
        assert forall|i: int| reached(chain, ts) <= i < chain.len() implies (
        #[trigger] chain[i]).commit_ts > ts by {
            if i < front.len() {
                assert(front[i] == chain[i]);
            }
        }
    }
}

/// A position that splits a chain as `reached` does is `reached`.
pub proof fn lemma_reached_unique(chain: Seq<VersionView>, ts: u64, n: nat)
    requires
        n <= chain.len(),
        n > 0 ==> chain[n - 1].commit_ts <= ts,
        forall|i: int| n <= i < chain.len() ==> (#[trigger] chain[i]).commit_ts > ts,
    ensures
        reached(chain, ts) == n,
{
    lemma_reached(chain, ts);
    let r = reached(chain, ts);
    if r < n {
        assert(chain[n - 1].commit_ts > ts);
    }
    if n < r {
        assert(chain[r - 1].commit_ts > ts);
    }
}

/// Of an ascending chain, the last version is the newest.
pub proof fn lemma_newer_is_last(chain: Seq<VersionView>, ts: u64)
    requires
        ascending(chain),
    ensures
        newer_in(chain, ts) <==> chain.len() > 0 && chain.last().commit_ts > ts,
{
    if chain.len() > 0 && chain.last().commit_ts > ts {
        assert(chain[chain.len() - 1].commit_ts > ts);
    }
}

/// Versions newer than `ts` at the end of a chain do not show at `ts`.
pub proof fn lemma_reached_ignores_newer(
    chain: Seq<VersionView>,
    more: Seq<VersionView>,
    ts: u64,
)
    requires
        forall|i: int| 0 <= i < more.len() ==> (#[trigger] more[i]).commit_ts > ts,
    ensures
        reached(chain + more, ts) == reached(chain, ts),
        visible_in(chain + more, ts) == visible_in(chain, ts),
{
    lemma_reached(chain, ts);
    let n = reached(chain, ts);
    assert forall|i: int| n <= i < (chain + more).len() implies (
    #[trigger] (chain + more)[i]).commit_ts > ts by {
        if i >= chain.len() {
            assert((chain + more)[i] == more[i - chain.len()]);
        } else {
            assert((chain + more)[i] == chain[i]);
        }
    }
    lemma_reached_unique(chain + more, ts, n);
}

/// Pruning at `low` changes nothing that a reader at or after `low` sees.
pub proof fn lemma_pruned(chain: Seq<VersionView>, low: u64, ts: u64)
    requires
        ascending(chain),
        low <= ts,
    ensures
        ascending(pruned(chain, low)),
        chain.len() > 0 ==> pruned(chain, low).len() > 0,
        visible_in(pruned(chain, low), ts) == visible_in(chain, ts),
        newer_in(pruned(chain, low), ts) == newer_in(chain, ts),
{
    let n = reached(chain, low);
    lemma_reached(chain, low);
    lemma_reached(chain, ts);
    if n > 1 {
        let kept = chain.skip(n - 1);
        let r = reached(chain, ts);
        assert(r >= n) by {
            if r < n {
                assert(chain[n - 1].commit_ts > ts);
            }
        }
        assert(ascending(kept));
        assert forall|i: int| r - (n - 1) <= i < kept.len() implies (
        #[trigger] kept[i]).commit_ts > ts by {
            assert(kept[i] == chain[i + (n - 1)]);
        }
        lemma_reached_unique(kept, ts, (r - (n - 1)) as nat);
        lemma_newer_is_last(kept, ts);
        lemma_newer_is_last(chain, ts);
    }
}

/// A dead chain shows nothing, and nothing newer, at or after `low`.
pub proof fn lemma_dead(chain: Seq<VersionView>, low: u64, ts: u64)
    requires
        dead(chain, low),
        low <= ts,
    ensures
        visible_in(chain, ts) is None,
        !newer_in(chain, ts),
{
    lemma_reached(chain, ts);
}

// ---------------------------------------------------------------------------
// Histories
// ---------------------------------------------------------------------------

/// What `written` holds: versions stamped `ts`, one for each write of the key.
pub proof fn lemma_written(writes: Seq<WriteView>, ts: u64, key: Seq<u8>)
    ensures
        forall|i: int|
            0 <= i < written(writes, ts, key).len() ==> (#[trigger] written(
                writes,
                ts,
                key,
            )[i]).commit_ts == ts,
        written(writes, ts, key).len() > 0 <==> written_keys(writes).contains(key),
        written(writes, ts, key).len() <= writes.len(),
    decreases writes.len(),
{
    let keys = written_keys(writes);
    if writes.len() > 0 {
        let front = writes.drop_last();
        lemma_written(front, ts, key);
        assert(written_keys(front) =~= keys.drop_last());
        if writes.last().0 == key {
            assert(keys[writes.len() - 1] == key);
        } else {
            if keys.contains(key) {
                let i = choose|i: int| 0 <= i < keys.len() && keys[i] == key;
                assert(written_keys(front)[i] == key);
            }
            if written_keys(front).contains(key) {
                let i = choose|i: int|
                    0 <= i < written_keys(front).len() && written_keys(front)[i] == key;
                assert(keys[i] == key);
            }
        }
    }
}

/// A key's versions after a batch commits.
pub proof fn lemma_apply_chain(history: History, writes: Seq<WriteView>, ts: u64, key: Seq<u8>)
    ensures
        chain_of(apply(history, writes, ts), key) == chain_of(history, key) + written(
            writes,
            ts,
            key,
        ),
{
    assert(chain_of(apply(history, writes, ts), key) =~= chain_of(history, key) + written(
        writes,
        ts,
        key,
    ));
}

/// Applying a batch is applying its writes one by one.
pub proof fn lemma_apply_push(history: History, writes: Seq<WriteView>, write: WriteView, ts: u64)
    ensures
        apply(history, writes.push(write), ts) == apply(history, writes, ts).insert(
            write.0,
            chain_of(apply(history, writes, ts), write.0).push(
                VersionView { commit_ts: ts, value: write.1 },
            ),
        ),
{
    let before = apply(history, writes, ts);
    let after = apply(history, writes.push(write), ts);
    assert(writes.push(write).drop_last() =~= writes);
    assert forall|key: Seq<u8>| true implies #[trigger] written(writes.push(write), ts, key) == (
    if key == write.0 {
        written(writes, ts, key).push(VersionView { commit_ts: ts, value: write.1 })
    } else {
        written(writes, ts, key)
    }) by {}
    lemma_apply_chain(history, writes, ts, write.0);
    assert(after =~= before.insert(
        write.0,
        chain_of(before, write.0).push(VersionView { commit_ts: ts, value: write.1 }),
    ));
}

/// An empty batch changes nothing.
pub proof fn lemma_apply_nothing(history: History, ts: u64)
    ensures
        apply(history, Seq::empty(), ts) == history,
{
    assert(apply(history, Seq::empty(), ts) =~= history);
}

/// A batch that goes to the ends of its chains keeps a history well formed.
pub proof fn lemma_apply_wf(history: History, writes: Seq<WriteView>, ts: u64)
    requires
        history_wf(history),
        appends_in_order(history, writes, ts),
    ensures
        history_wf(apply(history, writes, ts)),
{
    let after = apply(history, writes, ts);
    assert forall|key: Seq<u8>| #[trigger] after.contains_key(key) implies after[key].len() > 0
        && ascending(after[key]) by {
        let old_chain = chain_of(history, key);
        let new = written(writes, ts, key);
        lemma_written(writes, ts, key);
        assert(after[key] == old_chain + new);
        if new.len() > 0 {
            let i = choose|i: int|
                0 <= i < written_keys(writes).len() && written_keys(writes)[i] == key;
            assert(!changed_since(history, written_keys(writes)[i], ts));
        }
        assert forall|i: int, j: int| 0 <= i <= j < after[key].len() implies (
        #[trigger] after[key][i]).commit_ts <= (#[trigger] after[key][j]).commit_ts by {
            if j >= old_chain.len() {
                assert(after[key][j] == new[j - old_chain.len()]);
                if i >= old_chain.len() {
                    assert(after[key][i] == new[i - old_chain.len()]);
                } else {
                    assert(after[key][i] == old_chain[i]);
                }
            } else {
                assert(after[key][i] == old_chain[i]);
                assert(after[key][j] == old_chain[j]);
            }
        }
    }
}

/// A batch adds no version later than its own timestamp.
pub proof fn lemma_apply_up_to(history: History, writes: Seq<WriteView>, ts: u64, late: u64)
    requires
        up_to(history, late),
        ts <= late,
    ensures
        up_to(apply(history, writes, ts), late),
{
    let after = apply(history, writes, ts);
    assert forall|key: Seq<u8>| !#[trigger] changed_since(after, key, late) by {
        lemma_apply_chain(history, writes, ts, key);
        lemma_written(writes, ts, key);
        assert(!changed_since(history, key, late));
        let chain = chain_of(history, key);
        assert forall|i: int| 0 <= i < chain_of(after, key).len() implies (
        #[trigger] chain_of(after, key)[i]).commit_ts <= late by {
            if i < chain.len() {
                assert(chain[i].commit_ts <= late);
            } else {
                assert(written(writes, ts, key)[i - chain.len()].commit_ts == ts);
            }
        }
    }
}

/// A key that has not changed since `early` has not changed since a later time.
pub proof fn lemma_unchanged_later(
    history: History,
    writes: Seq<WriteView>,
    more: Seq<Seq<u8>>,
    early: u64,
    late: u64,
)
    requires
        early <= late,
        !any_changed(history, written_keys(writes) + more, early),
    ensures
        appends_in_order(history, writes, late),
{
    let keys = written_keys(writes);
    assert forall|i: int| 0 <= i < keys.len() implies !changed_since(
        history,
        #[trigger] keys[i],
        late,
    ) by {
        assert((keys + more)[i] == keys[i]);
        assert(!changed_since(history, (keys + more)[i], early));
        if changed_since(history, keys[i], late) {
            let chain = chain_of(history, keys[i]);
            let j = choose|j: int| 0 <= j < chain.len() && (#[trigger] chain[j]).commit_ts > late;
            assert(chain[j].commit_ts > early);
        }
    }
}

/// A batch whose keys differ is a write set.
pub proof fn lemma_apply_is_install(
    history: History,
    writes: Seq<WriteView>,
    set: WriteSet,
    ts: u64,
)
    requires
        lists(writes, set),
    ensures
        apply(history, writes, ts) == install(history, set, ts),
{
    assert forall|key: Seq<u8>| true implies #[trigger] written(writes, ts, key) == (
    if set.contains_key(key) {
        seq![VersionView { commit_ts: ts, value: set[key] }]
    } else {
        Seq::empty()
    }) by {
        lemma_written(writes, ts, key);
        if set.contains_key(key) {
            let i = choose|i: int|
                0 <= i < written_keys(writes).len() && written_keys(writes)[i] == key;
            assert(writes[i].0 == key);
            lemma_written_once(writes, ts, i);
        }
    }
    let one_by_one = apply(history, writes, ts);
    let at_once = install(history, set, ts);
    assert forall|key: Seq<u8>| #[trigger] at_once.contains_key(key) implies one_by_one[key]
        == at_once[key] by {
        assert(one_by_one[key] == chain_of(history, key) + written(writes, ts, key));
        assert(one_by_one[key] =~= at_once[key]);
    }
    assert(one_by_one =~= at_once);
}

/// A key that a batch writes once gains one version.
proof fn lemma_written_once(writes: Seq<WriteView>, ts: u64, i: int)
    requires
        0 <= i < writes.len(),
        written_keys(writes).no_duplicates(),
    ensures
        written(writes, ts, writes[i].0) == seq![
            VersionView { commit_ts: ts, value: writes[i].1 },
        ],
    decreases writes.len(),
{
    let key = writes[i].0;
    let front = writes.drop_last();
    assert(written_keys(front) =~= written_keys(writes).drop_last());
    if i == writes.len() - 1 {
        lemma_written(front, ts, key);
        assert(!written_keys(front).contains(key)) by {
            if written_keys(front).contains(key) {
                let j = choose|j: int|
                    0 <= j < written_keys(front).len() && written_keys(front)[j] == key;
                assert(written_keys(writes)[j] == written_keys(writes)[i]);
            }
        }
        assert(written(front, ts, key) =~= Seq::empty());
        assert(written(writes, ts, key) =~= seq![
            VersionView { commit_ts: ts, value: writes[i].1 },
        ]);
    } else {
        assert(written_keys(writes)[writes.len() - 1] != written_keys(writes)[i]);
        assert(front[i] == writes[i]);
        lemma_written_once(front, ts, i);
    }
}

/// Garbage collection keeps a history well formed, and is invisible to every
/// reader at or after the low watermark.
pub proof fn lemma_collected(history: History, low: u64)
    requires
        history_wf(history),
    ensures
        history_wf(collected(history, low)),
        forall|key: Seq<u8>, ts: u64|
            low <= ts ==> #[trigger] visible(collected(history, low), key, ts) == visible(
                history,
                key,
                ts,
            ),
        forall|key: Seq<u8>, ts: u64|
            low <= ts ==> #[trigger] changed_since(collected(history, low), key, ts)
                == changed_since(history, key, ts),
{
    let after = collected(history, low);
    assert forall|key: Seq<u8>| #[trigger] after.contains_key(key) implies after[key].len() > 0
        && ascending(after[key]) by {
        lemma_pruned(history[key], low, low);
    }
    assert forall|key: Seq<u8>, ts: u64| low <= ts implies #[trigger] visible(after, key, ts)
        == visible(history, key, ts) by {
        lemma_collected_at(history, low, key, ts);
    }
    assert forall|key: Seq<u8>, ts: u64| low <= ts implies #[trigger] changed_since(
        after,
        key,
        ts,
    ) == changed_since(history, key, ts) by {
        lemma_collected_at(history, low, key, ts);
    }
}

proof fn lemma_collected_at(history: History, low: u64, key: Seq<u8>, ts: u64)
    requires
        history_wf(history),
        low <= ts,
    ensures
        visible(collected(history, low), key, ts) == visible(history, key, ts),
        changed_since(collected(history, low), key, ts) == changed_since(history, key, ts),
{
    if history.contains_key(key) {
        lemma_pruned(history[key], low, ts);
        if dead(pruned(history[key], low), low) {
            lemma_dead(pruned(history[key], low), low, ts);
        }
    }
}

// ---------------------------------------------------------------------------
// Counting
// ---------------------------------------------------------------------------

/// The sum of `count` over `keys`.
pub open spec fn sum_over(keys: Seq<Seq<u8>>, count: spec_fn(Seq<u8>) -> nat) -> nat
    decreases keys.len(),
{
    if keys.len() == 0 {
        0
    } else {
        sum_over(keys.drop_last(), count) + count(keys.last())
    }
}

/// How many versions of a chain collection at `low` removes.
pub open spec fn reclaimable(chain: Seq<VersionView>, low: u64) -> nat {
    let kept = pruned(chain, low);
    if dead(kept, low) {
        chain.len()
    } else {
        (chain.len() - kept.len()) as nat
    }
}

/// A sum over two lists of keys, one after the other.
pub proof fn lemma_sum_over_add(
    first: Seq<Seq<u8>>,
    second: Seq<Seq<u8>>,
    count: spec_fn(Seq<u8>) -> nat,
)
    ensures
        sum_over(first + second, count) == sum_over(first, count) + sum_over(second, count),
    decreases second.len(),
{
    if second.len() == 0 {
        assert(first + second =~= first);
    } else {
        assert((first + second).drop_last() =~= first + second.drop_last());
        lemma_sum_over_add(first, second.drop_last(), count);
    }
}

/// A sum depends only on what is counted of the keys.
pub proof fn lemma_sum_over_same(
    keys: Seq<Seq<u8>>,
    count: spec_fn(Seq<u8>) -> nat,
    other: spec_fn(Seq<u8>) -> nat,
)
    requires
        forall|i: int| 0 <= i < keys.len() ==> count(#[trigger] keys[i]) == other(keys[i]),
    ensures
        sum_over(keys, count) == sum_over(keys, other),
    decreases keys.len(),
{
    if keys.len() > 0 {
        let front = keys.drop_last();
        assert forall|i: int| 0 <= i < front.len() implies count(#[trigger] front[i]) == other(
            front[i],
        ) by {
            assert(front[i] == keys[i]);
        }
        lemma_sum_over_same(front, count, other);
        assert(keys[keys.len() - 1] == keys.last());
    }
}

/// Taking a key out of a history takes its versions off the count.
proof fn lemma_version_count_remove(history: History, key: Seq<u8>)
    requires
        history.dom().finite(),
        history.contains_key(key),
    ensures
        version_count(history) == history[key].len() + version_count(history.remove(key)),
    decreases history.dom().len(),
{
    let first = history.dom().choose();
    assert(history.dom().contains(key));
    assert(history.dom().len() > 0);
    assert(history.dom().contains(first));
    assert(history.remove(first).dom() =~= history.dom().remove(first));
    assert(history.remove(key).dom() =~= history.dom().remove(key));
    if first != key {
        let rest = history.remove(first);
        assert(rest.contains_key(key));
        lemma_version_count_remove(rest, key);
        let without = history.remove(key);
        assert(without.contains_key(first));
        lemma_version_count_remove(without, first);
        assert(rest.remove(key) =~= without.remove(first));
    }
}

/// A key that a history does not have yet adds its versions to the count.
pub proof fn lemma_version_count_insert(history: History, key: Seq<u8>, chain: Seq<VersionView>)
    requires
        history.dom().finite(),
        !history.contains_key(key),
    ensures
        version_count(Map::empty()) == 0,
        version_count(history.insert(key, chain)) == version_count(history) + chain.len(),
{
    let after = history.insert(key, chain);
    assert(after.dom() =~= history.dom().insert(key));
    assert(after.remove(key) =~= history);
    lemma_version_count_remove(after, key);
}

/// The versions of a history can be counted key by key.
pub proof fn lemma_version_count(history: History, keys: Seq<Seq<u8>>)
    requires
        keys.no_duplicates(),
        forall|key: Seq<u8>| #[trigger] history.contains_key(key) ==> keys.contains(key),
    ensures
        history.dom().finite(),
        version_count(history) == sum_over(keys, |key: Seq<u8>| chain_of(history, key).len()),
    decreases keys.len(),
{
    broadcast use vstd::seq_lib::seq_to_set_is_finite;

    assert(history.dom().subset_of(keys.to_set())) by {
        assert forall|key: Seq<u8>| history.dom().contains(key) implies keys.to_set().contains(
            key,
        ) by {
            assert(history.contains_key(key));
        }
    }
    vstd::set_lib::lemma_set_subset_finite(keys.to_set(), history.dom());
    let count = |key: Seq<u8>| chain_of(history, key).len();
    if keys.len() == 0 {
        assert(history.dom() =~= Set::empty()) by {
            assert forall|key: Seq<u8>| !history.dom().contains(key) by {
                if history.contains_key(key) {
                    assert(keys.contains(key));
                }
            }
        }
    } else {
        let last = keys.last();
        let front = keys.drop_last();
        let rest = history.remove(last);
        assert forall|key: Seq<u8>| #[trigger] rest.contains_key(key) implies front.contains(
            key,
        ) by {
            assert(history.contains_key(key));
            let i = keys.index_of(key);
            assert(keys[i] == key);
            assert(front[i] == key);
        }
        lemma_version_count(rest, front);
        let count_rest = |key: Seq<u8>| chain_of(rest, key).len();
        assert forall|i: int| 0 <= i < front.len() implies count(#[trigger] front[i])
            == count_rest(front[i]) by {
            assert(front[i] == keys[i]);
            assert(keys[i] != keys[keys.len() - 1]);
        }
        lemma_sum_over_same(front, count, count_rest);
        if history.contains_key(last) {
            lemma_version_count_remove(history, last);
        } else {
            assert(rest =~= history);
        }
    }
}

/// What collection removes: the difference of the counts, key by key.
pub proof fn lemma_reclaimed(history: History, low: u64, keys: Seq<Seq<u8>>)
    requires
        keys.no_duplicates(),
        forall|key: Seq<u8>| #[trigger] history.contains_key(key) ==> keys.contains(key),
    ensures
        version_count(history) - version_count(collected(history, low)) == sum_over(
            keys,
            |key: Seq<u8>| reclaimable(chain_of(history, key), low),
        ),
{
    let after = collected(history, low);
    lemma_version_count(history, keys);
    lemma_version_count(after, keys);
    lemma_reclaimed_sum(history, low, keys);
}

proof fn lemma_reclaimed_sum(history: History, low: u64, keys: Seq<Seq<u8>>)
    ensures
        sum_over(keys, |key: Seq<u8>| chain_of(history, key).len()) == sum_over(
            keys,
            |key: Seq<u8>| chain_of(collected(history, low), key).len(),
        ) + sum_over(keys, |key: Seq<u8>| reclaimable(chain_of(history, key), low)),
    decreases keys.len(),
{
    if keys.len() > 0 {
        lemma_reclaimed_sum(history, low, keys.drop_last());
        lemma_reached(chain_of(history, keys.last()), low);
    }
}

} // verus!
