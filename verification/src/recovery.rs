//! Recovery: what a log of commit records says the database held.
//!
//! Only committed transactions are ever logged, so recovery has nothing to
//! undo: it replays the commits of the log in the order of their timestamps.
//! The log order need not match, because a commit is logged after it is applied
//! and commits may finish out of order.

use vstd::prelude::*;

use crate::durable;
use crate::durable::{decode_commit, RecordFault, RecordView, RecoveredCommit};
use crate::error::TxnError;
use crate::history;
use crate::history::{History, VersionView};
use crate::timestamp::Timestamp;

verus! {

/// What a log says: the record of each entry, or the fault of the first entry
/// that is not a record.
pub open spec fn parse_log(log: Seq<Seq<u8>>) -> Result<Seq<RecordView>, RecordFault>
    decreases log.len(),
{
    if log.len() == 0 {
        Ok(Seq::empty())
    } else {
        match parse_log(log.drop_last()) {
            Err(fault) => Err(fault),
            Ok(records) => match durable::parse_record(log.last()) {
                Err(fault) => Err(fault),
                Ok(record) => Ok(records.push(record)),
            },
        }
    }
}

/// Where a commit at `ts` goes in `ordered`: after the last one at or below it.
pub open spec fn place(ordered: Seq<RecordView>, ts: u64) -> nat
    decreases ordered.len(),
{
    if ordered.len() == 0 {
        0
    } else if ordered.last().commit_ts <= ts {
        ordered.len()
    } else {
        place(ordered.drop_last(), ts)
    }
}

/// Commits in the order of their timestamps; those with the same timestamp keep
/// the order they come in.
pub open spec fn in_commit_order(commits: Seq<RecordView>) -> Seq<RecordView>
    decreases commits.len(),
{
    if commits.len() == 0 {
        Seq::empty()
    } else {
        let ordered = in_commit_order(commits.drop_last());
        ordered.insert(place(ordered, commits.last().commit_ts) as int, commits.last())
    }
}

/// The history after `commits` are applied one after the other.
pub open spec fn replay(history: History, commits: Seq<RecordView>) -> History
    decreases commits.len(),
{
    if commits.len() == 0 {
        history
    } else {
        history::apply(
            replay(history, commits.drop_last()),
            commits.last().writes,
            commits.last().commit_ts,
        )
    }
}

/// The history that a log of `commits` recovers to.
pub open spec fn recovered(commits: Seq<RecordView>) -> History {
    replay(Map::empty(), in_commit_order(commits))
}

/// The latest timestamp among `commits`; zero if there are none.
pub open spec fn highest(commits: Seq<RecordView>) -> u64
    decreases commits.len(),
{
    if commits.len() == 0 {
        0
    } else if commits.last().commit_ts > highest(commits.drop_last()) {
        commits.last().commit_ts
    } else {
        highest(commits.drop_last())
    }
}

/// No commit comes after one with a later timestamp.
pub open spec fn ordered(commits: Seq<RecordView>) -> bool {
    forall|i: int, j: int|
        0 <= i <= j < commits.len() ==> (#[trigger] commits[i]).commit_ts <= (
        #[trigger] commits[j]).commit_ts
}

/// No two commits have the same timestamp.
pub open spec fn distinct(commits: Seq<RecordView>) -> bool {
    forall|i: int, j: int|
        0 <= i < j < commits.len() ==> (#[trigger] commits[i]).commit_ts != (
        #[trigger] commits[j]).commit_ts
}

/// `place` splits an ordered sequence at `ts`.
pub proof fn lemma_place(commits: Seq<RecordView>, ts: u64)
    requires
        ordered(commits),
    ensures
        place(commits, ts) <= commits.len(),
        forall|i: int|
            0 <= i < place(commits, ts) ==> (#[trigger] commits[i]).commit_ts <= ts,
        forall|i: int|
            place(commits, ts) <= i < commits.len() ==> (#[trigger] commits[i]).commit_ts > ts,
    decreases commits.len(),
{
    if commits.len() > 0 && commits.last().commit_ts > ts {
        let front = commits.drop_last();
        lemma_place(front, ts);
        assert forall|i: int|
            0 <= i < place(commits, ts) implies (#[trigger] commits[i]).commit_ts <= ts by {
            assert(commits[i] == front[i]);
        }
        assert forall|i: int| place(commits, ts) <= i < commits.len() implies (
        #[trigger] commits[i]).commit_ts > ts by {
            if i < front.len() {
                assert(commits[i] == front[i]);
            }
        }
    }
}

/// The commits of a log, in commit order, are the commits of the log.
pub proof fn lemma_in_commit_order(commits: Seq<RecordView>)
    ensures
        ordered(in_commit_order(commits)),
        in_commit_order(commits).len() == commits.len(),
        in_commit_order(commits).to_multiset() == commits.to_multiset(),
    decreases commits.len(),
{
    if commits.len() > 0 {
        let front = in_commit_order(commits.drop_last());
        let at = place(front, commits.last().commit_ts) as int;
        lemma_in_commit_order(commits.drop_last());
        lemma_place(front, commits.last().commit_ts);
        vstd::seq_lib::to_multiset_insert(front, at, commits.last());
        assert(commits =~= commits.drop_last().push(commits.last()));
        vstd::seq_lib::to_multiset_build(commits.drop_last(), commits.last());
        assert(in_commit_order(commits) =~= front.insert(at, commits.last()));
    } else {
        assert(commits =~= Seq::empty());
    }
}

/// Putting commits in order keeps their timestamps apart.
pub proof fn lemma_in_commit_order_distinct(commits: Seq<RecordView>)
    requires
        distinct(commits),
    ensures
        distinct(in_commit_order(commits)),
    decreases commits.len(),
{
    if commits.len() > 0 {
        let rest = commits.drop_last();
        let front = in_commit_order(rest);
        let last = commits.last();
        let at = place(front, last.commit_ts) as int;
        lemma_in_commit_order(rest);
        lemma_in_commit_order_distinct(rest);
        lemma_place(front, last.commit_ts);
        assert forall|i: int| 0 <= i < front.len() implies (#[trigger] front[i]).commit_ts
            != last.commit_ts by {
            assert(front.contains(front[i]));
            vstd::seq_lib::to_multiset_contains(front, front[i]);
            vstd::seq_lib::to_multiset_contains(rest, front[i]);
            let j = rest.index_of(front[i]);
            assert(commits[j] == rest[j]);
        }
        let whole = front.insert(at, last);
        assert forall|i: int, j: int| 0 <= i < j < whole.len() implies (
        #[trigger] whole[i]).commit_ts != (#[trigger] whole[j]).commit_ts by {
            if i != at && j != at {
                let before = if i < at {
                    i
                } else {
                    i - 1
                };
                let after = if j < at {
                    j
                } else {
                    j - 1
                };
                assert(whole[i] == front[before] && whole[j] == front[after]);
            }
        }
    }
}

/// Two ordered sequences of the same commits, with timestamps apart, are one.
proof fn lemma_order_is_unique(a: Seq<RecordView>, b: Seq<RecordView>)
    requires
        ordered(a),
        ordered(b),
        distinct(a),
        a.to_multiset() == b.to_multiset(),
    ensures
        a == b,
    decreases a.len(),
{
    broadcast use vstd::seq_lib::group_to_multiset_ensures;

    assert(a.to_multiset().len() == a.len() && b.to_multiset().len() == b.len());
    if a.len() > 0 {
        assert(a.contains(a.last()) && b.contains(b.last()));
        assert(a.to_multiset().contains(b.last()));
        assert(b.to_multiset().contains(a.last()));
        let i = a.index_of(b.last());
        let j = b.index_of(a.last());
        assert(a[i].commit_ts <= a.last().commit_ts);
        assert(b[j].commit_ts <= b.last().commit_ts);
        assert(i == a.len() - 1);
        assert(a.last() == b.last());
        let front_a = a.drop_last();
        let front_b = b.drop_last();
        assert(a.remove(a.len() - 1) =~= front_a);
        assert(b.remove(b.len() - 1) =~= front_b);
        lemma_order_is_unique(front_a, front_b);
        assert(a =~= front_a.push(a.last()));
        assert(b =~= front_b.push(b.last()));
    } else {
        assert(a =~= b);
    }
}

/// Replaying commits in order gives a well-formed history, with no version later
/// than the last commit.
pub proof fn lemma_replay(commits: Seq<RecordView>, ts: u64)
    requires
        ordered(commits),
        commits.len() > 0 ==> commits.last().commit_ts <= ts,
    ensures
        history::history_wf(replay(Map::empty(), commits)),
        history::up_to(replay(Map::empty(), commits), ts),
    decreases commits.len(),
{
    let none = Map::<Seq<u8>, Seq<VersionView>>::empty();
    if commits.len() > 0 {
        let front = commits.drop_last();
        let last = commits.last();
        assert forall|i: int, j: int| 0 <= i <= j < front.len() implies (
        #[trigger] front[i]).commit_ts <= (#[trigger] front[j]).commit_ts by {
            assert(commits[i].commit_ts <= commits[j].commit_ts);
        }
        if front.len() > 0 {
            assert(commits[front.len() - 1].commit_ts <= commits[commits.len() - 1].commit_ts);
        }
        lemma_replay(front, last.commit_ts);
        lemma_replay(front, ts);
        let before = replay(none, front);
        assert forall|i: int|
            0 <= i < history::written_keys(last.writes).len() implies !history::changed_since(
            before,
            #[trigger] history::written_keys(last.writes)[i],
            last.commit_ts,
        ) by {}
        history::lemma_apply_wf(before, last.writes, last.commit_ts);
        history::lemma_apply_up_to(before, last.writes, last.commit_ts, ts);
    }
}

/// `highest` is a bound on the timestamps, and one of them.
pub proof fn lemma_highest(commits: Seq<RecordView>)
    ensures
        forall|i: int|
            0 <= i < commits.len() ==> (#[trigger] commits[i]).commit_ts <= highest(commits),
        commits.len() > 0 ==> exists|i: int|
            0 <= i < commits.len() && (#[trigger] commits[i]).commit_ts == highest(commits),
    decreases commits.len(),
{
    if commits.len() > 0 {
        let front = commits.drop_last();
        lemma_highest(front);
        assert forall|i: int| 0 <= i < commits.len() implies (#[trigger] commits[i]).commit_ts
            <= highest(commits) by {
            if i < front.len() {
                assert(front[i].commit_ts <= highest(front));
            }
        }
        if commits.last().commit_ts > highest(front) || front.len() == 0 {
            assert(commits[commits.len() - 1].commit_ts == highest(commits));
        } else {
            let i = choose|i: int|
                0 <= i < front.len() && (#[trigger] front[i]).commit_ts == highest(front);
            assert(commits[i].commit_ts == highest(commits));
        }
    }
}

/// The last commit in commit order is the one with the highest timestamp.
pub proof fn lemma_last_is_highest(commits: Seq<RecordView>)
    requires
        commits.len() > 0,
    ensures
        in_commit_order(commits).last().commit_ts == highest(commits),
{
    let sorted = in_commit_order(commits);
    lemma_in_commit_order(commits);
    lemma_highest(commits);
    let i = choose|i: int|
        0 <= i < commits.len() && (#[trigger] commits[i]).commit_ts == highest(commits);
    assert(commits.contains(commits[i]));
    vstd::seq_lib::to_multiset_contains(commits, commits[i]);
    vstd::seq_lib::to_multiset_contains(sorted, commits[i]);
    let j = sorted.index_of(commits[i]);
    assert(sorted[j].commit_ts <= sorted[sorted.len() - 1].commit_ts);
    assert(sorted.contains(sorted.last()));
    vstd::seq_lib::to_multiset_contains(sorted, sorted.last());
    vstd::seq_lib::to_multiset_contains(commits, sorted.last());
    let k = commits.index_of(sorted.last());
    assert(commits[k].commit_ts <= highest(commits));
}

// ---------------------------------------------------------------------------
// Laws
// ---------------------------------------------------------------------------

/// What was logged reads back: a log of records whose lengths fit the format
/// says exactly those commits.
pub proof fn law_log_reads_back(commits: Seq<RecordView>)
    requires
        forall|i: int|
            0 <= i < commits.len() ==> durable::record_fits(#[trigger] commits[i]),
    ensures
        parse_log(commits.map_values(|record: RecordView| durable::record_bytes(record))) == Ok::<
            Seq<RecordView>,
            RecordFault,
        >(commits),
    decreases commits.len(),
{
    let encode = |record: RecordView| durable::record_bytes(record);
    let log = commits.map_values(encode);
    if commits.len() > 0 {
        let front = commits.drop_last();
        assert forall|i: int| 0 <= i < front.len() implies durable::record_fits(
            #[trigger] front[i],
        ) by {
            assert(front[i] == commits[i]);
        }
        law_log_reads_back(front);
        assert(log.drop_last() =~= front.map_values(encode));
        assert(durable::record_fits(commits[commits.len() - 1]));
        durable::law_record_round_trip(commits.last());
        assert(front.push(commits.last()) =~= commits);
    } else {
        assert(parse_log(log) == Ok::<Seq<RecordView>, RecordFault>(Seq::empty()));
        assert(commits =~= Seq::empty());
    }
}

/// The log order does not matter: commits with timestamps of their own recover
/// to the same history in whatever order they were logged.
pub proof fn law_recovery_ignores_log_order(log: Seq<RecordView>, other: Seq<RecordView>)
    requires
        distinct(log),
        log.to_multiset() == other.to_multiset(),
    ensures
        recovered(log) == recovered(other),
{
    lemma_in_commit_order(log);
    lemma_in_commit_order(other);
    lemma_in_commit_order_distinct(log);
    lemma_order_is_unique(in_commit_order(log), in_commit_order(other));
}

/// A log whose commits were logged in the order of their timestamps is replayed
/// in log order. So a log cut off after any of its records recovers to what
/// those first commits made.
pub proof fn law_ordered_log_recovers_prefix(log: Seq<RecordView>, len: int)
    requires
        ordered(log),
        0 <= len <= log.len(),
    ensures
        recovered(log.take(len)) == replay(Map::empty(), log.take(len)),
{
    lemma_ordered_prefix(log, len);
}

proof fn lemma_ordered_prefix(log: Seq<RecordView>, len: int)
    requires
        ordered(log),
        0 <= len <= log.len(),
    ensures
        in_commit_order(log.take(len)) == log.take(len),
    decreases len,
{
    let prefix = log.take(len);
    if len > 0 {
        let front = log.take(len - 1);
        lemma_ordered_prefix(log, len - 1);
        assert(prefix.drop_last() =~= front);
        if len > 1 {
            assert(log[len - 2].commit_ts <= log[len - 1].commit_ts);
        }
        assert(in_commit_order(prefix) =~= prefix);
    } else {
        assert(in_commit_order(prefix) =~= prefix);
    }
}

/// Logging a commit is what recovery needs: if a log recovers to a history, then
/// with the record of a later commit it recovers to the history after that
/// commit.
pub proof fn law_logged_commit_is_recovered(
    log: Seq<RecordView>,
    record: RecordView,
    writes: history::WriteSet,
)
    requires
        history::lists(record.writes, writes),
        log.len() > 0 ==> highest(log) < record.commit_ts,
    ensures
        recovered(log.push(record)) == history::install(recovered(log), writes, record.commit_ts),
{
    let sorted = in_commit_order(log);
    assert(log.push(record).drop_last() =~= log);
    if log.len() > 0 {
        lemma_in_commit_order(log);
        lemma_last_is_highest(log);
    }
    assert(in_commit_order(log.push(record)) =~= sorted.push(record));
    assert(sorted.push(record).drop_last() =~= sorted);
    history::lemma_apply_is_install(recovered(log), record.writes, writes, record.commit_ts);
}

/// A recovered history is well formed, and holds nothing later than the highest
/// timestamp of the log.
pub proof fn law_recovered_history_is_whole(log: Seq<RecordView>)
    ensures
        history::history_wf(recovered(log)),
        history::up_to(recovered(log), highest(log)),
{
    lemma_in_commit_order(log);
    if log.len() > 0 {
        lemma_last_is_highest(log);
    }
    lemma_replay(in_commit_order(log), highest(log));
}

// ---------------------------------------------------------------------------
// Reading a log
// ---------------------------------------------------------------------------

/// What recovered commits say.
pub open spec fn records_of(commits: Seq<RecoveredCommit>) -> Seq<RecordView> {
    Seq::new(commits.len(), |i: int| commits[i]@)
}

/// The bytes of each entry of a log.
pub open spec fn entries_of(log: Seq<Vec<u8>>) -> Seq<Seq<u8>> {
    Seq::new(log.len(), |i: int| log[i]@)
}

/// A fault in the front of a log is a fault of the log.
proof fn lemma_parse_log_fault(log: Seq<Seq<u8>>, len: int)
    requires
        0 <= len <= log.len(),
        parse_log(log.take(len)) is Err,
    ensures
        parse_log(log) == parse_log(log.take(len)),
    decreases log.len(),
{
    if len < log.len() {
        assert(log.drop_last().take(len) =~= log.take(len));
        lemma_parse_log_fault(log.drop_last(), len);
    } else {
        assert(log.take(len) =~= log);
    }
}

/// Decode every entry of a log, in log order. The first entry that is not a
/// commit record is an error.
pub fn decode_log(log: &[Vec<u8>]) -> (commits: Result<Vec<RecoveredCommit>, TxnError>)
    ensures
        match parse_log(entries_of(log@)) {
            Ok(records) => commits matches Ok(commits) && records_of(commits@) == records,
            Err(fault) => commits matches Err(TxnError::Durability { detail }) && detail@
                == durable::fault_text(fault),
        },
{
    let ghost entries = entries_of(log@);
    let mut commits: Vec<RecoveredCommit> = Vec::new();
    let mut i: usize = 0;
    assert(records_of(commits@) =~= Seq::empty());
    while i < log.len()
        invariant
            i <= log@.len(),
            entries == entries_of(log@),
            parse_log(entries.take(i as int)) == Ok::<Seq<RecordView>, RecordFault>(
                records_of(commits@),
            ),
        decreases log@.len() - i,
    {
        let ghost before = records_of(commits@);
        assert(entries.take(i + 1).drop_last() =~= entries.take(i as int));
        assert(entries.take(i + 1).last() == log@[i as int]@);
        match decode_commit(log[i].as_slice()) {
            Ok(commit) => {
                commits.push(commit);
                assert(records_of(commits@) =~= before.push(commit@));
            },
            Err(e) => {
                proof {
                    lemma_parse_log_fault(entries, i + 1);
                }
                return Err(e);
            },
        }
        i += 1;
    }
    assert(entries.take(i as int) =~= entries);
    Ok(commits)
}

/// Where a commit at `ts` goes among commits in order.
fn place_of(ordered: &Vec<RecoveredCommit>, ts: Timestamp) -> (at: usize)
    ensures
        at == place(records_of(ordered@), ts@),
{
    let ghost records = records_of(ordered@);
    let mut at: usize = ordered.len();
    assert(records.take(at as int) =~= records);
    while at > 0 && ordered[at - 1].commit_ts > ts
        invariant
            at <= ordered@.len(),
            records == records_of(ordered@),
            place(records, ts@) == place(records.take(at as int), ts@),
        decreases at,
    {
        assert(records.take(at as int).drop_last() =~= records.take(at - 1));
        at -= 1;
    }
    at
}

/// Put commits in the order of their timestamps.
pub fn order_commits(commits: Vec<RecoveredCommit>) -> (sorted: Vec<RecoveredCommit>)
    ensures
        records_of(sorted@) == in_commit_order(records_of(commits@)),
{
    let ghost records = records_of(commits@);
    let mut sorted: Vec<RecoveredCommit> = Vec::new();
    assert(records_of(sorted@) =~= in_commit_order(records.take(0)));
    for commit in it: commits
        invariant
            it.seq() == commits@,
            records == records_of(commits@),
            records_of(sorted@) == in_commit_order(records.take(it.index())),
    {
        let ghost i = it.index();
        let ghost before = sorted@;
        proof {
            lemma_in_commit_order(records.take(i));
            lemma_place(records_of(sorted@), commit@.commit_ts);
            assert(records.take(i + 1).drop_last() =~= records.take(i));
        }
        let at = place_of(&sorted, commit.commit_ts);
        sorted.insert(at, commit);
        assert(records_of(sorted@) =~= records_of(before).insert(at as int, commit@));
    }
    assert(records.take(records.len() as int) =~= records);
    sorted
}

} // verus!
