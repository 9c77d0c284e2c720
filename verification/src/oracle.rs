//! The timestamp oracle: read-snapshot selection, commit-timestamp allocation,
//! and the read watermark.
//!
//! Snapshot isolation needs two timestamp services. A transaction that begins
//! must pick a *read timestamp*, the latest point at which the database is fully
//! consistent, and a transaction that commits must be handed a unique, strictly
//! increasing *commit timestamp*. The oracle provides both.
//!
//! Because commits may finish out of timestamp order, the read timestamp cannot
//! simply be "the last timestamp allocated": a reader must never observe a
//! timestamp whose commit is not over yet. The oracle therefore tracks a
//! **watermark**, the largest timestamp `T` such that every commit with a
//! timestamp `<= T` has finished. New transactions read at the watermark.

use std::collections::{BTreeMap, HashSet};

use vstd::prelude::*;

use crate::timestamp::Timestamp;

verus! {

broadcast use {
    vstd::std_specs::hash::group_hash_axioms,
    vstd::std_specs::btree::group_btree_axioms,
};

/// The state of an oracle.
#[verifier::ext_equal]
pub struct Clock {
    /// The next commit timestamp to hand out.
    pub next: u64,
    /// The watermark: every commit timestamp at or below it is complete.
    pub watermark: u64,
    /// Completed timestamps beyond the watermark.
    pub ahead: Set<u64>,
    /// The read timestamp of every live reader, with how many read at it.
    pub readers: Map<u64, usize>,
}

/// The end of the run of timestamps that follows `from` within `done`.
pub open spec fn run_end(from: u64, done: Set<u64>) -> u64
    decreases u64::MAX - from,
{
    if from < u64::MAX && done.contains((from + 1) as u64) {
        run_end((from + 1) as u64, done)
    } else {
        from
    }
}

impl Clock {
    /// The clock of a database in which every commit up to `highest` is applied.
    pub open spec fn at(highest: u64) -> Self {
        Clock {
            next: (highest + 1) as u64,
            watermark: highest,
            ahead: Set::empty(),
            readers: Map::empty(),
        }
    }

    /// A commit timestamp that was handed out and is not complete yet.
    pub open spec fn outstanding(self, ts: u64) -> bool {
        self.watermark < ts < self.next && !self.ahead.contains(ts)
    }

    /// The invariant of a clock: the watermark stands right before the first
    /// outstanding timestamp, `ahead` holds what has completed beyond it, and
    /// every live reader reads at or below it.
    pub open spec fn wf(self) -> bool {
        &&& self.watermark < self.next
        &&& self.watermark + 1 == self.next || self.outstanding((self.watermark + 1) as u64)
        &&& forall|ts: u64| #[trigger]
            self.ahead.contains(ts) ==> self.watermark < ts < self.next
        &&& forall|ts: u64| #[trigger]
            self.readers.contains_key(ts) ==> ts <= self.watermark && self.readers[ts] > 0
    }

    /// How many live readers read at `ts`.
    pub open spec fn reader_count(self, ts: u64) -> nat {
        if self.readers.contains_key(ts) {
            self.readers[ts] as nat
        } else {
            0
        }
    }

    /// The clock after the next commit timestamp is handed out.
    pub open spec fn allocate(self) -> Self {
        Clock { next: (self.next + 1) as u64, ..self }
    }

    /// The clock after the commit at `ts` completes: the watermark moves to the
    /// end of the run of completed timestamps that follows it.
    pub open spec fn complete(self, ts: u64) -> Self {
        let done = self.ahead.insert(ts);
        let watermark = run_end(self.watermark, done);
        Clock { watermark, ahead: done.filter(|t: u64| t > watermark), ..self }
    }

    /// The clock after a reader registers at the watermark.
    pub open spec fn register(self) -> Self {
        Clock {
            readers: self.readers.insert(
                self.watermark,
                (self.reader_count(self.watermark) + 1) as usize,
            ),
            ..self
        }
    }

    /// The clock after a reader at `ts` is gone. Nothing changes if there was
    /// none.
    pub open spec fn release(self, ts: u64) -> Self {
        Clock {
            readers: if self.reader_count(ts) > 1 {
                self.readers.insert(ts, (self.readers[ts] - 1) as usize)
            } else {
                self.readers.remove(ts)
            },
            ..self
        }
    }

    /// A reader may still look at `ts`: one is live there or before it, or a new
    /// one can come.
    pub open spec fn readable(self, ts: u64) -> bool {
        ||| self.watermark <= ts
        ||| exists|reader: u64| #[trigger] self.readers.contains_key(reader) && reader <= ts
    }

    /// `ts` is the oldest timestamp a live reader can still observe: the
    /// smallest registered one, or the watermark if no reader is live.
    pub open spec fn is_low_watermark(self, ts: u64) -> bool {
        if self.readers.dom() == Set::<u64>::empty() {
            ts == self.watermark
        } else {
            &&& self.readers.contains_key(ts)
            &&& forall|reader: u64| #[trigger] self.readers.contains_key(reader) ==> ts <= reader
        }
    }
}

/// What `run_end` reaches: everything up to it is in `done`, the next is not.
pub proof fn lemma_run_end(from: u64, done: Set<u64>)
    ensures
        from <= run_end(from, done),
        forall|ts: u64| from < ts <= run_end(from, done) ==> #[trigger] done.contains(ts),
        run_end(from, done) < u64::MAX ==> !done.contains((run_end(from, done) + 1) as u64),
    decreases u64::MAX - from,
{
    if from < u64::MAX && done.contains((from + 1) as u64) {
        lemma_run_end((from + 1) as u64, done);
        assert forall|ts: u64| from < ts <= run_end(from, done) implies #[trigger] done.contains(
            ts,
        ) by {
            if ts > from + 1 {
            }
        }
    }
}

/// Handing out a timestamp makes it outstanding, and no other.
pub proof fn lemma_allocate(clock: Clock)
    requires
        clock.wf(),
        clock.next < u64::MAX,
    ensures
        clock.allocate().wf(),
        forall|ts: u64| #[trigger]
            clock.allocate().outstanding(ts) <==> clock.outstanding(ts) || ts == clock.next,
{
    assert(!clock.ahead.contains(clock.next));
}

/// Completing a timestamp ends its being outstanding, and no other's.
pub proof fn lemma_complete(clock: Clock, ts: u64)
    requires
        clock.wf(),
        clock.outstanding(ts),
    ensures
        clock.complete(ts).wf(),
        clock.watermark <= clock.complete(ts).watermark,
        forall|other: u64| #[trigger]
            clock.complete(ts).outstanding(other) <==> clock.outstanding(other) && other != ts,
{
    let done = clock.ahead.insert(ts);
    let end = run_end(clock.watermark, done);
    lemma_run_end(clock.watermark, done);
    assert(end < clock.next) by {
        if end >= clock.next {
            assert(done.contains(clock.next));
        }
    }
    if end + 1 < clock.next {
        assert(!done.contains((end + 1) as u64));
    }
    assert forall|other: u64| #[trigger]
        clock.complete(ts).outstanding(other) <==> clock.outstanding(other) && other != ts by {
        if other <= end && clock.outstanding(other) {
            assert(done.contains(other));
        }
        assert(done.contains(other) <==> clock.ahead.contains(other) || other == ts);
    }
}

/// Readers register at the watermark and leave a well-formed clock.
pub proof fn lemma_register(clock: Clock)
    requires
        clock.wf(),
        clock.reader_count(clock.watermark) < usize::MAX,
    ensures
        clock.register().wf(),
        clock.register().reader_count(clock.watermark) == clock.reader_count(clock.watermark) + 1,
        forall|ts: u64|
            ts != clock.watermark ==> #[trigger] clock.register().reader_count(ts)
                == clock.reader_count(ts),
{
}

/// A reader that leaves takes one off the count at its timestamp.
pub proof fn lemma_release(clock: Clock, ts: u64)
    requires
        clock.wf(),
    ensures
        clock.release(ts).wf(),
        clock.reader_count(ts) > 0 ==> clock.release(ts).reader_count(ts) == clock.reader_count(
            ts,
        ) - 1,
        clock.reader_count(ts) == 0 ==> clock.release(ts) == clock,
        forall|other: u64|
            other != ts ==> #[trigger] clock.release(ts).reader_count(other)
                == clock.reader_count(other),
{
    if clock.reader_count(ts) == 0 {
        assert(clock.release(ts) =~= clock);
    }
}

/// References to integers are ordered as the integers are.
proof fn lemma_u64_reference_order()
    ensures
        vstd::laws_cmp::obeys_cmp::<&u64>(),
{
    reveal(vstd::laws_eq::obeys_eq_spec_properties);
    reveal(vstd::laws_cmp::obeys_partial_cmp_spec_properties);
    reveal(vstd::laws_cmp::obeys_cmp_partial_ord);
    reveal(vstd::laws_cmp::obeys_cmp_ord);
}

/// Allocates timestamps and tracks the consistent-read watermark for one
/// database.
pub struct Oracle {
    /// The next commit timestamp to hand out.
    next_ts: u64,
    /// The watermark: every timestamp at or below it is complete.
    done_upto: u64,
    /// Completed timestamps that are not yet contiguous with `done_upto`.
    ahead: HashSet<u64>,
    /// The read timestamps of every live transaction and snapshot, each with a
    /// count. The smallest key is the oldest snapshot still in use and drives
    /// garbage collection.
    readers: BTreeMap<u64, usize>,
}

impl View for Oracle {
    type V = Clock;

    closed spec fn view(&self) -> Clock {
        Clock {
            next: self.next_ts,
            watermark: self.done_upto,
            ahead: self.ahead@,
            readers: self.readers@,
        }
    }
}

impl Oracle {
    /// Create an oracle for an empty database: the first commit timestamp is 1,
    /// and the watermark starts at zero.
    pub fn new() -> (oracle: Self)
        ensures
            oracle@ == Clock::at(0),
            oracle@.wf(),
    {
        Oracle::recovered(Timestamp::zero())
    }

    /// Create an oracle for a database recovered from a durable log, where every
    /// commit up to and including `highest` is already applied.
    ///
    /// The next commit hands out `highest + 1`, and the read watermark starts at
    /// `highest` so a transaction beginning right after recovery sees all
    /// recovered state.
    pub fn recovered(highest: Timestamp) -> (oracle: Self)
        requires
            highest@ < u64::MAX,
        ensures
            oracle@ == Clock::at(highest@),
            oracle@.wf(),
    {
        Oracle {
            next_ts: highest.get() + 1,
            done_upto: highest.get(),
            ahead: HashSet::new(),
            readers: BTreeMap::new(),
        }
    }

    /// The timestamp a transaction beginning now should read at: the current
    /// watermark.
    #[inline]
    pub fn read_ts(&self) -> (ts: Timestamp)
        ensures
            ts@ == self@.watermark,
    {
        Timestamp::from_raw(self.done_upto)
    }

    /// Whether another commit timestamp can be handed out.
    #[inline]
    pub fn has_next(&self) -> (left: bool)
        ensures
            left == (self@.next < u64::MAX),
    {
        self.next_ts < u64::MAX
    }

    /// Allocate a fresh, unique, strictly increasing commit timestamp.
    #[inline]
    pub fn alloc_commit_ts(&mut self) -> (ts: Timestamp)
        requires
            old(self)@.wf(),
            old(self)@.next < u64::MAX,
        ensures
            ts@ == old(self)@.next,
            final(self)@ == old(self)@.allocate(),
            final(self)@.wf(),
            final(self)@.outstanding(ts@),
    {
        proof {
            lemma_allocate(self@);
        }
        let ts = self.next_ts;
        self.next_ts = ts + 1;
        Timestamp::from_raw(ts)
    }

    /// Whether another reader can register. `false` only if as many read at the
    /// watermark as can be counted.
    pub fn can_begin_reader(&self) -> (can: bool)
        ensures
            can == (self@.reader_count(self@.watermark) < usize::MAX),
    {
        match self.readers.get(&self.done_upto) {
            Some(count) => *count < usize::MAX,
            None => true,
        }
    }

    /// Register a new reader and return the timestamp it should read at.
    pub fn begin_reader(&mut self) -> (ts: Timestamp)
        requires
            old(self)@.wf(),
            old(self)@.reader_count(old(self)@.watermark) < usize::MAX,
        ensures
            ts@ == old(self)@.watermark,
            final(self)@ == old(self)@.register(),
            final(self)@.wf(),
    {
        proof {
            lemma_register(self@);
        }
        let ts = self.done_upto;
        let count = match self.readers.get(&ts) {
            Some(count) => *count,
            None => 0,
        };
        let _ = self.readers.insert(ts, count + 1);
        Timestamp::from_raw(ts)
    }

    /// Drop a reader registered at `ts`.
    pub fn end_reader(&mut self, ts: Timestamp)
        requires
            old(self)@.wf(),
        ensures
            final(self)@ == old(self)@.release(ts@),
            final(self)@.wf(),
    {
        proof {
            lemma_release(self@, ts@);
        }
        let ts = ts.get();
        let count = match self.readers.get(&ts) {
            Some(count) => *count,
            None => 0,
        };
        if count > 1 {
            let _ = self.readers.insert(ts, count - 1);
        } else {
            let _ = self.readers.remove(&ts);
        }
    }

    /// The oldest timestamp any live reader can still observe.
    ///
    /// This is the smallest registered reader timestamp, or, when no reader is
    /// live, the current watermark, since any reader that begins next will read
    /// at or after it.
    pub fn low_watermark(&self) -> (ts: Timestamp)
        requires
            self@.wf(),
        ensures
            self@.is_low_watermark(ts@),
            ts@ <= self@.watermark,
    {
        let keys = self.readers.keys();
        let ghost all = vstd::std_specs::iter::IteratorSpec::remaining(&keys);
        for oldest in it: keys
            invariant
                it.index() == 0,
                it.seq() == all,
                self@.wf(),
                all.unref().to_set() == self.readers@.dom(),
                vstd::std_specs::btree::increasing_seq(all),
        {
            proof {
                assert(all.unref()[0] == *oldest);
                assert(all.unref().to_set().contains(*oldest));
                lemma_u64_reference_order();
                assert forall|reader: u64| #[trigger] self@.readers.contains_key(reader) implies
                    *oldest <= reader by {
                    assert(all.unref().to_set().contains(reader));
                    let i = choose|i: int| 0 <= i < all.unref().len() && all.unref()[i] == reader;
                    assert(*all[i] == reader);
                    if i > 0 {
                        assert(vstd::std_specs::cmp::OrdSpec::cmp_spec(&all[0], &all[i]) is Less);
                    }
                }
            }
            return Timestamp::from_raw(*oldest);
        }
        assert(self@.readers.dom() =~= Set::<u64>::empty());
        Timestamp::from_raw(self.done_upto)
    }

    /// Record that the commit (or aborted attempt) holding `ts` has finished, and
    /// advance the watermark across any now-contiguous run of completed
    /// timestamps.
    pub fn commit_done(&mut self, ts: Timestamp)
        requires
            old(self)@.wf(),
            old(self)@.outstanding(ts@),
        ensures
            final(self)@ == old(self)@.complete(ts@),
            final(self)@.wf(),
    {
        proof {
            lemma_complete(self@, ts@);
        }
        let ts = ts.get();
        let ghost done = old(self)@.ahead.insert(ts);
        if ts == self.done_upto + 1 {
            self.done_upto = ts;
            // Advance across any contiguous run of timestamps that already
            // completed out of order.
            let mut next = ts + 1;
            assert(self.ahead@ =~= done.filter(|t: u64| t > ts));
            while self.ahead.contains(&next)
                invariant
                    self.next_ts == old(self).next_ts,
                    self.readers == old(self).readers,
                    old(self)@.wf(),
                    old(self)@.outstanding(ts),
                    done == old(self)@.ahead.insert(ts),
                    next == self.done_upto + 1,
                    next <= self.next_ts,
                    old(self)@.watermark < self.done_upto,
                    run_end(self.done_upto, done) == run_end(old(self)@.watermark, done),
                    self.ahead@ == done.filter(|t: u64| t > self.done_upto),
                decreases self.next_ts - next,
            {
                assert(done.contains(next));
                let _ = self.ahead.remove(&next);
                self.done_upto = next;
                next += 1;
                assert(self.ahead@ =~= done.filter(|t: u64| t > self.done_upto));
            }
            assert(!done.contains(next));
        } else {
            let _ = self.ahead.insert(ts);
            assert(run_end(self.done_upto, done) == self.done_upto);
            assert(self.ahead@ =~= done.filter(|t: u64| t > self.done_upto));
        }
    }
}

} // verus!
