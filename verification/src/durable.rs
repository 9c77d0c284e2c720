//! The commit-record format of the durable log.
//!
//! A durable database appends a record for every committed transaction to a
//! write-ahead log and syncs it before the commit is acknowledged. Only
//! *committed* transactions are ever logged, so recovery is simply replaying the
//! log: there are no uncommitted records to discard.
//!
//! ## Record format
//!
//! Each record is one committed transaction, encoded little-endian:
//!
//! ```text
//! version   : u8                        1
//! commit_ts : u64
//! count     : u32                       number of writes
//! count x {
//!   key_len : u32
//!   key     : key_len bytes
//!   tag     : u8                        1 = value follows, 0 = tombstone
//!   value   : (u32 len + bytes) if tag == 1
//! }
//! ```
//!
//! The log frames each record with its own length and checksum and discards a
//! torn record at the tail, so this format carries no checksum of its own. The
//! decoder still validates every length against the bytes actually present, so a
//! corrupt record can never drive an out-of-bounds read or an unbounded
//! allocation.

use std::sync::Arc;

use vstd::prelude::*;

use crate::bytes;
use crate::bytes::{copy_bytes, share};
use crate::error::TxnError;
use crate::history::WriteView;
use crate::store;
use crate::store::WriteEntry;
use crate::text;
use crate::text::decimal_text;
use crate::timestamp::Timestamp;

verus! {

/// The format version of a commit record.
pub const FORMAT_VERSION: u8 = 1;

/// The smallest possible encoded write: a zero-length key and a tombstone tag
/// (`key_len` u32 + `tag` u8). Used to bound the write count before allocating.
const MIN_WRITE_BYTES: usize = 5;

/// What a commit record says: a commit timestamp and the writes, in order.
#[verifier::ext_equal]
pub struct RecordView {
    /// The timestamp the transaction committed at.
    pub commit_ts: u64,
    /// What it wrote, in order.
    pub writes: Seq<WriteView>,
}

// ---------------------------------------------------------------------------
// Integers
// ---------------------------------------------------------------------------

/// The low `n` bytes of `x`, least significant first.
pub open spec fn le_bytes(x: nat, n: nat) -> Seq<u8>
    decreases n,
{
    if n == 0 {
        Seq::empty()
    } else {
        seq![(x % 256) as u8] + le_bytes(x / 256, (n - 1) as nat)
    }
}

/// The integer that `s` is the bytes of, least significant first.
pub open spec fn le_value(s: Seq<u8>) -> nat
    decreases s.len(),
{
    if s.len() == 0 {
        0
    } else {
        s[0] as nat + 256 * le_value(s.skip(1))
    }
}

/// One more than the largest integer of `n` bytes.
pub open spec fn le_limit(n: nat) -> nat
    decreases n,
{
    if n == 0 {
        1
    } else {
        256 * le_limit((n - 1) as nat)
    }
}

proof fn lemma_le_limits()
    ensures
        le_limit(1) == 0x100,
        le_limit(4) == 0x1_0000_0000,
        le_limit(8) == 0x1_0000_0000_0000_0000,
{
    reveal_with_fuel(le_limit, 9);
}

proof fn lemma_le_limit_monotonic(m: nat, n: nat)
    requires
        m <= n,
    ensures
        le_limit(m) <= le_limit(n),
        le_limit(m) > 0,
    decreases n,
{
    if m < n {
        lemma_le_limit_monotonic(m, (n - 1) as nat);
    } else if n > 0 {
        lemma_le_limit_monotonic((n - 1) as nat, (n - 1) as nat);
    }
}

proof fn lemma_le_value_bound(s: Seq<u8>)
    ensures
        le_value(s) < le_limit(s.len()),
    decreases s.len(),
{
    if s.len() > 0 {
        lemma_le_value_bound(s.skip(1));
    }
}

proof fn lemma_le_bytes_len(x: nat, n: nat)
    ensures
        le_bytes(x, n).len() == n,
    decreases n,
{
    if n > 0 {
        lemma_le_bytes_len(x / 256, (n - 1) as nat);
    }
}

/// An integer that fits comes back from its bytes.
proof fn lemma_le_round_trip(x: nat, n: nat)
    requires
        x < le_limit(n),
    ensures
        le_bytes(x, n).len() == n,
        le_value(le_bytes(x, n)) == x,
    decreases n,
{
    lemma_le_bytes_len(x, n);
    if n > 0 {
        assert(x / 256 < le_limit((n - 1) as nat));
        lemma_le_round_trip(x / 256, (n - 1) as nat);
        assert(le_bytes(x, n).skip(1) =~= le_bytes(x / 256, (n - 1) as nat));
    }
}

/// Bytes come back from the integer they are the bytes of.
proof fn lemma_le_bytes_of_value(s: Seq<u8>)
    ensures
        le_bytes(le_value(s), s.len()) == s,
    decreases s.len(),
{
    if s.len() > 0 {
        lemma_le_bytes_of_value(s.skip(1));
        assert(le_value(s) % 256 == s[0]);
        assert(le_value(s) / 256 == le_value(s.skip(1)));
        assert(le_bytes(le_value(s), s.len()) =~= s);
    }
}

/// Append the low `n` bytes of `x`, least significant first.
fn push_le(buf: &mut Vec<u8>, x: u64, n: usize)
    ensures
        final(buf)@ == old(buf)@ + le_bytes(x as nat, n as nat),
{
    let mut rest = x;
    let mut left = n;
    assert(buf@ + le_bytes(x as nat, n as nat) =~= old(buf)@ + le_bytes(x as nat, n as nat));
    while left > 0
        invariant
            left <= n,
            buf@ + le_bytes(rest as nat, left as nat) == old(buf)@ + le_bytes(x as nat, n as nat),
        decreases left,
    {
        let ghost before = buf@;
        buf.push((rest % 256) as u8);
        assert(before + le_bytes(rest as nat, left as nat) =~= buf@ + le_bytes(
            rest as nat / 256,
            (left - 1) as nat,
        ));
        rest = rest / 256;
        left = left - 1;
    }
    assert(buf@ =~= buf@ + le_bytes(rest as nat, 0));
}

/// The integer of at most eight bytes, least significant first.
fn value_le(s: &[u8]) -> (x: u64)
    requires
        s@.len() <= 8,
    ensures
        x == le_value(s@),
{
    let mut x: u64 = 0;
    let mut i: usize = s.len();
    assert(s@.skip(i as int) =~= Seq::empty());
    while i > 0
        invariant
            s@.len() <= 8,
            i <= s@.len(),
            x == le_value(s@.skip(i as int)),
        decreases i,
    {
        proof {
            let longer = s@.skip(i - 1);
            assert(longer.skip(1) =~= s@.skip(i as int));
            assert(longer[0] == s@[i - 1]);
            lemma_le_value_bound(longer);
            lemma_le_limit_monotonic(longer.len(), 8);
            lemma_le_limits();
        }
        i = i - 1;
        x = x * 256 + s[i] as u64;
    }
    assert(s@.skip(0) =~= s@);
    x
}

// ---------------------------------------------------------------------------
// The format
// ---------------------------------------------------------------------------

/// One write entry of a record: the key with its length, then a tag, and for a
/// put the value with its length.
pub open spec fn entry_bytes(write: WriteView) -> Seq<u8> {
    le_bytes(write.0.len(), 4) + write.0 + match write.1 {
        Some(value) => seq![1u8] + le_bytes(value.len(), 4) + value,
        None => seq![0u8],
    }
}

/// Write entries, one after the other.
pub open spec fn entries_bytes(writes: Seq<WriteView>) -> Seq<u8>
    decreases writes.len(),
{
    if writes.len() == 0 {
        Seq::empty()
    } else {
        entry_bytes(writes[0]) + entries_bytes(writes.skip(1))
    }
}

/// The bytes of a commit record.
pub open spec fn record_bytes(record: RecordView) -> Seq<u8> {
    seq![FORMAT_VERSION] + le_bytes(record.commit_ts as nat, 8) + le_bytes(
        record.writes.len(),
        4,
    ) + entries_bytes(record.writes)
}

/// A write whose lengths fit the format's 32-bit length fields.
pub open spec fn write_fits(write: WriteView) -> bool {
    write.0.len() <= u32::MAX && (write.1 matches Some(value) ==> value.len() <= u32::MAX)
}

/// A record whose lengths and count fit the format's 32-bit fields.
pub open spec fn record_fits(record: RecordView) -> bool {
    &&& record.writes.len() <= u32::MAX
    &&& forall|i: int| 0 <= i < record.writes.len() ==> write_fits(#[trigger] record.writes[i])
}

/// Why bytes are not a commit record.
pub enum RecordFault {
    /// The record ends in the middle of a field.
    Truncated,
    /// The format version is not one this reader knows.
    Version(u8),
    /// The count claims more writes than the remaining bytes could hold.
    Count,
    /// The tag of a write is neither a value's nor a tombstone's.
    Tag(u8),
    /// Bytes follow the last write.
    Trailing,
}

/// The text of a fault.
pub open spec fn fault_text(fault: RecordFault) -> Seq<char> {
    "malformed commit record: "@ + match fault {
        RecordFault::Truncated => "record ends mid-field"@,
        RecordFault::Version(version) => "unsupported format version "@ + text::decimal(
            version as nat,
        ),
        RecordFault::Count => "write count exceeds record size"@,
        RecordFault::Tag(tag) => "invalid value tag "@ + text::decimal(tag as nat),
        RecordFault::Trailing => "trailing bytes after commit record"@,
    }
}

/// Read a length-prefixed byte string off the front of `s`.
pub open spec fn parse_field(s: Seq<u8>) -> Result<(Seq<u8>, Seq<u8>), RecordFault> {
    if s.len() < 4 || s.len() - 4 < le_value(s.take(4)) {
        Err(RecordFault::Truncated)
    } else {
        let len = le_value(s.take(4));
        Ok((s.subrange(4, (4 + len) as int), s.skip((4 + len) as int)))
    }
}

/// Read a write entry off the front of `s`.
pub open spec fn parse_entry(s: Seq<u8>) -> Result<(WriteView, Seq<u8>), RecordFault> {
    match parse_field(s) {
        Err(fault) => Err(fault),
        Ok((key, rest)) => if rest.len() == 0 {
            Err(RecordFault::Truncated)
        } else if rest[0] == 0 {
            Ok(((key, None), rest.skip(1)))
        } else if rest[0] == 1 {
            match parse_field(rest.skip(1)) {
                Err(fault) => Err(fault),
                Ok((value, rest)) => Ok(((key, Some(value)), rest)),
            }
        } else {
            Err(RecordFault::Tag(rest[0]))
        },
    }
}

/// Read `count` write entries off the front of `s`.
pub open spec fn parse_entries(s: Seq<u8>, count: nat) -> Result<
    (Seq<WriteView>, Seq<u8>),
    RecordFault,
>
    decreases count,
{
    if count == 0 {
        Ok((Seq::empty(), s))
    } else {
        match parse_entry(s) {
            Err(fault) => Err(fault),
            Ok((write, rest)) => prepend(seq![write], parse_entries(rest, (count - 1) as nat)),
        }
    }
}

/// `writes` put before the writes that were read.
pub open spec fn prepend(
    writes: Seq<WriteView>,
    parsed: Result<(Seq<WriteView>, Seq<u8>), RecordFault>,
) -> Result<(Seq<WriteView>, Seq<u8>), RecordFault> {
    match parsed {
        Err(fault) => Err(fault),
        Ok((more, rest)) => Ok((writes + more, rest)),
    }
}

/// Read a commit record: what `s` says, or the first fault in it.
pub open spec fn parse_record(s: Seq<u8>) -> Result<RecordView, RecordFault> {
    if s.len() < 1 {
        Err(RecordFault::Truncated)
    } else if s[0] != FORMAT_VERSION {
        Err(RecordFault::Version(s[0]))
    } else if s.len() < 13 {
        Err(RecordFault::Truncated)
    } else {
        let commit_ts = le_value(s.subrange(1, 9)) as u64;
        let count = le_value(s.subrange(9, 13));
        if count > (s.len() - 13) / 5 {
            Err(RecordFault::Count)
        } else {
            match parse_entries(s.skip(13), count) {
                Err(fault) => Err(fault),
                Ok((writes, rest)) => if rest.len() > 0 {
                    Err(RecordFault::Trailing)
                } else {
                    Ok(RecordView { commit_ts, writes })
                },
            }
        }
    }
}

// ---------------------------------------------------------------------------
// Reading gives back what was written
// ---------------------------------------------------------------------------

proof fn lemma_parse_field(field: Seq<u8>, tail: Seq<u8>)
    requires
        field.len() <= u32::MAX,
    ensures
        parse_field(le_bytes(field.len(), 4) + field + tail) == Ok::<_, RecordFault>((field, tail)),
{
    let s = le_bytes(field.len(), 4) + field + tail;
    lemma_le_limits();
    lemma_le_round_trip(field.len(), 4);
    assert(s.take(4) =~= le_bytes(field.len(), 4));
    assert(s.subrange(4, (4 + field.len()) as int) =~= field);
    assert(s.skip((4 + field.len()) as int) =~= tail);
}

proof fn lemma_parse_entry(write: WriteView, tail: Seq<u8>)
    requires
        write_fits(write),
    ensures
        parse_entry(entry_bytes(write) + tail) == Ok::<_, RecordFault>((write, tail)),
{
    let s = entry_bytes(write) + tail;
    match write.1 {
        Some(value) => {
            let body = seq![1u8] + le_bytes(value.len(), 4) + value;
            assert(s =~= le_bytes(write.0.len(), 4) + write.0 + (body + tail));
            lemma_parse_field(write.0, body + tail);
            assert((body + tail).skip(1) =~= le_bytes(value.len(), 4) + value + tail);
            lemma_parse_field(value, tail);
        },
        None => {
            let body = seq![0u8];
            assert(s =~= le_bytes(write.0.len(), 4) + write.0 + (body + tail));
            lemma_parse_field(write.0, body + tail);
            assert((body + tail).skip(1) =~= tail);
        },
    }
}

proof fn lemma_parse_entries(writes: Seq<WriteView>, tail: Seq<u8>)
    requires
        forall|i: int| 0 <= i < writes.len() ==> write_fits(#[trigger] writes[i]),
    ensures
        parse_entries(entries_bytes(writes) + tail, writes.len()) == Ok::<_, RecordFault>(
            (writes, tail),
        ),
        entries_bytes(writes).len() >= 5 * writes.len(),
    decreases writes.len(),
{
    if writes.len() == 0 {
        assert(entries_bytes(writes) + tail =~= tail);
        assert(writes =~= Seq::empty());
    } else {
        let rest = writes.skip(1);
        assert forall|i: int| 0 <= i < rest.len() implies write_fits(#[trigger] rest[i]) by {
            assert(rest[i] == writes[i + 1]);
        }
        assert(entries_bytes(writes) + tail =~= entry_bytes(writes[0]) + (entries_bytes(rest)
            + tail));
        lemma_parse_entry(writes[0], entries_bytes(rest) + tail);
        lemma_parse_entries(rest, tail);
        lemma_le_bytes_len(writes[0].0.len(), 4);
        assert(seq![writes[0]] + rest =~= writes);
    }
}

/// What `parse_record` makes of the bytes of a record with bytes after them.
proof fn lemma_parse_record(record: RecordView, tail: Seq<u8>)
    requires
        record_fits(record),
    ensures
        parse_record(record_bytes(record) + tail) == (if tail.len() == 0 {
            Ok::<RecordView, RecordFault>(record)
        } else {
            Err(RecordFault::Trailing)
        }),
{
    let s = record_bytes(record) + tail;
    lemma_le_limits();
    lemma_le_round_trip(record.commit_ts as nat, 8);
    lemma_le_round_trip(record.writes.len(), 4);
    assert(s.subrange(1, 9) =~= le_bytes(record.commit_ts as nat, 8));
    assert(s.subrange(9, 13) =~= le_bytes(record.writes.len(), 4));
    assert(s.skip(13) =~= entries_bytes(record.writes) + tail);
    lemma_parse_entries(record.writes, tail);
}

/// Round trip: a record whose lengths fit the format reads back from its bytes,
/// exactly.
pub proof fn law_record_round_trip(record: RecordView)
    requires
        record_fits(record),
    ensures
        parse_record(record_bytes(record)) == Ok::<RecordView, RecordFault>(record),
{
    lemma_parse_record(record, Seq::empty());
    assert(record_bytes(record) + Seq::empty() =~= record_bytes(record));
}

/// Exact consumption: a record with bytes after it is rejected.
pub proof fn law_trailing_bytes_rejected(record: RecordView, tail: Seq<u8>)
    requires
        record_fits(record),
        tail.len() > 0,
    ensures
        parse_record(record_bytes(record) + tail) == Err::<RecordView, RecordFault>(
            RecordFault::Trailing,
        ),
{
    lemma_parse_record(record, tail);
}

proof fn lemma_field_bytes(s: Seq<u8>)
    ensures
        parse_field(s) matches Ok((field, rest)) ==> field.len() <= u32::MAX && s == le_bytes(
            field.len(),
            4,
        ) + field + rest,
{
    if let Ok((field, rest)) = parse_field(s) {
        let prefix = s.take(4);
        lemma_le_limits();
        lemma_le_value_bound(prefix);
        lemma_le_bytes_of_value(prefix);
        assert(field.len() == le_value(prefix));
        assert(s =~= prefix + field + rest);
    }
}

proof fn lemma_entry_bytes(s: Seq<u8>)
    ensures
        parse_entry(s) matches Ok((write, rest)) ==> write_fits(write) && s == entry_bytes(write)
            + rest,
{
    if let Ok((write, rest)) = parse_entry(s) {
        lemma_field_bytes(s);
        let after_key = parse_field(s)->Ok_0.1;
        lemma_field_bytes(after_key.skip(1));
        if after_key[0] == 0 {
            assert(s =~= entry_bytes(write) + rest);
        } else {
            assert(after_key =~= seq![1u8] + after_key.skip(1));
            assert(s =~= entry_bytes(write) + rest);
        }
    }
}

proof fn lemma_entries_bytes(s: Seq<u8>, count: nat)
    ensures
        parse_entries(s, count) matches Ok((writes, rest)) ==> {
            &&& writes.len() == count
            &&& forall|i: int| 0 <= i < writes.len() ==> write_fits(#[trigger] writes[i])
            &&& s == entries_bytes(writes) + rest
        },
    decreases count,
{
    if let Ok((writes, rest)) = parse_entries(s, count) {
        if count == 0 {
            assert(s =~= entries_bytes(writes) + rest);
        } else {
            lemma_entry_bytes(s);
            let (first, after) = parse_entry(s)->Ok_0;
            lemma_entries_bytes(after, (count - 1) as nat);
            let more = parse_entries(after, (count - 1) as nat)->Ok_0.0;
            assert(writes =~= seq![first] + more);
            assert(writes.skip(1) =~= more);
            assert forall|i: int| 0 <= i < writes.len() implies write_fits(#[trigger] writes[i]) by {
                if i > 0 {
                    assert(writes[i] == more[i - 1]);
                }
            }
            assert(s =~= entries_bytes(writes) + rest);
        }
    }
}

/// Only records are read: bytes that read as a record are the bytes of that
/// record.
pub proof fn law_accepted_bytes_are_the_record(s: Seq<u8>)
    ensures
        parse_record(s) matches Ok(record) ==> record_fits(record) && s == record_bytes(record),
{
    if let Ok(record) = parse_record(s) {
        let count = le_value(s.subrange(9, 13));
        lemma_le_limits();
        lemma_le_value_bound(s.subrange(1, 9));
        lemma_le_value_bound(s.subrange(9, 13));
        lemma_le_bytes_of_value(s.subrange(1, 9));
        lemma_le_bytes_of_value(s.subrange(9, 13));
        lemma_entries_bytes(s.skip(13), count);
        assert(s =~= record_bytes(record));
    }
}

/// A torn record is rejected: no proper prefix of a record reads as a record.
pub proof fn law_truncated_record_rejected(record: RecordView, len: int)
    requires
        record_fits(record),
        0 <= len < record_bytes(record).len(),
    ensures
        parse_record(record_bytes(record).take(len)) is Err,
{
    let whole = record_bytes(record);
    let prefix = whole.take(len);
    law_accepted_bytes_are_the_record(prefix);
    if let Ok(other) = parse_record(prefix) {
        assert(whole =~= record_bytes(other) + whole.skip(len));
        lemma_parse_record(other, whole.skip(len));
        law_record_round_trip(record);
    }
}

// ---------------------------------------------------------------------------
// Encoding
// ---------------------------------------------------------------------------

/// One more write adds its bytes at the end.
pub proof fn lemma_entries_bytes_push(writes: Seq<WriteView>, write: WriteView)
    ensures
        entries_bytes(writes.push(write)) == entries_bytes(writes) + entry_bytes(write),
    decreases writes.len(),
{
    let longer = writes.push(write);
    if writes.len() == 0 {
        assert(longer.skip(1) =~= Seq::empty());
        assert(entries_bytes(longer.skip(1)) =~= Seq::empty());
        assert(entries_bytes(longer) =~= entries_bytes(writes) + entry_bytes(write));
    } else {
        assert(longer.skip(1) =~= writes.skip(1).push(write));
        lemma_entries_bytes_push(writes.skip(1), write);
        assert(entries_bytes(longer) =~= entries_bytes(writes) + entry_bytes(write));
    }
}

/// Append a byte string.
fn push_bytes(buf: &mut Vec<u8>, bytes: &[u8])
    ensures
        final(buf)@ == old(buf)@ + bytes@,
{
    buf.extend_from_slice(bytes);
    assert(buf@ =~= old(buf)@ + bytes@);
}

/// Append a write entry.
fn push_entry(buf: &mut Vec<u8>, entry: &WriteEntry)
    ensures
        final(buf)@ == old(buf)@ + entry_bytes(
            (bytes::bytes_of(entry.0), bytes::value_of(entry.1)),
        ),
{
    push_le(buf, entry.0.len() as u64, 4);
    push_bytes(buf, &*entry.0);
    match &entry.1 {
        Some(value) => {
            buf.push(1);
            push_le(buf, value.len() as u64, 4);
            push_bytes(buf, &**value);
        },
        None => {
            buf.push(0);
        },
    }
    assert(buf@ =~= old(buf)@ + entry_bytes(
        (bytes::bytes_of(entry.0), bytes::value_of(entry.1)),
    ));
}

/// Encode one committed transaction into a record, ready to be logged.
///
/// Lengths and the count take the low 32 bits of what they state.
pub fn encode_for_log(commit_ts: Timestamp, writes: &[WriteEntry]) -> (record: Vec<u8>)
    ensures
        record@ == record_bytes(
            RecordView { commit_ts: commit_ts@, writes: store::writes_of(writes@) },
        ),
{
    let ghost view = store::writes_of(writes@);
    let mut buf: Vec<u8> = Vec::new();
    buf.push(FORMAT_VERSION);
    push_le(&mut buf, commit_ts.get(), 8);
    push_le(&mut buf, writes.len() as u64, 4);
    let ghost head = buf@;
    let mut i: usize = 0;
    assert(view.take(0) =~= Seq::empty());
    assert(buf@ =~= head + entries_bytes(view.take(0)));
    while i < writes.len()
        invariant
            i <= writes@.len(),
            view == store::writes_of(writes@),
            buf@ == head + entries_bytes(view.take(i as int)),
        decreases writes@.len() - i,
    {
        push_entry(&mut buf, &writes[i]);
        proof {
            lemma_entries_bytes_push(view.take(i as int), view[i as int]);
            assert(view.take(i + 1) =~= view.take(i as int).push(view[i as int]));
            assert(buf@ =~= head + entries_bytes(view.take(i + 1)));
        }
        i += 1;
    }
    assert(view.take(i as int) =~= view);
    assert(buf@ =~= record_bytes(RecordView { commit_ts: commit_ts@, writes: view }));
    buf
}

// ---------------------------------------------------------------------------
// Decoding
// ---------------------------------------------------------------------------

/// One committed transaction recovered from the log.
pub struct RecoveredCommit {
    /// The timestamp the transaction committed at.
    pub commit_ts: Timestamp,
    /// What it wrote, in the order of the record.
    pub writes: Vec<WriteEntry>,
}

impl View for RecoveredCommit {
    type V = RecordView;

    open spec fn view(&self) -> RecordView {
        RecordView { commit_ts: self.commit_ts@, writes: store::writes_of(self.writes@) }
    }
}

/// A bounds-checked little-endian cursor over a record's bytes.
struct Reader<'a> {
    buf: &'a [u8],
    pos: usize,
}

impl<'a> Reader<'a> {
    spec fn wf(&self) -> bool {
        self.pos <= self.buf@.len()
    }

    /// The bytes not read yet.
    spec fn rest(&self) -> Seq<u8> {
        self.buf@.skip(self.pos as int)
    }

    fn new(buf: &'a [u8]) -> (reader: Self)
        ensures
            reader.wf(),
            reader.rest() == buf@,
    {
        assert(buf@.skip(0) =~= buf@);
        Reader { buf, pos: 0 }
    }

    fn remaining(&self) -> (remaining: usize)
        requires
            self.wf(),
        ensures
            remaining == self.rest().len(),
    {
        self.buf.len() - self.pos
    }

    /// Read the next `len` bytes.
    fn read_bytes(&mut self, len: usize) -> (bytes: Result<&'a [u8], RecordFault>)
        requires
            old(self).wf(),
        ensures
            final(self).wf(),
            match bytes {
                Ok(bytes) => {
                    &&& len <= old(self).rest().len()
                    &&& bytes@ == old(self).rest().take(len as int)
                    &&& final(self).rest() == old(self).rest().skip(len as int)
                },
                Err(fault) => {
                    &&& len > old(self).rest().len()
                    &&& fault is Truncated
                    &&& *final(self) == *old(self)
                },
            },
    {
        let buf: &'a [u8] = self.buf;
        if len > buf.len() - self.pos {
            return Err(RecordFault::Truncated);
        }
        let start = self.pos;
        let bytes = vstd::slice::slice_subrange(buf, start, start + len);
        self.pos = start + len;
        assert(bytes@ =~= old(self).rest().take(len as int));
        assert(self.rest() =~= old(self).rest().skip(len as int));
        Ok(bytes)
    }

    fn read_u8(&mut self) -> (byte: Result<u8, RecordFault>)
        requires
            old(self).wf(),
        ensures
            final(self).wf(),
            match byte {
                Ok(byte) => {
                    &&& old(self).rest().len() >= 1
                    &&& byte == old(self).rest()[0]
                    &&& final(self).rest() == old(self).rest().skip(1)
                },
                Err(fault) => {
                    &&& old(self).rest().len() < 1
                    &&& fault is Truncated
                    &&& *final(self) == *old(self)
                },
            },
    {
        match self.read_bytes(1) {
            Ok(bytes) => Ok(bytes[0]),
            Err(fault) => Err(fault),
        }
    }

    fn read_u32(&mut self) -> (value: Result<u32, RecordFault>)
        requires
            old(self).wf(),
        ensures
            final(self).wf(),
            match value {
                Ok(value) => {
                    &&& old(self).rest().len() >= 4
                    &&& value == le_value(old(self).rest().take(4))
                    &&& final(self).rest() == old(self).rest().skip(4)
                },
                Err(fault) => {
                    &&& old(self).rest().len() < 4
                    &&& fault is Truncated
                    &&& *final(self) == *old(self)
                },
            },
    {
        match self.read_bytes(4) {
            Ok(bytes) => {
                proof {
                    lemma_le_value_bound(bytes@);
                    lemma_le_limits();
                }
                Ok(value_le(bytes) as u32)
            },
            Err(fault) => Err(fault),
        }
    }

    fn read_u64(&mut self) -> (value: Result<u64, RecordFault>)
        requires
            old(self).wf(),
        ensures
            final(self).wf(),
            match value {
                Ok(value) => {
                    &&& old(self).rest().len() >= 8
                    &&& value == le_value(old(self).rest().take(8))
                    &&& final(self).rest() == old(self).rest().skip(8)
                },
                Err(fault) => {
                    &&& old(self).rest().len() < 8
                    &&& fault is Truncated
                    &&& *final(self) == *old(self)
                },
            },
    {
        match self.read_bytes(8) {
            Ok(bytes) => Ok(value_le(bytes)),
            Err(fault) => Err(fault),
        }
    }

    /// Read a length-prefixed byte string.
    fn read_field(&mut self) -> (field: Result<Arc<[u8]>, RecordFault>)
        requires
            old(self).wf(),
        ensures
            final(self).wf(),
            match field {
                Ok(field) => parse_field(old(self).rest()) == Ok::<_, RecordFault>(
                    (bytes::bytes_of(field), final(self).rest()),
                ),
                Err(fault) => parse_field(old(self).rest()) == Err::<
                    (Seq<u8>, Seq<u8>),
                    RecordFault,
                >(fault),
            },
    {
        let len = match self.read_u32() {
            Ok(len) => len as usize,
            Err(fault) => return Err(fault),
        };
        let ghost after = self.rest();
        match self.read_bytes(len) {
            Ok(bytes) => {
                proof {
                    let s = old(self).rest();
                    assert(after.take(len as int) =~= s.subrange(4, 4 + len));
                    assert(after.skip(len as int) =~= s.skip(4 + len));
                }
                Ok(share(copy_bytes(bytes)))
            },
            Err(fault) => Err(fault),
        }
    }

    /// Read a write entry.
    fn read_entry(&mut self) -> (entry: Result<WriteEntry, RecordFault>)
        requires
            old(self).wf(),
        ensures
            final(self).wf(),
            match entry {
                Ok(entry) => parse_entry(old(self).rest()) == Ok::<_, RecordFault>(
                    (
                        (bytes::bytes_of(entry.0), bytes::value_of(entry.1)),
                        final(self).rest(),
                    ),
                ),
                Err(fault) => parse_entry(old(self).rest()) == Err::<
                    (WriteView, Seq<u8>),
                    RecordFault,
                >(fault),
            },
    {
        let key = match self.read_field() {
            Ok(key) => key,
            Err(fault) => return Err(fault),
        };
        let tag = match self.read_u8() {
            Ok(tag) => tag,
            Err(fault) => return Err(fault),
        };
        if tag == 0 {
            Ok((key, None))
        } else if tag == 1 {
            match self.read_field() {
                Ok(value) => Ok((key, Some(value))),
                Err(fault) => Err(fault),
            }
        } else {
            Err(RecordFault::Tag(tag))
        }
    }
}

/// Decode one record, validating every length against the bytes present.
fn decode_record(bytes: &[u8]) -> (commit: Result<RecoveredCommit, RecordFault>)
    ensures
        match commit {
            Ok(commit) => parse_record(bytes@) == Ok::<RecordView, RecordFault>(commit@),
            Err(fault) => parse_record(bytes@) == Err::<RecordView, RecordFault>(fault),
        },
{
    let mut reader = Reader::new(bytes);
    let version = match reader.read_u8() {
        Ok(version) => version,
        Err(fault) => return Err(fault),
    };
    if version != FORMAT_VERSION {
        return Err(RecordFault::Version(version));
    }
    let commit_ts = match reader.read_u64() {
        Ok(raw) => Timestamp::from_raw(raw),
        Err(fault) => return Err(fault),
    };
    let count = match reader.read_u32() {
        Ok(count) => count as usize,
        Err(fault) => return Err(fault),
    };
    proof {
        assert(bytes@.skip(1).take(8) =~= bytes@.subrange(1, 9));
        assert(bytes@.skip(1).skip(8).take(4) =~= bytes@.subrange(9, 13));
        assert(bytes@.skip(1).skip(8).skip(4) =~= bytes@.skip(13));
    }
    // A record cannot describe more writes than its remaining bytes could hold,
    // so the claimed count is bounded before a single allocation.
    if count > reader.remaining() / MIN_WRITE_BYTES {
        return Err(RecordFault::Count);
    }
    let ghost body = reader.rest();
    let mut writes: Vec<WriteEntry> = Vec::with_capacity(count);
    assert(store::writes_of(writes@) =~= Seq::empty());
    assert(prepend(Seq::empty(), parse_entries(body, count as nat)) == parse_entries(
        body,
        count as nat,
    )) by {
        if let Ok((more, _)) = parse_entries(body, count as nat) {
            assert(Seq::<WriteView>::empty() + more =~= more);
        }
    }
    let mut left: usize = count;
    while left > 0
        invariant
            left <= count,
            reader.wf(),
            parse_entries(body, count as nat) == prepend(
                store::writes_of(writes@),
                parse_entries(reader.rest(), left as nat),
            ),
            // what is left of the record, should an entry not parse
            bytes@.len() >= 13,
            bytes@[0] == FORMAT_VERSION,
            body == bytes@.skip(13),
            count == le_value(bytes@.subrange(9, 13)),
            count <= (bytes@.len() - 13) / 5,
        decreases left,
    {
        let ghost before = store::writes_of(writes@);
        let ghost at = reader.rest();
        match reader.read_entry() {
            Ok(entry) => {
                let ghost write = (bytes::bytes_of(entry.0), bytes::value_of(entry.1));
                writes.push(entry);
                proof {
                    assert(store::writes_of(writes@) =~= before + seq![write]);
                    if let Ok((more, _)) = parse_entries(reader.rest(), (left - 1) as nat) {
                        assert(before + (seq![write] + more) =~= store::writes_of(writes@) + more);
                    }
                }
            },
            Err(fault) => return Err(fault),
        }
        left -= 1;
    }
    proof {
        assert(store::writes_of(writes@) + Seq::empty() =~= store::writes_of(writes@));
    }
    if reader.remaining() != 0 {
        return Err(RecordFault::Trailing);
    }
    Ok(RecoveredCommit { commit_ts, writes })
}

/// The error for a fault in a record.
fn corrupt(fault: RecordFault) -> (error: TxnError)
    ensures
        error matches TxnError::Durability { detail } && detail@ == fault_text(fault),
{
    let mut text = "malformed commit record: ".to_owned();
    match fault {
        RecordFault::Truncated => {
            text.append("record ends mid-field");
        },
        RecordFault::Version(version) => {
            text.append("unsupported format version ");
            text.append(decimal_text(version as u64).as_str());
        },
        RecordFault::Count => {
            text.append("write count exceeds record size");
        },
        RecordFault::Tag(tag) => {
            text.append("invalid value tag ");
            text.append(decimal_text(tag as u64).as_str());
        },
        RecordFault::Trailing => {
            text.append("trailing bytes after commit record");
        },
    }
    assert(text@ =~= fault_text(fault));
    TxnError::durability(text.as_str())
}

/// Decode one record of the log. Bytes that are not a record are an error, which
/// names the first fault in them.
pub fn decode_commit(bytes: &[u8]) -> (commit: Result<RecoveredCommit, TxnError>)
    ensures
        match parse_record(bytes@) {
            Ok(record) => commit matches Ok(commit) && commit@ == record,
            Err(fault) => commit matches Err(TxnError::Durability { detail }) && detail@
                == fault_text(fault),
        },
{
    match decode_record(bytes) {
        Ok(commit) => Ok(commit),
        Err(fault) => Err(corrupt(fault)),
    }
}

} // verus!
