//! Logical timestamps that order transactions.
//!
//! Every committed write is tagged with the [`Timestamp`] at which it became
//! visible, and every reader carries the timestamp of the snapshot it is
//! reading. A read of a key returns the newest version whose commit timestamp is
//! less than or equal to the reader's snapshot timestamp.
//!
//! Timestamps are *logical*, not wall-clock: they come from a single counter
//! inside the database, so they are dense, gap-free in issuance order, and never
//! run backwards.

use std::cmp::Ordering;

use vstd::prelude::*;
use vstd::std_specs::cmp::{PartialEqSpec, PartialOrdSpec};

use crate::text;
use crate::text::decimal_text;

verus! {

/// A logical timestamp marking a point in a database's commit history.
///
/// Timestamps are issued by the database as a strictly increasing sequence.
/// [`Timestamp::zero`] is the timestamp of the empty database before any commit;
/// a reader that begins against an empty database reads at zero and sees
/// nothing. The first commit is stamped `1`, the next `2`, and so on.
///
/// The type is `Copy` and totally ordered, so comparing visibility is a single
/// integer compare on the hot read path.
#[derive(Debug, Clone, Copy, Eq, Ord, Hash)]
pub struct Timestamp(u64);

impl View for Timestamp {
    type V = u64;

    closed spec fn view(&self) -> u64 {
        self.0
    }
}

impl Timestamp {
    /// The timestamp of the empty database, before any transaction has
    /// committed. A snapshot taken at zero observes no keys.
    #[inline]
    #[must_use]
    pub fn zero() -> (ts: Self)
        ensures
            ts@ == 0,
    {
        Timestamp(0)
    }

    /// Wrap a raw counter value as a timestamp.
    ///
    /// This is the inverse of [`Timestamp::get`] and exists for tests, the
    /// commit log, and custom [`VersionStore`](crate::VersionStore)
    /// implementations that persist timestamps. Application code rarely
    /// constructs timestamps directly: the database issues them.
    #[inline]
    #[must_use]
    pub fn from_raw(value: u64) -> (ts: Self)
        ensures
            ts@ == value,
    {
        Timestamp(value)
    }

    /// The raw counter value behind this timestamp.
    #[inline]
    #[must_use]
    pub fn get(self) -> (value: u64)
        ensures
            value == self@,
    {
        self.0
    }

    /// The timestamp as text: an at sign and the counter value.
    #[must_use]
    pub fn to_string(&self) -> (text: String)
        ensures
            text@ == "@"@ + text::decimal(self@ as nat),
    {
        let mut text = "@".to_owned();
        text.append(decimal_text(self.0).as_str());
        text
    }
}

impl PartialEq for Timestamp {
    fn eq(&self, other: &Self) -> (r: bool) {
        self.0 == other.0
    }
}

impl vstd::std_specs::cmp::PartialEqSpecImpl for Timestamp {
    open spec fn obeys_eq_spec() -> bool {
        true
    }

    open spec fn eq_spec(&self, other: &Self) -> bool {
        self@ == other@
    }
}

impl PartialOrd for Timestamp {
    fn partial_cmp(&self, other: &Self) -> (r: Option<Ordering>) {
        if self.0 < other.0 {
            Some(Ordering::Less)
        } else if self.0 > other.0 {
            Some(Ordering::Greater)
        } else {
            Some(Ordering::Equal)
        }
    }
}

impl vstd::std_specs::cmp::PartialOrdSpecImpl for Timestamp {
    open spec fn obeys_partial_cmp_spec() -> bool {
        true
    }

    open spec fn partial_cmp_spec(&self, other: &Self) -> Option<Ordering> {
        if self@ < other@ {
            Some(Ordering::Less)
        } else if self@ > other@ {
            Some(Ordering::Greater)
        } else {
            Some(Ordering::Equal)
        }
    }
}

/// Timestamps are totally ordered, as their counter values are: of any two, one
/// comes first or they are the same.
pub proof fn law_timestamps_are_totally_ordered(a: Timestamp, b: Timestamp)
    ensures
        a.partial_cmp_spec(&b) == Some(Ordering::Less) <==> a@ < b@,
        a.partial_cmp_spec(&b) == Some(Ordering::Greater) <==> b@ < a@,
        a.partial_cmp_spec(&b) == Some(Ordering::Equal) <==> a == b,
        a.partial_cmp_spec(&b) is Some,
{
}

/// A timestamp is its counter value: two are equal if their values are, the value
/// that was wrapped comes back, and the text is an at sign and the value.
pub proof fn law_timestamps_are_their_values(
    raw: u64,
    ts: Timestamp,
    other: Timestamp,
    value: u64,
    text: String,
)
    requires
        call_ensures(Timestamp::from_raw, (raw,), ts),
        call_ensures(Timestamp::get, (ts,), value),
        call_ensures(Timestamp::to_string, (&ts,), text),
    ensures
        value == raw,
        ts.eq_spec(&other) <==> other@ == raw,
        text@ == seq!['@'] + text::decimal(raw as nat),
{
    reveal_strlit("@");
    assert("@"@ =~= seq!['@']);
}

} // verus!
