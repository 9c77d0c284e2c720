//! The crate error type.
//!
//! Every fallible operation returns a `Result` whose error is [`TxnError`].
//!
//! The error a caller meets most often is [`TxnError::Conflict`]: two
//! transactions that wrote the same key race at commit time, and the later
//! committer is aborted. That outcome is *expected* and *retryable*: the caller
//! re-runs the transaction against a fresher snapshot. The
//! [`TxnError::is_retryable`] helper makes that decision a single call in a
//! retry loop.

use vstd::prelude::*;

use crate::text;
use crate::text::decimal_text;

verus! {

/// The result of a transaction operation.
pub type Result<T, E = TxnError> = core::result::Result<T, E>;

/// Everything that can go wrong while running a transaction.
///
/// Later versions may add variants without a major bump, so a `match` over it
/// must hold a wildcard arm.
#[non_exhaustive]
#[derive(Debug, Clone, PartialEq, Eq)]
pub enum TxnError {
    /// Another transaction changed a key this one wrote, or that a serializable
    /// one read, after its snapshot. None of its writes were applied. Begin a
    /// fresh transaction and try again.
    ///
    /// Only the length of the key is carried, never its bytes, so the error is
    /// safe to log even when keys hold sensitive data.
    Conflict {
        /// Length in bytes of the key whose conflict aborted the commit.
        key_len: usize,
    },
    /// The backing version store failed a read or an apply. The in-memory store
    /// never produces this.
    Store {
        /// The operation the store was performing when it failed.
        context: &'static str,
        /// The store's description of the failure.
        detail: String,
    },
    /// The durable commit log failed, or a record read back from it was not
    /// intact. The durability guarantee is in question, so this is fatal.
    Durability {
        /// A description of the failure.
        detail: String,
    },
}

impl TxnError {
    /// The text of the error: what [`TxnError::to_string`] returns.
    pub open spec fn text(&self) -> Seq<char> {
        match self {
            TxnError::Conflict { key_len } => "write-write conflict on a "@ + text::decimal(
                *key_len as nat,
            ) + "-byte key; retry the transaction"@,
            TxnError::Store { context, detail } => "version store error while "@ + context@
                + ": "@ + detail@,
            TxnError::Durability { detail } => "durable commit log error: "@ + detail@,
        }
    }

    /// Build a [`TxnError::Conflict`] for a key of the given length.
    ///
    /// A [`VersionStore`](crate::VersionStore) returns this from `try_commit`
    /// when validation fails.
    #[inline]
    #[must_use]
    pub fn conflict(key_len: usize) -> (error: Self)
        ensures
            error == (TxnError::Conflict { key_len }),
    {
        TxnError::Conflict { key_len }
    }

    /// Build a [`TxnError::Store`] from a static context and a store message.
    ///
    /// Intended for [`VersionStore`](crate::VersionStore) implementations that
    /// can fail; the in-memory store never calls it.
    #[inline]
    #[must_use]
    pub fn store(context: &'static str, detail: &str) -> (error: Self)
        ensures
            error matches TxnError::Store { context: c, detail: d } && c == context && d@
                == detail@,
    {
        TxnError::Store { context, detail: detail.to_owned() }
    }

    /// Build a [`TxnError::Durability`] from a description of the failure.
    #[inline]
    #[must_use]
    pub fn durability(detail: &str) -> (error: Self)
        ensures
            error matches TxnError::Durability { detail: d } && d@ == detail@,
    {
        TxnError::Durability { detail: detail.to_owned() }
    }

    /// Returns `true` if re-running the transaction is the right response: a
    /// [`Conflict`](TxnError::Conflict). Whether a store failure can be retried
    /// is the store's to say, so it is reported as not retryable here.
    #[inline]
    #[must_use]
    pub fn is_retryable(&self) -> (retryable: bool)
        ensures
            retryable == (self is Conflict),
    {
        matches!(self, TxnError::Conflict { .. })
    }

    /// Returns `true` if the crash guarantee is in doubt: a
    /// [`Durability`](TxnError::Durability) failure.
    #[inline]
    #[must_use]
    pub fn is_fatal(&self) -> (fatal: bool)
        ensures
            fatal == (self is Durability),
    {
        matches!(self, TxnError::Durability { .. })
    }

    /// The name of the variant.
    #[must_use]
    pub fn kind(&self) -> (kind: &'static str)
        ensures
            kind@ == match self {
                TxnError::Conflict { .. } => "Conflict"@,
                TxnError::Store { .. } => "Store"@,
                TxnError::Durability { .. } => "Durability"@,
            },
    {
        match self {
            TxnError::Conflict { .. } => "Conflict",
            TxnError::Store { .. } => "Store",
            TxnError::Durability { .. } => "Durability",
        }
    }

    /// A heading for any error of this crate.
    #[must_use]
    pub fn caption(&self) -> (caption: &'static str)
        ensures
            caption@ == "transaction error"@,
    {
        "transaction error"
    }

    /// The text of the error.
    #[must_use]
    pub fn to_string(&self) -> (text: String)
        ensures
            text@ == self.text(),
    {
        match self {
            TxnError::Conflict { key_len } => {
                let mut text = "write-write conflict on a ".to_owned();
                text.append(decimal_text(*key_len as u64).as_str());
                text.append("-byte key; retry the transaction");
                text
            },
            TxnError::Store { context, detail } => {
                let mut text = "version store error while ".to_owned();
                text.append(context);
                text.append(": ");
                text.append(detail.as_str());
                text
            },
            TxnError::Durability { detail } => {
                let mut text = "durable commit log error: ".to_owned();
                text.append(detail.as_str());
                text
            },
        }
    }
}

} // verus!
