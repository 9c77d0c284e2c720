//! # txn-db
//!
//! A multi-version concurrency control (MVCC) transaction engine: the layer
//! that turns a key-value store into a transactional database.
//!
//! Every write produces a new version tagged with a commit [`Timestamp`], so
//! readers get a stable snapshot of the data without ever blocking writers, and
//! writers detect conflicts at commit time instead of holding locks for the
//! lifetime of a transaction. It is deliberately a *layer*, not a store: the
//! version store is the [`VersionStore`] trait, so it composes on top of an LSM
//! tree, a B-tree, or any backend that can keep timestamped versions of a key.
//!
//! ## The common case
//!
//! Begin a transaction, read and write through it, commit. Conflicts surface as
//! a typed, retryable error.
//!
//! ```text
//! let mut db = Db::new();
//!
//! let mut tx = db.begin();
//! tx.put(b"user:1:name".to_vec(), b"ada".to_vec());
//! tx.put(b"user:1:role".to_vec(), b"admin".to_vec());
//! tx.commit(&mut db)?;
//!
//! let mut tx = db.begin();
//! assert_eq!(tx.get(&db, b"user:1:name")?.as_deref(), Some(&b"ada"[..]));
//! tx.rollback(&mut db);
//! ```
//!
//! ## Snapshot isolation
//!
//! A transaction reads the database as of the instant it began. Commits made by
//! other transactions afterward are invisible to it, and its own buffered writes
//! are visible only to itself until it commits. At commit, the engine applies
//! *first-committer-wins*: if any key the transaction wrote was changed by
//! another transaction that committed after this one's snapshot, the commit is
//! rejected with a retryable [`TxnError::Conflict`]. That rule is what prevents
//! lost updates. A [serializable](Db::begin_serializable) transaction has its
//! reads validated in the same way.
//!
//! ## Where things stand
//!
//! - [`history`] is the model: the versions of every key, what a reader at a
//!   timestamp sees of them, and what commits and collection do to them.
//! - [`store`] keeps a history, [`oracle`] keeps the clock that orders commits.
//! - [`db`] and [`txn`] are the database and its transactions.
//! - [`durable`] and [`recovery`] are the commit log's records and their replay.
//! - [`laws`] states what holds across operations, [`sessions`] that the store
//!   behind a database does not matter, and [`shards`] that the number of shards
//!   does not either.
//! - [`promises`] states what a program can rely on of the calls it makes, and
//!   [`meanings`] what the words of the contracts come to.

pub mod bytes;
pub mod db;
pub mod durable;
pub mod error;
pub mod history;
mod keymap;
pub mod laws;
pub mod meanings;
pub mod oracle;
pub mod prelude;
pub mod promises;
pub mod recovery;
pub mod sessions;
pub mod shards;
pub mod store;
pub mod text;
pub mod timestamp;
pub mod txn;

pub use crate::db::Db;
pub use crate::error::{Result, TxnError};
pub use crate::store::{MemoryStore, VersionStore, WriteEntry};
pub use crate::timestamp::Timestamp;
pub use crate::txn::{AppliedCommit, Prepared, Snapshot, Transaction};
