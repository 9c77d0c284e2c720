//! The crate's common imports in one `use`.
//!
//! The database, the transaction and snapshot types, the stores, the timestamp,
//! and the error type: everything the common case touches.

pub use crate::db::Db;
pub use crate::error::{Result, TxnError};
pub use crate::store::{MemoryStore, VersionStore, WriteEntry};
pub use crate::timestamp::Timestamp;
pub use crate::txn::{Snapshot, Transaction};
