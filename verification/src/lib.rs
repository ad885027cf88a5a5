//! Core of an embedded transactional key-value engine: a multi-version
//! concurrency control (MVCC) layer over an ordered byte-key store, and a
//! sorted-string-table (SST) format with a double-ended range iterator.

pub mod block;
pub mod bytes_order;
pub mod encoding;
pub mod error;
pub mod kvstore;
pub mod metadata;
pub mod mvcc_key;
pub mod schema;
pub mod sst_iter;
pub mod sstable;
pub mod transaction;

pub use metadata::Mode;
pub use transaction::{MVCC, Transaction};
