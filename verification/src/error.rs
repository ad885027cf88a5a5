//! The error taxonomy of the engine. Variants fall into three semantic
//! categories: caller-visible precondition failures (`Value`),
//! invariant violations (`Internal`), and metadata codec failures
//! (`Serialization`). The core performs no local recovery: every error
//! propagates to the caller.

use vstd::prelude::*;

verus! {

#[derive(Debug, PartialEq)]
pub enum Error {
    /// Value: `resume` was called for a transaction id with no active marker.
    NoActiveTransaction(u64),
    /// Value: `Snapshot::restore` found no persisted snapshot for the version.
    SnapshotNotFound(u64),
    /// Value: a table schema has no columns.
    TableHasNoColumns(String),
    /// Value: a table schema has no primary-key column.
    NoPrimaryKey(String),
    /// Value: a table schema has more than one primary-key column.
    MultiplePrimaryKeys(String),
    /// Value: a row does not have one value per column of its table.
    InvalidRowSize(String),
    /// Value: a table read by name does not exist.
    TableNotFound(String),
    /// Internal: an MVCC key begins with an unknown tag byte.
    UnknownKeyPrefix(u8),
    /// Internal: an MVCC key has bytes left over after its fields.
    TrailingKeyBytes,
    /// Internal: an MVCC key ends before its fields are complete, or holds a
    /// malformed escape sequence.
    MalformedKey,
    /// Internal: the active-set scan met a key that is not an active-marker.
    UnexpectedScanKey,
    /// Internal: the transaction-id counter cannot be incremented further.
    TxnIdOverflow,
    /// Internal: an SST file is too short or its trailer is inconsistent.
    CorruptSstable,
    /// Internal: a cache handed to a table already holds blocks under the
    /// table's id.
    CacheNotClean,
    /// Serialization: a stored metadata value does not decode.
    Serialization,
}

impl Error {
    /// A short stable name for the variant, in place of a display form.
    pub fn describe(&self) -> (r: &'static str)
    {
        match self {
            Error::NoActiveTransaction(_) => "no active transaction with this id",
            Error::SnapshotNotFound(_) => "snapshot not found for this version",
            Error::TableHasNoColumns(_) => "table has no columns",
            Error::NoPrimaryKey(_) => "no primary key in table",
            Error::MultiplePrimaryKeys(_) => "multiple primary keys in table",
            Error::InvalidRowSize(_) => "invalid row size for table",
            Error::TableNotFound(_) => "table does not exist",
            Error::UnknownKeyPrefix(_) => "unknown MVCC key prefix",
            Error::TrailingKeyBytes => "unexpected data remaining at end of key",
            Error::MalformedKey => "truncated or malformed MVCC key",
            Error::UnexpectedScanKey => "expected an active-transaction key",
            Error::TxnIdOverflow => "transaction id space exhausted",
            Error::CorruptSstable => "corrupt SST file",
            Error::CacheNotClean => "cache already holds blocks under this table id",
            Error::Serialization => "metadata serialization failure",
        }
    }
}

} // verus!
