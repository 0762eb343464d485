//! The error taxonomy the engine reports.

use vstd::prelude::*;

verus! {

/// The ways a file collaborator can fail.
#[derive(Debug, Clone, Copy, PartialEq, Eq, Structural)]
pub enum IoErrorKind {
    /// A seek targeted a position before the start or past what fits in memory.
    InvalidSeek,
    /// A file could not be opened or created.
    OpenFailed,
    /// A page id was resolved past the end of the mapped bytes.
    OutOfBounds,
}

/// Everything a database operation can report.
#[derive(Debug)]
pub enum Error {
    /// Format or checksum failure on open or during traversal.
    InvalidDB(String),
    /// A bucket with this name already exists.
    BucketExists,
    /// No bucket with this name exists.
    BucketMissing,
    /// The key holds a value of the other kind (data where a bucket was
    /// expected, or the reverse).
    IncompatibleValue,
    /// A delete named a key that is not present.
    KeyValueMissing,
    /// A write was attempted on a read-only transaction.
    ReadOnlyTx,
    /// A transaction was used after commit or rollback.
    TxClosed,
    /// Pass-through from the file collaborator.
    Io(IoErrorKind),
}

impl Error {
    /// True exactly when this is a format error (`InvalidDB`).
    pub fn is_invalid_db(&self) -> (r: bool)
        ensures
            r == (self is InvalidDB),
    {
        match self {
            Error::InvalidDB(_) => true,
            _ => false,
        }
    }
}

} // verus!
