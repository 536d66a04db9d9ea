//! Error taxonomy of the store.

use vstd::prelude::*;

verus! {

/// Errors surfaced by the store. Errors are returned to the caller, never
/// retried silently; a failed batch is dropped, never partially committed.
#[derive(Debug, Clone, PartialEq, Eq)]
pub enum StorefulError {
    /// Miscellaneous failure.
    Misc,
    /// Unknown failure.
    Unknown,
    /// The backend failed to initialize a database.
    Open(String),
    /// Underlying I/O failed mid-operation.
    Disconnect(String),
    /// A stored payload failed to decode.
    Codec,
    /// A scanned timestamp-index key held a malformed timestamp field.
    ParseInt,
    /// Scanned key material was not valid text.
    Utf8,
    /// A declared index family is missing.
    ColumnFamilyNotFound(String),
    /// `start_batch` was called while a batch was already open.
    BatchAlreadyStarted,
    /// `commit_batch` was called with no batch open.
    BatchNotStarted,
    /// Reserved for future range validation.
    InvalidQueryRange,
    /// A concurrency primitive reported corruption.
    LockPoisoned,
    /// A record or query field held a reserved character or a negative
    /// timestamp, which would break the key grammar.
    Validation,
}

impl StorefulError {
    /// A short description of the error, for callers that print it.
    pub fn message(&self) -> (r: &'static str) {
        match self {
            StorefulError::Misc => "misc error",
            StorefulError::Unknown => "unknown storeful error",
            StorefulError::Open(_) => "failed to open database",
            StorefulError::Disconnect(_) => "data store disconnected",
            StorefulError::Codec => "payload codec error",
            StorefulError::ParseInt => "parse int error",
            StorefulError::Utf8 => "from utf8 error",
            StorefulError::ColumnFamilyNotFound(_) => "column family not found",
            StorefulError::BatchAlreadyStarted => "batch already started",
            StorefulError::BatchNotStarted => "batch not started",
            StorefulError::InvalidQueryRange => "invalid query range",
            StorefulError::LockPoisoned => "lock poisoned",
            StorefulError::Validation => "reserved character or negative timestamp",
        }
    }
}

} // verus!
