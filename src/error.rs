use vstd::prelude::*;

verus! {

/// The failures the engine reports to its callers.
#[derive(Debug, PartialEq, Eq)]
pub enum Error {
    /// A filesystem operation failed.
    StorageIo(String),
    /// The log's framing is inconsistent with the file's length.
    CorruptLog,
    /// The shared engine lock was poisoned by an earlier failure.
    Lock,
    /// A stored key does not decode.
    Encoding,
    /// A concurrent transaction already wrote the key.
    WriteConflict,
    /// A mutating call was made on a read-only transaction.
    ReadOnlyViolation,
    /// Every version number has been allocated.
    VersionsExhausted,
    /// A frame was unpinned more often than it was pinned.
    NotPinned,
}

pub type Result<T> = core::result::Result<T, Error>;

} // verus!
