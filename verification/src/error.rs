//! The ways in which an operation of the store can fail.

use vstd::prelude::*;

verus! {

/// What went wrong.
#[derive(Clone, Copy, Debug, PartialEq, Eq, Structural)]
pub enum StoreError {
    /// The key is not in the index.
    NotFound,
    /// A file could not be read, written or created.
    IoError,
    /// A file name cannot be parsed, or a record does not fit its own header.
    CorruptFile,
    /// A write reached a datafile that is not the active one.
    ReadOnly,
    /// The index names a datafile that is not open.
    MissingFile,
    /// A hint scan found no further complete record.
    EndOfFile,
    /// The bytes ended in the middle of a record.
    ShortRead,
}

} // verus!
