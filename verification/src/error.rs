//! The ways in which an operation of the storage core can fail.

use vstd::prelude::*;

verus! {

/// What is wrong with the bytes of a table file.
#[derive(Clone, Copy, Debug, PartialEq, Eq, Structural)]
pub enum FormatError {
    /// The bytes end before a record, or the file's trailer, is complete.
    Truncated,
    /// The trailer points past the place where the metadata can start.
    MetaOffsetOutOfRange,
    /// The metadata region describes no block at all.
    NoBlocks,
}

/// A failure of the storage core.
#[derive(Clone, Copy, Debug, PartialEq, Eq, Structural)]
pub enum Error {
    /// A read reached outside the file, or the file has no contents.
    Io,
    /// The bytes of a table do not follow the file format.
    Format(FormatError),
    /// The engine's own bookkeeping is inconsistent.
    InvariantViolation,
}

} // verus!
