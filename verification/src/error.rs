//! The ways in which an operation of the store can fail.

use vstd::prelude::*;

verus! {

/// Why an operation failed.
#[derive(Debug, Clone, Copy, PartialEq, Eq, Structural)]
pub enum CustomError {
    /// The path of the log file cannot be held as a string.
    InvalidPathError,
    /// The log file could not be opened, read, written or replaced.
    WriteFileError,
    /// `remove` was asked for a key that has no value.
    KeyNotFound,
    /// A command has no record that reads back as the same command, or the
    /// bytes at a locator are no record.
    SerializationError,
}

} // verus!
