//! The errors of the codec and of the store.

use vstd::prelude::*;

verus! {

/// Why no record could be read from a byte stream.
#[derive(Debug, Clone, Copy, PartialEq, Eq)]
pub enum DecodeError {
    /// The bytes do not begin with a record: they are cut short or corrupt.
    Malformed,
    /// No bytes remain.
    EndOfStream,
}

/// Why an operation of the store failed.
#[derive(Debug, Clone, PartialEq, Eq)]
pub enum KvsError {
    /// The file system failed; the text says how. The store itself does no
    /// input or output: the layer that mirrors the log to a file reports its
    /// failures with this variant.
    Io(String),
    /// The log cannot be decoded.
    Corrupt,
    /// The key to remove is not in the store.
    KeyNotFound,
}

} // verus!
