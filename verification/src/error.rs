//! The error type shared by the storage engine's operations.

use vstd::prelude::*;

verus! {

/// What can go wrong in an engine operation.
#[derive(Debug, Clone, Copy, PartialEq, Eq, Structural)]
pub enum MyError {
    /// `remove` was asked for a key that is not present.
    KeyNotFound,
    /// The underlying storage failed, or a resource ran out.
    IoError,
    /// Bytes that should hold a complete record do not decode to one.
    MalformedRecord,
    /// The index points at bytes that do not decode to a `Set` record
    /// for the looked-up key.
    CorruptIndex,
}

impl MyError {
    /// A short human-readable description of the error.
    pub fn describe(&self) -> (r: &'static str)
        ensures
            self is KeyNotFound ==> r@ == "Key not found"@,
            self is IoError ==> r@ == "I/O error"@,
            self is MalformedRecord ==> r@ == "Malformed record"@,
            self is CorruptIndex ==> r@ == "Corrupt index"@,
    {
        match self {
            MyError::KeyNotFound => "Key not found",
            MyError::IoError => "I/O error",
            MyError::MalformedRecord => "Malformed record",
            MyError::CorruptIndex => "Corrupt index",
        }
    }
}

} // verus!
