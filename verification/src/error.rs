//! Error types.

use vstd::prelude::*;

verus! {

/// A constant string overflowed its buffer.
#[derive(Debug, PartialEq, Eq, Structural, Clone, Copy)]
pub struct LengthError {
    /// The remaining capacity of the buffer.
    pub remaining: usize,
    /// The required amount of elements.
    pub count: usize,
}

/// An invalid UTF-8 sequence was encountered.
#[derive(Debug, PartialEq, Eq, Structural, Clone, Copy)]
pub struct Utf8Error {
    /// The invalid UTF-8 octet.
    pub value: u8,
    /// The index of the invalid octet.
    pub index: usize,
}

} // verus!
