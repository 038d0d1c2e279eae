//! The ways in which decoding can fail.

use vstd::prelude::*;

verus! {

/// Why a buffer was rejected. Every failure is final: the decoder neither
/// retries nor hands out a partial result.
#[derive(Debug, Clone, Copy, PartialEq, Eq, Structural)]
pub enum Error {
    /// A byte string declares more bytes than the input still holds.
    UnexpectedEof,
    /// The bytes do not follow the grammar: a wrong delimiter, a number
    /// that is not one, a list or dictionary that is never closed.
    InvalidSyntax,
    /// A text field holds bytes that are not UTF-8.
    InvalidUtf8,
    /// An integer was required and the next byte does not open one.
    ExpectedInteger,
    /// A byte string was required and no `:` follows.
    ExpectedString,
    /// A dictionary was required and the next byte does not open one.
    ExpectedDict,
    /// A required key is absent from a dictionary that was read to its end.
    UnknownField,
}

} // verus!
