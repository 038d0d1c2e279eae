//! The ASCII bytes that carry meaning in the encoding.

use vstd::prelude::*;

verus! {

/// `0`, the smallest decimal digit.
pub const ZERO: u8 = 0x30;

/// `9`, the largest decimal digit.
pub const NINE: u8 = 0x39;

/// `-`, the sign of a negative integer.
pub const MINUS: u8 = 0x2d;

/// `+`, which no number may begin with.
pub const PLUS: u8 = 0x2b;

/// `:`, which parts the length of a byte string from its content.
pub const COLON: u8 = 0x3a;

/// `i`, which opens an integer.
pub const INT: u8 = 0x69;

/// `l`, which opens a list.
pub const LIST: u8 = 0x6c;

/// `d`, which opens a dictionary.
pub const DICT: u8 = 0x64;

/// `e`, which closes an integer, a list or a dictionary.
pub const END: u8 = 0x65;

} // verus!
