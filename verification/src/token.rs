//! The bytes that the grammar gives a meaning to.

use vstd::prelude::*;

verus! {

/// `0`, the first decimal digit.
pub const DIGIT_ZERO: u8 = 48;

/// `9`, the last decimal digit.
pub const DIGIT_NINE: u8 = 57;

/// `-`, the sign of a negative integer.
pub const MINUS: u8 = 45;

/// `:`, which parts a byte string's length from its bytes.
pub const COLON: u8 = 58;

/// `i`, which opens an integer.
pub const INTEGER_START: u8 = 105;

/// `l`, which opens a list.
pub const LIST_START: u8 = 108;

/// `d`, which opens a dictionary.
pub const DICTIONARY_START: u8 = 100;

/// `e`, which closes an integer, a list or a dictionary.
pub const END: u8 = 101;

} // verus!
