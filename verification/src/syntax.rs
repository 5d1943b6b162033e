//! The bytes that the bencode wire format gives a meaning to.

use vstd::prelude::*;

verus! {

/// `i`, which opens an integer.
pub const INT_TAG: u8 = 105;

/// `l`, which opens a list.
pub const LIST_TAG: u8 = 108;

/// `d`, which opens a dictionary.
pub const DICT_TAG: u8 = 100;

/// `e`, which closes an integer, a list or a dictionary.
pub const END: u8 = 101;

/// `:`, which stands between the length of a byte string and its bytes.
pub const COLON: u8 = 58;

/// `-`, the sign of a negative integer.
pub const MINUS: u8 = 45;

/// `0`, the first decimal digit.
pub const ZERO: u8 = 48;

/// Whether `b` is an ASCII decimal digit.
pub open spec fn is_digit(b: u8) -> bool {
    48 <= b <= 57
}

} // verus!
