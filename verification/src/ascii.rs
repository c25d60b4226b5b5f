//! The ASCII bytes and byte classes that the parsers and the histograms use.

use vstd::prelude::*;

verus! {

/// Line feed.
pub const LINE_FEED: u8 = 0x0a;

/// Carriage return.
pub const CARRIAGE_RETURN: u8 = 0x0d;

/// `-`
pub const HYPHEN: u8 = 0x2d;

/// `.`, which separates the labels of a name.
pub const DOT: u8 = 0x2e;

/// `0`
pub const DIGIT_0: u8 = 0x30;

/// `9`
pub const DIGIT_9: u8 = 0x39;

/// `A`
pub const UPPER_A: u8 = 0x41;

/// `F`
pub const UPPER_F: u8 = 0x46;

/// `Z`
pub const UPPER_Z: u8 = 0x5a;

/// `\`
pub const BACKSLASH: u8 = 0x5c;

/// `_`
pub const UNDERSCORE: u8 = 0x5f;

/// `a`
pub const LOWER_A: u8 = 0x61;

/// `f`
pub const LOWER_F: u8 = 0x66;

/// `x`
pub const LOWER_X: u8 = 0x78;

/// `z`
pub const LOWER_Z: u8 = 0x7a;

/// Whether `byte` is one of `0` to `9`.
pub open spec fn is_digit(byte: u8) -> bool {
    DIGIT_0 <= byte <= DIGIT_9
}

/// Whether `byte` is a letter, `a` to `z` or `A` to `Z`.
pub open spec fn is_letter(byte: u8) -> bool {
    LOWER_A <= byte <= LOWER_Z || UPPER_A <= byte <= UPPER_Z
}

/// Whether `byte` is a letter or a digit.
pub open spec fn is_alphanumeric(byte: u8) -> bool {
    is_letter(byte) || is_digit(byte)
}

/// Whether `byte` belongs to the alphabet `[0-9a-zA-Z_-]`, the bytes that a
/// host name label is expected to be made of.
pub open spec fn is_safe(byte: u8) -> bool {
    is_alphanumeric(byte) || byte == HYPHEN || byte == UNDERSCORE
}

/// Whether `byte` is one of `0` to `9`.
pub fn digit(byte: u8) -> (r: bool)
    ensures
        r == is_digit(byte),
{
    DIGIT_0 <= byte && byte <= DIGIT_9
}

/// Whether `byte` is a letter.
pub fn letter(byte: u8) -> (r: bool)
    ensures
        r == is_letter(byte),
{
    (LOWER_A <= byte && byte <= LOWER_Z) || (UPPER_A <= byte && byte <= UPPER_Z)
}

/// Whether `byte` is a letter or a digit.
pub fn alphanumeric(byte: u8) -> (r: bool)
    ensures
        r == is_alphanumeric(byte),
{
    letter(byte) || digit(byte)
}

/// Whether `byte` belongs to the safe alphabet.
pub fn safe(byte: u8) -> (r: bool)
    ensures
        r == is_safe(byte),
{
    alphanumeric(byte) || byte == HYPHEN || byte == UNDERSCORE
}

} // verus!
