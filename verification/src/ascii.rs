//! The byte values the grammar fixes, named once.

use vstd::prelude::*;

verus! {

/// `"`
pub const QUOTE: u8 = 34;

/// `#`
pub const HASH: u8 = 35;

/// `!`
pub const BANG: u8 = 33;

/// Line feed.
pub const NEWLINE: u8 = 10;

/// `.`
pub const DOT: u8 = 46;

/// `_`
pub const UNDERSCORE: u8 = 95;

/// `a`
pub const LOWER_A: u8 = 97;

/// `z`
pub const LOWER_Z: u8 = 122;

/// `A`
pub const UPPER_A: u8 = 65;

/// `Z`
pub const UPPER_Z: u8 = 90;

/// `0`
pub const DIGIT_ZERO: u8 = 48;

/// `9`
pub const DIGIT_NINE: u8 = 57;

/// `*`
pub const STAR: u8 = 42;

/// `,`
pub const COMMA: u8 = 44;

/// `:`
pub const COLON: u8 = 58;

/// `;`
pub const SEMICOLON: u8 = 59;

/// `@`
pub const AT_SIGN: u8 = 64;

/// `(`
pub const LEFT_PAREN: u8 = 40;

/// `)`
pub const RIGHT_PAREN: u8 = 41;

/// `?`
pub const QUESTION_MARK: u8 = 63;

} // verus!
