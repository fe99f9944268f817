//! Named ASCII byte values used by the CSV grammar, the JSON output and the
//! file-name logic.

use vstd::prelude::*;

verus! {

pub const QUOTE: u8 = 34;
pub const COMMA: u8 = 44;
pub const CR: u8 = 13;
pub const LF: u8 = 10;
pub const TAB: u8 = 9;
pub const DOT: u8 = 46;
pub const SPACE: u8 = 32;
pub const BACKSLASH: u8 = 92;
pub const LBRACKET: u8 = 91;
pub const RBRACKET: u8 = 93;
pub const LBRACE: u8 = 123;
pub const RBRACE: u8 = 125;
pub const COLON: u8 = 58;
pub const DIGIT_ZERO: u8 = 48;
pub const LOWER_A: u8 = 97;
pub const LOWER_C: u8 = 99;
pub const LOWER_J: u8 = 106;
pub const LOWER_N: u8 = 110;
pub const LOWER_O: u8 = 111;
pub const LOWER_R: u8 = 114;
pub const LOWER_S: u8 = 115;
pub const LOWER_T: u8 = 116;
pub const LOWER_U: u8 = 117;
pub const LOWER_V: u8 = 118;

} // verus!
