//! The characters that formats, numbers and lines are made of.

use vstd::prelude::*;

verus! {

/// The zero byte that ends a string.
pub const NUL: u8 = 0;

/// The line feed.
pub const LINE_FEED: u8 = 10;

/// `%`
pub const PERCENT: u8 = 37;

/// `*`
pub const STAR: u8 = 42;

/// `+`
pub const PLUS: u8 = 43;

/// `-`
pub const MINUS: u8 = 45;

/// `.`
pub const DOT: u8 = 46;

/// `0`
pub const DIGIT_0: u8 = 48;

/// `7`
pub const DIGIT_7: u8 = 55;

/// `9`
pub const DIGIT_9: u8 = 57;

/// `A`
pub const UPPER_A: u8 = 65;

/// `F`
pub const UPPER_F: u8 = 70;

/// `L`
pub const UPPER_L: u8 = 76;

/// `X`
pub const UPPER_X: u8 = 88;

/// `Z`
pub const UPPER_Z: u8 = 90;

/// `a`
pub const LOWER_A: u8 = 97;

/// `c`
pub const LOWER_C: u8 = 99;

/// `d`
pub const LOWER_D: u8 = 100;

/// `f`
pub const LOWER_F: u8 = 102;

/// `h`
pub const LOWER_H: u8 = 104;

/// `i`
pub const LOWER_I: u8 = 105;

/// `j`
pub const LOWER_J: u8 = 106;

/// `l`
pub const LOWER_L: u8 = 108;

/// `o`
pub const LOWER_O: u8 = 111;

/// `p`
pub const LOWER_P: u8 = 112;

/// `r`
pub const LOWER_R: u8 = 114;

/// `s`
pub const LOWER_S: u8 = 115;

/// `t`
pub const LOWER_T: u8 = 116;

/// `u`
pub const LOWER_U: u8 = 117;

/// `w`
pub const LOWER_W: u8 = 119;

/// `x`
pub const LOWER_X: u8 = 120;

/// `z`
pub const LOWER_Z: u8 = 122;

} // verus!
