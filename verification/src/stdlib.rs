//! Numbers: the absolute value, and an `int` from its text.

use crate::ascii::{MINUS, PLUS};
use crate::number::{bounded_value, parse_digits, Kind};
use vstd::prelude::*;
use vstd::slice::slice_subrange;

verus! {

/// The absolute value of `x`.
pub fn abs(x: i32) -> (r: u32)
    ensures
        r == if x < 0 {
            -(x as int)
        } else {
            x as int
        },
{
    if x < 0 {
        (-(x as i64)) as u32
    } else {
        x as u32
    }
}

/// The number that `text` writes as an `int`: decimal digits, behind one
/// `+` or `-` or none, that write a number of 32 bits with sign; and
/// nothing for any other text.
pub open spec fn int_value(text: Seq<u8>) -> Option<int> {
    if text.len() > 0 && text[0] == MINUS {
        match bounded_value(text.skip(1), Kind::Normal, 0x8000_0000) {
            Some(m) => Some(-(m as int)),
            None => None,
        }
    } else if text.len() > 0 && text[0] == PLUS {
        match bounded_value(text.skip(1), Kind::Normal, 0x7fff_ffff) {
            Some(m) => Some(m as int),
            None => None,
        }
    } else {
        match bounded_value(text, Kind::Normal, 0x7fff_ffff) {
            Some(m) => Some(m as int),
            None => None,
        }
    }
}

/// The `int` that `text` writes, and zero where it writes none.
pub fn atoi(text: &[u8]) -> (r: i32)
    ensures
        r == match int_value(text@) {
            Some(v) => v,
            None => 0,
        },
{
    let signed = text.len() > 0 && (text[0] == MINUS || text[0] == PLUS);
    let negative = text.len() > 0 && text[0] == MINUS;
    let digits = if signed {
        assert(text@.skip(1) =~= text@.subrange(1, text@.len() as int));
        slice_subrange(text, 1, text.len())
    } else {
        text
    };
    let limit: u64 = if negative {
        0x8000_0000
    } else {
        0x7fff_ffff
    };
    match parse_digits(digits, Kind::Normal, limit) {
        Some(m) => if negative {
            (0 - m as i64) as i32
        } else {
            m as i32
        },
        None => 0,
    }
}

} // verus!
