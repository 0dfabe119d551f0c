//! The bytes that the format parsers look for.

use vstd::prelude::*;

verus! {

pub const TAB: u8 = 0x09;
pub const LF: u8 = 0x0a;
pub const FF: u8 = 0x0c;
pub const CR: u8 = 0x0d;
pub const SPACE: u8 = 0x20;
pub const QUOTE: u8 = 0x22;
pub const APOSTROPHE: u8 = 0x27;
pub const OPEN_PAREN: u8 = 0x28;
pub const CLOSE_PAREN: u8 = 0x29;
pub const COMMA: u8 = 0x2c;
pub const MINUS: u8 = 0x2d;
pub const DOT: u8 = 0x2e;
pub const SLASH: u8 = 0x2f;
pub const ZERO: u8 = 0x30;
pub const NINE: u8 = 0x39;
pub const COLON: u8 = 0x3a;
pub const LESS: u8 = 0x3c;
pub const GREATER: u8 = 0x3e;
pub const UPPER_E: u8 = 0x45;
pub const OPEN_BRACKET: u8 = 0x5b;
pub const BACKSLASH: u8 = 0x5c;
pub const CLOSE_BRACKET: u8 = 0x5d;
pub const LOWER_E: u8 = 0x65;
pub const OPEN_BRACE: u8 = 0x7b;
pub const CLOSE_BRACE: u8 = 0x7d;

/// A decimal digit.
pub open spec fn is_digit(c: u8) -> bool {
    ZERO <= c <= NINE
}

/// The white space of the parsers: space, line feed, carriage return, tab.
pub open spec fn is_blank(c: u8) -> bool {
    c == SPACE || c == LF || c == CR || c == TAB
}

/// ASCII white space, which adds the form feed.
pub open spec fn is_space(c: u8) -> bool {
    is_blank(c) || c == FF
}

/// A byte that makes a number one with a fraction or an exponent.
pub open spec fn is_float_mark(c: u8) -> bool {
    c == DOT || c == LOWER_E || c == UPPER_E
}

pub fn digit(c: u8) -> (r: bool)
    ensures
        r == is_digit(c),
{
    ZERO <= c && c <= NINE
}

pub fn blank(c: u8) -> (r: bool)
    ensures
        r == is_blank(c),
{
    c == SPACE || c == LF || c == CR || c == TAB
}

pub fn space(c: u8) -> (r: bool)
    ensures
        r == is_space(c),
{
    blank(c) || c == FF
}

pub fn float_mark(c: u8) -> (r: bool)
    ensures
        r == is_float_mark(c),
{
    c == DOT || c == LOWER_E || c == UPPER_E
}

} // verus!
