//! `\u` escapes: four hexadecimal digits that name a UTF-16 code unit, and
//! the pairs of code units that together name one character.

use vstd::prelude::*;
use crate::text::{is_scalar_value, to_chars};

verus! {

/// True of the hexadecimal digits, in either case.
pub open spec fn is_hex_digit(c: char) -> bool {
    ('0' <= c && c <= '9') || ('a' <= c && c <= 'f') || ('A' <= c && c <= 'F')
}

/// The number that a hexadecimal digit stands for.
pub open spec fn hex_digit_value(c: char) -> nat
    recommends
        is_hex_digit(c),
{
    if '0' <= c && c <= '9' {
        (c as nat - 0x30) as nat
    } else if 'a' <= c && c <= 'f' {
        (c as nat - 0x61 + 10) as nat
    } else {
        (c as nat - 0x41 + 10) as nat
    }
}

/// The code unit that four hexadecimal digits name, most significant digit
/// first; `None` for any other text.
pub open spec fn code_unit(s: Seq<char>) -> Option<u32> {
    if s.len() == 4 && is_hex_digit(s[0]) && is_hex_digit(s[1]) && is_hex_digit(s[2])
        && is_hex_digit(s[3]) {
        Some(
            (hex_digit_value(s[0]) * 0x1000 + hex_digit_value(s[1]) * 0x100 + hex_digit_value(s[2])
                * 0x10 + hex_digit_value(s[3])) as u32,
        )
    } else {
        None
    }
}

/// True of the code units that open a surrogate pair.
pub open spec fn is_high_unit(u: u32) -> bool {
    0xD800 <= u && u <= 0xDBFF
}

/// True of the code units that close a surrogate pair.
pub open spec fn is_low_unit(u: u32) -> bool {
    0xDC00 <= u && u <= 0xDFFF
}

/// The code point that the surrogate pair `high`, `low` names.
pub open spec fn combine(high: u32, low: u32) -> u32
    recommends
        is_high_unit(high),
        is_low_unit(low),
{
    ((high - 0xD800) * 0x400 + (low - 0xDC00) + 0x10000) as u32
}

/// The character that the escape digits `s` name by themselves: the one
/// whose code point the four digits give. There is none where `s` is not four
/// hexadecimal digits or names half of a surrogate pair.
pub open spec fn unit_char(s: Seq<char>) -> Option<char> {
    match code_unit(s) {
        Some(u) => if is_scalar_value(u) {
            Some(u as char)
        } else {
            None
        },
        None => None,
    }
}

/// True where the escape digits `s` name the first half of a surrogate pair.
pub open spec fn names_high_unit(s: Seq<char>) -> bool {
    code_unit(s) matches Some(u) && is_high_unit(u)
}

/// The character that the escape digits `high` and `low` name together.
/// There is none unless `high` names the first half of a surrogate pair and
/// `low` the second.
pub open spec fn pair_char(high: Seq<char>, low: Seq<char>) -> Option<char> {
    match (code_unit(high), code_unit(low)) {
        (Some(h), Some(l)) => if is_high_unit(h) && is_low_unit(l) {
            Some(combine(h, l) as char)
        } else {
            None
        },
        _ => None,
    }
}

/// The value of one hexadecimal digit.
fn hex_digit(c: char) -> (r: Option<u32>)
    ensures
        r == (if is_hex_digit(c) {
            Some(hex_digit_value(c) as u32)
        } else {
            None
        }),
        r matches Some(d) ==> d < 16,
{
    if '0' <= c && c <= '9' {
        Some(c as u32 - 0x30)
    } else if 'a' <= c && c <= 'f' {
        Some(c as u32 - 0x61 + 10)
    } else if 'A' <= c && c <= 'F' {
        Some(c as u32 - 0x41 + 10)
    } else {
        None
    }
}

/// Reads four hexadecimal digits as a code unit.
fn parse_code_unit(number: &str) -> (r: Option<u32>)
    ensures
        r == code_unit(number@),
        r matches Some(u) ==> u <= 0xFFFF,
{
    let chars = to_chars(number);
    if chars.len() != 4 {
        return None;
    }
    match (hex_digit(chars[0]), hex_digit(chars[1]), hex_digit(chars[2]), hex_digit(chars[3])) {
        (Some(a), Some(b), Some(c), Some(d)) => Some(a * 0x1000 + b * 0x100 + c * 0x10 + d),
        _ => None,
    }
}

/// The character named by the four hexadecimal digits of a `\u` escape that
/// stands alone.
pub fn string_to_unicode_char(number: &str) -> (r: Option<char>)
    ensures
        r == unit_char(number@),
{
    match parse_code_unit(number) {
        Some(u) => char::from_u32(u),
        None => None,
    }
}

/// Tells whether the four hexadecimal digits of a `\u` escape name the first
/// half of a surrogate pair, a code unit from 0xD800 to 0xDBFF.
pub fn is_high_surrogate(number: &str) -> (r: bool)
    ensures
        r == names_high_unit(number@),
{
    match parse_code_unit(number) {
        Some(high) => high >= 0xD800 && high <= 0xDBFF,
        None => false,
    }
}

/// The character named by two `\u` escapes that form a surrogate pair:
/// `(high - 0xD800) * 0x400 + (low - 0xDC00) + 0x10000`.
pub fn convert_surrogate_pairs(high: &str, low: &str) -> (r: Option<char>)
    ensures
        r == pair_char(high@, low@),
{
    let h = match parse_code_unit(high) {
        Some(h) => h,
        None => {
            return None;
        },
    };
    let l = match parse_code_unit(low) {
        Some(l) => l,
        None => {
            return None;
        },
    };
    if 0xD800 <= h && h <= 0xDBFF && 0xDC00 <= l && l <= 0xDFFF {
        char::from_u32((h - 0xD800) * 0x400 + (l - 0xDC00) + 0x10000)
    } else {
        None
    }
}

} // verus!
