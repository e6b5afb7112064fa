//! Text building blocks: what the standard library is taken to do where the
//! verifier has no statement of its own, and decimal rendering of counters.

use vstd::prelude::*;

verus! {

/// `String::push` is taken to append the given character and to change
/// nothing else.
pub assume_specification[ std::string::String::push ](s: &mut std::string::String, c: char)
    ensures
        final(s)@ == old(s)@.push(c),
;

/// True of the code points that are characters: everything up to 0x10FFFF
/// outside the surrogate range.
pub open spec fn is_scalar_value(n: u32) -> bool {
    n <= 0xD7FF || (0xE000 <= n && n <= 0x10FFFF)
}

/// `char::from_u32` is taken to return the character with the given code
/// point, and `None` exactly for the numbers that are no character.
pub assume_specification[ char::from_u32 ](n: u32) -> (r: Option<char>)
    ensures
        r == (if is_scalar_value(n) {
            Some(n as char)
        } else {
            None
        }),
;

/// The character for a decimal digit `d`.
pub open spec fn digit_char(d: nat) -> char
    recommends
        d < 10,
{
    (d + 0x30) as char
}

/// The decimal numeral of `n`, without leading zeros.
pub open spec fn decimal(n: nat) -> Seq<char>
    decreases n,
{
    if n < 10 {
        seq![digit_char(n)]
    } else {
        decimal(n / 10).push(digit_char(n % 10))
    }
}

/// Appends the decimal numeral of `n` to `out`.
pub fn push_decimal(out: &mut String, n: usize)
    ensures
        final(out)@ == old(out)@ + decimal(n as nat),
    decreases n,
{
    if n >= 10 {
        push_decimal(out, n / 10);
    }
    let d: u8 = (n % 10) as u8;
    let c: char = (d + 0x30u8) as char;
    out.push(c);
}

/// Copies the characters of `data` into a vector.
pub fn to_chars(data: &str) -> (chars: Vec<char>)
    ensures
        chars@ == data@,
{
    let mut chars: Vec<char> = Vec::new();
    for c in it: data.chars()
        invariant
            chars@ == it.seq().take(it.index() as int),
            it.seq() == data@,
    {
        chars.push(c);
    }
    chars
}

} // verus!
