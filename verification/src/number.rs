//! The grammar of number literals, stated as lengths of the parts that a
//! text starts with.
//!
//! A number is `-? (0 | [1-9][0-9]*) (.[0-9]+)? ([eE][+-]?[0-9]+)?`: an
//! optional `-`; an integer part, which is `0` or a digit from 1 to 9 with
//! any digits behind it; then, if at all, a `.` with one digit or more
//! behind it; and then, if at all, an exponent: `e` or `E`, an optional
//! sign and one digit or more.
//!
//! A literal is what the grammar can follow at the front of a text. It may
//! break off where a digit is due, behind the sign, the `.`, the exponent
//! mark or the exponent's sign: such a literal is read, and is no number.

use vstd::prelude::*;
use vstd::std_specs::cmp::PartialEqSpecImpl;
use crate::lexer::Lexer;
use crate::machine::lemma_literal_is_number;
use crate::token::Token;

verus! {

/// True of the ten decimal digits.
pub open spec fn is_digit(c: char) -> bool {
    '0' <= c && c <= '9'
}

/// True where `s` is not empty and begins with `c`.
pub open spec fn starts_with(s: Seq<char>, c: char) -> bool {
    s.len() > 0 && s[0] == c
}

/// How many digits `s` begins with.
pub open spec fn digit_run(s: Seq<char>) -> nat
    decreases s.len(),
{
    if s.len() > 0 && is_digit(s[0]) {
        1 + digit_run(s.skip(1))
    } else {
        0
    }
}

/// The length of the sign that `s` begins with: 1 for `-`, else 0.
pub open spec fn sign_len(s: Seq<char>) -> nat {
    if starts_with(s, '-') {
        1
    } else {
        0
    }
}

/// The length of the integer part that `s` begins with: a single `0`, or a
/// run of digits that begins with another digit; 0 where there is none.
pub open spec fn integer_len(s: Seq<char>) -> nat {
    if starts_with(s, '0') {
        1
    } else {
        digit_run(s)
    }
}

/// The length of the fraction that `s` begins with: a `.` and the digits
/// behind it; 0 where `s` does not begin with `.`.
pub open spec fn fraction_len(s: Seq<char>) -> nat {
    if starts_with(s, '.') {
        1 + digit_run(s.skip(1))
    } else {
        0
    }
}

/// True where `s` begins with an exponent mark.
pub open spec fn starts_exponent(s: Seq<char>) -> bool {
    starts_with(s, 'e') || starts_with(s, 'E')
}

/// The length of the sign behind an exponent mark: 1 where the second
/// character of `s` is `+` or `-`, else 0.
pub open spec fn exponent_sign_len(s: Seq<char>) -> nat {
    if s.len() > 1 && (s[1] == '+' || s[1] == '-') {
        1
    } else {
        0
    }
}

/// The length of the exponent that `s` begins with: the mark, an optional
/// sign and the digits behind them; 0 where `s` begins with no mark.
pub open spec fn exponent_len(s: Seq<char>) -> nat {
    if starts_exponent(s) {
        1 + exponent_sign_len(s) + digit_run(s.skip(1 + exponent_sign_len(s) as int))
    } else {
        0
    }
}

/// True where the exponent that `s` begins with, if any, has a digit.
pub open spec fn exponent_complete(s: Seq<char>) -> bool {
    starts_exponent(s) ==> digit_run(s.skip(1 + exponent_sign_len(s) as int)) > 0
}

/// The length of what may follow the integer part, at the front of `s`: a
/// fraction, and behind a fraction with digits, or where there is no
/// fraction, an exponent. A `.` without digits is read and ends the
/// literal.
pub open spec fn tail_len(s: Seq<char>) -> nat {
    let f = fraction_len(s);
    if f == 1 {
        1
    } else {
        f + exponent_len(s.skip(f as int))
    }
}

/// True where what follows the integer part, at the front of `s`, has no
/// `.` without digits and no exponent without digits.
pub open spec fn tail_complete(s: Seq<char>) -> bool {
    let f = fraction_len(s);
    f != 1 && exponent_complete(s.skip(f as int))
}

/// The length of the number literal that `s` begins with, as far as the
/// grammar can follow it: sign, integer part, fraction, exponent. Without an
/// integer part nothing follows the sign.
pub open spec fn number_len(s: Seq<char>) -> nat {
    let a = sign_len(s);
    let i = integer_len(s.skip(a as int));
    if i == 0 {
        a
    } else {
        a + i + tail_len(s.skip((a + i) as int))
    }
}

/// True where the literal that `s` begins with denotes a number: it has an
/// integer part, its fraction, if it has one, has a digit, and so has its
/// exponent, if it has one.
pub open spec fn number_complete(s: Seq<char>) -> bool {
    let a = sign_len(s);
    let i = integer_len(s.skip(a as int));
    i > 0 && tail_complete(s.skip((a + i) as int))
}

/// True where the whole of `t` is one number literal that denotes a
/// number.
pub open spec fn is_number(t: Seq<char>) -> bool {
    number_len(t) == t.len() && number_complete(t)
}

/// A number as it was written: the text of a number literal.
///
/// Two numbers are equal where their texts are; `1e3` and `1000` are not.
#[derive(Debug)]
pub struct Number {
    text: String,
}

impl View for Number {
    type V = Seq<char>;

    closed spec fn view(&self) -> Seq<char> {
        self.text@
    }
}

impl Number {
    #[verifier::type_invariant]
    spec fn well_formed(self) -> bool {
        is_number(self.text@)
    }

    /// Wraps a text that is known to be a number literal.
    pub(crate) fn from_literal(text: String) -> (n: Number)
        requires
            is_number(text@),
        ensures
            n@ == text@,
    {
        Number { text }
    }

    /// The number that `text` is the literal of; `None` where `text` is no
    /// number literal.
    pub fn new(text: &str) -> (r: Option<Number>)
        ensures
            match r {
                Some(number) => number@ == text@ && is_number(text@),
                None => !is_number(text@),
            },
    {
        let mut lexer = Lexer::new(text);
        proof {
            lemma_literal_is_number(text@);
        }
        let read = lexer.consume_number();
        if lexer.remaining_is_empty() {
            match read {
                Ok(info) => match info.token {
                    Token::ValueNumber(number) => Some(number),
                    _ => None,
                },
                Err(_) => None,
            }
        } else {
            None
        }
    }

    /// The literal, which is always a whole number literal.
    pub fn as_str(&self) -> (s: &str)
        ensures
            s@ == self@,
            is_number(self@),
    {
        proof {
            use_type_invariant(self);
        }
        self.text.as_str()
    }
}

impl Number {
    /// Tells whether two numbers have the same literal.
    pub fn same(&self, other: &Number) -> (r: bool)
        ensures
            r == (self@ == other@),
    {
        self.text == other.text
    }
}

impl PartialEq for Number {
    fn eq(&self, other: &Number) -> (r: bool) {
        self.same(other)
    }
}

impl PartialEqSpecImpl for Number {
    open spec fn obeys_eq_spec() -> bool {
        true
    }

    open spec fn eq_spec(&self, other: &Number) -> bool {
        self@ == other@
    }
}

impl Clone for Number {
    fn clone(&self) -> (n: Number)
        ensures
            n@ == self@,
    {
        proof {
            use_type_invariant(self);
        }
        Number { text: self.text.clone() }
    }
}

/// The digits that a text begins with are within the text.
pub proof fn lemma_digit_run_bounded(s: Seq<char>)
    ensures
        digit_run(s) <= s.len(),
        forall|j: int| 0 <= j < digit_run(s) ==> is_digit(#[trigger] s[j]),
        digit_run(s) < s.len() ==> !is_digit(s[digit_run(s) as int]),
    decreases s.len(),
{
    if s.len() > 0 && is_digit(s[0]) {
        let t = s.skip(1);
        lemma_digit_run_bounded(t);
        assert forall|j: int| 0 <= j < digit_run(s) implies is_digit(#[trigger] s[j]) by {
            if j > 0 {
                assert(s[j] == t[j - 1]);
            }
        }
    }
}

} // verus!
