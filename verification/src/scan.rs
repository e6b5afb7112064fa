//! What the lexer reads from a text, as functions of the characters that
//! are left. Each tells what is recognised at the front of the text and how
//! many characters are used up for it.

use vstd::prelude::*;
use crate::messages;
use crate::number::{is_digit, number_complete, number_len};
use crate::token::{Lexeme, TokenInfoView, TokenView};
use crate::unicode::{names_high_unit, pair_char, unit_char};
use crate::{Context, JsonErrorView};

verus! {

/// True of the characters that may stand between tokens.
pub open spec fn is_whitespace(c: char) -> bool {
    c == ' ' || c == '\t' || c == '\r' || c == '\n'
}

/// How many whitespace characters `s` begins with.
pub open spec fn whitespace_run(s: Seq<char>) -> nat
    decreases s.len(),
{
    if s.len() > 0 && is_whitespace(s[0]) {
        1 + whitespace_run(s.skip(1))
    } else {
        0
    }
}

/// How many characters of `pattern`, from its first on, `s` begins with.
pub open spec fn matched(s: Seq<char>, pattern: Seq<char>) -> nat
    decreases pattern.len(),
{
    if pattern.len() > 0 && s.len() > 0 && s[0] == pattern[0] {
        1 + matched(s.skip(1), pattern.skip(1))
    } else {
        0
    }
}

/// The result of reading something from the front of a text: what was read,
/// or the message of the fault, and the number of characters used up.
pub struct Scan<T> {
    pub outcome: Result<T, Seq<char>>,
    pub used: nat,
}

impl<T> Scan<T> {
    /// The same result, counted from `n` characters earlier.
    pub open spec fn shift(self, n: nat) -> Scan<T> {
        Scan { outcome: self.outcome, used: self.used + n }
    }
}

/// Reading the characters of `pattern` one by one: a success when all are
/// there; else the fault at the first character that differs, which is used
/// up too, or at the end of the text.
pub open spec fn scan_seq(s: Seq<char>, pattern: Seq<char>) -> Scan<()> {
    let m = matched(s, pattern);
    if m >= pattern.len() {
        Scan { outcome: Ok(()), used: m }
    } else if m >= s.len() {
        Scan { outcome: Err(messages::end_before(pattern[m as int])), used: m }
    } else {
        Scan { outcome: Err(messages::mismatch(s[m as int], pattern[m as int])), used: m + 1 }
    }
}

/// Reading the literal name `pattern`, which stands for `token`.
pub open spec fn scan_keyword(s: Seq<char>, pattern: Seq<char>, token: TokenView) -> Scan<
    TokenView,
> {
    let r = scan_seq(s, pattern);
    match r.outcome {
        Ok(_) => Scan { outcome: Ok(token), used: r.used },
        Err(m) => Scan { outcome: Err(m), used: r.used },
    }
}

/// True of the characters that may stand in a string as they are: all from
/// the space on, but for the quotation mark and the backslash.
pub open spec fn is_plain(c: char) -> bool {
    c >= ' ' && c != '"' && c != '\\'
}

/// Reading what follows `\u`: four hexadecimal digits that name a
/// character, or that name the first half of a surrogate pair and are
/// followed by `\u` and the four digits of the second half.
pub open spec fn scan_unicode(s: Seq<char>) -> Scan<char> {
    if s.len() < 4 {
        Scan { outcome: Err(messages::end_of_stream()), used: s.len() }
    } else if names_high_unit(s.take(4)) {
        let mark = scan_seq(s.skip(4), seq!['\\', 'u']);
        match mark.outcome {
            Err(m) => Scan { outcome: Err(m), used: 4 + mark.used },
            Ok(_) => if s.len() < 10 {
                Scan { outcome: Err(messages::end_of_stream()), used: s.len() }
            } else {
                match pair_char(s.take(4), s.subrange(6, 10)) {
                    Some(c) => Scan { outcome: Ok(c), used: 10 },
                    None => Scan { outcome: Err(messages::bad_surrogate_pair()), used: 10 },
                }
            },
        }
    } else {
        match unit_char(s.take(4)) {
            Some(c) => Scan { outcome: Ok(c), used: 4 },
            None => Scan { outcome: Err(messages::bad_code_unit(s.take(4))), used: 4 },
        }
    }
}

/// The character that a backslash and `c` stand for, where `c` is one of
/// `" \ / b f n r t`.
pub open spec fn simple_escape(c: char) -> Option<char> {
    if c == '"' {
        Some('\u{0022}')
    } else if c == '\\' {
        Some('\u{005C}')
    } else if c == '/' {
        Some('\u{002F}')
    } else if c == 'b' {
        Some('\u{0008}')
    } else if c == 'f' {
        Some('\u{000C}')
    } else if c == 'n' {
        Some('\u{000A}')
    } else if c == 'r' {
        Some('\u{000D}')
    } else if c == 't' {
        Some('\u{0009}')
    } else {
        None
    }
}

/// Reading what follows a backslash inside a string.
pub open spec fn scan_escape(s: Seq<char>) -> Scan<char> {
    if s.len() == 0 {
        Scan { outcome: Err(messages::unterminated_string()), used: 0 }
    } else if s[0] == 'u' {
        scan_unicode(s.skip(1)).shift(1)
    } else {
        match simple_escape(s[0]) {
            Some(c) => Scan { outcome: Ok(c), used: 1 },
            None => Scan { outcome: Err(messages::bad_escape(s[0])), used: 1 },
        }
    }
}

/// An escape uses up no more than there is.
pub proof fn lemma_scan_escape_bounded(s: Seq<char>)
    ensures
        scan_escape(s).used <= s.len(),
{
    if s.len() > 0 && s[0] == 'u' {
        let t = s.skip(1);
        if t.len() >= 4 && names_high_unit(t.take(4)) {
            let rest = t.skip(4);
            let pattern = seq!['\\', 'u'];
            assert(matched(rest, pattern) <= 2 && matched(rest, pattern) <= rest.len()) by {
                reveal_with_fuel(matched, 3);
            }
        }
    }
}

/// Reading a string from behind its opening quotation mark, `text` being
/// what the string holds so far: up to the closing quotation mark, with each
/// escape replaced by the character it stands for.
pub open spec fn scan_string(s: Seq<char>, text: Seq<char>) -> Scan<TokenView>
    decreases s.len(),
    via scan_string_decreases
{
    if s.len() == 0 {
        Scan { outcome: Err(messages::unterminated_string()), used: 0 }
    } else if s[0] == '"' {
        Scan { outcome: Ok(TokenView::ValueString(text)), used: 1 }
    } else if s[0] == '\\' {
        let escape = scan_escape(s.skip(1));
        match escape.outcome {
            Ok(c) => scan_string(s.skip(1 + escape.used as int), text.push(c)).shift(
                1 + escape.used,
            ),
            Err(m) => Scan { outcome: Err(m), used: 1 + escape.used },
        }
    } else if is_plain(s[0]) {
        scan_string(s.skip(1), text.push(s[0])).shift(1)
    } else {
        Scan { outcome: Err(messages::bad_character()), used: 1 }
    }
}

#[via_fn]
proof fn scan_string_decreases(s: Seq<char>, text: Seq<char>) {
    if s.len() > 0 {
        lemma_scan_escape_bounded(s.skip(1));
    }
}

/// Reading a number literal: the longest text that the number grammar can
/// follow, which is a number where it has an integer part, no `.` without
/// digits and no exponent without digits. A literal that is no number is a
/// fault behind the literal.
pub open spec fn scan_number(s: Seq<char>) -> Scan<TokenView> {
    let n = number_len(s);
    if number_complete(s) {
        Scan { outcome: Ok(TokenView::ValueNumber(s.take(n as int))), used: n }
    } else {
        Scan { outcome: Err(messages::bad_number(s.take(n as int))), used: n }
    }
}

/// True of the characters that a literal name begins with.
pub open spec fn starts_keyword(c: char) -> bool {
    c == 'f' || c == 't' || c == 'n'
}

/// Reading one token from a text that begins with its first character.
pub open spec fn scan_token(s: Seq<char>) -> Scan<TokenView>
    recommends
        s.len() > 0,
{
    let c = s[0];
    if c == 'f' {
        scan_keyword(s, seq!['f', 'a', 'l', 's', 'e'], TokenView::ValueBoolean(false))
    } else if c == 't' {
        scan_keyword(s, seq!['t', 'r', 'u', 'e'], TokenView::ValueBoolean(true))
    } else if c == 'n' {
        scan_keyword(s, seq!['n', 'u', 'l', 'l'], TokenView::ValueNull)
    } else if c == ':' {
        Scan { outcome: Ok(TokenView::SeparatorName), used: 1 }
    } else if c == ',' {
        Scan { outcome: Ok(TokenView::SeparatorValue), used: 1 }
    } else if c == '{' {
        Scan { outcome: Ok(TokenView::ObjectStart), used: 1 }
    } else if c == '}' {
        Scan { outcome: Ok(TokenView::ObjectEnd), used: 1 }
    } else if c == '[' {
        Scan { outcome: Ok(TokenView::ArrayStart), used: 1 }
    } else if c == ']' {
        Scan { outcome: Ok(TokenView::ArrayEnd), used: 1 }
    } else if c == '"' {
        scan_string(s.skip(1), Seq::empty()).shift(1)
    } else if c == '-' || is_digit(c) {
        scan_number(s)
    } else {
        Scan { outcome: Err(messages::unexpected_character(c)), used: 0 }
    }
}

/// What one request to the lexer gives, and the number of characters used
/// up for it.
pub struct Step {
    pub item: Option<Lexeme>,
    pub used: nat,
}

/// One step of the lexer on the text `s`, whose first character stands at
/// `p`: whitespace is passed over; at the end of the text there is nothing;
/// else one token is read, and it carries the place of its first character.
/// A fault carries the place that reading had reached, or, in a literal
/// name, the place where the name starts.
pub open spec fn lex(s: Seq<char>, p: Context) -> Step {
    let w = whitespace_run(s);
    let t = s.skip(w as int);
    let start = p.after_all(s.take(w as int));
    if t.len() == 0 {
        Step { item: None, used: w }
    } else {
        let scan = scan_token(t);
        Step {
            item: Some(
                match scan.outcome {
                    Ok(token) => Ok(TokenInfoView { token, context: start }),
                    Err(message) => Err(
                        JsonErrorView::Lexer {
                            context: if starts_keyword(t[0]) {
                                start
                            } else {
                                start.after_all(t.take(scan.used as int))
                            },
                            message,
                        },
                    ),
                },
            ),
            used: w + scan.used,
        }
    }
}

} // verus!
