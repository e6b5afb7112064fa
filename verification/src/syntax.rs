//! The grammar of JSON values over the tokens of a text.
//!
//! The tokens of a text are the results that the lexer hands out one after
//! the other, up to the end of the text or to the first fault. A value is
//! read from the front of such a sequence; what a reading function returns
//! with the value is the index of the value's last token.

use vstd::prelude::*;
use crate::messages;
use crate::number::{lemma_digit_run_bounded, number_complete};
use crate::machine::lemma_literal_is_number;
use crate::scan::{
    lemma_scan_escape_bounded, lex, matched, scan_escape, scan_string, scan_token,
    whitespace_run,
};
use crate::token::{Lexeme, TokenView};
use crate::value::JsonView;
use crate::{Context, JsonErrorView};

verus! {

/// The whitespace that a text begins with is within the text.
pub proof fn lemma_whitespace_run_bounded(s: Seq<char>)
    ensures
        whitespace_run(s) <= s.len(),
    decreases s.len(),
{
    if s.len() > 0 {
        lemma_whitespace_run_bounded(s.skip(1));
    }
}

/// What a pattern and a text have in common at the front is within both.
pub proof fn lemma_matched_bounded(s: Seq<char>, pattern: Seq<char>)
    ensures
        matched(s, pattern) <= s.len(),
        matched(s, pattern) <= pattern.len(),
    decreases pattern.len(),
{
    if pattern.len() > 0 && s.len() > 0 {
        lemma_matched_bounded(s.skip(1), pattern.skip(1));
    }
}

/// Reading a string uses up no more than there is.
pub proof fn lemma_scan_string_bounded(s: Seq<char>, text: Seq<char>)
    ensures
        scan_string(s, text).used <= s.len(),
    decreases s.len(),
{
    if s.len() > 0 {
        if s[0] == '\\' {
            let escape = scan_escape(s.skip(1));
            lemma_scan_escape_bounded(s.skip(1));
            if escape.outcome is Ok {
                lemma_scan_string_bounded(
                    s.skip(1 + escape.used as int),
                    text.push(escape.outcome->Ok_0),
                );
            }
        } else {
            lemma_scan_string_bounded(s.skip(1), text.push(s[0]));
        }
    }
}

/// Reading a token uses up no more than there is, and a token that is
/// read has one character at least.
pub proof fn lemma_scan_token_bounded(s: Seq<char>)
    requires
        s.len() > 0,
    ensures
        scan_token(s).used <= s.len(),
        scan_token(s).outcome is Ok ==> scan_token(s).used >= 1,
{
    lemma_matched_bounded(s, seq!['f', 'a', 'l', 's', 'e']);
    lemma_matched_bounded(s, seq!['t', 'r', 'u', 'e']);
    lemma_matched_bounded(s, seq!['n', 'u', 'l', 'l']);
    lemma_scan_string_bounded(s.skip(1), Seq::empty());
    lemma_literal_is_number(s);
    if number_complete(s) && s[0] == '-' {
        lemma_digit_run_bounded(s.skip(1));
    }
}

/// One step of the lexer uses up no more than there is, and a token that
/// is read has one character at least.
pub proof fn lemma_lex_bounded(s: Seq<char>, p: Context)
    ensures
        lex(s, p).used <= s.len(),
        lex(s, p).item matches Some(Ok(_)) ==> lex(s, p).used >= 1,
{
    lemma_whitespace_run_bounded(s);
    let t = s.skip(whitespace_run(s) as int);
    if t.len() > 0 {
        lemma_scan_token_bounded(t);
    }
}

/// The tokens of the text `s`, whose first character stands at `p`: what
/// the lexer hands out step by step, up to the end of the text or to the
/// first fault, which is then the last item.
#[verifier::opaque]
pub open spec fn token_stream(s: Seq<char>, p: Context) -> Seq<Lexeme>
    decreases s.len(),
    via token_stream_decreases
{
    let step = lex(s, p);
    match step.item {
        None => Seq::empty(),
        Some(Err(e)) => seq![Err(e)],
        Some(Ok(info)) => seq![Ok(info)] + token_stream(
            s.skip(step.used as int),
            p.after_all(s.take(step.used as int)),
        ),
    }
}

#[via_fn]
proof fn token_stream_decreases(s: Seq<char>, p: Context) {
    lemma_lex_bounded(s, p);
}

/// The item at index `i`, where a token is due there: past the end of the
/// sequence it is the fault of an input that ended too early.
pub open spec fn token_at(tokens: Seq<Lexeme>, i: nat) -> Lexeme {
    if i < tokens.len() {
        tokens[i as int]
    } else {
        Err(JsonErrorView::Other(messages::no_data()))
    }
}

/// The tokens behind the first `j + k` are those behind the first `k` of
/// the tokens behind the first `j`.
pub proof fn lemma_skip_twice(tokens: Seq<Lexeme>, j: nat, k: nat)
    requires
        j + k <= tokens.len(),
    ensures
        tokens.skip(j as int).skip(k as int) == tokens.skip((j + k) as int),
{
}

/// What reading a value gives: the value and the index of its last token,
/// or the fault.
pub type Parsed = Result<(JsonView, nat), JsonErrorView>;

/// The same result for a sequence that has `n` more tokens at its front.
pub open spec fn shift(parsed: Parsed, n: nat) -> Parsed {
    match parsed {
        Ok((value, last)) => Ok((value, last + n)),
        Err(e) => Err(e),
    }
}

/// Reads one value from the front of `tokens`: an array or an object where
/// the first token opens one, else the value that the first token itself
/// stands for. Any other token is a fault at that token's place.
pub open spec fn parse_value(tokens: Seq<Lexeme>) -> Parsed
    decreases tokens.len(), 2nat,
{
    match token_at(tokens, 0) {
        Err(e) => Err(e),
        Ok(info) => match info.token {
            TokenView::ArrayStart => parse_array(tokens),
            TokenView::ObjectStart => parse_object(tokens),
            TokenView::ValueNull => Ok((JsonView::Null, 0)),
            TokenView::ValueNumber(literal) => Ok((JsonView::Number(literal), 0)),
            TokenView::ValueBoolean(b) => Ok((JsonView::Boolean(b), 0)),
            TokenView::ValueString(text) => Ok((JsonView::String(text), 0)),
            other => Err(
                JsonErrorView::Parser {
                    context: info.context,
                    message: messages::no_value_start(other),
                },
            ),
        },
    }
}

/// Reads an array from `tokens`, whose first token opens it: either the
/// closing bracket follows at once, or values follow, with a comma between
/// each two, and then the closing bracket.
pub open spec fn parse_array(tokens: Seq<Lexeme>) -> Parsed
    decreases tokens.len(), 1nat,
{
    match token_at(tokens, 1) {
        Err(e) => Err(e),
        Ok(info) => if info.token is ArrayEnd {
            Ok((JsonView::Array(Seq::empty()), 1))
        } else {
            shift(parse_elements(tokens.skip(1), Seq::empty()), 1)
        },
    }
}

/// Reads the values of an array from the first token of one of them on,
/// `items` being the values before it.
#[verifier::opaque]
pub open spec fn parse_elements(tokens: Seq<Lexeme>, items: Seq<JsonView>) -> Parsed
    decreases tokens.len(), 3nat,
{
    match parse_value(tokens) {
        Err(e) => Err(e),
        Ok((value, last)) => match token_at(tokens, last + 1) {
            Err(e) => Err(e),
            Ok(info) => match info.token {
                TokenView::ArrayEnd => Ok((JsonView::Array(items.push(value)), last + 1)),
                TokenView::SeparatorValue => match token_at(tokens, last + 2) {
                    Err(e) => Err(e),
                    Ok(_) => shift(
                        parse_elements(tokens.skip(last as int + 2), items.push(value)),
                        last + 2,
                    ),
                },
                other => Err(
                    JsonErrorView::Parser {
                        context: info.context,
                        message: messages::no_array_separator(other),
                    },
                ),
            },
        },
    }
}

/// Reads an object from `tokens`, whose first token opens it: either the
/// closing brace follows at once, or members follow, with a comma between
/// each two, and then the closing brace.
pub open spec fn parse_object(tokens: Seq<Lexeme>) -> Parsed
    decreases tokens.len(), 1nat,
{
    match token_at(tokens, 1) {
        Err(e) => Err(e),
        Ok(info) => if info.token is ObjectEnd {
            Ok((JsonView::Object(Map::empty()), 1))
        } else {
            shift(parse_members(tokens.skip(1), Map::empty()), 1)
        },
    }
}

/// Reads the members of an object from the first token of one of them on,
/// `members` being the members before it. A member is a string, a colon and
/// a value. A member whose name was there before takes the place of the
/// earlier one. A token that is no colon behind the name is a fault at the
/// place of that token.
#[verifier::opaque]
pub open spec fn parse_members(tokens: Seq<Lexeme>, members: Map<Seq<char>, JsonView>) -> Parsed
    decreases tokens.len(), 3nat,
{
    match token_at(tokens, 0) {
        Err(e) => Err(e),
        Ok(name_info) => match name_info.token {
            TokenView::ValueString(name) => match token_at(tokens, 1) {
                Err(e) => Err(e),
                Ok(colon) => if colon.token is SeparatorName {
                    match token_at(tokens, 2) {
                        Err(e) => Err(e),
                        Ok(_) => match parse_value(tokens.skip(2)) {
                            Err(e) => Err(e),
                            Ok((value, last)) => match token_at(tokens, last + 3) {
                                Err(e) => Err(e),
                                Ok(info) => match info.token {
                                    TokenView::ObjectEnd => Ok(
                                        (JsonView::Object(members.insert(name, value)), last + 3),
                                    ),
                                    TokenView::SeparatorValue => match token_at(tokens, last + 4) {
                                        Err(e) => Err(e),
                                        Ok(_) => shift(
                                            parse_members(
                                                tokens.skip(last as int + 4),
                                                members.insert(name, value),
                                            ),
                                            last + 4,
                                        ),
                                    },
                                    other => Err(
                                        JsonErrorView::Parser {
                                            context: info.context,
                                            message: messages::no_object_separator(other),
                                        },
                                    ),
                                },
                            },
                        },
                    }
                } else {
                    Err(
                        JsonErrorView::Parser {
                            context: colon.context,
                            message: messages::wrong_token(
                                TokenView::SeparatorName,
                                colon.token,
                            ),
                        },
                    )
                },
            },
            other => Err(
                JsonErrorView::Parser {
                    context: name_info.context,
                    message: messages::no_member_name(other),
                },
            ),
        },
    }
}

/// What the text `text` denotes: the value read from the front of its
/// tokens, or the first fault met on the way. Tokens behind that value are
/// not looked at.
pub open spec fn parse_text(text: Seq<char>) -> Result<JsonView, JsonErrorView> {
    match parse_value(token_stream(text, Context { line: 1, column: 1 })) {
        Ok((value, _)) => Ok(value),
        Err(e) => Err(e),
    }
}

/// A value that is read ends within the tokens.
pub proof fn lemma_parse_value_bounded(tokens: Seq<Lexeme>)
    ensures
        parse_value(tokens) matches Ok((_, last)) ==> last < tokens.len(),
    decreases tokens.len(), 2nat,
{
    match token_at(tokens, 0) {
        Ok(info) => {
            if info.token is ArrayStart {
                lemma_parse_array_bounded(tokens);
            } else if info.token is ObjectStart {
                lemma_parse_object_bounded(tokens);
            }
        },
        Err(_) => {},
    }
}

/// An array that is read ends within the tokens.
pub proof fn lemma_parse_array_bounded(tokens: Seq<Lexeme>)
    ensures
        parse_array(tokens) matches Ok((_, last)) ==> last < tokens.len(),
    decreases tokens.len(), 1nat,
{
    reveal(parse_elements);
    match token_at(tokens, 1) {
        Ok(info) => {
            if !(info.token is ArrayEnd) {
                lemma_parse_elements_bounded(tokens.skip(1), Seq::empty());
            }
        },
        Err(_) => {},
    }
}

/// The values of an array that are read end within the tokens.
pub proof fn lemma_parse_elements_bounded(tokens: Seq<Lexeme>, items: Seq<JsonView>)
    ensures
        parse_elements(tokens, items) matches Ok((_, last)) ==> last < tokens.len(),
    decreases tokens.len(), 3nat,
{
    reveal(parse_elements);
    lemma_parse_value_bounded(tokens);
    match parse_value(tokens) {
        Ok((value, last)) => {
            match token_at(tokens, last + 1) {
                Ok(info) => {
                    if info.token is SeparatorValue && token_at(tokens, last + 2) is Ok {
                        lemma_parse_elements_bounded(
                            tokens.skip(last as int + 2),
                            items.push(value),
                        );
                    }
                },
                Err(_) => {},
            }
        },
        Err(_) => {},
    }
}

/// An object that is read ends within the tokens.
pub proof fn lemma_parse_object_bounded(tokens: Seq<Lexeme>)
    ensures
        parse_object(tokens) matches Ok((_, last)) ==> last < tokens.len(),
    decreases tokens.len(), 1nat,
{
    reveal(parse_members);
    match token_at(tokens, 1) {
        Ok(info) => {
            if !(info.token is ObjectEnd) {
                lemma_parse_members_bounded(tokens.skip(1), Map::empty());
            }
        },
        Err(_) => {},
    }
}

/// The members of an object that are read end within the tokens.
pub proof fn lemma_parse_members_bounded(tokens: Seq<Lexeme>, members: Map<Seq<char>, JsonView>)
    ensures
        parse_members(tokens, members) matches Ok((_, last)) ==> last < tokens.len(),
    decreases tokens.len(), 3nat,
{
    reveal(parse_members);
    match (token_at(tokens, 0), token_at(tokens, 1), token_at(tokens, 2)) {
        (Ok(name_info), Ok(colon), Ok(_)) => {
            match name_info.token {
                TokenView::ValueString(name) => {
                    if colon.token is SeparatorName {
                        lemma_parse_value_bounded(tokens.skip(2));
                        match parse_value(tokens.skip(2)) {
                            Ok((value, last)) => {
                                match token_at(tokens, last + 3) {
                                    Ok(info) => {
                                        if info.token is SeparatorValue && token_at(
                                            tokens,
                                            last + 4,
                                        ) is Ok {
                                            lemma_parse_members_bounded(
                                                tokens.skip(last as int + 4),
                                                members.insert(name, value),
                                            );
                                        }
                                    },
                                    Err(_) => {},
                                }
                            },
                            Err(_) => {},
                        }
                    }
                },
                _ => {},
            }
        },
        _ => {},
    }
}

} // verus!
