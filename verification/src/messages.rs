//! The texts of the error messages, each as a sequence of characters and as
//! a function that builds the same text.

use vstd::prelude::*;
use crate::token::{Token, TokenView};

verus! {

/// The message for a character that starts no token.
pub open spec fn unexpected_character(c: char) -> Seq<char> {
    "The character '"@.push(c) + "' is unexpected"@
}

/// The message for an input that ends inside a `\u` escape.
pub open spec fn end_of_stream() -> Seq<char> {
    "End of stream while waiting for more characters"@
}

/// The message for an input that ends where one more character is due.
pub open spec fn no_more_data() -> Seq<char> {
    "No more data to read."@
}

/// The message for an input that ends where the character `wanted` is due.
pub open spec fn end_before(wanted: char) -> Seq<char> {
    "End of stream while waiting for '"@.push(wanted) + "'"@
}

/// The message for the character `found` where `wanted` is due.
pub open spec fn mismatch(found: char, wanted: char) -> Seq<char> {
    "Unexpected char '"@.push(found) + "', was waiting for a '"@.push(wanted) + "'"@
}

/// The message for an input that ends inside a string.
pub open spec fn unterminated_string() -> Seq<char> {
    "EOF encountered while recognizing a string"@
}

/// The message for two `\u` escapes that form no surrogate pair.
pub open spec fn bad_surrogate_pair() -> Seq<char> {
    "Issue while parsing provided unicode value."@
}

/// The message for a `\u` escape whose digits name no character.
pub open spec fn bad_code_unit(digits: Seq<char>) -> Seq<char> {
    "Could not convert "@ + digits + " to unicode"@
}

/// The message for a backslash before a character that cannot be escaped.
pub open spec fn bad_escape(c: char) -> Seq<char> {
    "'"@.push(c) + " is not an escapable character'"@
}

/// The message for a control character inside a string.
pub open spec fn bad_character() -> Seq<char> {
    "Not a valid character code"@
}

/// The message for a number literal that breaks off.
pub open spec fn bad_number(literal: Seq<char>) -> Seq<char> {
    "Could not convert '"@ + literal + "' to a number"@
}

/// The message for an input that ends where a token is due.
pub open spec fn no_data() -> Seq<char> {
    "No data to parse"@
}

/// The message for the token `found` where a value has to start.
pub open spec fn no_value_start(found: TokenView) -> Seq<char> {
    "The token '"@ + found.describe()
        + "' is not valid here, was waiting the start of an array, object or a value"@
}

/// The message for the token `found` behind a value of an array.
pub open spec fn no_array_separator(found: TokenView) -> Seq<char> {
    "Was waiting a ',' or ']' but received "@ + found.describe()
}

/// The message for the token `found` behind a member of an object.
pub open spec fn no_object_separator(found: TokenView) -> Seq<char> {
    "Was waiting a ',' or '}' but received "@ + found.describe()
}

/// The message for the token `found` where the name of a member is due.
pub open spec fn no_member_name(found: TokenView) -> Seq<char> {
    "Was waiting a string but received "@ + found.describe()
}

/// The message for the token `found` where the token `wanted` is due.
pub open spec fn wrong_token(wanted: TokenView, found: TokenView) -> Seq<char> {
    "Was waiting "@ + wanted.describe() + " but received "@ + found.describe()
}

pub fn no_value_start_message(found: &Token) -> (m: String)
    ensures
        m@ == no_value_start(found@),
{
    let mut m = "The token '".to_owned();
    m.append(found.describe().as_str());
    m.append("' is not valid here, was waiting the start of an array, object or a value");
    m
}

pub fn no_array_separator_message(found: &Token) -> (m: String)
    ensures
        m@ == no_array_separator(found@),
{
    let mut m = "Was waiting a ',' or ']' but received ".to_owned();
    m.append(found.describe().as_str());
    m
}

pub fn no_object_separator_message(found: &Token) -> (m: String)
    ensures
        m@ == no_object_separator(found@),
{
    let mut m = "Was waiting a ',' or '}' but received ".to_owned();
    m.append(found.describe().as_str());
    m
}

pub fn no_member_name_message(found: &Token) -> (m: String)
    ensures
        m@ == no_member_name(found@),
{
    let mut m = "Was waiting a string but received ".to_owned();
    m.append(found.describe().as_str());
    m
}

pub fn wrong_token_message(wanted: &Token, found: &Token) -> (m: String)
    ensures
        m@ == wrong_token(wanted@, found@),
{
    let mut m = "Was waiting ".to_owned();
    m.append(wanted.describe().as_str());
    m.append(" but received ");
    m.append(found.describe().as_str());
    m
}

pub fn unexpected_character_message(c: char) -> (m: String)
    ensures
        m@ == unexpected_character(c),
{
    let mut m = "The character '".to_owned();
    m.push(c);
    m.append("' is unexpected");
    m
}

pub fn end_before_message(wanted: char) -> (m: String)
    ensures
        m@ == end_before(wanted),
{
    let mut m = "End of stream while waiting for '".to_owned();
    m.push(wanted);
    m.append("'");
    m
}

pub fn mismatch_message(found: char, wanted: char) -> (m: String)
    ensures
        m@ == mismatch(found, wanted),
{
    let mut m = "Unexpected char '".to_owned();
    m.push(found);
    m.append("', was waiting for a '");
    m.push(wanted);
    m.append("'");
    m
}

pub fn bad_code_unit_message(digits: &str) -> (m: String)
    ensures
        m@ == bad_code_unit(digits@),
{
    let mut m = "Could not convert ".to_owned();
    m.append(digits);
    m.append(" to unicode");
    m
}

pub fn bad_escape_message(c: char) -> (m: String)
    ensures
        m@ == bad_escape(c),
{
    let mut m = "'".to_owned();
    m.push(c);
    m.append(" is not an escapable character'");
    m
}

pub fn bad_number_message(literal: &str) -> (m: String)
    ensures
        m@ == bad_number(literal@),
{
    let mut m = "Could not convert '".to_owned();
    m.append(literal);
    m.append("' to a number");
    m
}

} // verus!
