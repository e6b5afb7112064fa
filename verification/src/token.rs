//! Tokens, the lexical units of a JSON text.

use vstd::prelude::*;
use vstd::std_specs::cmp::PartialEqSpecImpl;
use crate::number::Number;
use crate::{Context, JsonError, JsonErrorView};

verus! {

/// A lexical unit: a punctuation mark, a literal name, a number or a string.
#[derive(Debug)]
pub enum Token {
    ArrayStart,
    ArrayEnd,
    ObjectStart,
    ObjectEnd,
    SeparatorName,
    SeparatorValue,
    ValueNull,
    ValueNumber(Number),
    ValueBoolean(bool),
    ValueString(String),
}

/// What a `Token` stands for: a number by its literal, a string by the
/// characters it denotes.
pub enum TokenView {
    ArrayStart,
    ArrayEnd,
    ObjectStart,
    ObjectEnd,
    SeparatorName,
    SeparatorValue,
    ValueNull,
    ValueNumber(Seq<char>),
    ValueBoolean(bool),
    ValueString(Seq<char>),
}

impl View for Token {
    type V = TokenView;

    open spec fn view(&self) -> TokenView {
        match self {
            Token::ArrayStart => TokenView::ArrayStart,
            Token::ArrayEnd => TokenView::ArrayEnd,
            Token::ObjectStart => TokenView::ObjectStart,
            Token::ObjectEnd => TokenView::ObjectEnd,
            Token::SeparatorName => TokenView::SeparatorName,
            Token::SeparatorValue => TokenView::SeparatorValue,
            Token::ValueNull => TokenView::ValueNull,
            Token::ValueNumber(n) => TokenView::ValueNumber(n@),
            Token::ValueBoolean(b) => TokenView::ValueBoolean(*b),
            Token::ValueString(s) => TokenView::ValueString(s@),
        }
    }
}

impl TokenView {
    /// The token written out: its name, with what it holds in brackets.
    pub open spec fn describe(self) -> Seq<char> {
        match self {
            TokenView::ArrayStart => "ArrayStart"@,
            TokenView::ArrayEnd => "ArrayEnd"@,
            TokenView::ObjectStart => "ObjectStart"@,
            TokenView::ObjectEnd => "ObjectEnd"@,
            TokenView::SeparatorName => "SeparatorName"@,
            TokenView::SeparatorValue => "SeparatorValue"@,
            TokenView::ValueNull => "ValueNull"@,
            TokenView::ValueNumber(literal) => "ValueNumber("@ + literal + ")"@,
            TokenView::ValueBoolean(b) => if b {
                "ValueBoolean(true)"@
            } else {
                "ValueBoolean(false)"@
            },
            TokenView::ValueString(text) => "ValueString(\""@ + text + "\")"@,
        }
    }
}

impl Token {
    /// The token written out: its name, with what it holds in brackets.
    pub fn describe(&self) -> (r: String)
        ensures
            r@ == self@.describe(),
    {
        match self {
            Token::ArrayStart => "ArrayStart".to_owned(),
            Token::ArrayEnd => "ArrayEnd".to_owned(),
            Token::ObjectStart => "ObjectStart".to_owned(),
            Token::ObjectEnd => "ObjectEnd".to_owned(),
            Token::SeparatorName => "SeparatorName".to_owned(),
            Token::SeparatorValue => "SeparatorValue".to_owned(),
            Token::ValueNull => "ValueNull".to_owned(),
            Token::ValueNumber(number) => {
                let mut r = "ValueNumber(".to_owned();
                r.append(number.as_str());
                r.append(")");
                r
            },
            Token::ValueBoolean(b) => if *b {
                "ValueBoolean(true)".to_owned()
            } else {
                "ValueBoolean(false)".to_owned()
            },
            Token::ValueString(text) => {
                let mut r = "ValueString(\"".to_owned();
                r.append(text.as_str());
                r.append("\")");
                r
            },
        }
    }

    /// Tells whether two tokens are the same: of one kind, and holding the
    /// same literal, truth value or text.
    pub fn same(&self, other: &Token) -> (r: bool)
        ensures
            r == (self@ == other@),
    {
        match (self, other) {
            (Token::ArrayStart, Token::ArrayStart) => true,
            (Token::ArrayEnd, Token::ArrayEnd) => true,
            (Token::ObjectStart, Token::ObjectStart) => true,
            (Token::ObjectEnd, Token::ObjectEnd) => true,
            (Token::SeparatorName, Token::SeparatorName) => true,
            (Token::SeparatorValue, Token::SeparatorValue) => true,
            (Token::ValueNull, Token::ValueNull) => true,
            (Token::ValueNumber(a), Token::ValueNumber(b)) => *a == *b,
            (Token::ValueBoolean(a), Token::ValueBoolean(b)) => *a == *b,
            (Token::ValueString(a), Token::ValueString(b)) => *a == *b,
            _ => false,
        }
    }
}

impl PartialEq for Token {
    fn eq(&self, other: &Token) -> (r: bool) {
        self.same(other)
    }
}

impl PartialEqSpecImpl for Token {
    open spec fn obeys_eq_spec() -> bool {
        true
    }

    open spec fn eq_spec(&self, other: &Token) -> bool {
        self@ == other@
    }
}

/// A token together with the place of its first character.
#[derive(Debug)]
pub struct TokenInfo {
    pub token: Token,
    pub context: Context,
}

/// What a `TokenInfo` stands for.
pub struct TokenInfoView {
    pub token: TokenView,
    pub context: Context,
}

impl View for TokenInfo {
    type V = TokenInfoView;

    open spec fn view(&self) -> TokenInfoView {
        TokenInfoView { token: self.token@, context: self.context }
    }
}

/// What the lexer hands out for one token: the token or the fault.
pub type LexerResult = Result<TokenInfo, JsonError>;

/// What a `LexerResult` stands for.
pub type Lexeme = Result<TokenInfoView, JsonErrorView>;

/// The view of a lexer result.
pub open spec fn lexeme_of(r: LexerResult) -> Lexeme {
    match r {
        Ok(info) => Ok(info@),
        Err(e) => Err(e@),
    }
}

/// The view of what one request to the lexer gives: a lexer result, or
/// nothing at the end of the text.
pub open spec fn step_of(r: Option<LexerResult>) -> Option<Lexeme> {
    match r {
        Some(item) => Some(lexeme_of(item)),
        None => None,
    }
}

} // verus!
