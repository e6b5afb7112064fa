//! The parser: recursive descent over the tokens that a lexer hands out,
//! one token of lookahead.

use vstd::prelude::*;
use crate::lexer::Lexer;
use crate::messages;
use crate::syntax;
use crate::syntax::{
    lemma_parse_value_bounded, lemma_skip_twice, parse_elements, parse_members, parse_text,
    parse_value, shift, token_at, token_stream,
};
use crate::token::{Lexeme, Token, TokenInfo, TokenInfoView};
use crate::value::{items_view, lemma_items_view_push, JsonObject, JsonView};
use crate::{JsonError, JsonErrorView};

pub use crate::value::Json;

verus! {

/// A parser over the tokens of one lexer. It holds the token it is looking
/// at; the lexer holds the rest of the text.
pub struct Parser {
    pub lexer: Lexer,
    pub current_token_info: TokenInfo,
}

/// The tokens that `lexer` has yet to hand out.
pub open spec fn pending(lexer: Lexer) -> Seq<Lexeme> {
    token_stream(lexer.remaining(), lexer.position())
}

/// The view of what reading a text gives.
pub open spec fn outcome_of(r: Result<Json, JsonError>) -> Result<JsonView, JsonErrorView> {
    match r {
        Ok(json) => Ok(json@),
        Err(e) => Err(e@),
    }
}

/// Asks `lexer` for a token that has to be there: the end of the text is a
/// fault.
fn next_token(lexer: &mut Lexer) -> (r: Result<TokenInfo, JsonError>)
    ensures
        match r {
            Ok(info) => {
                &&& token_at(pending(*old(lexer)), 0) == Ok::<TokenInfoView, JsonErrorView>(info@)
                &&& pending(*final(lexer)) == pending(*old(lexer)).skip(1)
            },
            Err(e) => token_at(pending(*old(lexer)), 0) == Err::<TokenInfoView, JsonErrorView>(e@),
        },
{
    proof {
        reveal(token_stream);
    }
    match lexer.next() {
        None => Err(JsonError::Other("No data to parse".to_owned())),
        Some(Err(e)) => Err(e),
        Some(Ok(info)) => {
            Ok(info)
        },
    }
}

impl Parser {
    /// The tokens from the one that the parser is looking at on.
    pub open spec fn upcoming(&self) -> Seq<Lexeme> {
        seq![Ok(self.current_token_info@)] + pending(self.lexer)
    }

    /// The first of the upcoming tokens is the one that the parser is
    /// looking at.
    pub proof fn lemma_looking_at(&self)
        ensures
            self.upcoming().len() >= 1,
            self.upcoming()[0] == Ok::<TokenInfoView, JsonErrorView>(self.current_token_info@),
    {
    }

    /// Where the upcoming tokens are `tokens` without its first `n`, the
    /// parser is looking at the token at index `n`.
    pub proof fn lemma_looking_at_index(&self, tokens: Seq<Lexeme>, n: nat)
        requires
            n <= tokens.len(),
            self.upcoming() == tokens.skip(n as int),
        ensures
            n < tokens.len(),
            token_at(tokens, n) == Ok::<TokenInfoView, JsonErrorView>(self.current_token_info@),
    {
        self.lemma_looking_at();
    }

    /// A parser that looks at the first token of `lexer`. Fails where the
    /// lexer has no token to hand out or hands out a fault.
    pub fn new(lexer: Lexer) -> (r: Result<Parser, JsonError>)
        ensures
            match r {
                Ok(parser) => parser.upcoming() == pending(lexer),
                Err(e) => token_at(pending(lexer), 0) == Err::<TokenInfoView, JsonErrorView>(e@),
            },
    {
        let mut lexer = lexer;
        let current_token_info = match next_token(&mut lexer) {
            Ok(info) => info,
            Err(e) => {
                return Err(e);
            },
        };
        let parser = Parser { lexer, current_token_info };
        Ok(parser)
    }

    /// Reads one value, starting at the token that the parser is looking
    /// at. Afterwards the parser looks at the last token of that value.
    pub fn parse(&mut self) -> (r: Result<Json, JsonError>)
        ensures
            match parse_value(old(self).upcoming()) {
                Ok((value, last)) => {
                    &&& r matches Ok(json)
                    &&& json@ == value
                    &&& final(self).upcoming() == old(self).upcoming().skip(last as int)
                },
                Err(e) => r matches Err(x) && x@ == e,
            },
    {
        self.parse_json_value()
    }

    /// A parser fault with the given message, placed at the token that the
    /// parser is looking at.
    fn build_parser_error(&self, message: String) -> (e: JsonError)
        ensures
            e == (JsonError::Parser { context: self.current_token_info.context, message }),
    {
        JsonError::Parser { message, context: self.current_token_info.context }
    }

    /// Moves on to the next token, which has to be there.
    fn advance(&mut self) -> (r: Result<(), JsonError>)
        ensures
            match token_at(old(self).upcoming(), 1) {
                Ok(_) => r is Ok && final(self).upcoming() == old(self).upcoming().skip(1),
                Err(e) => r matches Err(x) && x@ == e,
            },
    {
        match next_token(&mut self.lexer) {
            Ok(info) => {
                self.current_token_info = info;
                Ok(())
            },
            Err(e) => Err(e),
        }
    }

    /// Moves on to the next token, which has to be `token`. Another token
    /// is a fault at the place of that token.
    fn advance_and_validate(&mut self, token: Token) -> (r: Result<(), JsonError>)
        ensures
            match token_at(old(self).upcoming(), 1) {
                Ok(info) => if info.token == token@ {
                    r is Ok && final(self).upcoming() == old(self).upcoming().skip(1)
                } else {
                    r matches Err(x) && x@ == (JsonErrorView::Parser {
                        context: info.context,
                        message: messages::wrong_token(token@, info.token),
                    })
                },
                Err(e) => r matches Err(x) && x@ == e,
            },
    {
        let ghost tokens = self.upcoming();
        match self.advance() {
            Ok(_) => {},
            Err(e) => {
                return Err(e);
            },
        }
        proof {
            self.lemma_looking_at_index(tokens, 1);
        }
        if self.current_token_info.token == token {
            Ok(())
        } else {
            Err(
                self.build_parser_error(
                    messages::wrong_token_message(&token, &self.current_token_info.token),
                ),
            )
        }
    }
}

impl Parser {
    /// Reads one value, starting at the token that the parser is looking
    /// at: an array or an object where that token opens one, else the value
    /// that the token itself stands for. Afterwards the parser looks at the
    /// last token of the value.
    fn parse_json_value(&mut self) -> (r: Result<Json, JsonError>)
        ensures
            match parse_value(old(self).upcoming()) {
                Ok((value, last)) => {
                    &&& r matches Ok(json)
                    &&& json@ == value
                    &&& final(self).upcoming() == old(self).upcoming().skip(last as int)
                },
                Err(e) => r matches Err(x) && x@ == e,
            },
        decreases old(self).upcoming().len(), 2nat,
    {
        let result = match &self.current_token_info.token {
            Token::ArrayStart => match self.parse_array() {
                Ok(items) => Json::Array(items),
                Err(e) => {
                    return Err(e);
                },
            },
            Token::ObjectStart => match self.parse_object() {
                Ok(object) => Json::Object(object),
                Err(e) => {
                    return Err(e);
                },
            },
            Token::ValueNull => Json::Null,
            Token::ValueNumber(n) => Json::Number(n.clone()),
            Token::ValueBoolean(b) => Json::Boolean(*b),
            Token::ValueString(s) => Json::String(s.clone()),
            other => {
                return Err(self.build_parser_error(messages::no_value_start_message(other)));
            },
        };
        Ok(result)
    }

    /// Reads an array, the parser looking at the bracket that opens it.
    /// Afterwards the parser looks at the bracket that closes it.
    fn parse_array(&mut self) -> (r: Result<Vec<Json>, JsonError>)
        requires
            old(self).current_token_info.token is ArrayStart,
        ensures
            match syntax::parse_array(old(self).upcoming()) {
                Ok((value, last)) => {
                    &&& r matches Ok(items)
                    &&& JsonView::Array(items_view(items@)) == value
                    &&& final(self).upcoming() == old(self).upcoming().skip(last as int)
                },
                Err(e) => r matches Err(x) && x@ == e,
            },
        decreases old(self).upcoming().len(), 1nat,
    {
        let ghost tokens = self.upcoming();
        let mut vec: Vec<Json> = Vec::new();
        match self.advance() {
            Ok(_) => {},
            Err(e) => {
                return Err(e);
            },
        }
        proof {
            self.lemma_looking_at_index(tokens, 1);
        }
        if let Token::ArrayEnd = self.current_token_info.token {
            return Ok(vec);
        }
        let ghost mut offset: nat = 1;
        proof {
            assert(syntax::parse_array(tokens) == shift(
                parse_elements(tokens.skip(1), Seq::empty()),
                1,
            )) by {
                reveal(parse_elements);
            }
        }
        loop
            invariant
                tokens == old(self).upcoming(),
                1 <= offset < tokens.len(),
                self.upcoming() == tokens.skip(offset as int),
                syntax::parse_array(tokens) == shift(
                    parse_elements(tokens.skip(offset as int), items_view(vec@)),
                    offset,
                ),
            decreases tokens.len() - offset,
        {
            let ghost here = self.upcoming();
            let ghost items = items_view(vec@);
            proof {
                lemma_parse_value_bounded(here);
            }
            let value = match self.parse_json_value() {
                Ok(value) => value,
                Err(e) => {
                    assert(parse_elements(here, items) == Err::<(JsonView, nat), JsonErrorView>(
                        e@,
                    )) by {
                        reveal(parse_elements);
                    }
                    return Err(e);
                },
            };
            let ghost last = parse_value(here)->Ok_0.1;
            let ghost behind = self.upcoming();
            proof {
                lemma_items_view_push(vec@, value);
                lemma_behind(here, behind, last, 1);
            }
            vec.push(value);
            match self.advance() {
                Ok(_) => {},
                Err(e) => {
                    assert(parse_elements(here, items) == Err::<(JsonView, nat), JsonErrorView>(
                        e@,
                    )) by {
                        reveal(parse_elements);
                    }
                    return Err(e);
                },
            }
            let ghost at_mark = self.upcoming();
            proof {
                self.lemma_looking_at_index(here, last + 1);
                lemma_behind(here, at_mark, last + 1, 1);
            }
            match &self.current_token_info.token {
                Token::ArrayEnd => {
                    assert(parse_elements(here, items) == Ok::<(JsonView, nat), JsonErrorView>(
                        (JsonView::Array(items_view(vec@)), last + 1),
                    )) by {
                        reveal(parse_elements);
                    }
                    return Ok(vec);
                },
                Token::SeparatorValue => {},
                other => {
                    assert(parse_elements(here, items) == Err::<(JsonView, nat), JsonErrorView>(
                        JsonErrorView::Parser {
                            context: self.current_token_info.context,
                            message: messages::no_array_separator(other@),
                        },
                    )) by {
                        reveal(parse_elements);
                    }
                    return Err(
                        self.build_parser_error(messages::no_array_separator_message(other)),
                    );
                },
            }
            match self.advance() {
                Ok(_) => {},
                Err(e) => {
                    assert(parse_elements(here, items) == Err::<(JsonView, nat), JsonErrorView>(
                        e@,
                    )) by {
                        reveal(parse_elements);
                    }
                    return Err(e);
                },
            }
            proof {
                lemma_behind(here, self.upcoming(), last + 2, 0);
                assert(parse_elements(here, items) == shift(
                    parse_elements(here.skip(last as int + 2), items_view(vec@)),
                    last + 2,
                )) by {
                    reveal(parse_elements);
                }
                lemma_skip_twice(tokens, offset, last + 2);
                offset = offset + last + 2;
            }
        }
    }

    /// Reads an object, the parser looking at the brace that opens it.
    /// Afterwards the parser looks at the brace that closes it.
    fn parse_object(&mut self) -> (r: Result<JsonObject, JsonError>)
        requires
            old(self).current_token_info.token is ObjectStart,
        ensures
            match syntax::parse_object(old(self).upcoming()) {
                Ok((value, last)) => {
                    &&& r matches Ok(object)
                    &&& JsonView::Object(object@) == value
                    &&& final(self).upcoming() == old(self).upcoming().skip(last as int)
                },
                Err(e) => r matches Err(x) && x@ == e,
            },
        decreases old(self).upcoming().len(), 1nat,
    {
        let ghost tokens = self.upcoming();
        let mut map = JsonObject::new();
        match self.advance() {
            Ok(_) => {},
            Err(e) => {
                return Err(e);
            },
        }
        proof {
            self.lemma_looking_at_index(tokens, 1);
        }
        if let Token::ObjectEnd = self.current_token_info.token {
            return Ok(map);
        }
        let ghost mut offset: nat = 1;
        proof {
            assert(syntax::parse_object(tokens) == shift(
                parse_members(tokens.skip(1), Map::empty()),
                1,
            )) by {
                reveal(parse_members);
            }
        }
        loop
            invariant
                tokens == old(self).upcoming(),
                1 <= offset < tokens.len(),
                self.upcoming() == tokens.skip(offset as int),
                syntax::parse_object(tokens) == shift(
                    parse_members(tokens.skip(offset as int), map@),
                    offset,
                ),
            decreases tokens.len() - offset,
        {
            let ghost here = self.upcoming();
            let ghost members = map@;
            proof {
                self.lemma_looking_at();
            }
            let key = match &self.current_token_info.token {
                Token::ValueString(val) => val.clone(),
                other => {
                    assert(parse_members(here, members) == Err::<(JsonView, nat), JsonErrorView>(
                        JsonErrorView::Parser {
                            context: self.current_token_info.context,
                            message: messages::no_member_name(other@),
                        },
                    )) by {
                        reveal(parse_members);
                    }
                    return Err(self.build_parser_error(messages::no_member_name_message(other)));
                },
            };
            match self.advance_and_validate(Token::SeparatorName) {
                Ok(_) => {},
                Err(e) => {
                    assert(parse_members(here, members) == Err::<(JsonView, nat), JsonErrorView>(
                        e@,
                    )) by {
                        reveal(parse_members);
                    }
                    return Err(e);
                },
            }
            proof {
                lemma_behind(here, self.upcoming(), 1, 1);
            }
            match self.advance() {
                Ok(_) => {},
                Err(e) => {
                    assert(parse_members(here, members) == Err::<(JsonView, nat), JsonErrorView>(
                        e@,
                    )) by {
                        reveal(parse_members);
                    }
                    return Err(e);
                },
            }
            let ghost from_value = self.upcoming();
            proof {
                lemma_parse_value_bounded(from_value);
            }
            let value = match self.parse_json_value() {
                Ok(value) => value,
                Err(e) => {
                    assert(parse_members(here, members) == Err::<(JsonView, nat), JsonErrorView>(
                        e@,
                    )) by {
                        reveal(parse_members);
                    }
                    return Err(e);
                },
            };
            let ghost last = parse_value(from_value)->Ok_0.1;
            proof {
                lemma_skip_twice(here, 2, last);
                lemma_behind(here, self.upcoming(), last + 2, 1);
            }
            map.insert(key, value);
            match self.advance() {
                Ok(_) => {},
                Err(e) => {
                    assert(parse_members(here, members) == Err::<(JsonView, nat), JsonErrorView>(
                        e@,
                    )) by {
                        reveal(parse_members);
                    }
                    return Err(e);
                },
            }
            let ghost at_mark = self.upcoming();
            proof {
                self.lemma_looking_at_index(here, last + 3);
                lemma_behind(here, at_mark, last + 3, 1);
            }
            match &self.current_token_info.token {
                Token::ObjectEnd => {
                    assert(parse_members(here, members) == Ok::<(JsonView, nat), JsonErrorView>(
                        (JsonView::Object(map@), last + 3),
                    )) by {
                        reveal(parse_members);
                    }
                    return Ok(map);
                },
                Token::SeparatorValue => {},
                other => {
                    assert(parse_members(here, members) == Err::<(JsonView, nat), JsonErrorView>(
                        JsonErrorView::Parser {
                            context: self.current_token_info.context,
                            message: messages::no_object_separator(other@),
                        },
                    )) by {
                        reveal(parse_members);
                    }
                    return Err(
                        self.build_parser_error(messages::no_object_separator_message(other)),
                    );
                },
            }
            match self.advance() {
                Ok(_) => {},
                Err(e) => {
                    assert(parse_members(here, members) == Err::<(JsonView, nat), JsonErrorView>(
                        e@,
                    )) by {
                        reveal(parse_members);
                    }
                    return Err(e);
                },
            }
            proof {
                lemma_behind(here, self.upcoming(), last + 4, 0);
                assert(parse_members(here, members) == shift(
                    parse_members(here.skip(last as int + 4), map@),
                    last + 4,
                )) by {
                    reveal(parse_members);
                }
                lemma_skip_twice(tokens, offset, last + 4);
                offset = offset + last + 4;
            }
        }
    }
}

/// Where `behind` is what follows the first `n` of `tokens`, a token that
/// is due `k` places on in `behind` is the one that is due `n + k` places on
/// in `tokens`, and what follows it is the same.
proof fn lemma_behind(tokens: Seq<Lexeme>, behind: Seq<Lexeme>, n: nat, k: nat)
    requires
        n <= tokens.len(),
        behind == tokens.skip(n as int),
    ensures
        token_at(behind, k) == token_at(tokens, n + k),
        n + k <= tokens.len() ==> behind.skip(k as int) == tokens.skip((n + k) as int),
{
    if n + k <= tokens.len() {
        lemma_skip_twice(tokens, n, k);
    }
}

/// Reads the JSON value that `input` begins with.
///
/// The result is the value that the text denotes, or the first fault met
/// on the way, with its place. An input that holds no token is a fault
/// without a place. What follows the value in the text is not looked at.
pub fn parse_json(input: &str) -> (r: Result<Json, JsonError>)
    ensures
        outcome_of(r) == parse_text(input@),
{
    let lexer = Lexer::new(input);
    let mut parser = match Parser::new(lexer) {
        Ok(parser) => parser,
        Err(e) => {
            return Err(e);
        },
    };
    parser.parse()
}

} // verus!
