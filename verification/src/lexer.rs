//! The lexer: it reads a text character by character and hands out its
//! tokens one at a time.

use vstd::prelude::*;
use crate::messages;
use crate::machine::{lemma_literal_is_number, lemma_machine_reads_literal, Run, Step};
use crate::number::Number;
use crate::scan::{
    lemma_scan_escape_bounded, lex, matched, scan_escape, scan_keyword, scan_number, scan_seq,
    scan_string, scan_token, scan_unicode, whitespace_run,
};
use crate::unicode::{convert_surrogate_pairs, is_high_surrogate, string_to_unicode_char};
use crate::text::to_chars;
use crate::token::{step_of, TokenView};
use crate::{Context, JsonError, JsonErrorView};

pub use crate::token::{LexerResult, Token, TokenInfo};

verus! {

/// A lexer over one text. It is made once for the text and is used up with
/// it.
pub struct Lexer {
    char_context: Context,
    token_context: Context,
    chars: Vec<char>,
    pos: usize,
}

impl Lexer {
    #[verifier::type_invariant]
    spec fn well_formed(self) -> bool {
        self.pos <= self.chars.len()
    }

    /// The characters that have not been read yet.
    pub closed spec fn remaining(&self) -> Seq<char> {
        self.chars@.skip(self.pos as int)
    }

    /// The place of the next character to read.
    pub closed spec fn position(&self) -> Context {
        self.char_context
    }

    /// The place noted for the token that is being read.
    pub closed spec fn token_start(&self) -> Context {
        self.token_context
    }

    /// True where `self` has read `n` characters more than `before`.
    pub open spec fn has_read(&self, before: &Lexer, n: nat) -> bool {
        &&& n <= before.remaining().len()
        &&& self.remaining() == before.remaining().skip(n as int)
        &&& self.position() == before.position().after_all(before.remaining().take(n as int))
    }

    /// True where `self` has read `n` characters more than `before`, inside
    /// the same token.
    pub open spec fn advanced_by(&self, before: &Lexer, n: nat) -> bool {
        &&& self.has_read(before, n)
        &&& self.token_start() == before.token_start()
    }

    /// Reading `k` characters and then `j` more is reading `k + j`.
    pub proof fn lemma_read_twice(&self, first: &Lexer, second: &Lexer, k: nat, j: nat)
        requires
            second.has_read(first, k),
            self.has_read(second, j),
        ensures
            self.has_read(first, k + j),
    {
        let s = first.remaining();
        assert(s.skip(k as int).skip(j as int) =~= s.skip((k + j) as int));
        assert(s.take((k + j) as int) =~= s.take(k as int) + s.skip(k as int).take(j as int));
        first.position().lemma_after_all_add(s.take(k as int), s.skip(k as int).take(j as int));
    }

    /// Reading `k` characters and then `j` more, all inside one token, is
    /// reading `k + j` inside that token.
    pub proof fn lemma_advanced_twice(&self, first: &Lexer, second: &Lexer, k: nat, j: nat)
        requires
            second.advanced_by(first, k),
            self.advanced_by(second, j),
        ensures
            self.advanced_by(first, k + j),
    {
        self.lemma_read_twice(first, second, k, j);
    }

    /// A lexer at the start of `data`: nothing is read yet, and both the
    /// place of the next character and the place noted for a token are line
    /// 1 and column 1.
    pub fn new(data: &str) -> (lexer: Lexer)
        ensures
            lexer.remaining() == data@,
            lexer.position() == (Context { line: 1, column: 1 }),
            lexer.token_start() == (Context { line: 1, column: 1 }),
    {
        let chars = to_chars(data);
        Lexer {
            char_context: Context::default(),
            token_context: Context::default(),
            chars,
            pos: 0,
        }
    }

    /// Tells whether the whole text has been read.
    pub fn remaining_is_empty(&self) -> (r: bool)
        ensures
            r == (self.remaining().len() == 0),
    {
        self.peek_char().is_none()
    }

    /// The token `token`, placed where the current token started.
    fn build_result(&self, token: Token) -> (info: TokenInfo)
        ensures
            info.token == token,
            info.context == self.token_start(),
    {
        TokenInfo { token, context: self.token_context }
    }

    /// A lexer fault with the given message, placed at the next character
    /// to read.
    fn build_error(&self, message: String) -> (e: JsonError)
        ensures
            e == (JsonError::Lexer { context: self.position(), message }),
    {
        JsonError::Lexer { context: self.char_context, message }
    }

    /// Notes the place of the next character as the start of a token.
    fn set_token_context(&mut self)
        ensures
            final(self).remaining() == old(self).remaining(),
            final(self).position() == old(self).position(),
            final(self).token_start() == old(self).position(),
    {
        proof {
            use_type_invariant(&*self);
        }
        self.token_context = self.char_context;
    }

    /// The next character, which stays unread.
    fn peek_char(&self) -> (r: Option<char>)
        ensures
            r == (if self.remaining().len() > 0 {
                Some(self.remaining()[0])
            } else {
                None
            }),
    {
        proof {
            use_type_invariant(self);
        }
        if self.pos < self.chars.len() {
            Some(self.chars[self.pos])
        } else {
            None
        }
    }

    /// Reads the next character, if there is one, and moves the place past
    /// it.
    fn consume_char(&mut self) -> (r: Option<char>)
        ensures
            match r {
                Some(c) => old(self).remaining().len() > 0 && c == old(self).remaining()[0]
                    && final(self).advanced_by(old(self), 1),
                None => old(self).remaining().len() == 0 && *final(self) == *old(self),
            },
    {
        proof {
            use_type_invariant(&*self);
        }
        if self.pos < self.chars.len() {
            let c = self.chars[self.pos];
            self.char_context = self.char_context.advance(c);
            self.pos = self.pos + 1;
            proof {
                let s = old(self).remaining();
                assert(self.remaining() =~= s.skip(1));
                assert(s.take(1).drop_last() =~= Seq::<char>::empty());
                assert(old(self).position().after_all(Seq::empty()) == old(self).position());
            }
            Some(c)
        } else {
            None
        }
    }
}

impl Lexer {
    /// Nothing read yet is the lexer as it stands.
    proof fn lemma_advanced_by_none(&self)
        ensures
            self.advanced_by(self, 0),
    {
        assert(self.remaining().skip(0) =~= self.remaining());
    }

    /// Reads the whitespace that comes next and returns the character
    /// behind it, which stays unread; `None` at the end of the text.
    fn trim_whitespace_and_peek(&mut self) -> (r: Option<char>)
        ensures
            final(self).advanced_by(old(self), whitespace_run(old(self).remaining())),
            r == (if final(self).remaining().len() > 0 {
                Some(final(self).remaining()[0])
            } else {
                None
            }),
    {
        let ghost start = *self;
        let ghost mut k: nat = 0;
        proof {
            self.lemma_advanced_by_none();
        }
        loop
            invariant
                start == *old(self),
                self.advanced_by(&start, k),
                whitespace_run(start.remaining()) == k + whitespace_run(self.remaining()),
            decreases self.remaining().len(),
        {
            match self.peek_char() {
                None => {
                    return None;
                },
                Some(c) => {
                    if c == ' ' || c == '\t' || c == '\r' || c == '\n' {
                        let ghost mid = *self;
                        self.consume_char();
                        proof {
                            self.lemma_advanced_twice(&start, &mid, k, 1);
                            k = k + 1;
                        }
                    } else {
                        return Some(c);
                    }
                },
            }
        }
    }

    /// Reads `n` characters and returns them; fails at the end of the text
    /// where fewer are left.
    fn consume_n_times(&mut self, n: usize) -> (r: Result<String, JsonError>)
        ensures
            match r {
                Ok(text) => {
                    &&& n <= old(self).remaining().len()
                    &&& text@ == old(self).remaining().take(n as int)
                    &&& final(self).advanced_by(old(self), n as nat)
                },
                Err(e) => {
                    &&& n > old(self).remaining().len()
                    &&& final(self).advanced_by(old(self), old(self).remaining().len())
                    &&& e@ == (JsonErrorView::Lexer {
                        context: final(self).position(),
                        message: messages::end_of_stream(),
                    })
                },
            },
    {
        let ghost start = *self;
        let mut result = String::new();
        let mut i: usize = 0;
        proof {
            self.lemma_advanced_by_none();
        }
        while i < n
            invariant
                start == *old(self),
                i <= n,
                self.advanced_by(&start, i as nat),
                result@ == start.remaining().take(i as int),
            decreases n - i,
        {
            let ghost mid = *self;
            match self.consume_char() {
                None => {
                    return Err(
                        self.build_error(
                            "End of stream while waiting for more characters".to_owned(),
                        ),
                    );
                },
                Some(c) => {
                    result.push(c);
                    proof {
                        self.lemma_advanced_twice(&start, &mid, i as nat, 1);
                    }
                },
            }
            i = i + 1;
        }
        Ok(result)
    }

    /// Reads one character and hands out `token` for it.
    fn consume_next_and_emit(&mut self, token: Token) -> (r: LexerResult)
        ensures
            match r {
                Ok(info) => {
                    &&& final(self).advanced_by(old(self), 1)
                    &&& info.token == token
                    &&& info.context == old(self).token_start()
                },
                Err(e) => {
                    &&& old(self).remaining().len() == 0
                    &&& *final(self) == *old(self)
                    &&& e@ == (JsonErrorView::Lexer {
                        context: old(self).position(),
                        message: messages::no_more_data(),
                    })
                },
            },
    {
        match self.consume_char() {
            None => Err(self.build_error("No more data to read.".to_owned())),
            Some(_) => Ok(self.build_result(token)),
        }
    }

    /// Reads the characters of `pattern` one after the other; fails at the
    /// first character that differs, or at the end of the text.
    fn consume_seq(&mut self, pattern: &[char]) -> (r: Result<(), JsonError>)
        ensures
            final(self).advanced_by(old(self), scan_seq(old(self).remaining(), pattern@).used),
            match r {
                Ok(_) => scan_seq(old(self).remaining(), pattern@).outcome is Ok,
                Err(e) => {
                    &&& scan_seq(old(self).remaining(), pattern@).outcome matches Err(m)
                    &&& e@ == (JsonErrorView::Lexer {
                        context: final(self).position(),
                        message: m,
                    })
                },
            },
    {
        let ghost start = *self;
        let mut i: usize = 0;
        proof {
            self.lemma_advanced_by_none();
            assert(pattern@.skip(0) =~= pattern@);
        }
        while i < pattern.len()
            invariant
                start == *old(self),
                i <= pattern.len(),
                self.advanced_by(&start, i as nat),
                matched(start.remaining(), pattern@) == i + matched(
                    self.remaining(),
                    pattern@.skip(i as int),
                ),
            decreases pattern.len() - i,
        {
            let target_char = pattern[i];
            let ghost mid = *self;
            match self.consume_char() {
                None => {
                    return Err(self.build_error(messages::end_before_message(target_char)));
                },
                Some(candidate_char) => {
                    proof {
                        self.lemma_advanced_twice(&start, &mid, i as nat, 1);
                    }
                    if candidate_char != target_char {
                        return Err(
                            self.build_error(
                                messages::mismatch_message(candidate_char, target_char),
                            ),
                        );
                    }
                    proof {
                        assert(pattern@.skip(i as int).skip(1) =~= pattern@.skip(i + 1));
                    }
                },
            }
            i = i + 1;
        }
        Ok(())
    }

    /// Reads the literal name `pattern` and hands out `token` for it. A
    /// fault is placed where the name starts.
    fn consume_seq_and_emit(&mut self, pattern: &[char], token: Token) -> (r: LexerResult)
        ensures
            final(self).advanced_by(
                old(self),
                scan_keyword(old(self).remaining(), pattern@, token@).used,
            ),
            match r {
                Ok(info) => {
                    &&& scan_keyword(old(self).remaining(), pattern@, token@).outcome == Ok::<
                        TokenView,
                        Seq<char>,
                    >(info.token@)
                    &&& info.context == old(self).token_start()
                },
                Err(e) => {
                    &&& scan_keyword(old(self).remaining(), pattern@, token@).outcome matches Err(m)
                    &&& e@ == (JsonErrorView::Lexer {
                        context: old(self).token_start(),
                        message: m,
                    })
                },
            },
    {
        match self.consume_seq(pattern) {
            Ok(_) => Ok(self.build_result(token)),
            Err(JsonError::Lexer { context: _, message }) => Err(
                JsonError::Lexer { context: self.token_context, message },
            ),
            Err(e) => Err(e),
        }
    }
}

impl Lexer {
    /// Reads what follows `\u` in a string: the four digits of a code unit
    /// and, behind the first half of a surrogate pair, `\u` and the four
    /// digits of the second half. Returns the character they name.
    fn consume_unicode(&mut self) -> (r: Result<char, JsonError>)
        ensures
            final(self).advanced_by(old(self), scan_unicode(old(self).remaining()).used),
            match r {
                Ok(c) => scan_unicode(old(self).remaining()).outcome == Ok::<char, Seq<char>>(c),
                Err(e) => {
                    &&& scan_unicode(old(self).remaining()).outcome matches Err(m)
                    &&& e@ == (JsonErrorView::Lexer {
                        context: final(self).position(),
                        message: m,
                    })
                },
            },
    {
        let ghost start = *self;
        let ghost s = self.remaining();
        let unicode_char = match self.consume_n_times(4) {
            Ok(text) => text,
            Err(e) => {
                return Err(e);
            },
        };
        if is_high_surrogate(unicode_char.as_str()) {
            let high_surrogate = unicode_char;
            let ghost after_high = *self;
            let mark = self.consume_seq(&['\\', 'u']);
            let ghost after_mark = *self;
            proof {
                self.lemma_advanced_twice(
                    &start,
                    &after_high,
                    4,
                    scan_seq(s.skip(4), seq!['\\', 'u']).used,
                );
            }
            match mark {
                Ok(_) => {},
                Err(e) => {
                    return Err(e);
                },
            }
            proof {
                reveal_with_fuel(matched, 3);
            }
            let low_surrogate = match self.consume_n_times(4) {
                Ok(text) => text,
                Err(e) => {
                    proof {
                        self.lemma_advanced_twice(
                            &start,
                            &after_mark,
                            6,
                            after_mark.remaining().len(),
                        );
                    }
                    return Err(e);
                },
            };
            proof {
                self.lemma_advanced_twice(&start, &after_mark, 6, 4);
            }
            match convert_surrogate_pairs(high_surrogate.as_str(), low_surrogate.as_str()) {
                Some(c) => Ok(c),
                None => Err(
                    self.build_error("Issue while parsing provided unicode value.".to_owned()),
                ),
            }
        } else {
            match string_to_unicode_char(unicode_char.as_str()) {
                Some(c) => Ok(c),
                None => Err(
                    self.build_error(messages::bad_code_unit_message(unicode_char.as_str())),
                ),
            }
        }
    }

    /// Reads what follows a backslash in a string and returns the character
    /// that the escape stands for.
    fn consume_escape(&mut self) -> (r: Result<char, JsonError>)
        ensures
            final(self).advanced_by(old(self), scan_escape(old(self).remaining()).used),
            match r {
                Ok(c) => scan_escape(old(self).remaining()).outcome == Ok::<char, Seq<char>>(c),
                Err(e) => {
                    &&& scan_escape(old(self).remaining()).outcome matches Err(m)
                    &&& e@ == (JsonErrorView::Lexer {
                        context: final(self).position(),
                        message: m,
                    })
                },
            },
    {
        let ghost start = *self;
        let c = match self.consume_char() {
            Some(c) => c,
            None => {
                proof {
                    self.lemma_advanced_by_none();
                }
                return Err(
                    self.build_error("EOF encountered while recognizing a string".to_owned()),
                );
            },
        };
        let ghost mid = *self;
        let transcoded_char = if c == '"' {
            '\u{0022}'
        } else if c == '\\' {
            '\u{005C}'
        } else if c == '/' {
            '\u{002F}'
        } else if c == 'b' {
            '\u{0008}'
        } else if c == 'f' {
            '\u{000C}'
        } else if c == 'n' {
            '\u{000A}'
        } else if c == 'r' {
            '\u{000D}'
        } else if c == 't' {
            '\u{0009}'
        } else if c == 'u' {
            let unit = self.consume_unicode();
            proof {
                self.lemma_advanced_twice(
                    &start,
                    &mid,
                    1,
                    scan_unicode(mid.remaining()).used,
                );
            }
            match unit {
                Ok(decoded) => decoded,
                Err(e) => {
                    return Err(e);
                },
            }
        } else {
            return Err(self.build_error(messages::bad_escape_message(c)));
        };
        Ok(transcoded_char)
    }

    /// Reads a string, from its opening quotation mark to the closing one,
    /// and hands out the text it denotes.
    fn consume_string(&mut self) -> (r: LexerResult)
        requires
            old(self).remaining().len() > 0,
            old(self).remaining()[0] == '"',
        ensures
            final(self).advanced_by(
                old(self),
                scan_string(old(self).remaining().skip(1), Seq::empty()).used + 1,
            ),
            match r {
                Ok(info) => {
                    &&& scan_string(old(self).remaining().skip(1), Seq::empty()).outcome == Ok::<
                        TokenView,
                        Seq<char>,
                    >(info.token@)
                    &&& info.context == old(self).token_start()
                },
                Err(e) => {
                    &&& scan_string(old(self).remaining().skip(1), Seq::empty()).outcome matches Err(
                        m,
                    )
                    &&& e@ == (JsonErrorView::Lexer {
                        context: final(self).position(),
                        message: m,
                    })
                },
            },
    {
        let ghost start = *self;
        self.consume_char();
        let ghost body = self.remaining();
        let mut result = String::new();
        let ghost mut k: nat = 1;
        loop
            invariant
                start == *old(self),
                body == start.remaining().skip(1),
                k >= 1,
                self.advanced_by(&start, k),
                scan_string(body, Seq::empty()) == scan_string(self.remaining(), result@).shift(
                    (k - 1) as nat,
                ),
            decreases self.remaining().len(),
        {
            let ghost mid = *self;
            let c = match self.consume_char() {
                Some(c) => c,
                None => {
                    return Err(
                        self.build_error("EOF encountered while recognizing a string".to_owned()),
                    );
                },
            };
            proof {
                self.lemma_advanced_twice(&start, &mid, k, 1);
            }
            if c == '"' {
                return Ok(self.build_result(Token::ValueString(result)));
            } else if c == '\\' {
                let ghost at_escape = *self;
                let escape = self.consume_escape();
                proof {
                    let used = scan_escape(at_escape.remaining()).used;
                    self.lemma_advanced_twice(&start, &at_escape, k + 1, used);
                    assert(mid.remaining().skip(1).skip(used as int) =~= mid.remaining().skip(
                        1 + used as int,
                    ));
                    lemma_scan_escape_bounded(at_escape.remaining());
                }
                match escape {
                    Ok(transcoded_char) => {
                        result.push(transcoded_char);
                        proof {
                            k = k + 1 + scan_escape(at_escape.remaining()).used;
                        }
                    },
                    Err(e) => {
                        return Err(e);
                    },
                }
            } else if c >= ' ' {
                result.push(c);
                proof {
                    k = k + 1;
                }
            } else {
                return Err(self.build_error("Not a valid character code".to_owned()));
            }
        }
    }
}

impl Lexer {
    /// Reads the next character and appends it to `text`, which holds what
    /// has been read since `start`.
    fn consume_into(&mut self, text: &mut String, Ghost(start): Ghost<Lexer>)
        requires
            old(self).remaining().len() > 0,
            old(self).advanced_by(&start, old(text)@.len()),
            old(text)@ == start.remaining().take(old(text)@.len() as int),
        ensures
            final(self).remaining() == old(self).remaining().skip(1),
            final(self).advanced_by(&start, final(text)@.len()),
            final(text)@ == start.remaining().take(final(text)@.len() as int),
            final(text)@ == old(text)@.push(old(self).remaining()[0]),
    {
        let ghost mid = *self;
        let ghost k = text@.len();
        match self.consume_char() {
            Some(c) => {
                text.push(c);
            },
            None => {},
        }
        proof {
            self.lemma_advanced_twice(&start, &mid, k, 1);
        }
    }

    /// Reads a number literal with a state machine that follows the number
    /// grammar: in each state the next character is read only where the
    /// grammar allows it there, and any other character ends the literal.
    /// Hands out the literal where it denotes a number.
    pub(crate) fn consume_number(&mut self) -> (r: LexerResult)
        ensures
            final(self).advanced_by(old(self), scan_number(old(self).remaining()).used),
            match r {
                Ok(info) => {
                    &&& scan_number(old(self).remaining()).outcome == Ok::<TokenView, Seq<char>>(
                        info.token@,
                    )
                    &&& info.context == old(self).token_start()
                },
                Err(e) => {
                    &&& scan_number(old(self).remaining()).outcome matches Err(m)
                    &&& e@ == (JsonErrorView::Lexer {
                        context: final(self).position(),
                        message: m,
                    })
                },
            },
    {
        let ghost start = *self;
        let mut step = Step::Minus;
        let mut number = String::new();
        proof {
            self.lemma_advanced_by_none();
        }
        loop
            invariant
                start == *old(self),
                self.advanced_by(&start, number@.len()),
                number@ == start.remaining().take(number@.len() as int),
                Step::Minus.run(start.remaining()) == step.run(self.remaining()).shift(
                    number@.len(),
                ),
            ensures
                step.run(self.remaining()) == (Run { used: 0, complete: step.accepts() }),
            decreases self.remaining().len(), step.rank(),
        {
            let c = match self.peek_char() {
                None => {
                    break;
                },
                Some(val) => val,
            };
            match step {
                Step::Minus => {
                    if c == '-' {
                        self.consume_into(&mut number, Ghost(start));
                    }
                    step = Step::IntFirst;
                },
                Step::IntFirst => {
                    if c == '0' {
                        step = Step::FracOrExp;
                    } else if '1' <= c && c <= '9' {
                        step = Step::Int;
                    } else {
                        break;
                    }
                    self.consume_into(&mut number, Ghost(start));
                },
                Step::Int => {
                    if c == '.' {
                        step = Step::FracFirst;
                    } else if c == 'e' || c == 'E' {
                        step = Step::ExpSign;
                    } else if !('0' <= c && c <= '9') {
                        break;
                    }
                    self.consume_into(&mut number, Ghost(start));
                },
                Step::FracOrExp => {
                    if c == '.' {
                        step = Step::FracFirst;
                    } else if c == 'e' || c == 'E' {
                        step = Step::ExpSign;
                    } else {
                        break;
                    }
                    self.consume_into(&mut number, Ghost(start));
                },
                Step::FracFirst => {
                    if '0' <= c && c <= '9' {
                        step = Step::Frac;
                    } else {
                        break;
                    }
                    self.consume_into(&mut number, Ghost(start));
                },
                Step::Frac => {
                    if c == 'e' || c == 'E' {
                        step = Step::ExpSign;
                    } else if !('0' <= c && c <= '9') {
                        break;
                    }
                    self.consume_into(&mut number, Ghost(start));
                },
                Step::ExpSign => {
                    if c == '+' || c == '-' {
                        self.consume_into(&mut number, Ghost(start));
                    } else if !('0' <= c && c <= '9') {
                        break;
                    }
                    step = Step::ExpFirst;
                },
                Step::ExpFirst => {
                    if '0' <= c && c <= '9' {
                        step = Step::Exp;
                    } else {
                        break;
                    }
                    self.consume_into(&mut number, Ghost(start));
                },
                Step::Exp => {
                    if !('0' <= c && c <= '9') {
                        break;
                    }
                    self.consume_into(&mut number, Ghost(start));
                },
            }
        }
        proof {
            lemma_machine_reads_literal(start.remaining());
            lemma_literal_is_number(start.remaining());
        }
        if step.is_accepting() {
            Ok(self.build_result(Token::ValueNumber(Number::from_literal(number))))
        } else {
            Err(self.build_error(messages::bad_number_message(number.as_str())))
        }
    }

    /// Hands out the next token of the text, or the fault that stands in
    /// its place; `None` where only whitespace is left.
    ///
    /// Whitespace before the token is passed over. The token carries the
    /// place of its first character. A fault carries the place that reading
    /// had reached, or, in one of the names `true`, `false` and `null`, the
    /// place where the name starts.
    pub fn next(&mut self) -> (r: Option<LexerResult>)
        ensures
            step_of(r) == lex(old(self).remaining(), old(self).position()).item,
            final(self).has_read(
                old(self),
                lex(old(self).remaining(), old(self).position()).used,
            ),
    {
        let ghost start = *self;
        let ghost w = whitespace_run(start.remaining());
        let c = match self.trim_whitespace_and_peek() {
            None => {
                return None;
            },
            Some(c) => c,
        };
        self.set_token_context();
        let ghost mid = *self;
        let result = if c == 'f' {
            self.consume_seq_and_emit(&['f', 'a', 'l', 's', 'e'], Token::ValueBoolean(false))
        } else if c == 't' {
            self.consume_seq_and_emit(&['t', 'r', 'u', 'e'], Token::ValueBoolean(true))
        } else if c == 'n' {
            self.consume_seq_and_emit(&['n', 'u', 'l', 'l'], Token::ValueNull)
        } else if c == ':' {
            self.consume_next_and_emit(Token::SeparatorName)
        } else if c == ',' {
            self.consume_next_and_emit(Token::SeparatorValue)
        } else if c == '{' {
            self.consume_next_and_emit(Token::ObjectStart)
        } else if c == '}' {
            self.consume_next_and_emit(Token::ObjectEnd)
        } else if c == '[' {
            self.consume_next_and_emit(Token::ArrayStart)
        } else if c == ']' {
            self.consume_next_and_emit(Token::ArrayEnd)
        } else if c == '"' {
            self.consume_string()
        } else if c == '-' || ('0' <= c && c <= '9') {
            self.consume_number()
        } else {
            proof {
                self.lemma_advanced_by_none();
            }
            Err(self.build_error(messages::unexpected_character_message(c)))
        };
        proof {
            self.lemma_read_twice(&start, &mid, w, scan_token(mid.remaining()).used);
        }
        Some(result)
    }
}

} // verus!
