//! A JSON reader: a lexer that turns text into tokens, each with the place
//! where it starts, and a recursive-descent parser that builds a value tree
//! from them. Errors carry the line and column at fault.
//!
//! What the reader does is stated over sequences of characters:
//!
//! - `scan`, `number` and `unicode` say what is read from the front of a
//!   text: whitespace, literal names, strings with their escapes, number
//!   literals. `token` has the tokens, `messages` the texts of the faults.
//! - `syntax` says what the tokens of a text are and which value is read
//!   from them.
//! - `lexer` and `parser` are the programs, `value` the tree they build.
//!   `machine` has the state machine that reads numbers, and the proof that
//!   it follows the number grammar.
//! - `document` describes JSON texts as they are written, and `laws` says
//!   that exactly these are read, each as the value it denotes. `reading`
//!   and `read_back`, `tracing` and `traced_back` hold the two proofs.
//!
//! Numbers are kept as their literals: this crate does no floating point
//! arithmetic.

use vstd::prelude::*;

pub mod document;
pub mod laws;
pub mod lexer;
pub mod machine;
pub mod messages;
pub mod number;
pub mod parser;
pub mod read_back;
pub mod reading;
pub mod scan;
pub mod syntax;
pub mod text;
pub mod token;
pub mod traced_back;
pub mod tracing;
pub mod unicode;
pub mod value;

pub use lexer::Lexer;
pub use parser::parse_json;
pub use parser::{Json, Parser};

verus! {

/// A place in the input text. Lines and columns are counted from 1.
#[derive(Clone, Copy, Debug, PartialEq, Eq, Structural)]
pub struct Context {
    pub line: usize,
    pub column: usize,
}

/// One more than `n`, staying at the largest value once it is reached.
pub open spec fn bump(n: usize) -> usize {
    if n < usize::MAX {
        (n + 1) as usize
    } else {
        n
    }
}

impl Context {
    /// The place reached from `self` by reading the character `c`: a line
    /// feed starts the next line at column 1, any other character moves one
    /// column to the right.
    pub open spec fn after(self, c: char) -> Context {
        if c == '\n' {
            Context { line: bump(self.line), column: 1 }
        } else {
            Context { line: self.line, column: bump(self.column) }
        }
    }

    /// The place reached from `self` by reading all of `cs` in order.
    pub open spec fn after_all(self, cs: Seq<char>) -> Context
        decreases cs.len(),
    {
        if cs.len() == 0 {
            self
        } else {
            self.after_all(cs.drop_last()).after(cs.last())
        }
    }

    /// Reading `xs` and then `ys` is reading the two joined.
    pub proof fn lemma_after_all_add(self, xs: Seq<char>, ys: Seq<char>)
        ensures
            self.after_all(xs + ys) == self.after_all(xs).after_all(ys),
        decreases ys.len(),
    {
        if ys.len() == 0 {
            assert(xs + ys =~= xs);
        } else {
            self.lemma_after_all_add(xs, ys.drop_last());
            assert((xs + ys).drop_last() =~= xs + ys.drop_last());
        }
    }

    /// True where `self` does not come before `earlier` in a text: it is on
    /// a later line, or on the same line and not further to the left.
    pub open spec fn not_before(self, earlier: Context) -> bool {
        earlier.line < self.line || (earlier.line == self.line && earlier.column <= self.column)
    }

    /// Reading never leads to an earlier line, and it never leads to an
    /// earlier place as long as the line count stays below its largest
    /// value.
    pub proof fn lemma_reading_moves_forward(self, cs: Seq<char>)
        ensures
            self.line <= self.after_all(cs).line,
            self.after_all(cs).line < usize::MAX ==> self.after_all(cs).not_before(self),
        decreases cs.len(),
    {
        if cs.len() > 0 {
            self.lemma_reading_moves_forward(cs.drop_last());
        }
    }

    /// The place behind the character `c`, where `c` stands at `self`.
    pub fn advance(self, c: char) -> (r: Context)
        ensures
            r == self.after(c),
    {
        if c == '\n' {
            let line = if self.line < usize::MAX {
                self.line + 1
            } else {
                self.line
            };
            Context { line, column: 1 }
        } else {
            let column = if self.column < usize::MAX {
                self.column + 1
            } else {
                self.column
            };
            Context { line: self.line, column }
        }
    }
}

impl Default for Context {
    /// The start of a text: line 1, column 1.
    fn default() -> (r: Self)
        ensures
            r == (Context { line: 1, column: 1 }),
    {
        Context { line: 1, column: 1 }
    }
}

/// Why a text could not be read.
#[derive(Debug)]
pub enum JsonError {
    /// The characters at `context` form no token.
    Lexer { context: Context, message: String },
    /// The token at `context` does not fit the grammar.
    Parser { context: Context, message: String },
    /// A failure that has no place in the text.
    Other(String),
}

/// What a `JsonError` stands for.
pub enum JsonErrorView {
    Lexer { context: Context, message: Seq<char> },
    Parser { context: Context, message: Seq<char> },
    Other(Seq<char>),
}

impl View for JsonError {
    type V = JsonErrorView;

    open spec fn view(&self) -> JsonErrorView {
        match self {
            JsonError::Lexer { context, message } => JsonErrorView::Lexer {
                context: *context,
                message: message@,
            },
            JsonError::Parser { context, message } => JsonErrorView::Parser {
                context: *context,
                message: message@,
            },
            JsonError::Other(message) => JsonErrorView::Other(message@),
        }
    }
}

impl JsonErrorView {
    /// The one-line rendering of an error: its kind, its place, its message.
    pub open spec fn rendered(self) -> Seq<char> {
        match self {
            JsonErrorView::Lexer { context, message } => "Lexer error, line "@
                + text::decimal(context.line as nat) + " column "@
                + text::decimal(context.column as nat) + ": "@ + message,
            JsonErrorView::Parser { context, message } => "Parser error, line "@
                + text::decimal(context.line as nat) + " column "@
                + text::decimal(context.column as nat) + ": "@ + message,
            JsonErrorView::Other(message) => "Other error: "@ + message,
        }
    }
}

impl JsonError {
    /// Renders the error on one line, as
    /// `Lexer error, line L column C: message`, with `Parser` in place of
    /// `Lexer` for a grammar fault, or as `Other error: message`.
    pub fn to_string(&self) -> (r: String)
        ensures
            r@ == self@.rendered(),
    {
        match self {
            JsonError::Lexer { context, message } => {
                let mut r = "Lexer error, line ".to_owned();
                text::push_decimal(&mut r, context.line);
                r.append(" column ");
                text::push_decimal(&mut r, context.column);
                r.append(": ");
                r.append(message.as_str());
                r
            },
            JsonError::Parser { context, message } => {
                let mut r = "Parser error, line ".to_owned();
                text::push_decimal(&mut r, context.line);
                r.append(" column ");
                text::push_decimal(&mut r, context.column);
                r.append(": ");
                r.append(message.as_str());
                r
            },
            JsonError::Other(message) => {
                let mut r = "Other error: ".to_owned();
                r.append(message.as_str());
                r
            },
        }
    }
}

} // verus!
