//! How single tokens were written: each lemma says that a text from which
//! a token is read begins with whitespace and the text of that token.

use vstd::prelude::*;
use crate::document::{is_gap, pieces_before, quoted_before, spelt, well_spelt, Piece};
use crate::machine::{lemma_literal_ends, lemma_literal_is_number, number_ends};
use crate::number::{is_digit, is_number};
use crate::reading::{is_keyword, is_mark, keyword_token, mark_token, placed};
use crate::scan::{
    is_whitespace, lemma_scan_escape_bounded, matched, scan_escape, scan_string, scan_token,
    whitespace_run,
};
use crate::syntax::{
    lemma_matched_bounded, lemma_scan_string_bounded, lemma_scan_token_bounded, token_at,
    token_stream,
};
use crate::unicode::names_high_unit;
use crate::token::TokenView;
use crate::Context;

verus! {

/// The whitespace that a text begins with is whitespace throughout, and
/// what follows it does not begin with whitespace.
pub proof fn lemma_gap_found(s: Seq<char>)
    ensures
        whitespace_run(s) <= s.len(),
        is_gap(s.take(whitespace_run(s) as int)),
        whitespace_run(s) < s.len() ==> !is_whitespace(s[whitespace_run(s) as int]),
    decreases s.len(),
{
    if s.len() > 0 && is_whitespace(s[0]) {
        let t = s.skip(1);
        lemma_gap_found(t);
        let w = whitespace_run(s) as int;
        assert forall|i: int| 0 <= i < w implies is_whitespace(#[trigger] s.take(w)[i]) by {
            if i > 0 {
                assert(s.take(w)[i] == t.take(w - 1)[i - 1]);
            }
        }
    }
}

/// A text that has a whole pattern in common with it begins with the
/// pattern.
pub proof fn lemma_matched_found(s: Seq<char>, pattern: Seq<char>)
    requires
        matched(s, pattern) >= pattern.len(),
    ensures
        pattern.len() <= s.len(),
        s.take(pattern.len() as int) == pattern,
    decreases pattern.len(),
{
    if pattern.len() > 0 {
        lemma_matched_bounded(s.skip(1), pattern.skip(1));
        lemma_matched_found(s.skip(1), pattern.skip(1));
        let n = pattern.len() as int;
        assert forall|i: int| 0 <= i < n implies s.take(n)[i] == pattern[i] by {
            if i > 0 {
                assert(pattern[i] == pattern.skip(1)[i - 1]);
            }
        }
    } else {
        assert(s.take(0) =~= pattern);
    }
}

/// What is read as an escape behind a backslash was written as a piece of
/// a string, the backslash included. Returns the piece.
proof fn lemma_escape_was_written(s: Seq<char>) -> (piece: Piece)
    requires
        scan_escape(s).outcome is Ok,
    ensures
        piece.well_formed(),
        scan_escape(s).used <= s.len(),
        piece.text() == seq!['\\'] + s.take(scan_escape(s).used as int),
        scan_escape(s).outcome == Ok::<char, Seq<char>>(piece.denotes()),
{
    lemma_scan_escape_bounded(s);
    let used = scan_escape(s).used as int;
    if s[0] == 'u' {
        let t = s.skip(1);
        let high = t.take(4);
        if names_high_unit(high) {
            lemma_matched_found(t.skip(4), seq!['\\', 'u']);
            Piece::Pair(high, t.subrange(6, 10))
        } else {
            Piece::Unit(high)
        }
    } else {
        let piece = Piece::Escape(s[0]);
        assert(piece.text() =~= seq!['\\'] + s.take(used));
        piece
    }
}

/// What is read as the first character of a string was written as a piece
/// of a string. Returns the piece and the number of characters that it
/// takes.
proof fn lemma_piece_was_written(s: Seq<char>, before: Seq<char>) -> (r: (Piece, nat))
    requires
        scan_string(s, before).outcome is Ok,
        s.len() > 0 ==> s[0] != '"',
    ensures
        r.0.well_formed(),
        1 <= r.1 <= s.len(),
        s.take(r.1 as int) == r.0.text(),
        scan_string(s, before) == scan_string(
            s.skip(r.1 as int),
            before.push(r.0.denotes()),
        ).shift(r.1),
{
    if s[0] == '\\' {
        let escape = scan_escape(s.skip(1));
        let piece = lemma_escape_was_written(s.skip(1));
        (piece, 1 + escape.used)
    } else {
        (Piece::Plain(s[0]), 1nat)
    }
}

/// What is read as a string, from behind the opening quotation mark on,
/// was written as the pieces of a string and the closing quotation mark.
/// Returns the pieces.
pub proof fn lemma_string_was_written(s: Seq<char>, before: Seq<char>) -> (pieces: Seq<Piece>)
    requires
        scan_string(s, before).outcome is Ok,
    ensures
        well_spelt(pieces),
        scan_string(s, before).used <= s.len(),
        s == pieces_before(
            pieces,
            seq!['"'] + s.skip(scan_string(s, before).used as int),
        ),
        scan_string(s, before).outcome == Ok::<TokenView, Seq<char>>(
            TokenView::ValueString(before + spelt(pieces)),
        ),
    decreases s.len(),
{
    lemma_scan_string_bounded(s, before);
    if s.len() > 0 && s[0] == '"' {
        Seq::empty()
    } else {
        let (piece, k) = lemma_piece_was_written(s, before);
        let tail = s.skip(k as int);
        let others = lemma_string_was_written(tail, before.push(piece.denotes()));
        let more = scan_string(tail, before.push(piece.denotes())).used;
        lemma_string_joined(s, piece, k, others, more);
        lemma_spelt_joined(before, piece, others);
        seq![piece] + others
    }
}

/// A piece that was written before a string's other pieces is the first
/// piece of the string.
proof fn lemma_string_joined(s: Seq<char>, piece: Piece, k: nat, others: Seq<Piece>, more: nat)
    requires
        piece.well_formed(),
        well_spelt(others),
        1 <= k,
        k + more <= s.len(),
        s.take(k as int) == piece.text(),
        s.skip(k as int) == pieces_before(
            others,
            seq!['"'] + s.skip(k as int).skip(more as int),
        ),
    ensures
        well_spelt(seq![piece] + others),
        s == pieces_before(seq![piece] + others, seq!['"'] + s.skip((k + more) as int)),
{
    let tail = s.skip(k as int);
    let rest = s.skip((k + more) as int);
    assert(tail.skip(more as int) =~= rest);
    lemma_pieces_joined(piece, others, seq!['"'] + rest);
}

/// The characters that a piece and other pieces denote, behind the
/// characters `before`.
proof fn lemma_spelt_joined(before: Seq<char>, piece: Piece, others: Seq<Piece>)
    ensures
        before.push(piece.denotes()) + spelt(others) == before + spelt(seq![piece] + others),
{
}

/// A piece before other pieces: what is written for all of them is what is
/// written for the first and then for the others, and all are spelt as
/// strings may be where each is.
proof fn lemma_pieces_joined(piece: Piece, others: Seq<Piece>, rest: Seq<char>)
    requires
        piece.well_formed(),
        well_spelt(others),
    ensures
        well_spelt(seq![piece] + others),
        pieces_before(seq![piece] + others, rest) == piece.text() + pieces_before(others, rest),
{
    let pieces = seq![piece] + others;
    assert(pieces.skip(1) =~= others);
    assert forall|i: int| 0 <= i < pieces.len() implies (#[trigger] pieces[i]).well_formed() by {
        if i > 0 {
            assert(pieces[i] == others[i - 1]);
        }
    }
}

/// How a token is written.
pub enum Written {
    /// A punctuation mark.
    Mark(char),
    /// One of the names `true`, `false` and `null`.
    Keyword(Seq<char>),
    /// A number literal.
    Number(Seq<char>),
    /// A string literal, by its pieces.
    Text(Seq<Piece>),
}

impl Written {
    /// True where this is a way in which a token may be written.
    pub open spec fn well_formed(self) -> bool {
        match self {
            Written::Mark(c) => is_mark(c),
            Written::Keyword(pattern) => is_keyword(pattern),
            Written::Number(literal) => is_number(literal),
            Written::Text(pieces) => well_spelt(pieces),
        }
    }

    /// The token that is written.
    pub open spec fn token(self) -> TokenView {
        match self {
            Written::Mark(c) => mark_token(c),
            Written::Keyword(pattern) => keyword_token(pattern),
            Written::Number(literal) => TokenView::ValueNumber(literal),
            Written::Text(pieces) => TokenView::ValueString(spelt(pieces)),
        }
    }

    /// What is written, followed by `rest`.
    pub open spec fn text_before(self, rest: Seq<char>) -> Seq<char> {
        match self {
            Written::Mark(c) => seq![c] + rest,
            Written::Keyword(pattern) => pattern + rest,
            Written::Number(literal) => literal + rest,
            Written::Text(pieces) => quoted_before(pieces, rest),
        }
    }

    /// True where this is no number, or is a number whose literal does not
    /// go on into `rest`.
    pub open spec fn ends_before(self, rest: Seq<char>) -> bool {
        self matches Written::Number(literal) ==> number_ends(literal, rest)
    }
}

/// A literal name that is read was written as that name.
proof fn lemma_keyword_was_written(t: Seq<char>) -> (written: Written)
    requires
        t.len() > 0,
        t[0] == 'f' || t[0] == 't' || t[0] == 'n',
        scan_token(t).outcome is Ok,
    ensures
        written.well_formed(),
        scan_token(t).used <= t.len(),
        t == written.text_before(t.skip(scan_token(t).used as int)),
        scan_token(t).outcome == Ok::<TokenView, Seq<char>>(written.token()),
        written is Keyword,
{
    let c = t[0];
    let pattern = if c == 'f' {
        seq!['f', 'a', 'l', 's', 'e']
    } else if c == 't' {
        seq!['t', 'r', 'u', 'e']
    } else {
        seq!['n', 'u', 'l', 'l']
    };
    lemma_matched_bounded(t, pattern);
    lemma_matched_found(t, pattern);
    Written::Keyword(pattern)
}

/// A string that is read was written as a string literal.
proof fn lemma_text_was_written(t: Seq<char>) -> (written: Written)
    requires
        t.len() > 0,
        t[0] == '"',
        scan_token(t).outcome is Ok,
    ensures
        written.well_formed(),
        scan_token(t).used <= t.len(),
        t == written.text_before(t.skip(scan_token(t).used as int)),
        scan_token(t).outcome == Ok::<TokenView, Seq<char>>(written.token()),
        written is Text,
{
    let pieces = lemma_string_was_written(t.skip(1), Seq::empty());
    let inner = scan_string(t.skip(1), Seq::empty()).used as int;
    assert(t.skip(1).skip(inner) =~= t.skip(inner + 1));
    Written::Text(pieces)
}

/// A number that is read was written as a number literal that does not go
/// on into what follows it.
proof fn lemma_number_was_written(t: Seq<char>) -> (written: Written)
    requires
        t.len() > 0,
        t[0] == '-' || is_digit(t[0]),
        scan_token(t).outcome is Ok,
    ensures
        written.well_formed(),
        written.ends_before(t.skip(scan_token(t).used as int)),
        scan_token(t).used <= t.len(),
        t == written.text_before(t.skip(scan_token(t).used as int)),
        scan_token(t).outcome == Ok::<TokenView, Seq<char>>(written.token()),
        written is Number,
{
    let used = scan_token(t).used as int;
    lemma_literal_is_number(t);
    lemma_literal_ends(t);
    Written::Number(t.take(used))
}

/// A token that is read from a text that begins with it was written as a
/// token. Returns the way it was written.
pub proof fn lemma_scanned_was_written(t: Seq<char>) -> (written: Written)
    requires
        t.len() > 0,
        scan_token(t).outcome is Ok,
    ensures
        written.well_formed(),
        written.ends_before(t.skip(scan_token(t).used as int)),
        1 <= scan_token(t).used <= t.len(),
        t == written.text_before(t.skip(scan_token(t).used as int)),
        scan_token(t).outcome == Ok::<TokenView, Seq<char>>(written.token()),
{
    let c = t[0];
    lemma_scan_token_bounded(t);
    if c == 'f' || c == 't' || c == 'n' {
        lemma_keyword_was_written(t)
    } else if c == '"' {
        lemma_text_was_written(t)
    } else if is_mark(c) {
        Written::Mark(c)
    } else {
        lemma_number_was_written(t)
    }
}

/// A text from which a token is read begins with whitespace and with that
/// token as it is written; the token is placed behind the whitespace, and
/// the tokens of the rest of the text follow. Returns the whitespace, the
/// way the token is written, the rest of the text and the place where the
/// rest begins.
pub proof fn lemma_token_was_written(text: Seq<char>, p: Context) -> (r: (
    Seq<char>,
    Written,
    Seq<char>,
    Context,
))
    requires
        token_at(token_stream(text, p), 0) is Ok,
    ensures
        is_gap(r.0),
        r.1.well_formed(),
        r.1.ends_before(r.2),
        text == r.0 + r.1.text_before(r.2),
        r.2.len() < text.len(),
        token_stream(text, p) == seq![placed(r.1.token(), p.after_all(r.0))] + token_stream(
            r.2,
            r.3,
        ),
{
    reveal(token_stream);
    lemma_gap_found(text);
    let w = whitespace_run(text) as int;
    let gap = text.take(w);
    let t = text.skip(w);
    let written = lemma_scanned_was_written(t);
    let used = scan_token(t).used as int;
    let rest = t.skip(used);
    let end = p.after_all(text.take(w + used));
    assert(text.skip(w + used) =~= rest);
    (gap, written, rest, end)
}

} // verus!
