//! How single tokens are read back from their text: each lemma says that
//! the tokens of a text that begins with whitespace and the text of one
//! token are that token, placed behind the whitespace, and then the tokens
//! of the rest.

use vstd::prelude::*;
use crate::document::{is_gap, pieces_before, quoted_before, spelt, well_spelt, Piece};
use crate::machine::{lemma_number_before, number_ends};
use crate::number::is_number;
use crate::scan::{is_whitespace, matched, scan_string, scan_token, whitespace_run, Scan};
use crate::syntax::{lemma_scan_token_bounded, token_stream};
use crate::token::{Lexeme, TokenInfoView, TokenView};
use crate::Context;

verus! {

/// The token `token`, placed at `context`, as the lexer hands it out.
pub open spec fn placed(token: TokenView, context: Context) -> Lexeme {
    Ok(TokenInfoView { token, context })
}

/// Whitespace before a text that does not begin with whitespace is all the
/// whitespace that the whole begins with.
pub proof fn lemma_gap_is_passed(gap: Seq<char>, s: Seq<char>)
    requires
        is_gap(gap),
        s.len() == 0 || !is_whitespace(s[0]),
    ensures
        whitespace_run(gap + s) == gap.len(),
    decreases gap.len(),
{
    if gap.len() > 0 {
        lemma_gap_is_passed(gap.skip(1), s);
        assert((gap + s).skip(1) =~= gap.skip(1) + s);
    }
}

/// Where a text begins with whitespace and a token, its tokens are that
/// token, placed behind the whitespace, and the tokens of what follows.
pub proof fn lemma_reads_token(
    gap: Seq<char>,
    s: Seq<char>,
    p: Context,
    token: TokenView,
    used: nat,
) -> (end: Context)
    requires
        is_gap(gap),
        s.len() > 0,
        !is_whitespace(s[0]),
        scan_token(s) == (Scan { outcome: Ok::<TokenView, Seq<char>>(token), used }),
    ensures
        token_stream(gap + s, p) == seq![placed(token, p.after_all(gap))] + token_stream(
            s.skip(used as int),
            end,
        ),
{
    reveal(token_stream);
    let text = gap + s;
    lemma_gap_is_passed(gap, s);
    lemma_scan_token_bounded(s);
    assert(text.skip(gap.len() as int) =~= s);
    assert(text.take(gap.len() as int) =~= gap);
    assert(text.skip((gap.len() + used) as int) =~= s.skip(used as int));
    p.after_all(text.take((gap.len() + used) as int))
}

/// The token that a punctuation mark stands for.
pub open spec fn mark_token(c: char) -> TokenView {
    if c == '[' {
        TokenView::ArrayStart
    } else if c == ']' {
        TokenView::ArrayEnd
    } else if c == '{' {
        TokenView::ObjectStart
    } else if c == '}' {
        TokenView::ObjectEnd
    } else if c == ':' {
        TokenView::SeparatorName
    } else {
        TokenView::SeparatorValue
    }
}

/// True of the six punctuation marks.
pub open spec fn is_mark(c: char) -> bool {
    c == '[' || c == ']' || c == '{' || c == '}' || c == ':' || c == ','
}

/// A punctuation mark is read as its token.
pub proof fn lemma_reads_mark(gap: Seq<char>, c: char, rest: Seq<char>, p: Context) -> (end:
    Context)
    requires
        is_gap(gap),
        is_mark(c),
    ensures
        token_stream(gap + (seq![c] + rest), p) == seq![placed(mark_token(c), p.after_all(gap))]
            + token_stream(rest, end),
{
    let s = seq![c] + rest;
    assert(s.skip(1) =~= rest);
    lemma_reads_token(gap, s, p, mark_token(c), 1)
}

/// A text that begins with a pattern has the whole pattern in common with
/// it.
pub proof fn lemma_matched_whole(pattern: Seq<char>, rest: Seq<char>)
    ensures
        matched(pattern + rest, pattern) == pattern.len(),
    decreases pattern.len(),
{
    if pattern.len() > 0 {
        lemma_matched_whole(pattern.skip(1), rest);
        assert((pattern + rest).skip(1) =~= pattern.skip(1) + rest);
    }
}

/// The token that a literal name stands for, by the name's first character.
pub open spec fn keyword_token(pattern: Seq<char>) -> TokenView {
    if pattern[0] == 'f' {
        TokenView::ValueBoolean(false)
    } else if pattern[0] == 't' {
        TokenView::ValueBoolean(true)
    } else {
        TokenView::ValueNull
    }
}

/// True of the three literal names.
pub open spec fn is_keyword(pattern: Seq<char>) -> bool {
    pattern == seq!['f', 'a', 'l', 's', 'e'] || pattern == seq!['t', 'r', 'u', 'e'] || pattern
        == seq!['n', 'u', 'l', 'l']
}

/// A literal name is read as its token.
pub proof fn lemma_reads_keyword(
    gap: Seq<char>,
    pattern: Seq<char>,
    rest: Seq<char>,
    p: Context,
) -> (end: Context)
    requires
        is_gap(gap),
        is_keyword(pattern),
    ensures
        token_stream(gap + (pattern + rest), p) == seq![
            placed(keyword_token(pattern), p.after_all(gap)),
        ] + token_stream(rest, end),
{
    let s = pattern + rest;
    lemma_matched_whole(pattern, rest);
    assert(s.skip(pattern.len() as int) =~= rest);
    lemma_reads_token(gap, s, p, keyword_token(pattern), pattern.len())
}

/// A number literal is read as its token where it does not go on into the
/// text behind it.
pub proof fn lemma_reads_number(
    gap: Seq<char>,
    literal: Seq<char>,
    rest: Seq<char>,
    p: Context,
) -> (end: Context)
    requires
        is_gap(gap),
        is_number(literal),
        number_ends(literal, rest),
    ensures
        token_stream(gap + (literal + rest), p) == seq![
            placed(TokenView::ValueNumber(literal), p.after_all(gap)),
        ] + token_stream(rest, end),
{
    let s = literal + rest;
    lemma_number_before(literal, rest);
    assert(s.take(literal.len() as int) =~= literal);
    assert(s.skip(literal.len() as int) =~= rest);
    lemma_reads_token(gap, s, p, TokenView::ValueNumber(literal), literal.len())
}

/// A character that is written as itself is read back as itself.
proof fn lemma_scan_plain(c: char, tail: Seq<char>, before: Seq<char>)
    requires
        Piece::Plain(c).well_formed(),
    ensures
        scan_string(seq![c] + tail, before) == scan_string(tail, before.push(c)).shift(1),
{
    let s = seq![c] + tail;
    assert(s.skip(1) =~= tail);
}

/// A backslash and a character that may follow it are read back as the
/// character that the two stand for.
proof fn lemma_scan_simple(c: char, tail: Seq<char>, before: Seq<char>)
    requires
        Piece::Escape(c).well_formed(),
    ensures
        scan_string(seq!['\\', c] + tail, before) == scan_string(
            tail,
            before.push(Piece::Escape(c).denotes()),
        ).shift(2),
{
    let s = seq!['\\', c] + tail;
    assert(s.skip(1) =~= seq![c] + tail);
    assert(s.skip(2) =~= tail);
}

/// `\u` and four digits that name a character are read back as that
/// character.
proof fn lemma_scan_unit(digits: Seq<char>, tail: Seq<char>, before: Seq<char>)
    requires
        Piece::Unit(digits).well_formed(),
    ensures
        scan_string(seq!['\\', 'u'] + digits + tail, before) == scan_string(
            tail,
            before.push(Piece::Unit(digits).denotes()),
        ).shift(6),
{
    let s = seq!['\\', 'u'] + digits + tail;
    assert(s[0] == '\\');
    assert(s.skip(6) =~= tail);
}

/// Two `\u` escapes that form a surrogate pair are read back as the
/// character that the pair names.
proof fn lemma_scan_pair(high: Seq<char>, low: Seq<char>, tail: Seq<char>, before: Seq<char>)
    requires
        Piece::Pair(high, low).well_formed(),
    ensures
        scan_string(seq!['\\', 'u'] + high + (seq!['\\', 'u'] + low) + tail, before)
            == scan_string(tail, before.push(Piece::Pair(high, low).denotes())).shift(12),
{
    let s = seq!['\\', 'u'] + high + (seq!['\\', 'u'] + low) + tail;
    let t = s.skip(1).skip(1);
    assert(t.skip(4) =~= seq!['\\', 'u'] + (low + tail));
    lemma_matched_whole(seq!['\\', 'u'], low + tail);
    assert(s.skip(12) =~= tail);
}

/// What is written for one piece of a string is read back as the
/// character that the piece denotes.
pub proof fn lemma_scan_piece(piece: Piece, tail: Seq<char>, before: Seq<char>)
    requires
        piece.well_formed(),
    ensures
        scan_string(piece.text() + tail, before) == scan_string(
            tail,
            before.push(piece.denotes()),
        ).shift(piece.text().len()),
{
    match piece {
        Piece::Plain(c) => lemma_scan_plain(c, tail, before),
        Piece::Escape(c) => lemma_scan_simple(c, tail, before),
        Piece::Unit(digits) => lemma_scan_unit(digits, tail, before),
        Piece::Pair(high, low) => lemma_scan_pair(high, low, tail, before),
    }
}

/// What is written for the pieces of a string, up to the closing quotation
/// mark, is read back as the characters that the pieces denote, and
/// reading stops behind the quotation mark. Returns the number of
/// characters used up.
pub proof fn lemma_scan_pieces(pieces: Seq<Piece>, rest: Seq<char>, before: Seq<char>) -> (used:
    nat)
    requires
        well_spelt(pieces),
    ensures
        scan_string(pieces_before(pieces, seq!['"'] + rest), before) == (Scan {
            outcome: Ok::<TokenView, Seq<char>>(TokenView::ValueString(before + spelt(pieces))),
            used,
        }),
        used <= pieces_before(pieces, seq!['"'] + rest).len(),
        pieces_before(pieces, seq!['"'] + rest).skip(used as int) == rest,
    decreases pieces.len(),
{
    if pieces.len() == 0 {
        1
    } else {
        let piece = pieces[0];
        let others = pieces.skip(1);
        let tail = pieces_before(others, seq!['"'] + rest);
        let more = lemma_scan_pieces(others, rest, before.push(piece.denotes()));
        let k = piece.text().len();
        assert(before.push(piece.denotes()) + spelt(others) =~= before + spelt(pieces));
        lemma_scan_piece(piece, tail, before);
        k + more
    }
}

/// A string literal is read as its token.
pub proof fn lemma_reads_string(
    gap: Seq<char>,
    pieces: Seq<Piece>,
    rest: Seq<char>,
    p: Context,
) -> (end: Context)
    requires
        is_gap(gap),
        well_spelt(pieces),
    ensures
        token_stream(gap + quoted_before(pieces, rest), p) == seq![
            placed(TokenView::ValueString(spelt(pieces)), p.after_all(gap)),
        ] + token_stream(rest, end),
{
    let s = quoted_before(pieces, rest);
    let body = pieces_before(pieces, seq!['"'] + rest);
    let used = lemma_scan_pieces(pieces, rest, Seq::empty());
    assert(s.skip(1) =~= body);
    assert(s.skip(used as int + 1) =~= body.skip(used as int));
    lemma_reads_token(gap, s, p, TokenView::ValueString(spelt(pieces)), used + 1)
}

} // verus!
