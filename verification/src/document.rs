//! JSON documents as they are written: the tree of a text together with
//! the whitespace between its tokens and the way each character of a string
//! is spelt. A document has a text, and it denotes a value.

use vstd::prelude::*;
use crate::machine::number_ends;
use crate::number::is_number;
use crate::scan::{is_plain, is_whitespace, simple_escape};
use crate::unicode::{pair_char, unit_char};
use crate::value::JsonView;

verus! {

/// One character of a string, as it is written.
pub enum Piece {
    /// A character that stands for itself.
    Plain(char),
    /// A backslash and one of `" \ / b f n r t`.
    Escape(char),
    /// `\u` and four hexadecimal digits that name a character.
    Unit(Seq<char>),
    /// `\u` and four digits that name the first half of a surrogate pair,
    /// then `\u` and four digits that name the second half.
    Pair(Seq<char>, Seq<char>),
}

impl Piece {
    /// True where the piece is one that the grammar of strings allows.
    pub open spec fn well_formed(self) -> bool {
        match self {
            Piece::Plain(c) => is_plain(c),
            Piece::Escape(c) => simple_escape(c) is Some,
            Piece::Unit(digits) => unit_char(digits) is Some,
            Piece::Pair(high, low) => pair_char(high, low) is Some,
        }
    }

    /// What is written for the piece.
    pub open spec fn text(self) -> Seq<char> {
        match self {
            Piece::Plain(c) => seq![c],
            Piece::Escape(c) => seq!['\\', c],
            Piece::Unit(digits) => seq!['\\', 'u'] + digits,
            Piece::Pair(high, low) => seq!['\\', 'u'] + high + (seq!['\\', 'u'] + low),
        }
    }

    /// The character that the piece denotes.
    pub open spec fn denotes(self) -> char {
        match self {
            Piece::Plain(c) => c,
            Piece::Escape(c) => simple_escape(c)->Some_0,
            Piece::Unit(digits) => unit_char(digits)->Some_0,
            Piece::Pair(high, low) => pair_char(high, low)->Some_0,
        }
    }
}

/// The characters that the pieces of a string denote.
pub open spec fn spelt(pieces: Seq<Piece>) -> Seq<char> {
    pieces.map_values(|piece: Piece| piece.denotes())
}

/// True where every piece is one that the grammar of strings allows.
pub open spec fn well_spelt(pieces: Seq<Piece>) -> bool {
    forall|i: int| 0 <= i < pieces.len() ==> (#[trigger] pieces[i]).well_formed()
}

/// What is written for the pieces of a string, followed by `rest`.
pub open spec fn pieces_before(pieces: Seq<Piece>, rest: Seq<char>) -> Seq<char>
    decreases pieces.len(),
{
    if pieces.len() == 0 {
        rest
    } else {
        pieces[0].text() + pieces_before(pieces.skip(1), rest)
    }
}

/// The string literal with the given pieces, followed by `rest`.
pub open spec fn quoted_before(pieces: Seq<Piece>, rest: Seq<char>) -> Seq<char> {
    seq!['"'] + pieces_before(pieces, seq!['"'] + rest)
}

/// True where a text is whitespace throughout.
pub open spec fn is_gap(gap: Seq<char>) -> bool {
    forall|i: int| 0 <= i < gap.len() ==> is_whitespace(#[trigger] gap[i])
}

/// A JSON document as it is written.
pub enum Doc {
    Null,
    Boolean(bool),
    /// A number, by its literal.
    Number(Seq<char>),
    /// A string, by its pieces.
    String(Seq<Piece>),
    /// An array, by its items in order, and by the whitespace between the
    /// brackets where there is no item.
    Array(Seq<Item>, Seq<char>),
    /// An object, by its members in order, and by the whitespace between
    /// the braces where there is no member.
    Object(Seq<Member>, Seq<char>),
}

/// An item of an array, with the whitespace before it and the whitespace
/// between it and the comma or bracket that follows.
pub struct Item {
    pub before: Seq<char>,
    pub doc: Doc,
    pub after: Seq<char>,
}

/// A member of an object: its name and its value, with the whitespace
/// before the name, before the colon, before the value, and between the
/// value and the comma or brace that follows.
pub struct Member {
    pub before: Seq<char>,
    pub name: Seq<Piece>,
    pub before_colon: Seq<char>,
    pub before_value: Seq<char>,
    pub doc: Doc,
    pub after: Seq<char>,
}

/// The values of the items, in the same order.
pub open spec fn values(items: Seq<Item>) -> Seq<JsonView>
    decreases items, 0nat,
{
    if items.len() == 0 {
        Seq::empty()
    } else {
        seq![value(items[0].doc)] + values(items.skip(1))
    }
}

/// The map `onto` with the members put into it one after the other, so
/// that a member takes the place of an earlier one of its name.
pub open spec fn members_onto(members: Seq<Member>, onto: Map<Seq<char>, JsonView>) -> Map<
    Seq<char>,
    JsonView,
>
    decreases members, 0nat,
{
    if members.len() == 0 {
        onto
    } else {
        members_onto(
            members.skip(1),
            onto.insert(spelt(members[0].name), value(members[0].doc)),
        )
    }
}

/// The value that a document denotes.
pub open spec fn value(doc: Doc) -> JsonView
    decreases doc, 1nat,
{
    match doc {
        Doc::Null => JsonView::Null,
        Doc::Boolean(b) => JsonView::Boolean(b),
        Doc::Number(literal) => JsonView::Number(literal),
        Doc::String(pieces) => JsonView::String(spelt(pieces)),
        Doc::Array(items, _) => JsonView::Array(values(items)),
        Doc::Object(members, _) => JsonView::Object(members_onto(members, Map::empty())),
    }
}

/// True where the document is one that the grammar allows: every number is
/// a number literal, every string is spelt as strings may be, and what
/// stands between tokens is whitespace.
pub open spec fn well_formed(doc: Doc) -> bool
    decreases doc,
{
    match doc {
        Doc::Null => true,
        Doc::Boolean(_) => true,
        Doc::Number(literal) => is_number(literal),
        Doc::String(pieces) => well_spelt(pieces),
        Doc::Array(items, gap) => {
            &&& is_gap(gap)
            &&& forall|i: int|
                0 <= i < items.len() ==> {
                    &&& is_gap((#[trigger] items[i]).before)
                    &&& well_formed(items[i].doc)
                    &&& is_gap(items[i].after)
                }
        },
        Doc::Object(members, gap) => {
            &&& is_gap(gap)
            &&& forall|i: int|
                0 <= i < members.len() ==> {
                    &&& is_gap((#[trigger] members[i]).before)
                    &&& well_spelt(members[i].name)
                    &&& is_gap(members[i].before_colon)
                    &&& is_gap(members[i].before_value)
                    &&& well_formed(members[i].doc)
                    &&& is_gap(members[i].after)
                }
        },
    }
}

/// The text of the items of an array from the first of `items` on, up to
/// the closing bracket, followed by `rest`. There is at least one item.
pub open spec fn elements_before(items: Seq<Item>, rest: Seq<char>) -> Seq<char>
    decreases items, 0nat,
{
    if items.len() == 0 {
        rest
    } else if items.len() == 1 {
        items[0].before + text_before(items[0].doc, items[0].after + (seq![']'] + rest))
    } else {
        items[0].before + text_before(
            items[0].doc,
            items[0].after + (seq![','] + elements_before(items.skip(1), rest)),
        )
    }
}

/// The text of the members of an object from the first of `members` on, up
/// to the closing brace, followed by `rest`. There is at least one member.
pub open spec fn members_before(members: Seq<Member>, rest: Seq<char>) -> Seq<char>
    decreases members, 0nat,
{
    if members.len() == 0 {
        rest
    } else {
        let member = members[0];
        let behind = if members.len() == 1 {
            seq!['}'] + rest
        } else {
            seq![','] + members_before(members.skip(1), rest)
        };
        member.before + quoted_before(
            member.name,
            member.before_colon + (seq![':'] + (member.before_value + text_before(
                member.doc,
                member.after + behind,
            ))),
        )
    }
}

/// The text of a document, followed by `rest`.
pub open spec fn text_before(doc: Doc, rest: Seq<char>) -> Seq<char>
    decreases doc, 1nat,
{
    match doc {
        Doc::Null => seq!['n', 'u', 'l', 'l'] + rest,
        Doc::Boolean(b) => if b {
            seq!['t', 'r', 'u', 'e'] + rest
        } else {
            seq!['f', 'a', 'l', 's', 'e'] + rest
        },
        Doc::Number(literal) => literal + rest,
        Doc::String(pieces) => quoted_before(pieces, rest),
        Doc::Array(items, gap) => if items.len() == 0 {
            seq!['['] + (gap + (seq![']'] + rest))
        } else {
            seq!['['] + elements_before(items, rest)
        },
        Doc::Object(members, gap) => if members.len() == 0 {
            seq!['{'] + (gap + (seq!['}'] + rest))
        } else {
            seq!['{'] + members_before(members, rest)
        },
    }
}

/// True where the document is no number, or is a number whose literal does
/// not go on into `rest`.
pub open spec fn ends_before(doc: Doc, rest: Seq<char>) -> bool {
    doc matches Doc::Number(literal) ==> number_ends(literal, rest)
}

} // verus!
