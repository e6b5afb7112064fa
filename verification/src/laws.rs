//! What holds of reading as a whole: every JSON text is read as the value
//! that it denotes, nothing but a JSON text is read as a value, texts that
//! denote one value are read alike, and reading a text has one result.

use vstd::prelude::*;
use crate::document::{ends_before, is_gap, text_before, value, well_formed, Doc};
use crate::parser::{outcome_of, Json};
use crate::read_back::lemma_reads_document;
use crate::syntax::parse_text;
use crate::traced_back::lemma_value_was_written;
use crate::value::JsonView;
use crate::{Context, JsonError, JsonErrorView};

verus! {

/// True where `text` is a JSON text for the document `doc`: whitespace, the
/// text of the document, and anything behind it into which the document,
/// if it is a number, does not go on. The document is one that the grammar
/// allows.
pub open spec fn is_text_of(text: Seq<char>, gap: Seq<char>, doc: Doc, rest: Seq<char>) -> bool {
    &&& is_gap(gap)
    &&& well_formed(doc)
    &&& ends_before(doc, rest)
    &&& text == gap + text_before(doc, rest)
}

/// Every JSON text is read as the value that it denotes.
pub proof fn lemma_text_is_read_as_its_value(
    text: Seq<char>,
    gap: Seq<char>,
    doc: Doc,
    rest: Seq<char>,
)
    requires
        is_text_of(text, gap, doc, rest),
    ensures
        parse_text(text) == Ok::<JsonView, JsonErrorView>(value(doc)),
{
    lemma_reads_document(gap, doc, rest, Context { line: 1, column: 1 });
}

/// Nothing but a JSON text is read as a value: a text that is read as a
/// value is a JSON text for a document that denotes that value. Returns the
/// whitespace before the document, the document, and what follows it.
pub proof fn lemma_value_is_read_from_its_text(text: Seq<char>) -> (r: (Seq<char>, Doc, Seq<char>))
    requires
        parse_text(text) is Ok,
    ensures
        is_text_of(text, r.0, r.1, r.2),
        parse_text(text) == Ok::<JsonView, JsonErrorView>(value(r.1)),
{
    let found = lemma_value_was_written(text, Context { line: 1, column: 1 });
    (found.gap, found.doc, found.rest)
}

/// Texts that denote one value are read alike: whatever the whitespace
/// between the tokens, the spelling of the strings and the order of the
/// members of an object, two JSON texts whose documents denote the same
/// value are read as that value. Numbers are the same where their literals
/// are.
pub proof fn lemma_texts_of_one_value_are_read_alike(
    first: Seq<char>,
    first_parts: (Seq<char>, Doc, Seq<char>),
    second: Seq<char>,
    second_parts: (Seq<char>, Doc, Seq<char>),
)
    requires
        is_text_of(first, first_parts.0, first_parts.1, first_parts.2),
        is_text_of(second, second_parts.0, second_parts.1, second_parts.2),
        value(first_parts.1) == value(second_parts.1),
    ensures
        parse_text(first) == parse_text(second),
        parse_text(first) == Ok::<JsonView, JsonErrorView>(value(first_parts.1)),
{
    lemma_text_is_read_as_its_value(first, first_parts.0, first_parts.1, first_parts.2);
    lemma_text_is_read_as_its_value(second, second_parts.0, second_parts.1, second_parts.2);
}

/// Reading has one result: whatever two readings of one text return, they
/// return the same value or the same fault.
pub proof fn lemma_reading_is_deterministic(
    text: Seq<char>,
    first: Result<Json, JsonError>,
    second: Result<Json, JsonError>,
)
    requires
        outcome_of(first) == parse_text(text),
        outcome_of(second) == parse_text(text),
    ensures
        outcome_of(first) == outcome_of(second),
{
}

} // verus!
