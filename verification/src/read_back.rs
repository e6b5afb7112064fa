//! From the text of a document to the value that is read: the text of
//! every document is read as the value that the document denotes.

use vstd::prelude::*;
use crate::document::{
    elements_before, ends_before, is_gap, members_before, members_onto, spelt, text_before,
    value, values, well_formed, Doc, Item, Member,
};
use crate::machine::lemma_number_ends;
use crate::reading::{
    is_mark, lemma_reads_keyword, lemma_reads_mark, lemma_reads_number, lemma_reads_string,
    placed,
};
use crate::syntax::{
    lemma_skip_twice, parse_elements, parse_members, parse_object, parse_value, token_at,
    token_stream,
};
use crate::token::{Lexeme, TokenView};
use crate::value::JsonView;
use crate::{Context, JsonErrorView};

verus! {

/// The outcome of reading a value: the value with the index of its last
/// token.
pub open spec fn read(value: JsonView, last: nat) -> Result<(JsonView, nat), JsonErrorView> {
    Ok((value, last))
}

/// True where a value read from the front of `tokens` is `value`, ends at
/// index `last`, and is followed by the tokens `after`.
pub open spec fn reads_as(
    tokens: Seq<Lexeme>,
    value: JsonView,
    last: nat,
    after: Seq<Lexeme>,
) -> bool {
    &&& parse_value(tokens) == read(value, last)
    &&& last < tokens.len()
    &&& tokens.skip(last as int + 1) == after
}

/// A token before some tokens is the first of the whole, and the others
/// follow it.
pub proof fn lemma_first_token(first: Lexeme, others: Seq<Lexeme>)
    ensures
        (seq![first] + others).len() == others.len() + 1,
        (seq![first] + others)[0] == first,
        (seq![first] + others).skip(1) == others,
        forall|i: nat| token_at(seq![first] + others, i + 1) == token_at(others, i),
{
}

/// A number ends before whitespace and before a punctuation mark.
proof fn lemma_mark_ends_number(doc: Doc, gap: Seq<char>, c: char, rest: Seq<char>)
    requires
        well_formed(doc),
        is_gap(gap),
        is_mark(c),
    ensures
        ends_before(doc, gap + (seq![c] + rest)),
{
    let s = gap + (seq![c] + rest);
    match doc {
        Doc::Number(literal) => {
            lemma_number_ends(literal, s);
        },
        _ => {},
    }
}

/// The text of a literal name, a number or a string is read as the value
/// it denotes.
proof fn lemma_reads_leaf(gap: Seq<char>, doc: Doc, rest: Seq<char>, p: Context) -> (end: Context)
    requires
        is_gap(gap),
        well_formed(doc),
        !(doc is Array),
        !(doc is Object),
        ends_before(doc, rest),
    ensures
        reads_as(
            token_stream(gap + text_before(doc, rest), p),
            value(doc),
            0,
            token_stream(rest, end),
        ),
{
    let (token, end) = match doc {
        Doc::Null => (
            TokenView::ValueNull,
            lemma_reads_keyword(gap, seq!['n', 'u', 'l', 'l'], rest, p),
        ),
        Doc::Boolean(b) => if b {
            (
                TokenView::ValueBoolean(true),
                lemma_reads_keyword(gap, seq!['t', 'r', 'u', 'e'], rest, p),
            )
        } else {
            (
                TokenView::ValueBoolean(false),
                lemma_reads_keyword(gap, seq!['f', 'a', 'l', 's', 'e'], rest, p),
            )
        },
        Doc::Number(literal) => (
            TokenView::ValueNumber(literal),
            lemma_reads_number(gap, literal, rest, p),
        ),
        Doc::String(pieces) => (
            TokenView::ValueString(spelt(pieces)),
            lemma_reads_string(gap, pieces, rest, p),
        ),
        _ => (TokenView::ValueNull, p),
    };
    lemma_first_token(placed(token, p.after_all(gap)), token_stream(rest, end));
    end
}

/// Reading a value, the items of an array or the members of an object
/// succeeds only where the first token is there.
pub proof fn lemma_starts_with_token(
    tokens: Seq<Lexeme>,
    before: Seq<JsonView>,
    onto: Map<Seq<char>, JsonView>,
)
    ensures
        parse_value(tokens) is Ok ==> token_at(tokens, 0) is Ok,
        parse_value(tokens) is Ok ==> !(token_at(tokens, 0)->Ok_0.token is ArrayEnd),
        parse_value(tokens) is Ok ==> !(token_at(tokens, 0)->Ok_0.token is ObjectEnd),
        parse_elements(tokens, before) is Ok ==> parse_value(tokens) is Ok,
        parse_members(tokens, onto) is Ok ==> token_at(tokens, 0) is Ok,
        parse_members(tokens, onto) is Ok ==> !(token_at(tokens, 0)->Ok_0.token is ObjectEnd),
{
    reveal(parse_elements);
    reveal(parse_members);
}

/// The text of an array without items is read as the empty array.
proof fn lemma_reads_empty_array(
    gap: Seq<char>,
    inner: Seq<char>,
    rest: Seq<char>,
    p: Context,
) -> (end: Context)
    requires
        is_gap(gap),
        is_gap(inner),
    ensures
        reads_as(
            token_stream(gap + (seq!['['] + (inner + (seq![']'] + rest))), p),
            JsonView::Array(Seq::empty()),
            1,
            token_stream(rest, end),
        ),
{
    let tokens = token_stream(gap + (seq!['['] + (inner + (seq![']'] + rest))), p);
    let inside = lemma_reads_mark(gap, '[', inner + (seq![']'] + rest), p);
    let end = lemma_reads_mark(inner, ']', rest, inside);
    let at_end = inside.after_all(inner);
    let closing = seq![placed(TokenView::ArrayEnd, at_end)] + token_stream(rest, end);
    lemma_first_token(placed(TokenView::ArrayEnd, at_end), token_stream(rest, end));
    lemma_first_token(placed(TokenView::ArrayStart, p.after_all(gap)), closing);
    lemma_skip_twice(tokens, 1, 1);
    end
}

/// The text of an object without members is read as the empty object.
proof fn lemma_reads_empty_object(
    gap: Seq<char>,
    inner: Seq<char>,
    rest: Seq<char>,
    p: Context,
) -> (end: Context)
    requires
        is_gap(gap),
        is_gap(inner),
    ensures
        reads_as(
            token_stream(gap + (seq!['{'] + (inner + (seq!['}'] + rest))), p),
            JsonView::Object(Map::empty()),
            1,
            token_stream(rest, end),
        ),
{
    let tokens = token_stream(gap + (seq!['{'] + (inner + (seq!['}'] + rest))), p);
    let inside = lemma_reads_mark(gap, '{', inner + (seq!['}'] + rest), p);
    let end = lemma_reads_mark(inner, '}', rest, inside);
    let at_end = inside.after_all(inner);
    let closing = seq![placed(TokenView::ObjectEnd, at_end)] + token_stream(rest, end);
    lemma_first_token(placed(TokenView::ObjectEnd, at_end), token_stream(rest, end));
    lemma_first_token(placed(TokenView::ObjectStart, p.after_all(gap)), closing);
    lemma_skip_twice(tokens, 1, 1);
    assert(parse_object(tokens) == read(JsonView::Object(Map::empty()), 1));
    end
}

/// An opening bracket before items that are read makes an array that is
/// read.
pub proof fn lemma_reads_opened_array(
    tokens: Seq<Lexeme>,
    p: Context,
    elements: Seq<Lexeme>,
    items: Seq<JsonView>,
    last: nat,
    after: Seq<Lexeme>,
)
    requires
        tokens == seq![placed(TokenView::ArrayStart, p)] + elements,
        parse_elements(elements, Seq::empty()) == read(JsonView::Array(items), last),
        last < elements.len(),
        elements.skip(last as int + 1) == after,
    ensures
        reads_as(tokens, JsonView::Array(items), last + 1, after),
{
    reveal(parse_elements);
    lemma_first_token(placed(TokenView::ArrayStart, p), elements);
    lemma_starts_with_token(elements, Seq::empty(), Map::empty());
    lemma_skip_twice(tokens, 1, last + 1);
}

/// An opening brace before members that are read makes an object that is
/// read.
pub proof fn lemma_reads_opened_object(
    tokens: Seq<Lexeme>,
    p: Context,
    inner: Seq<Lexeme>,
    members: Map<Seq<char>, JsonView>,
    last: nat,
    after: Seq<Lexeme>,
)
    requires
        tokens == seq![placed(TokenView::ObjectStart, p)] + inner,
        parse_members(inner, Map::empty()) == read(JsonView::Object(members), last),
        last < inner.len(),
        inner.skip(last as int + 1) == after,
    ensures
        reads_as(tokens, JsonView::Object(members), last + 1, after),
{
    reveal(parse_members);
    lemma_first_token(placed(TokenView::ObjectStart, p), inner);
    lemma_starts_with_token(inner, Seq::empty(), Map::empty());
    lemma_skip_twice(tokens, 1, last + 1);
}

/// A value that is read, before the closing bracket, is the last item of an
/// array.
pub proof fn lemma_reads_last_element(
    tokens: Seq<Lexeme>,
    before: Seq<JsonView>,
    item: JsonView,
    last: nat,
    at_mark: Context,
    after: Seq<Lexeme>,
)
    requires
        reads_as(tokens, item, last, seq![placed(TokenView::ArrayEnd, at_mark)] + after),
    ensures
        parse_elements(tokens, before) == read(JsonView::Array(before.push(item)), last + 1),
        last + 1 < tokens.len(),
        tokens.skip(last as int + 2) == after,
{
    reveal(parse_elements);
    lemma_first_token(placed(TokenView::ArrayEnd, at_mark), after);
    lemma_skip_twice(tokens, last + 1, 1);
}

/// A value that is read, before a comma and more items that are read, is
/// an item of the same array.
pub proof fn lemma_reads_next_element(
    tokens: Seq<Lexeme>,
    before: Seq<JsonView>,
    item: JsonView,
    last: nat,
    at_mark: Context,
    next: Seq<Lexeme>,
    all: Seq<JsonView>,
    more: nat,
    after: Seq<Lexeme>,
)
    requires
        reads_as(tokens, item, last, seq![placed(TokenView::SeparatorValue, at_mark)] + next),
        parse_elements(next, before.push(item)) == read(JsonView::Array(all), more),
        more < next.len(),
        next.skip(more as int + 1) == after,
    ensures
        parse_elements(tokens, before) == read(JsonView::Array(all), last + 2 + more),
        last + 2 + more < tokens.len(),
        tokens.skip((last + 2 + more) as int + 1) == after,
{
    reveal(parse_elements);
    lemma_first_token(placed(TokenView::SeparatorValue, at_mark), next);
    lemma_starts_with_token(next, before.push(item), Map::empty());
    lemma_skip_twice(tokens, last + 1, 1);
    lemma_skip_twice(tokens, last + 2, more + 1);
}

/// A name, a colon and a value that is read are the start of a member: the
/// value begins at the third token.
pub proof fn lemma_reads_member_start(
    tokens: Seq<Lexeme>,
    name: Seq<char>,
    p: Context,
    at_colon: Context,
    inner: Seq<Lexeme>,
    item: JsonView,
    last: nat,
    behind: Seq<Lexeme>,
)
    requires
        tokens == seq![placed(TokenView::ValueString(name), p)] + (seq![
            placed(TokenView::SeparatorName, at_colon),
        ] + inner),
        reads_as(inner, item, last, behind),
    ensures
        token_at(tokens, 0) == placed(TokenView::ValueString(name), p),
        token_at(tokens, 1) == placed(TokenView::SeparatorName, at_colon),
        token_at(tokens, 2) is Ok,
        tokens.skip(2) == inner,
        last + 2 < tokens.len(),
        tokens.skip(last as int + 3) == behind,
{
    let from_colon = seq![placed(TokenView::SeparatorName, at_colon)] + inner;
    lemma_first_token(placed(TokenView::SeparatorName, at_colon), inner);
    lemma_first_token(placed(TokenView::ValueString(name), p), from_colon);
    lemma_starts_with_token(inner, Seq::empty(), Map::empty());
    lemma_skip_twice(tokens, 1, 1);
    lemma_skip_twice(tokens, 2, last + 1);
}

/// A member whose value is read, before the closing brace, is the last
/// member of an object.
pub proof fn lemma_reads_last_member(
    tokens: Seq<Lexeme>,
    onto: Map<Seq<char>, JsonView>,
    name: Seq<char>,
    p: Context,
    item: JsonView,
    last: nat,
    at_mark: Context,
    after: Seq<Lexeme>,
)
    requires
        token_at(tokens, 0) == placed(TokenView::ValueString(name), p),
        token_at(tokens, 1) is Ok,
        token_at(tokens, 1)->Ok_0.token is SeparatorName,
        token_at(tokens, 2) is Ok,
        parse_value(tokens.skip(2)) == read(item, last),
        last + 2 < tokens.len(),
        tokens.skip(last as int + 3) == seq![placed(TokenView::ObjectEnd, at_mark)] + after,
    ensures
        parse_members(tokens, onto) == read(JsonView::Object(onto.insert(name, item)), last + 3),
        last + 3 < tokens.len(),
        tokens.skip(last as int + 4) == after,
{
    reveal(parse_members);
    lemma_first_token(placed(TokenView::ObjectEnd, at_mark), after);
    assert(tokens.skip(last as int + 3)[0] == tokens[last as int + 3]);
    assert(token_at(tokens, last + 3) == placed(TokenView::ObjectEnd, at_mark));
    lemma_skip_twice(tokens, last + 3, 1);
}

/// A member whose value is read, before a comma and more members that are
/// read, is a member of the same object.
pub proof fn lemma_reads_next_member(
    tokens: Seq<Lexeme>,
    onto: Map<Seq<char>, JsonView>,
    name: Seq<char>,
    p: Context,
    item: JsonView,
    last: nat,
    at_mark: Context,
    next: Seq<Lexeme>,
    all: Map<Seq<char>, JsonView>,
    more: nat,
    after: Seq<Lexeme>,
)
    requires
        token_at(tokens, 0) == placed(TokenView::ValueString(name), p),
        token_at(tokens, 1) is Ok,
        token_at(tokens, 1)->Ok_0.token is SeparatorName,
        token_at(tokens, 2) is Ok,
        parse_value(tokens.skip(2)) == read(item, last),
        last + 2 < tokens.len(),
        tokens.skip(last as int + 3) == seq![placed(TokenView::SeparatorValue, at_mark)] + next,
        parse_members(next, onto.insert(name, item)) == read(JsonView::Object(all), more),
        more < next.len(),
        next.skip(more as int + 1) == after,
    ensures
        parse_members(tokens, onto) == read(JsonView::Object(all), last + 4 + more),
        last + 4 + more < tokens.len(),
        tokens.skip((last + 4 + more) as int + 1) == after,
{
    reveal(parse_members);
    lemma_first_token(placed(TokenView::SeparatorValue, at_mark), next);
    lemma_starts_with_token(next, Seq::empty(), onto.insert(name, item));
    lemma_skip_twice(tokens, last + 3, 1);
    lemma_skip_twice(tokens, last + 4, more + 1);
}

/// The text of a document, behind whitespace and before `rest`, is read as
/// the value that the document denotes, and the tokens of `rest` follow.
/// Returns the index of the document's last token and the place where
/// `rest` begins.
pub proof fn lemma_reads_document(gap: Seq<char>, doc: Doc, rest: Seq<char>, p: Context) -> (r: (
    nat,
    Context,
))
    requires
        is_gap(gap),
        well_formed(doc),
        ends_before(doc, rest),
    ensures
        reads_as(
            token_stream(gap + text_before(doc, rest), p),
            value(doc),
            r.0,
            token_stream(rest, r.1),
        ),
    decreases doc, 1nat,
{
    let tokens = token_stream(gap + text_before(doc, rest), p);
    match doc {
        Doc::Array(items, inner) => {
            if items.len() == 0 {
                let end = lemma_reads_empty_array(gap, inner, rest, p);
                (1, end)
            } else {
                let inside = lemma_reads_mark(gap, '[', elements_before(items, rest), p);
                let elements = token_stream(elements_before(items, rest), inside);
                let (last, end) = lemma_reads_elements(items, rest, inside, Seq::empty());
                lemma_reads_opened_array(
                    tokens,
                    p.after_all(gap),
                    elements,
                    values(items),
                    last,
                    token_stream(rest, end),
                );
                (last + 1, end)
            }
        },
        Doc::Object(members, inner) => {
            if members.len() == 0 {
                let end = lemma_reads_empty_object(gap, inner, rest, p);
                (1, end)
            } else {
                let inside = lemma_reads_mark(gap, '{', members_before(members, rest), p);
                let within = token_stream(members_before(members, rest), inside);
                let (last, end) = lemma_reads_members(members, rest, inside, Map::empty());
                lemma_reads_opened_object(
                    tokens,
                    p.after_all(gap),
                    within,
                    members_onto(members, Map::empty()),
                    last,
                    token_stream(rest, end),
                );
                (last + 1, end)
            }
        },
        _ => {
            let end = lemma_reads_leaf(gap, doc, rest, p);
            (0, end)
        },
    }
}

/// The text of the items of an array, from the first of `items` to the
/// closing bracket, is read as the values that the items denote, behind the
/// values `before`; the tokens of `rest` follow. Returns the index of the
/// closing bracket and the place where `rest` begins.
pub proof fn lemma_reads_elements(
    items: Seq<Item>,
    rest: Seq<char>,
    p: Context,
    before: Seq<JsonView>,
) -> (r: (nat, Context))
    requires
        items.len() > 0,
        well_formed(Doc::Array(items, Seq::empty())),
    ensures
        parse_elements(token_stream(elements_before(items, rest), p), before) == read(
            JsonView::Array(before + values(items)),
            r.0,
        ),
        r.0 < token_stream(elements_before(items, rest), p).len(),
        token_stream(elements_before(items, rest), p).skip(r.0 as int + 1) == token_stream(
            rest,
            r.1,
        ),
    decreases items, 0nat,
{
    let tokens = token_stream(elements_before(items, rest), p);
    let first = items[0];
    let others = items.skip(1);
    if items.len() == 1 {
        let tail = first.after + (seq![']'] + rest);
        lemma_mark_ends_number(first.doc, first.after, ']', rest);
        let (last, at_gap) = lemma_reads_document(first.before, first.doc, tail, p);
        let end = lemma_reads_mark(first.after, ']', rest, at_gap);
        lemma_reads_last_element(
            tokens,
            before,
            value(first.doc),
            last,
            at_gap.after_all(first.after),
            token_stream(rest, end),
        );
        assert(before.push(value(first.doc)) =~= before + values(items));
        (last + 1, end)
    } else {
        let following = elements_before(others, rest);
        let tail = first.after + (seq![','] + following);
        lemma_mark_ends_number(first.doc, first.after, ',', following);
        let (last, at_gap) = lemma_reads_document(first.before, first.doc, tail, p);
        let at_next = lemma_reads_mark(first.after, ',', following, at_gap);
        let next = token_stream(following, at_next);
        let (more, end) = lemma_reads_elements(
            others,
            rest,
            at_next,
            before.push(value(first.doc)),
        );
        assert(before.push(value(first.doc)) + values(others) =~= before + values(items));
        lemma_reads_next_element(
            tokens,
            before,
            value(first.doc),
            last,
            at_gap.after_all(first.after),
            next,
            before + values(items),
            more,
            token_stream(rest, end),
        );
        (last + 2 + more, end)
    }
}

/// The text of the members of an object, from the first of `members` to
/// the closing brace, is read as the map `onto` with those members put into
/// it; the tokens of `rest` follow. Returns the index of the closing brace
/// and the place where `rest` begins.
pub proof fn lemma_reads_members(
    members: Seq<Member>,
    rest: Seq<char>,
    p: Context,
    onto: Map<Seq<char>, JsonView>,
) -> (r: (nat, Context))
    requires
        members.len() > 0,
        well_formed(Doc::Object(members, Seq::empty())),
    ensures
        parse_members(token_stream(members_before(members, rest), p), onto) == read(
            JsonView::Object(members_onto(members, onto)),
            r.0,
        ),
        r.0 < token_stream(members_before(members, rest), p).len(),
        token_stream(members_before(members, rest), p).skip(r.0 as int + 1) == token_stream(
            rest,
            r.1,
        ),
    decreases members, 0nat,
{
    let tokens = token_stream(members_before(members, rest), p);
    let member = members[0];
    let name = spelt(member.name);
    let others = members.skip(1);
    let following = members_before(others, rest);
    let behind = if members.len() == 1 {
        seq!['}'] + rest
    } else {
        seq![','] + following
    };
    let tail = member.after + behind;
    if members.len() == 1 {
        lemma_mark_ends_number(member.doc, member.after, '}', rest);
    } else {
        lemma_mark_ends_number(member.doc, member.after, ',', following);
    }
    let from_value = member.before_value + text_before(member.doc, tail);
    let at_colon_gap = lemma_reads_string(
        member.before,
        member.name,
        member.before_colon + (seq![':'] + from_value),
        p,
    );
    let at_value_gap = lemma_reads_mark(member.before_colon, ':', from_value, at_colon_gap);
    let (last, at_gap) = lemma_reads_document(member.before_value, member.doc, tail, at_value_gap);
    let within = token_stream(from_value, at_value_gap);
    lemma_reads_member_start(
        tokens,
        name,
        p.after_all(member.before),
        at_colon_gap.after_all(member.before_colon),
        within,
        value(member.doc),
        last,
        token_stream(tail, at_gap),
    );
    if members.len() == 1 {
        let end = lemma_reads_mark(member.after, '}', rest, at_gap);
        lemma_reads_last_member(
            tokens,
            onto,
            name,
            p.after_all(member.before),
            value(member.doc),
            last,
            at_gap.after_all(member.after),
            token_stream(rest, end),
        );
        (last + 3, end)
    } else {
        let at_next = lemma_reads_mark(member.after, ',', following, at_gap);
        let next = token_stream(following, at_next);
        let (more, end) = lemma_reads_members(
            others,
            rest,
            at_next,
            onto.insert(name, value(member.doc)),
        );
        lemma_reads_next_member(
            tokens,
            onto,
            name,
            p.after_all(member.before),
            value(member.doc),
            last,
            at_gap.after_all(member.after),
            next,
            members_onto(members, onto),
            more,
            token_stream(rest, end),
        );
        (last + 4 + more, end)
    }
}

} // verus!
