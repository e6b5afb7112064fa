//! From a value that is read back to the document that was written: the
//! text begins with whitespace and the text of a document that denotes the
//! value.

use vstd::prelude::*;
use crate::document::{
    elements_before, ends_before, is_gap, members_before, members_onto, quoted_before, spelt,
    text_before, value, values, well_formed, well_spelt, Doc, Item, Member,
};
use crate::read_back::{
    lemma_first_token, lemma_reads_last_element, lemma_reads_last_member,
    lemma_reads_member_start, lemma_reads_next_element, lemma_reads_next_member,
    lemma_reads_opened_array, lemma_reads_opened_object,
};
use crate::reading::{is_mark, mark_token, placed};
use crate::syntax::{
    lemma_skip_twice, parse_elements, parse_members, parse_value, token_at, token_stream,
};
use crate::token::{Lexeme, TokenView};
use crate::tracing::{lemma_token_was_written, Written};
use crate::value::JsonView;
use crate::Context;

verus! {

/// What was found for a value that is read: the whitespace before the
/// document, the document, the rest of the text behind it and the place
/// where the rest begins.
pub struct Found {
    pub gap: Seq<char>,
    pub doc: Doc,
    pub rest: Seq<char>,
    pub end: Context,
}

/// What was found for the items of an array or the members of an object
/// that are read: the items or members, the rest of the text behind the
/// closing bracket or brace and the place where the rest begins.
pub struct FoundAll<T> {
    pub all: Seq<T>,
    pub rest: Seq<char>,
    pub end: Context,
}

/// True where `found` is the document of the value that is read from
/// `text`: the text is the whitespace, the document and the rest, the
/// document denotes the value, and the tokens of the rest follow the
/// value's last token.
pub open spec fn is_found(text: Seq<char>, p: Context, found: Found) -> bool {
    let tokens = token_stream(text, p);
    &&& parse_value(tokens) is Ok
    &&& is_gap(found.gap)
    &&& well_formed(found.doc)
    &&& ends_before(found.doc, found.rest)
    &&& text == found.gap + text_before(found.doc, found.rest)
    &&& found.rest.len() < text.len()
    &&& parse_value(tokens)->Ok_0.0 == value(found.doc)
    &&& parse_value(tokens)->Ok_0.1 < tokens.len()
    &&& tokens.skip(parse_value(tokens)->Ok_0.1 as int + 1) == token_stream(
        found.rest,
        found.end,
    )
}

/// The way a mark was written is known from its token.
proof fn lemma_written_mark(written: Written, c: char)
    requires
        written.well_formed(),
        is_mark(c),
        written.token() == mark_token(c),
    ensures
        written == Written::Mark(c),
{
}

/// A value that is read from one token was written as a literal name, a
/// number or a string.
proof fn lemma_leaf_was_written(
    text: Seq<char>,
    p: Context,
    gap: Seq<char>,
    written: Written,
    rest: Seq<char>,
    end: Context,
) -> (found: Found)
    requires
        parse_value(token_stream(text, p)) is Ok,
        is_gap(gap),
        written.well_formed(),
        written.ends_before(rest),
        !(written is Mark),
        text == gap + written.text_before(rest),
        rest.len() < text.len(),
        token_stream(text, p) == seq![placed(written.token(), p.after_all(gap))] + token_stream(
            rest,
            end,
        ),
    ensures
        is_found(text, p, found),
{
    lemma_first_token(placed(written.token(), p.after_all(gap)), token_stream(rest, end));
    let doc = match written {
        Written::Keyword(pattern) => if pattern[0] == 'n' {
            Doc::Null
        } else {
            Doc::Boolean(pattern[0] == 't')
        },
        Written::Number(literal) => Doc::Number(literal),
        Written::Text(pieces) => Doc::String(pieces),
        Written::Mark(_) => Doc::Null,
    };
    Found { gap, doc, rest, end }
}

/// True where `found` are the items of the array whose values are read
/// from `text`, behind the values `before`.
pub open spec fn are_found_elements(
    text: Seq<char>,
    p: Context,
    before: Seq<JsonView>,
    found: FoundAll<Item>,
) -> bool {
    let tokens = token_stream(text, p);
    &&& parse_elements(tokens, before) is Ok
    &&& found.all.len() > 0
    &&& well_formed(Doc::Array(found.all, Seq::empty()))
    &&& text == elements_before(found.all, found.rest)
    &&& found.rest.len() < text.len()
    &&& parse_elements(tokens, before)->Ok_0.0 == JsonView::Array(before + values(found.all))
    &&& parse_elements(tokens, before)->Ok_0.1 < tokens.len()
    &&& tokens.skip(parse_elements(tokens, before)->Ok_0.1 as int + 1) == token_stream(
        found.rest,
        found.end,
    )
}

/// True where `found` are the members of the object whose members are read
/// from `text` and put into `onto`.
pub open spec fn are_found_members(
    text: Seq<char>,
    p: Context,
    onto: Map<Seq<char>, JsonView>,
    found: FoundAll<Member>,
) -> bool {
    let tokens = token_stream(text, p);
    &&& parse_members(tokens, onto) is Ok
    &&& found.all.len() > 0
    &&& well_formed(Doc::Object(found.all, Seq::empty()))
    &&& text == members_before(found.all, found.rest)
    &&& found.rest.len() < text.len()
    &&& parse_members(tokens, onto)->Ok_0.0 == JsonView::Object(members_onto(found.all, onto))
    &&& parse_members(tokens, onto)->Ok_0.1 < tokens.len()
    &&& tokens.skip(parse_members(tokens, onto)->Ok_0.1 as int + 1) == token_stream(
        found.rest,
        found.end,
    )
}

/// Where the items of an array are read, a value is read first, and behind
/// it stands the closing bracket, or a comma before more items that are
/// read.
proof fn lemma_elements_shape(tokens: Seq<Lexeme>, before: Seq<JsonView>)
    requires
        parse_elements(tokens, before) is Ok,
    ensures
        parse_value(tokens) is Ok,
        token_at(tokens, parse_value(tokens)->Ok_0.1 + 1) is Ok,
        ({
            let (item, last) = parse_value(tokens)->Ok_0;
            let mark = token_at(tokens, last + 1)->Ok_0.token;
            ||| mark is ArrayEnd
            ||| {
                &&& mark is SeparatorValue
                &&& token_at(tokens, last + 2) is Ok
                &&& parse_elements(tokens.skip(last as int + 2), before.push(item)) is Ok
            }
        }),
{
    reveal(parse_elements);
}

/// Where the members of an object are read, a name, a colon and a value are
/// read first, and behind them stands the closing brace, or a comma before
/// more members that are read.
proof fn lemma_members_shape(tokens: Seq<Lexeme>, onto: Map<Seq<char>, JsonView>)
    requires
        parse_members(tokens, onto) is Ok,
    ensures
        token_at(tokens, 0) is Ok,
        token_at(tokens, 0)->Ok_0.token is ValueString,
        token_at(tokens, 1) is Ok,
        token_at(tokens, 1)->Ok_0.token is SeparatorName,
        token_at(tokens, 2) is Ok,
        parse_value(tokens.skip(2)) is Ok,
        token_at(tokens, parse_value(tokens.skip(2))->Ok_0.1 + 3) is Ok,
        ({
            let name = token_at(tokens, 0)->Ok_0.token->ValueString_0;
            let (item, last) = parse_value(tokens.skip(2))->Ok_0;
            let mark = token_at(tokens, last + 3)->Ok_0.token;
            ||| mark is ObjectEnd
            ||| {
                &&& mark is SeparatorValue
                &&& token_at(tokens, last + 4) is Ok
                &&& parse_members(tokens.skip(last as int + 4), onto.insert(name, item)) is Ok
            }
        }),
{
    reveal(parse_members);
}

/// An item before other items: the text, the values and the validity of
/// all of them come from the first and from the others.
proof fn lemma_items_joined(item: Item, others: Seq<Item>, rest: Seq<char>)
    requires
        is_gap(item.before),
        well_formed(item.doc),
        is_gap(item.after),
        others.len() > 0 ==> well_formed(Doc::Array(others, Seq::empty())),
    ensures
        well_formed(Doc::Array(seq![item] + others, Seq::empty())),
        values(seq![item] + others) == seq![value(item.doc)] + values(others),
        elements_before(seq![item] + others, rest) == item.before + text_before(
            item.doc,
            item.after + (if others.len() == 0 {
                seq![']'] + rest
            } else {
                seq![','] + elements_before(others, rest)
            }),
        ),
{
    let all = seq![item] + others;
    assert(all.skip(1) =~= others);
}

/// A member before other members: the text, the map and the validity of
/// all of them come from the first and from the others.
proof fn lemma_members_joined(
    member: Member,
    others: Seq<Member>,
    rest: Seq<char>,
    onto: Map<Seq<char>, JsonView>,
)
    requires
        is_gap(member.before),
        well_spelt(member.name),
        is_gap(member.before_colon),
        is_gap(member.before_value),
        well_formed(member.doc),
        is_gap(member.after),
        others.len() > 0 ==> well_formed(Doc::Object(others, Seq::empty())),
    ensures
        well_formed(Doc::Object(seq![member] + others, Seq::empty())),
        members_onto(seq![member] + others, onto) == members_onto(
            others,
            onto.insert(spelt(member.name), value(member.doc)),
        ),
        members_before(seq![member] + others, rest) == member.before + quoted_before(
            member.name,
            member.before_colon + (seq![':'] + (member.before_value + text_before(
                member.doc,
                member.after + (if others.len() == 0 {
                    seq!['}'] + rest
                } else {
                    seq![','] + members_before(others, rest)
                }),
            ))),
        ),
{
    let all = seq![member] + others;
    assert(all.skip(1) =~= others);
}

/// Whatever is read as a value was written as a document: the text begins
/// with whitespace and the text of a document that denotes the value.
/// Returns what was found.
pub proof fn lemma_value_was_written(text: Seq<char>, p: Context) -> (found: Found)
    requires
        parse_value(token_stream(text, p)) is Ok,
    ensures
        is_found(text, p, found),
    decreases text.len(), 2nat,
{
    let (gap, written, rest, end) = lemma_token_was_written(text, p);
    lemma_first_token(placed(written.token(), p.after_all(gap)), token_stream(rest, end));
    match written {
        Written::Mark(c) => {
            if c == '[' {
                lemma_array_was_written(text, p, gap, rest, end)
            } else {
                lemma_object_was_written(text, p, gap, rest, end)
            }
        },
        _ => lemma_leaf_was_written(text, p, gap, written, rest, end),
    }
}

/// Whatever is read as an array was written as an array.
proof fn lemma_array_was_written(
    text: Seq<char>,
    p: Context,
    gap: Seq<char>,
    inside: Seq<char>,
    at_inside: Context,
) -> (found: Found)
    requires
        parse_value(token_stream(text, p)) is Ok,
        is_gap(gap),
        text == gap + (seq!['['] + inside),
        inside.len() < text.len(),
        token_stream(text, p) == seq![placed(TokenView::ArrayStart, p.after_all(gap))]
            + token_stream(inside, at_inside),
    ensures
        is_found(text, p, found),
    decreases text.len(), 1nat,
{
    let tokens = token_stream(text, p);
    let inner = token_stream(inside, at_inside);
    lemma_first_token(placed(TokenView::ArrayStart, p.after_all(gap)), inner);
    if token_at(tokens, 1)->Ok_0.token is ArrayEnd {
        let (within, written, rest, end) = lemma_token_was_written(inside, at_inside);
        lemma_written_mark(written, ']');
        lemma_first_token(placed(TokenView::ArrayEnd, at_inside.after_all(within)), token_stream(rest, end));
        lemma_skip_twice(tokens, 1, 1);
        let doc = Doc::Array(Seq::empty(), within);
        Found { gap, doc, rest, end }
    } else {
        assert(parse_elements(inner, Seq::empty()) is Ok) by {
            reveal(parse_elements);
        }
        let all = lemma_elements_were_written(inside, at_inside, Seq::empty());
        let last = parse_elements(inner, Seq::empty())->Ok_0.1;
        lemma_reads_opened_array(
            tokens,
            p.after_all(gap),
            inner,
            values(all.all),
            last,
            token_stream(all.rest, all.end),
        );
        Found { gap, doc: Doc::Array(all.all, Seq::empty()), rest: all.rest, end: all.end }
    }
}

/// Whatever is read as an object was written as an object.
proof fn lemma_object_was_written(
    text: Seq<char>,
    p: Context,
    gap: Seq<char>,
    inside: Seq<char>,
    at_inside: Context,
) -> (found: Found)
    requires
        parse_value(token_stream(text, p)) is Ok,
        is_gap(gap),
        text == gap + (seq!['{'] + inside),
        inside.len() < text.len(),
        token_stream(text, p) == seq![placed(TokenView::ObjectStart, p.after_all(gap))]
            + token_stream(inside, at_inside),
    ensures
        is_found(text, p, found),
    decreases text.len(), 1nat,
{
    let tokens = token_stream(text, p);
    let inner = token_stream(inside, at_inside);
    lemma_first_token(placed(TokenView::ObjectStart, p.after_all(gap)), inner);
    if token_at(tokens, 1)->Ok_0.token is ObjectEnd {
        let (within, written, rest, end) = lemma_token_was_written(inside, at_inside);
        lemma_written_mark(written, '}');
        lemma_first_token(placed(TokenView::ObjectEnd, at_inside.after_all(within)), token_stream(rest, end));
        lemma_skip_twice(tokens, 1, 1);
        let doc = Doc::Object(Seq::empty(), within);
        Found { gap, doc, rest, end }
    } else {
        assert(parse_members(inner, Map::empty()) is Ok) by {
            reveal(parse_members);
        }
        let all = lemma_members_were_written(inside, at_inside, Map::empty());
        let last = parse_members(inner, Map::empty())->Ok_0.1;
        lemma_reads_opened_object(
            tokens,
            p.after_all(gap),
            inner,
            members_onto(all.all, Map::empty()),
            last,
            token_stream(all.rest, all.end),
        );
        Found { gap, doc: Doc::Object(all.all, Seq::empty()), rest: all.rest, end: all.end }
    }
}

/// Whatever is read as the items of an array was written as items, with
/// commas between them, and the closing bracket.
pub proof fn lemma_elements_were_written(text: Seq<char>, p: Context, before: Seq<JsonView>) -> (found:
    FoundAll<Item>)
    requires
        parse_elements(token_stream(text, p), before) is Ok,
    ensures
        are_found_elements(text, p, before, found),
    decreases text.len(), 3nat,
{
    let tokens = token_stream(text, p);
    lemma_elements_shape(tokens, before);
    let first = lemma_value_was_written(text, p);
    let (item_value, last) = parse_value(tokens)->Ok_0;
    let (after, written, rest, end) = lemma_token_was_written(first.rest, first.end);
    let at_mark = first.end.after_all(after);
    let item = Item { before: first.gap, doc: first.doc, after };
    if token_at(tokens, last + 1)->Ok_0.token is ArrayEnd {
        lemma_written_mark(written, ']');
        lemma_reads_last_element(tokens, before, item_value, last, at_mark, token_stream(rest, end));
        lemma_items_joined(item, Seq::empty(), rest);
        assert(before.push(item_value) =~= before + values(seq![item] + Seq::<Item>::empty()));
        FoundAll { all: seq![item] + Seq::<Item>::empty(), rest, end }
    } else {
        lemma_written_mark(written, ',');
        let next = token_stream(rest, end);
        lemma_first_token(placed(TokenView::SeparatorValue, at_mark), next);
        lemma_skip_twice(tokens, last + 1, 1);
        let others = lemma_elements_were_written(rest, end, before.push(item_value));
        let more = parse_elements(next, before.push(item_value))->Ok_0.1;
        lemma_items_joined(item, others.all, others.rest);
        assert(before.push(item_value) + values(others.all) =~= before + values(
            seq![item] + others.all,
        ));
        lemma_reads_next_element(
            tokens,
            before,
            item_value,
            last,
            at_mark,
            next,
            before + values(seq![item] + others.all),
            more,
            token_stream(others.rest, others.end),
        );
        FoundAll { all: seq![item] + others.all, rest: others.rest, end: others.end }
    }
}

/// Whatever is read as the members of an object was written as members,
/// with commas between them, and the closing brace.
pub proof fn lemma_members_were_written(
    text: Seq<char>,
    p: Context,
    onto: Map<Seq<char>, JsonView>,
) -> (found: FoundAll<Member>)
    requires
        parse_members(token_stream(text, p), onto) is Ok,
    ensures
        are_found_members(text, p, onto, found),
    decreases text.len(), 3nat,
{
    let tokens = token_stream(text, p);
    lemma_members_shape(tokens, onto);
    let (before, written_name, from_colon, at_colon_gap) = lemma_token_was_written(text, p);
    let colon_tokens = token_stream(from_colon, at_colon_gap);
    lemma_first_token(placed(written_name.token(), p.after_all(before)), colon_tokens);
    let (before_colon, written_colon, from_value, at_value_gap) = lemma_token_was_written(
        from_colon,
        at_colon_gap,
    );
    lemma_written_mark(written_colon, ':');
    let value_tokens = token_stream(from_value, at_value_gap);
    lemma_first_token(
        placed(TokenView::SeparatorName, at_colon_gap.after_all(before_colon)),
        value_tokens,
    );
    lemma_skip_twice(tokens, 1, 1);
    let name = match written_name {
        Written::Text(pieces) => pieces,
        _ => Seq::empty(),
    };
    let first = lemma_value_was_written(from_value, at_value_gap);
    let (item_value, last) = parse_value(value_tokens)->Ok_0;
    let behind = token_stream(first.rest, first.end);
    lemma_reads_member_start(
        tokens,
        spelt(name),
        p.after_all(before),
        at_colon_gap.after_all(before_colon),
        value_tokens,
        item_value,
        last,
        behind,
    );
    let (after, written, rest, end) = lemma_token_was_written(first.rest, first.end);
    let at_mark = first.end.after_all(after);
    let member = Member {
        before,
        name,
        before_colon,
        before_value: first.gap,
        doc: first.doc,
        after,
    };
    if token_at(tokens, last + 3)->Ok_0.token is ObjectEnd {
        lemma_written_mark(written, '}');
        lemma_reads_last_member(
            tokens,
            onto,
            spelt(name),
            p.after_all(before),
            item_value,
            last,
            at_mark,
            token_stream(rest, end),
        );
        lemma_members_joined(member, Seq::empty(), rest, onto);
        FoundAll { all: seq![member] + Seq::<Member>::empty(), rest, end }
    } else {
        lemma_written_mark(written, ',');
        let next = token_stream(rest, end);
        lemma_first_token(placed(TokenView::SeparatorValue, at_mark), next);
        lemma_skip_twice(tokens, last + 3, 1);
        let others = lemma_members_were_written(rest, end, onto.insert(spelt(name), item_value));
        let more = parse_members(next, onto.insert(spelt(name), item_value))->Ok_0.1;
        lemma_members_joined(member, others.all, others.rest, onto);
        lemma_reads_next_member(
            tokens,
            onto,
            spelt(name),
            p.after_all(before),
            item_value,
            last,
            at_mark,
            next,
            members_onto(seq![member] + others.all, onto),
            more,
            token_stream(others.rest, others.end),
        );
        FoundAll { all: seq![member] + others.all, rest: others.rest, end: others.end }
    }
}

} // verus!
