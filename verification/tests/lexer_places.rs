use json_parser::lexer::{Lexer, Token};
use json_parser::{Context, JsonError};

fn fault_behind(input: &str, skip: usize) -> (Context, String) {
    let mut lexer = Lexer::new(input);
    for _ in 0..skip {
        assert!(matches!(lexer.next(), Some(Ok(_))));
    }
    match lexer.next() {
        Some(Err(JsonError::Lexer { context, message })) => (context, message),
        other => panic!("no lexer fault: {:?}", other),
    }
}

#[test]
fn context_starts_at_line_one_column_one() {
    assert_eq!(Context::default(), Context { line: 1, column: 1 });
}

#[test]
fn advance_moves_one_column_to_the_right() {
    let start = Context { line: 3, column: 7 };
    assert_eq!(start.advance('x'), Context { line: 3, column: 8 });
    assert_eq!(start.advance('\r'), Context { line: 3, column: 8 });
}

#[test]
fn advance_on_line_feed_starts_next_line_at_column_one() {
    let start = Context { line: 3, column: 7 };
    assert_eq!(start.advance('\n'), Context { line: 4, column: 1 });
}

#[test]
fn advance_stays_at_the_largest_value() {
    let far = Context { line: usize::MAX, column: usize::MAX };
    assert_eq!(far.advance('x'), Context { line: usize::MAX, column: usize::MAX });
    assert_eq!(far.advance('\n'), Context { line: usize::MAX, column: 1 });
}

#[test]
fn tokens_carry_the_place_of_their_first_character() {
    let mut lexer = Lexer::new("  [\n  true , \"a\\nb\"\n\n]");
    let expected = [
        (Token::ArrayStart, 1, 3),
        (Token::ValueBoolean(true), 2, 3),
        (Token::SeparatorValue, 2, 8),
        (Token::ValueString(String::from("a\nb")), 2, 10),
        (Token::ArrayEnd, 4, 1),
    ];
    for (token, line, column) in expected {
        let info = lexer.next().unwrap().unwrap();
        assert_eq!(info.token, token);
        assert_eq!(info.context, Context { line, column });
    }
    assert!(lexer.next().is_none());
    assert!(lexer.remaining_is_empty());
}

#[test]
fn token_place_is_not_moved_by_whitespace_behind_it() {
    let mut lexer = Lexer::new("1   \n\n  2");
    let first = lexer.next().unwrap().unwrap();
    assert_eq!(first.context, Context { line: 1, column: 1 });
    let second = lexer.next().unwrap().unwrap();
    assert_eq!(second.context, Context { line: 3, column: 3 });
}

#[test]
fn end_of_text_is_reported_again_and_again() {
    let mut lexer = Lexer::new(" 1 ");
    assert!(matches!(lexer.next(), Some(Ok(_))));
    assert!(lexer.next().is_none());
    assert!(lexer.next().is_none());
}

#[test]
fn unexpected_character_is_a_fault_at_its_place() {
    let (context, message) = fault_behind("  @", 0);
    assert_eq!(context, Context { line: 1, column: 3 });
    assert_eq!(message, "The character '@' is unexpected");
}

#[test]
fn truncated_name_is_a_fault_at_the_start_of_the_name() {
    let (context, message) = fault_behind(" nul", 0);
    assert_eq!(context, Context { line: 1, column: 2 });
    assert_eq!(message, "End of stream while waiting for 'l'");
}

#[test]
fn misspelt_name_is_a_fault_at_the_start_of_the_name() {
    let (context, message) = fault_behind(" nugget ", 0);
    assert_eq!(context, Context { line: 1, column: 2 });
    assert_eq!(message, "Unexpected char 'g', was waiting for a 'l'");
}

#[test]
fn misspelt_true_and_false_are_faults() {
    let (_, message) = fault_behind("trUe", 0);
    assert_eq!(message, "Unexpected char 'U', was waiting for a 'u'");
    let (_, message) = fault_behind("fals", 0);
    assert_eq!(message, "End of stream while waiting for 'e'");
}

#[test]
fn unterminated_string_is_a_fault_at_the_end_of_the_text() {
    let (context, message) = fault_behind("\"unterminated", 0);
    assert_eq!(context, Context { line: 1, column: 14 });
    assert_eq!(message, "EOF encountered while recognizing a string");
}

#[test]
fn string_that_ends_behind_a_backslash_is_a_fault() {
    let (context, message) = fault_behind("\"ab\\", 0);
    assert_eq!(context, Context { line: 1, column: 5 });
    assert_eq!(message, "EOF encountered while recognizing a string");
}

#[test]
fn unknown_escape_is_a_fault_behind_the_escape() {
    let (context, message) = fault_behind("\"a\\qb\"", 0);
    assert_eq!(context, Context { line: 1, column: 5 });
    assert_eq!(message, "'q is not an escapable character'");
}

#[test]
fn control_character_in_a_string_is_a_fault() {
    let (context, message) = fault_behind("\"a\tb\"", 0);
    assert_eq!(context, Context { line: 1, column: 4 });
    assert_eq!(message, "Not a valid character code");
    let (context, message) = fault_behind("\"a\nb\"", 0);
    assert_eq!(context, Context { line: 2, column: 1 });
    assert_eq!(message, "Not a valid character code");
}

#[test]
fn unicode_escape_cut_short_is_a_fault() {
    let (context, message) = fault_behind("\"\\u12", 0);
    assert_eq!(context, Context { line: 1, column: 6 });
    assert_eq!(message, "End of stream while waiting for more characters");
}

#[test]
fn unicode_escape_needs_four_hexadecimal_digits() {
    let (context, message) = fault_behind("\"\\u12G4\"", 0);
    assert_eq!(context, Context { line: 1, column: 8 });
    assert_eq!(message, "Could not convert 12G4 to unicode");
    let (_, message) = fault_behind("\"\\u+123\"", 0);
    assert_eq!(message, "Could not convert +123 to unicode");
    let (_, message) = fault_behind("\"\\u碁123\"", 0);
    assert_eq!(message, "Could not convert 碁123 to unicode");
}

#[test]
fn second_half_of_a_pair_alone_is_a_fault() {
    let (_, message) = fault_behind("\"\\uDC31\"", 0);
    assert_eq!(message, "Could not convert DC31 to unicode");
}

#[test]
fn first_half_of_a_pair_needs_a_second_escape() {
    let (context, message) = fault_behind("\"\\uD83Dx\"", 0);
    assert_eq!(context, Context { line: 1, column: 9 });
    assert_eq!(message, "Unexpected char 'x', was waiting for a '\\'");
    let (_, message) = fault_behind("\"\\uD83D\\n\"", 0);
    assert_eq!(message, "Unexpected char 'n', was waiting for a 'u'");
    let (_, message) = fault_behind("\"\\uD83D", 0);
    assert_eq!(message, "End of stream while waiting for '\\'");
    let (_, message) = fault_behind("\"\\uD83D\\uDC", 0);
    assert_eq!(message, "End of stream while waiting for more characters");
}

#[test]
fn first_half_of_a_pair_needs_a_second_half() {
    let (context, message) = fault_behind("\"\\uD83D\\u0041\"", 0);
    assert_eq!(context, Context { line: 1, column: 14 });
    assert_eq!(message, "Issue while parsing provided unicode value.");
    let (_, message) = fault_behind("\"\\uD83D\\uD83D\"", 0);
    assert_eq!(message, "Issue while parsing provided unicode value.");
    let (_, message) = fault_behind("\"\\uD800\\uZZZZ\"", 0);
    assert_eq!(message, "Issue while parsing provided unicode value.");
}

#[test]
fn fault_behind_tokens_is_found_when_it_is_reached() {
    let (context, message) = fault_behind("[1, ?]", 3);
    assert_eq!(context, Context { line: 1, column: 5 });
    assert_eq!(message, "The character '?' is unexpected");
}

#[test]
fn all_simple_escapes_are_decoded() {
    let mut lexer = Lexer::new(r#""\"\\\/\b\f\n\r\t""#);
    let info = lexer.next().unwrap().unwrap();
    assert_eq!(
        info.token,
        Token::ValueString(String::from("\"\\/\u{0008}\u{000C}\n\r\t"))
    );
}

#[test]
fn surrogate_pair_is_combined_by_the_formula() {
    let mut lexer = Lexer::new(r#""\uD83D\uDC31\uD800\uDC00\uDBFF\uDFFF""#);
    let info = lexer.next().unwrap().unwrap();
    let expected: String = [
        char::from_u32((0xD83D - 0xD800) * 0x400 + (0xDC31 - 0xDC00) + 0x10000).unwrap(),
        '\u{10000}',
        '\u{10FFFF}',
    ]
    .iter()
    .collect();
    assert_eq!(expected, "\u{1F431}\u{10000}\u{10FFFF}");
    assert_eq!(info.token, Token::ValueString(expected));
}

#[test]
fn unicode_escapes_of_the_basic_plane_are_decoded() {
    let mut lexer = Lexer::new(r#""\u0041\u00e9\u7881\uFFFF\u0000\uD7FF\uE000""#);
    let info = lexer.next().unwrap().unwrap();
    assert_eq!(
        info.token,
        Token::ValueString(String::from("A\u{e9}\u{7881}\u{FFFF}\u{0}\u{D7FF}\u{E000}"))
    );
}

#[test]
fn characters_outside_the_basic_plane_stand_as_they_are() {
    let mut lexer = Lexer::new("\"\u{7f}\u{10FFFF} \u{1F431}\"");
    let info = lexer.next().unwrap().unwrap();
    assert_eq!(info.token, Token::ValueString(String::from("\u{7f}\u{10FFFF} \u{1F431}")));
    assert_eq!(info.context, Context { line: 1, column: 1 });
    assert!(lexer.next().is_none());
}

#[test]
fn token_is_written_out_with_what_it_holds() {
    let mut lexer = Lexer::new("[ ] { } : , null true false 1.5e3 \"a b\"");
    let expected = [
        "ArrayStart",
        "ArrayEnd",
        "ObjectStart",
        "ObjectEnd",
        "SeparatorName",
        "SeparatorValue",
        "ValueNull",
        "ValueBoolean(true)",
        "ValueBoolean(false)",
        "ValueNumber(1.5e3)",
        "ValueString(\"a b\")",
    ];
    for text in expected {
        let info = lexer.next().unwrap().unwrap();
        assert_eq!(info.token.describe(), text);
    }
}

#[test]
fn tokens_are_the_same_where_kind_and_content_agree() {
    let mut lexer = Lexer::new("1 1 1.0 \"1\" \"1\" true true false null [");
    let mut tokens = Vec::new();
    while let Some(item) = lexer.next() {
        tokens.push(item.unwrap().token);
    }
    assert!(tokens[0].same(&tokens[1]));
    assert!(!tokens[0].same(&tokens[2]));
    assert!(!tokens[0].same(&tokens[3]));
    assert!(tokens[3].same(&tokens[4]));
    assert!(tokens[5].same(&tokens[6]));
    assert!(!tokens[6].same(&tokens[7]));
    assert!(!tokens[7].same(&tokens[8]));
    assert!(tokens[8].same(&Token::ValueNull));
    assert!(tokens[9].same(&Token::ArrayStart));
    assert!(!tokens[9].same(&Token::ArrayEnd));
}
