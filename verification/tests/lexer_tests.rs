use json_parser::lexer::{Lexer, Token};
use json_parser::number::Number;

fn f64_eq(a: f64, b: f64) -> bool {
    (a - b).abs() <= f64::EPSILON
}

fn float_value(number: &Number) -> f64 {
    number.as_str().parse::<f64>().expect("a number literal converts")
}

enum Want {
    Is(Token),
    Number(f64),
}

fn parse_and_compare_seq(input: &str, target_result: &[Want]) {
    let mut lexer = Lexer::new(input);
    for target_token in target_result.iter() {
        let candidate = lexer.next().expect("No more token to be retrieved");
        if let Ok(token_info) = candidate {
            let token = token_info.token;
            match token {
                Token::ValueNumber(num) => {
                    if let Want::Number(target_num) = *target_token {
                        assert!(f64_eq(float_value(&num), target_num));
                    } else {
                        panic!("The token is not a ValueNumber");
                    }
                }
                _ => match target_token {
                    Want::Is(target) => assert_eq!(token, *target),
                    Want::Number(_) => panic!("The token is a ValueNumber"),
                },
            }
        } else {
            panic!("Token is invalid, cannot be parsed.")
        }
    }
}

#[test]
fn empty_string_is_eof() {
    let mut lexer = Lexer::new("");
    assert!(matches!(lexer.next(), None));
}

#[test]
fn whitespace_string_is_eof() {
    let mut lexer = Lexer::new(" \t \n \r ");
    assert!(matches!(lexer.next(), None));
}

#[test]
fn consume_simple_token_list_with_spaces() {
    let input_data = "\t: , [\n] }{\n \r ";
    let target_result = [
        Want::Is(Token::SeparatorName),
        Want::Is(Token::SeparatorValue),
        Want::Is(Token::ArrayStart),
        Want::Is(Token::ArrayEnd),
        Want::Is(Token::ObjectEnd),
        Want::Is(Token::ObjectStart),
    ];
    parse_and_compare_seq(&input_data, &target_result);
}

#[test]
fn consume_simple_token_list_without_spaces() {
    let input_data = ":,[]}{";
    let target_result = [
        Want::Is(Token::SeparatorName),
        Want::Is(Token::SeparatorValue),
        Want::Is(Token::ArrayStart),
        Want::Is(Token::ArrayEnd),
        Want::Is(Token::ObjectEnd),
        Want::Is(Token::ObjectStart),
    ];
    parse_and_compare_seq(&input_data, &target_result);
}

#[test]
fn consume_simple_value_list_with_spaces() {
    let input_data = "null false true";
    let target_result = [
        Want::Is(Token::ValueNull),
        Want::Is(Token::ValueBoolean(false)),
        Want::Is(Token::ValueBoolean(true)),
    ];
    parse_and_compare_seq(&input_data, &target_result);
}

#[test]
fn consume_simple_value_list_without_spaces() {
    let input_data = "nullfalsetrue";
    let target_result = [
        Want::Is(Token::ValueNull),
        Want::Is(Token::ValueBoolean(false)),
        Want::Is(Token::ValueBoolean(true)),
    ];
    parse_and_compare_seq(&input_data, &target_result);
}

#[test]
fn bad_token_is_error() {
    let input_data = " nugget ";
    let mut lexer = Lexer::new(input_data);
    assert!(matches!(lexer.next(), Some(Err(_))));
}

#[test]
fn lexer_simple_string() {
    let input_data = "  \"hello\"  \"world\"  ";
    let target_result = [
        Want::Is(Token::ValueString(String::from("hello"))),
        Want::Is(Token::ValueString(String::from("world"))),
    ];
    parse_and_compare_seq(&input_data, &target_result);
}

#[test]
fn string_with_escapes() {
    let input_data = "\"hel\\\"lo\"  \"wor\\tld\"  ";
    let target_result = [
        Want::Is(Token::ValueString(String::from("hel\"lo"))),
        Want::Is(Token::ValueString(String::from("wor\tld"))),
    ];
    parse_and_compare_seq(&input_data, &target_result);
}

#[test]
fn bad_string_escape_is_error() {
    let input_data = "\"hel\"lo\"  \"wor\\tld\"  ";
    let mut lexer = Lexer::new(&input_data);
    lexer.next();
    assert!(matches!(lexer.next(), Some(Err(_))));
}

#[test]
fn string_with_unicode() {
    let input_data = "\"go: 碁, cat: 🐱\"";
    let target_result = [Want::Is(Token::ValueString(String::from("go: 碁, cat: 🐱")))];
    parse_and_compare_seq(&input_data, &target_result);
}

#[test]
fn string_with_escaped_basic_plan_unicode() {
    let input_data = "\"go: \\u7881\"";
    let target_result = [Want::Is(Token::ValueString(String::from("go: 碁")))];
    parse_and_compare_seq(&input_data, &target_result);
}

#[test]
fn string_with_escaped_surrogate_pairs() {
    // Lower and upper case digits are both in use here.
    let input_data = "\"cat: \\uD83D\\udc31\"";
    let target_result = [Want::Is(Token::ValueString(String::from("cat: 🐱")))];
    parse_and_compare_seq(&input_data, &target_result);
}

#[test]
fn number_parsing() {
    let input_data = "321 -21 0.42 54.321 -54.321 -12.34e+5 12.34e-5 -12.34e5";
    let target_result = [
        Want::Number(321.),
        Want::Number(-21.),
        Want::Number(0.42),
        Want::Number(54.321),
        Want::Number(-54.321),
        Want::Number(-12.34e+5),
        Want::Number(12.34e-5),
        Want::Number(-12.34e5),
    ];
    parse_and_compare_seq(&input_data, &target_result);
}
