use json_parser::lexer::{Lexer, Token};
use json_parser::number::Number;
use json_parser::{Context, JsonError};

fn literals(input: &str) -> Vec<String> {
    let mut lexer = Lexer::new(input);
    let mut found = Vec::new();
    while let Some(item) = lexer.next() {
        match item.unwrap().token {
            Token::ValueNumber(n) => found.push(n.as_str().to_string()),
            other => panic!("not a number: {:?}", other),
        }
    }
    found
}

fn fault_in_number(input: &str) -> (Context, String) {
    let mut lexer = Lexer::new(input);
    match lexer.next() {
        Some(Err(JsonError::Lexer { context, message })) => (context, message),
        other => panic!("no lexer fault: {:?}", other),
    }
}

#[test]
fn numbers_of_the_separate_literals() {
    let mut lexer = Lexer::new("321 -21 0.42 -12.34e+5");
    let expected = [321.0, -21.0, 0.42, -1234000.0];
    for value in expected {
        match lexer.next().unwrap().unwrap().token {
            Token::ValueNumber(n) => assert_eq!(n.as_str().parse::<f64>().unwrap(), value),
            other => panic!("not a number: {:?}", other),
        }
    }
    assert!(lexer.next().is_none());
}

#[test]
fn number_keeps_its_literal() {
    assert_eq!(
        literals("0 -0 0.5 10 1e3 1E3 1e+3 1e-3 12.50E-07 -1.0e0 9007199254740993"),
        [
            "0", "-0", "0.5", "10", "1e3", "1E3", "1e+3", "1e-3", "12.50E-07", "-1.0e0",
            "9007199254740993"
        ]
    );
}

#[test]
fn zero_alone_is_a_number() {
    let mut lexer = Lexer::new("0");
    match lexer.next().unwrap().unwrap().token {
        Token::ValueNumber(n) => assert_eq!(n.as_str().parse::<f64>().unwrap(), 0.0),
        other => panic!("not a number: {:?}", other),
    }
}

#[test]
fn leading_zero_ends_the_literal() {
    assert_eq!(literals("01"), ["0", "1"]);
    assert_eq!(literals("-007"), ["-0", "0", "7"]);
    assert_eq!(literals("00.5"), ["0", "0.5"]);
}

#[test]
fn literal_ends_where_the_grammar_cannot_follow() {
    assert_eq!(literals("1-2"), ["1", "-2"]);
    assert_eq!(literals("1.5 5"), ["1.5", "5"]);
    assert_eq!(literals("1e5-3"), ["1e5", "-3"]);
    assert_eq!(literals("1e-5-3"), ["1e-5", "-3"]);
}

#[test]
fn point_without_digits_is_a_fault() {
    let (context, message) = fault_in_number("1.");
    assert_eq!(context, Context { line: 1, column: 3 });
    assert_eq!(message, "Could not convert '1.' to a number");
    let (context, message) = fault_in_number(" 1.x");
    assert_eq!(context, Context { line: 1, column: 4 });
    assert_eq!(message, "Could not convert '1.' to a number");
    let (_, message) = fault_in_number("0.e5");
    assert_eq!(message, "Could not convert '0.' to a number");
    let (_, message) = fault_in_number("-12.,");
    assert_eq!(message, "Could not convert '-12.' to a number");
    let (_, message) = fault_in_number("1..5");
    assert_eq!(message, "Could not convert '1.' to a number");
}

#[test]
fn point_is_read_with_the_literal_that_breaks_off() {
    let mut lexer = Lexer::new("1.]");
    assert!(matches!(lexer.next(), Some(Err(_))));
    match lexer.next() {
        Some(Ok(info)) => {
            assert_eq!(info.token, Token::ArrayEnd);
            assert_eq!(info.context, Context { line: 1, column: 3 });
        }
        other => panic!("no token: {:?}", other),
    }
}

#[test]
fn number_behind_a_leading_zero_starts_where_it_stands() {
    let mut lexer = Lexer::new("01");
    let first = lexer.next().unwrap().unwrap();
    assert_eq!(first.context, Context { line: 1, column: 1 });
    match first.token {
        Token::ValueNumber(n) => assert_eq!(n.as_str().parse::<f64>().unwrap(), 0.0),
        other => panic!("not a number: {:?}", other),
    }
    assert!(!lexer.remaining_is_empty());
    let second = lexer.next().unwrap().unwrap();
    assert_eq!(second.context, Context { line: 1, column: 2 });
    match second.token {
        Token::ValueNumber(n) => assert_eq!(n.as_str(), "1"),
        other => panic!("not a number: {:?}", other),
    }
}

#[test]
fn sign_without_digits_is_a_fault() {
    let (context, message) = fault_in_number(" -x");
    assert_eq!(context, Context { line: 1, column: 3 });
    assert_eq!(message, "Could not convert '-' to a number");
    let (_, message) = fault_in_number("-");
    assert_eq!(message, "Could not convert '-' to a number");
    let (_, message) = fault_in_number("-.5");
    assert_eq!(message, "Could not convert '-' to a number");
}

#[test]
fn exponent_without_digits_is_a_fault() {
    let (context, message) = fault_in_number("1e");
    assert_eq!(context, Context { line: 1, column: 3 });
    assert_eq!(message, "Could not convert '1e' to a number");
    let (_, message) = fault_in_number("12.5E+,");
    assert_eq!(message, "Could not convert '12.5E+' to a number");
    let (_, message) = fault_in_number("0e-");
    assert_eq!(message, "Could not convert '0e-' to a number");
    let (_, message) = fault_in_number("1ee5");
    assert_eq!(message, "Could not convert '1e' to a number");
}

#[test]
fn every_literal_read_converts() {
    for literal in literals("0 -0 0.0 1.0 0.5 10 1e3 1E3 1e+3 1e-3 12.50E-07 -1.0e0 0e0 -0.0E-0") {
        assert!(literal.parse::<f64>().is_ok(), "{}", literal);
    }
}

#[test]
fn number_from_a_whole_literal() {
    for literal in ["0", "-0", "1", "-12", "0.5", "1.0", "1e5", "1E+5", "1.25e-5", "0e0"] {
        let number = Number::new(literal).expect(literal);
        assert_eq!(number.as_str(), literal);
        assert!(literal.parse::<f64>().is_ok());
    }
}

#[test]
fn number_from_anything_else_is_none() {
    for text in [
        "", "-", "+1", ".5", "01", "1e", "1e+", "1.", "0.", "-1.", "1.e5", "1 ", " 1", "1,",
        "0x10", "NaN", "inf",
        "1.5.5", "--1", "1e5.5", "e5", "١",
    ] {
        assert!(Number::new(text).is_none(), "{:?}", text);
    }
}

#[test]
fn numbers_are_the_same_where_their_literals_are() {
    let one = Number::new("1").unwrap();
    assert!(one.same(&Number::new("1").unwrap()));
    assert!(!one.same(&Number::new("1.0").unwrap()));
    assert_eq!(one, one.clone());
    assert_ne!(Number::new("1e3").unwrap(), Number::new("1000").unwrap());
}
