use json_parser::number::Number;
use json_parser::unicode::{convert_surrogate_pairs, is_high_surrogate, string_to_unicode_char};
use json_parser::value::JsonObject;
use json_parser::{Context, Json, JsonError};

fn number_from(literal: &str) -> Json {
    Json::Number(Number::new(literal).expect("a number literal"))
}

#[test]
fn object_starts_empty() {
    let map = JsonObject::new();
    assert_eq!(map.len(), 0);
    assert!(map.get("a").is_none());
    assert!(!map.contains_key(""));
    assert!(map.names().is_empty());
}

#[test]
fn object_holds_what_was_put_in() {
    let mut map = JsonObject::new();
    map.insert("a".to_string(), Json::Null);
    map.insert("b".to_string(), Json::Boolean(true));
    map.insert("".to_string(), number_from("0"));
    assert_eq!(map.len(), 3);
    assert_eq!(map.get("a"), Some(&Json::Null));
    assert_eq!(map.get("b"), Some(&Json::Boolean(true)));
    assert_eq!(map.get(""), Some(&number_from("0")));
    assert!(map.get("c").is_none());
    assert!(map.contains_key("b"));
    assert!(!map.contains_key("B"));
    let mut names = map.names();
    names.sort();
    assert_eq!(names, ["", "a", "b"]);
}

#[test]
fn insert_replaces_the_value_under_a_name() {
    let mut map = JsonObject::new();
    map.insert("a".to_string(), Json::Null);
    map.insert("b".to_string(), Json::Null);
    map.insert("a".to_string(), Json::Boolean(false));
    assert_eq!(map.len(), 2);
    assert_eq!(map.get("a"), Some(&Json::Boolean(false)));
    assert_eq!(map.get("b"), Some(&Json::Null));
}

#[test]
fn objects_are_equal_whatever_the_order_of_members() {
    let mut first = JsonObject::new();
    first.insert("a".to_string(), number_from("1"));
    first.insert("b".to_string(), number_from("2"));
    let mut second = JsonObject::new();
    second.insert("b".to_string(), number_from("2"));
    second.insert("a".to_string(), number_from("1"));
    assert_eq!(first, second);
    assert!(first.same(&second));
    assert_eq!(Json::Object(first), Json::Object(second));
}

#[test]
fn objects_differ_by_a_name_or_a_value() {
    let mut first = JsonObject::new();
    first.insert("a".to_string(), number_from("1"));
    let mut other_value = JsonObject::new();
    other_value.insert("a".to_string(), number_from("2"));
    let mut other_name = JsonObject::new();
    other_name.insert("b".to_string(), number_from("1"));
    let mut more = JsonObject::new();
    more.insert("a".to_string(), number_from("1"));
    more.insert("b".to_string(), number_from("1"));
    assert_ne!(first, other_value);
    assert_ne!(first, other_name);
    assert_ne!(first, more);
    assert_ne!(more, first);
    assert_ne!(first, JsonObject::new());
    assert_ne!(JsonObject::new(), first);
}

#[test]
fn values_are_equal_by_kind_and_content() {
    assert_eq!(Json::Null, Json::Null);
    assert_ne!(Json::Null, Json::Boolean(false));
    assert_ne!(Json::Boolean(true), Json::Boolean(false));
    assert_eq!(Json::String("a".to_string()), Json::String("a".to_string()));
    assert_ne!(Json::String("a".to_string()), Json::String("b".to_string()));
    assert_ne!(Json::String("1".to_string()), number_from("1"));
    assert_eq!(number_from("1"), number_from("1"));
    assert_ne!(number_from("1"), number_from("1.0"));
    assert_ne!(Json::Array(vec![]), Json::Object(JsonObject::new()));
}

#[test]
fn arrays_are_equal_item_by_item_in_order() {
    let first = Json::Array(vec![number_from("1"), Json::Null]);
    assert_eq!(first, Json::Array(vec![number_from("1"), Json::Null]));
    assert_ne!(first, Json::Array(vec![Json::Null, number_from("1")]));
    assert_ne!(first, Json::Array(vec![number_from("1")]));
    assert_ne!(first, Json::Array(vec![number_from("1"), Json::Null, Json::Null]));
    assert!(first.same(&Json::Array(vec![number_from("1"), Json::Null])));
}

#[test]
fn fault_is_rendered_with_kind_place_and_message() {
    let lexer = JsonError::Lexer {
        context: Context { line: 12, column: 345 },
        message: "bad".to_string(),
    };
    assert_eq!(lexer.to_string(), "Lexer error, line 12 column 345: bad");
    let parser = JsonError::Parser {
        context: Context { line: 1, column: 10 },
        message: "worse".to_string(),
    };
    assert_eq!(parser.to_string(), "Parser error, line 1 column 10: worse");
    let other = JsonError::Other("No data to parse".to_string());
    assert_eq!(other.to_string(), "Other error: No data to parse");
}

#[test]
fn place_is_rendered_in_decimal() {
    for n in [0usize, 1, 9, 10, 99, 100, 101, 4096, usize::MAX] {
        let fault = JsonError::Lexer {
            context: Context { line: n, column: n },
            message: String::new(),
        };
        assert_eq!(
            fault.to_string(),
            format!("Lexer error, line {} column {}: ", n, n)
        );
    }
}

#[test]
fn escape_digits_name_a_character() {
    assert_eq!(string_to_unicode_char("7881"), Some('碁'));
    assert_eq!(string_to_unicode_char("0041"), Some('A'));
    assert_eq!(string_to_unicode_char("00e9"), Some('é'));
    assert_eq!(string_to_unicode_char("00E9"), Some('é'));
    assert_eq!(string_to_unicode_char("abCD"), Some('\u{ABCD}'));
    assert_eq!(string_to_unicode_char("0000"), Some('\u{0}'));
    assert_eq!(string_to_unicode_char("ffff"), Some('\u{FFFF}'));
    assert_eq!(string_to_unicode_char("D7FF"), Some('\u{D7FF}'));
    assert_eq!(string_to_unicode_char("E000"), Some('\u{E000}'));
}

#[test]
fn escape_digits_that_name_no_character() {
    for digits in ["D800", "DBFF", "DC00", "DFFF", "", "41", "00041", "004G", "+041", " 041", "碁123"] {
        assert_eq!(string_to_unicode_char(digits), None, "{:?}", digits);
    }
}

#[test]
fn first_halves_of_surrogate_pairs() {
    assert!(is_high_surrogate("D800"));
    assert!(is_high_surrogate("d83d"));
    assert!(is_high_surrogate("DBFF"));
    assert!(!is_high_surrogate("D7FF"));
    assert!(!is_high_surrogate("DC00"));
    assert!(!is_high_surrogate("0041"));
    assert!(!is_high_surrogate("D80"));
    assert!(!is_high_surrogate("D8000"));
    assert!(!is_high_surrogate("D8G0"));
    assert!(!is_high_surrogate("碁800"));
}

#[test]
fn surrogate_pairs_name_a_character() {
    assert_eq!(convert_surrogate_pairs("D83D", "DC31"), Some('🐱'));
    assert_eq!(convert_surrogate_pairs("d83d", "dc31"), Some('\u{1F431}'));
    assert_eq!(convert_surrogate_pairs("D800", "DC00"), Some('\u{10000}'));
    assert_eq!(convert_surrogate_pairs("DBFF", "DFFF"), Some('\u{10FFFF}'));
    assert_eq!(convert_surrogate_pairs("D801", "DC00"), Some('\u{10400}'));
}

#[test]
fn pairs_that_name_no_character() {
    assert_eq!(convert_surrogate_pairs("D83D", "0041"), None);
    assert_eq!(convert_surrogate_pairs("D83D", "D83D"), None);
    assert_eq!(convert_surrogate_pairs("D83D", "DBFF"), None);
    assert_eq!(convert_surrogate_pairs("DC31", "D83D"), None);
    assert_eq!(convert_surrogate_pairs("0041", "DC31"), None);
    assert_eq!(convert_surrogate_pairs("D83D", "DC3"), None);
    assert_eq!(convert_surrogate_pairs("D83", "DC31"), None);
    assert_eq!(convert_surrogate_pairs("D83D", "E000"), None);
    assert_eq!(convert_surrogate_pairs("D83D", "XXXX"), None);
}
