use json_parser::lexer::Lexer;
use json_parser::number::Number;
use json_parser::value::JsonObject;
use json_parser::{parse_json, Context, Json, JsonError, Parser};

fn number_of(literal: &str) -> Json {
    Json::Number(Number::new(literal).expect("a number literal"))
}

fn text_of(value: &str) -> Json {
    Json::String(value.to_string())
}

fn object_of(members: Vec<(&str, Json)>) -> Json {
    let mut map = JsonObject::new();
    for (name, value) in members {
        map.insert(name.to_string(), value);
    }
    Json::Object(map)
}

fn fault_of_parser(input: &str) -> (Context, String) {
    match parse_json(input) {
        Err(JsonError::Parser { context, message }) => (context, message),
        other => panic!("no parser fault: {:?}", other),
    }
}

fn fault_of_lexer(input: &str) -> (Context, String) {
    match parse_json(input) {
        Err(JsonError::Lexer { context, message }) => (context, message),
        other => panic!("no lexer fault: {:?}", other),
    }
}

fn no_data(input: &str) {
    match parse_json(input) {
        Err(JsonError::Other(message)) => assert_eq!(message, "No data to parse"),
        other => panic!("no fault without a place: {:?}", other),
    }
}

#[test]
fn empty_input_is_a_fault_without_a_place() {
    no_data("");
    no_data("   \n\t");
    no_data(" \r\n ");
}

#[test]
fn empty_containers() {
    assert_eq!(parse_json("{}").unwrap(), Json::Object(JsonObject::new()));
    assert_eq!(parse_json("[]").unwrap(), Json::Array(Vec::new()));
    assert_eq!(parse_json("[ ]").unwrap(), Json::Array(Vec::new()));
    assert_eq!(parse_json("{\n}").unwrap(), Json::Object(JsonObject::new()));
}

#[test]
fn object_with_number_and_array() {
    let result = parse_json(r#"{"a":1,"b":[true,null,"x"]}"#).unwrap();
    let expected = object_of(vec![
        ("a", number_of("1")),
        ("b", Json::Array(vec![Json::Boolean(true), Json::Null, text_of("x")])),
    ]);
    assert_eq!(result, expected);
    match result {
        Json::Object(map) => match map.get("a") {
            Some(Json::Number(n)) => assert_eq!(n.as_str().parse::<f64>().unwrap(), 1.0),
            other => panic!("not a number: {:?}", other),
        },
        other => panic!("not an object: {:?}", other),
    }
}

#[test]
fn escaped_surrogate_pair_is_one_character() {
    assert_eq!(parse_json(r#""\uD83D\uDC31""#).unwrap(), text_of("🐱"));
}

#[test]
fn escaped_basic_plane_character() {
    assert_eq!(parse_json(r#""\u7881""#).unwrap(), text_of("碁"));
}

#[test]
fn truncated_name_is_a_lexer_fault() {
    let (context, message) = fault_of_lexer("nul");
    assert_eq!(context, Context { line: 1, column: 1 });
    assert_eq!(message, "End of stream while waiting for 'l'");
    let (_, message) = fault_of_lexer("nugget");
    assert_eq!(message, "Unexpected char 'g', was waiting for a 'l'");
}

#[test]
fn name_without_quotation_marks_is_a_fault() {
    let result = parse_json(r#"{badkey: false}"#);
    assert!(result.is_err());
    let (context, message) = fault_of_lexer(r#"{badkey: false}"#);
    assert_eq!(context, Context { line: 1, column: 2 });
    assert_eq!(message, "The character 'b' is unexpected");
}

#[test]
fn unterminated_string_is_a_lexer_fault() {
    let (context, message) = fault_of_lexer(r#""unterminated"#);
    assert_eq!(context, Context { line: 1, column: 14 });
    assert_eq!(message, "EOF encountered while recognizing a string");
}

#[test]
fn member_name_that_is_no_string_is_a_parser_fault() {
    let (context, message) = fault_of_parser("{ 1: 2}");
    assert_eq!(context, Context { line: 1, column: 3 });
    assert_eq!(message, "Was waiting a string but received ValueNumber(1)");
    let (context, message) = fault_of_parser("{\"a\":1,\n}");
    assert_eq!(context, Context { line: 2, column: 1 });
    assert_eq!(message, "Was waiting a string but received ObjectEnd");
    let (_, message) = fault_of_parser("{null:1}");
    assert_eq!(message, "Was waiting a string but received ValueNull");
}

#[test]
fn missing_colon_is_a_parser_fault_at_the_token_found() {
    let (context, message) = fault_of_parser("{\"a\" 1}");
    assert_eq!(context, Context { line: 1, column: 6 });
    assert_eq!(message, "Was waiting SeparatorName but received ValueNumber(1)");
    let (context, message) = fault_of_parser("{ \"a\" 1}");
    assert_eq!(context, Context { line: 1, column: 7 });
    assert_eq!(message, "Was waiting SeparatorName but received ValueNumber(1)");
    let (context, message) = fault_of_parser("{\"a\"\n,}");
    assert_eq!(context, Context { line: 2, column: 1 });
    assert_eq!(message, "Was waiting SeparatorName but received SeparatorValue");
    let (context, message) = fault_of_parser("{\"a\" \"b\"}");
    assert_eq!(context, Context { line: 1, column: 6 });
    assert_eq!(message, "Was waiting SeparatorName but received ValueString(\"b\")");
}

#[test]
fn missing_comma_in_an_object_is_a_parser_fault() {
    let (context, message) = fault_of_parser("{\"a\":1 \"b\":2}");
    assert_eq!(context, Context { line: 1, column: 8 });
    assert_eq!(message, "Was waiting a ',' or '}' but received ValueString(\"b\")");
    let (_, message) = fault_of_parser("{\"a\":1]");
    assert_eq!(message, "Was waiting a ',' or '}' but received ArrayEnd");
}

#[test]
fn missing_comma_in_an_array_is_a_parser_fault() {
    let (context, message) = fault_of_parser("[1 2]");
    assert_eq!(context, Context { line: 1, column: 4 });
    assert_eq!(message, "Was waiting a ',' or ']' but received ValueNumber(2)");
    let (context, message) = fault_of_parser("[true\n  : 1]");
    assert_eq!(context, Context { line: 2, column: 3 });
    assert_eq!(message, "Was waiting a ',' or ']' but received SeparatorName");
    let (_, message) = fault_of_parser("[1}");
    assert_eq!(message, "Was waiting a ',' or ']' but received ObjectEnd");
}

#[test]
fn token_that_starts_no_value_is_a_parser_fault() {
    let expected = |token: &str| {
        format!(
            "The token '{}' is not valid here, was waiting the start of an array, object or a value",
            token
        )
    };
    let (context, message) = fault_of_parser(" ]");
    assert_eq!(context, Context { line: 1, column: 2 });
    assert_eq!(message, expected("ArrayEnd"));
    let (_, message) = fault_of_parser("}");
    assert_eq!(message, expected("ObjectEnd"));
    let (_, message) = fault_of_parser(":");
    assert_eq!(message, expected("SeparatorName"));
    let (_, message) = fault_of_parser(",");
    assert_eq!(message, expected("SeparatorValue"));
    let (context, message) = fault_of_parser("[1,]");
    assert_eq!(context, Context { line: 1, column: 4 });
    assert_eq!(message, expected("ArrayEnd"));
    let (context, message) = fault_of_parser("[,1]");
    assert_eq!(context, Context { line: 1, column: 2 });
    assert_eq!(message, expected("SeparatorValue"));
    let (context, message) = fault_of_parser("{\"a\":}");
    assert_eq!(context, Context { line: 1, column: 6 });
    assert_eq!(message, expected("ObjectEnd"));
}

#[test]
fn text_that_ends_too_early_is_a_fault_without_a_place() {
    no_data("[");
    no_data("[1");
    no_data("[1,");
    no_data("{");
    no_data("{\"a\"");
    no_data("{\"a\":");
    no_data("{\"a\":1");
    no_data("{\"a\":1,");
    no_data("[[[");
}

#[test]
fn lexer_fault_inside_a_value_is_handed_on() {
    let (context, message) = fault_of_lexer("[1, tru]");
    assert_eq!(context, Context { line: 1, column: 5 });
    assert_eq!(message, "Unexpected char ']', was waiting for a 'e'");
    let (context, message) = fault_of_lexer("{\"a\": 1e}");
    assert_eq!(context, Context { line: 1, column: 9 });
    assert_eq!(message, "Could not convert '1e' to a number");
    let (_, message) = fault_of_lexer("{\"a\" ; 1}");
    assert_eq!(message, "The character ';' is unexpected");
}

#[test]
fn tokens_behind_the_value_are_not_looked_at() {
    assert_eq!(parse_json("1 2").unwrap(), number_of("1"));
    assert_eq!(parse_json("01").unwrap(), number_of("0"));
    assert_eq!(parse_json("[1] @").unwrap(), Json::Array(vec![number_of("1")]));
    assert_eq!(parse_json("null]").unwrap(), Json::Null);
    assert_eq!(parse_json("{} nul").unwrap(), Json::Object(JsonObject::new()));
    assert_eq!(parse_json("\"a\" \"unterminated").unwrap(), text_of("a"));
}

#[test]
fn later_member_takes_the_place_of_an_earlier_one() {
    let result = parse_json(r#"{"a":1,"b":2,"a":3}"#).unwrap();
    assert_eq!(result, object_of(vec![("a", number_of("3")), ("b", number_of("2"))]));
    match result {
        Json::Object(map) => {
            assert_eq!(map.len(), 2);
            assert_eq!(map.get("a"), Some(&number_of("3")));
        }
        other => panic!("not an object: {:?}", other),
    }
}

#[test]
fn nested_values() {
    let input = "[[], [[]], {\"a\": {\"b\": [1, {\"c\": null}]}}, \"x\"]";
    let expected = Json::Array(vec![
        Json::Array(vec![]),
        Json::Array(vec![Json::Array(vec![])]),
        object_of(vec![(
            "a",
            object_of(vec![(
                "b",
                Json::Array(vec![number_of("1"), object_of(vec![("c", Json::Null)])]),
            )]),
        )]),
        text_of("x"),
    ]);
    assert_eq!(parse_json(input).unwrap(), expected);
}

#[test]
fn single_values() {
    assert_eq!(parse_json("true").unwrap(), Json::Boolean(true));
    assert_eq!(parse_json("false").unwrap(), Json::Boolean(false));
    assert_eq!(parse_json("null").unwrap(), Json::Null);
    assert_eq!(parse_json("-12.5e-3").unwrap(), number_of("-12.5e-3"));
    assert_eq!(parse_json("\"\"").unwrap(), text_of(""));
}

#[test]
fn reading_twice_gives_the_same_result() {
    for input in [
        r#"{"a":1,"b":[true,null,"x"],"c":{"d":-0.5e2}}"#,
        "[1, 2",
        "{\"a\" 1}",
        "",
        "\"\\uD83D\\uDC31\"",
        "nul",
    ] {
        let first = parse_json(input);
        let second = parse_json(input);
        match (first, second) {
            (Ok(a), Ok(b)) => assert_eq!(a, b),
            (Err(a), Err(b)) => assert_eq!(a.to_string(), b.to_string()),
            (a, b) => panic!("{:?} and {:?}", a, b),
        }
    }
}

#[test]
fn compact_text_is_read_back() {
    let input = r#"{"n":null,"t":true,"f":false,"i":-12,"x":1.5e3,"s":"a\"b\\c\u0001d","a":[[],{},[0]],"o":{"k":"v"}}"#;
    let expected = object_of(vec![
        ("n", Json::Null),
        ("t", Json::Boolean(true)),
        ("f", Json::Boolean(false)),
        ("i", number_of("-12")),
        ("x", number_of("1.5e3")),
        ("s", text_of("a\"b\\c\u{1}d")),
        (
            "a",
            Json::Array(vec![
                Json::Array(vec![]),
                Json::Object(JsonObject::new()),
                Json::Array(vec![number_of("0")]),
            ]),
        ),
        ("o", object_of(vec![("k", text_of("v"))])),
    ]);
    assert_eq!(parse_json(input).unwrap(), expected);
}

#[test]
fn text_with_whitespace_and_escapes_is_read_as_its_value() {
    let input = "\r\n {\t\"k\\u0041\\n\" \n:\r[ 1.5e3\t,\n\"\\uD83D\\uDC31\\/\\\\\" ,[\n] , { } , -0 ]\n,\"\"\t:null }  ] trailing";
    let expected = object_of(vec![
        (
            "kA\n",
            Json::Array(vec![
                number_of("1.5e3"),
                text_of("\u{1F431}/\\"),
                Json::Array(vec![]),
                Json::Object(JsonObject::new()),
                number_of("-0"),
            ]),
        ),
        ("", Json::Null),
    ]);
    assert_eq!(parse_json(input).unwrap(), expected);
}

#[test]
fn text_that_is_no_json_text_is_not_read() {
    for input in [
        "", " ", "[", "]", "{", "}", ":", ",", "[,]", "[1,]", "[1 2]", "[1,,2]", "[1:2]",
        "{\"a\"}", "{\"a\":}", "{\"a\":1,}", "{,}", "{\"a\" \"b\"}", "{a:1}", "{1:1}",
        "{\"a\":1 \"b\":2}", "{[]:1}", "tru", "True", "nul", "fals", "nil", "-", "+1", ".5",
        "-.5", "1e", "1e+", "1.", "-0.", "1.e5", "[1.]", "{\"a\":1.}", "\"", "\"a", "\"\\x\"", "\"\\u12\"", "\"\\uD800\"",
        "\"\\uDC00\"", "\"a\nb\"", "'a'", "[\"a\" 1]", "[[1]", "{\"a\":[}", "@",
    ] {
        assert!(parse_json(input).is_err(), "{:?}", input);
    }
}

#[test]
fn number_that_ends_in_a_point_is_a_lexer_fault() {
    let (context, message) = fault_of_lexer("1.");
    assert_eq!(context, Context { line: 1, column: 3 });
    assert_eq!(message, "Could not convert '1.' to a number");
    let (context, message) = fault_of_lexer("[0, 1.]");
    assert_eq!(context, Context { line: 1, column: 7 });
    assert_eq!(message, "Could not convert '1.' to a number");
}

#[test]
fn texts_of_one_value_are_read_alike() {
    let first = r#"{"a":[1,"x\ny",{}],"b":null,"c":{"d":true,"e":-0.5e2}}"#;
    let second = "  {\n \"c\" : { \"e\" : -0.5e2 , \"d\":true },\r\n\t\"b\" :null, \"\\u0061\": [ 1 ,\"\\u0078\\u000a\\u0079\", {\n} ]\n}\n";
    let third = r#"{"a":0,"b":null,"c":{"e":1,"d":true,"e":-0.5e2},"a":[1,"x\ny",{}]}"#;
    let one = parse_json(first).unwrap();
    assert_eq!(parse_json(second).unwrap(), one);
    assert_eq!(parse_json(third).unwrap(), one);
    let other = r#"{"a":[1,"x\ny",{}],"b":null,"c":{"d":true,"e":-0.5e3}}"#;
    assert_ne!(parse_json(other).unwrap(), one);
}

#[test]
fn number_ends_before_whatever_cannot_stand_in_it() {
    assert_eq!(parse_json("12]").unwrap(), number_of("12"));
    assert_eq!(parse_json("12\n").unwrap(), number_of("12"));
    assert_eq!(parse_json("12true").unwrap(), number_of("12"));
    assert_eq!(parse_json("[1,2]").unwrap(), Json::Array(vec![number_of("1"), number_of("2")]));
}

#[test]
fn parser_looks_at_the_last_token_of_the_value_read() {
    let mut parser = Parser::new(Lexer::new("[1, [2]] 3")).unwrap();
    let value = parser.parse().unwrap();
    assert_eq!(
        value,
        Json::Array(vec![number_of("1"), Json::Array(vec![number_of("2")])])
    );
    assert_eq!(parser.current_token_info.token.describe(), "ArrayEnd");
    assert_eq!(parser.current_token_info.context, Context { line: 1, column: 8 });
    let next = parser.lexer.next().unwrap().unwrap();
    assert_eq!(next.token.describe(), "ValueNumber(3)");
}

#[test]
fn parser_on_an_empty_text_is_a_fault() {
    match Parser::new(Lexer::new("  ")) {
        Err(JsonError::Other(message)) => assert_eq!(message, "No data to parse"),
        Err(other) => panic!("another fault: {:?}", other),
        Ok(_) => panic!("a parser"),
    }
    match Parser::new(Lexer::new(" ?")) {
        Err(JsonError::Lexer { context, .. }) => {
            assert_eq!(context, Context { line: 1, column: 2 })
        }
        Err(other) => panic!("another fault: {:?}", other),
        Ok(_) => panic!("a parser"),
    }
}
