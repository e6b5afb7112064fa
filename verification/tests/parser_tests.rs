use json_parser::number::Number;
use json_parser::value::JsonObject;
use json_parser::{parse_json, Json};

fn literal(literal: &str) -> Json {
    Json::Number(Number::new(literal).expect("a number literal"))
}

fn float_of(json: &Json) -> f64 {
    match json {
        Json::Number(n) => n.as_str().parse::<f64>().expect("a number literal converts"),
        other => panic!("not a number: {:?}", other),
    }
}

fn cmp_input_and_result(input: &str, waited_result: Json) {
    let result = parse_json(input).unwrap();
    assert_eq!(result, waited_result);
}

#[test]
fn parser_simple_string() {
    let input = r#" "hello" "#;
    let target = Json::String(String::from("hello"));
    cmp_input_and_result(input, target);
}

#[test]
fn simple_number() {
    let input = r#" 1e3 "#;
    let result = parse_json(input).unwrap();
    assert_eq!(float_of(&result), 1e3);
    cmp_input_and_result(input, literal("1e3"));
}

#[test]
fn simple_null() {
    let input = r#" null "#;
    let target = Json::Null;
    cmp_input_and_result(input, target);
}

#[test]
fn simple_object() {
    let input = r#" {"one": "un", "two": 2, "three": null, "four": false} "#;
    let mut map = JsonObject::new();
    map.insert("one".to_string(), Json::String("un".to_string()));
    map.insert("two".to_string(), literal("2"));
    map.insert("three".to_string(), Json::Null);
    map.insert("four".to_string(), Json::Boolean(false));
    let target = Json::Object(map);
    cmp_input_and_result(input, target);
    match parse_json(input).unwrap() {
        Json::Object(object) => assert_eq!(float_of(object.get("two").unwrap()), 2.0),
        other => panic!("not an object: {:?}", other),
    }
}

#[test]
fn empty_object() {
    let input = r#" {} "#;
    let map = JsonObject::new();
    let target = Json::Object(map);
    cmp_input_and_result(input, target);
}

#[test]
fn hierarchical_object() {
    let input = r#" {"one": "un", "two": {"three": null, "four": false}} "#;
    let mut map_inner = JsonObject::new();
    map_inner.insert("three".to_string(), Json::Null);
    map_inner.insert("four".to_string(), Json::Boolean(false));
    let mut map_outer = JsonObject::new();
    map_outer.insert("one".to_string(), Json::String("un".to_string()));
    map_outer.insert("two".to_string(), Json::Object(map_inner));
    let target = Json::Object(map_outer);
    cmp_input_and_result(input, target);
}

#[test]
fn object_with_invalid_key_is_error() {
    let input = r#" {badkey: false} "#;
    assert!(parse_json(input).is_err());
}

#[test]
fn simple_array() {
    let input = r#" [1, "deux", null, true] "#;
    let mut vec = Vec::new();
    vec.push(literal("1"));
    vec.push(Json::String("deux".to_string()));
    vec.push(Json::Null);
    vec.push(Json::Boolean(true));
    let target = Json::Array(vec);
    cmp_input_and_result(input, target);
    match parse_json(input).unwrap() {
        Json::Array(items) => assert_eq!(float_of(&items[0]), 1.0),
        other => panic!("not an array: {:?}", other),
    }
}

#[test]
fn empty_array() {
    let input = r#" [] "#;
    let vec = Vec::new();
    let target = Json::Array(vec);
    cmp_input_and_result(input, target);
}
