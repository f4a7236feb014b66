use parsekit::json::parser::{self, ParseError};
use parsekit::json::value::{JsonEditError, JsonNode, JsonPathSegment};

use JsonPathSegment::{Index, Key};

/// The parsed values with their numbers read as `f64`, to compare with.
#[derive(Debug, PartialEq)]
enum JsonValue {
    Null,
    Bool(bool),
    Number(f64),
    String(String),
    Array(Vec<JsonValue>),
    Object(Vec<(String, JsonValue)>),
}

fn value_of(node: &JsonNode) -> JsonValue {
    match node {
        JsonNode::Null => JsonValue::Null,
        JsonNode::Bool(b) => JsonValue::Bool(*b),
        JsonNode::Number(text) => JsonValue::Number(text.parse::<f64>().unwrap()),
        JsonNode::String(s) => JsonValue::String(s.clone()),
        JsonNode::Array(items) => JsonValue::Array(items.iter().map(value_of).collect()),
        JsonNode::Object(members) => {
            JsonValue::Object(members.iter().map(|(k, v)| (k.clone(), value_of(v))).collect())
        }
    }
}

fn node_of(value: JsonValue) -> JsonNode {
    match value {
        JsonValue::Null => JsonNode::Null,
        JsonValue::Bool(b) => JsonNode::Bool(b),
        JsonValue::Number(x) => JsonNode::Number(x.to_string()),
        JsonValue::String(s) => JsonNode::String(s),
        JsonValue::Array(items) => JsonNode::Array(items.into_iter().map(node_of).collect()),
        JsonValue::Object(members) => {
            JsonNode::Object(members.into_iter().map(|(k, v)| (k, node_of(v))).collect())
        }
    }
}

fn parse_scalar(input: &str) -> Result<JsonValue, ParseError> {
    parser::parse_scalar(input).map(|node| value_of(&node))
}

#[test]
fn parses_literals() {
    assert_eq!(parse_scalar("null"), Ok(JsonValue::Null));
    assert_eq!(parse_scalar("true"), Ok(JsonValue::Bool(true)));
    assert_eq!(parse_scalar("false"), Ok(JsonValue::Bool(false)));
    assert_eq!(parse_scalar(" \n\ttrue\r "), Ok(JsonValue::Bool(true)));
}

#[test]
fn parses_numbers() {
    let cases = [
        ("0", 0.0),
        ("0.0", 0.0),
        ("-0", -0.0),
        ("42", 42.0),
        ("-17", -17.0),
        ("3.1415", 3.1415),
        ("-10.25", -10.25),
        ("1e3", 1000.0),
        ("1E3", 1000.0),
        ("1e-3", 0.001),
        ("-2.5E+2", -250.0),
    ];

    for (input, expected) in cases {
        assert_eq!(parse_scalar(input), Ok(JsonValue::Number(expected)));
    }
}

#[test]
fn parses_large_numbers() {
    match parse_scalar("123456789012345678901234567890") {
        Ok(JsonValue::Number(number)) => assert!(number.is_finite()),
        other => panic!("unexpected parse result: {other:?}"),
    }

    assert_eq!(
        parse_scalar("1.2345678901234568e+30"),
        Ok(JsonValue::Number(1.2345678901234568e30))
    );
}

#[test]
fn parses_strings_and_common_escapes() {
    assert_eq!(parse_scalar("\"\""), Ok(JsonValue::String(String::new())));
    assert_eq!(
        parse_scalar("\"hello\""),
        Ok(JsonValue::String(String::from("hello")))
    );
    assert_eq!(
        parse_scalar(r#""\"\\\/\b\f\n\r\t""#),
        Ok(JsonValue::String(String::from(
            "\"\\/\u{0008}\u{000c}\n\r\t"
        )))
    );
}

#[test]
fn parses_unicode_escapes() {
    assert_eq!(
        parse_scalar(r#""\u20AC""#),
        Ok(JsonValue::String(String::from("€")))
    );
    assert_eq!(
        parse_scalar(r#""\u732b""#),
        Ok(JsonValue::String(String::from("猫")))
    );
    assert_eq!(
        parse_scalar(r#""\uD834\uDD1E""#),
        Ok(JsonValue::String(String::from("𝄞")))
    );
}

#[test]
fn rejects_invalid_scalar_inputs() {
    assert!(parse_scalar("").is_err());
    assert!(parse_scalar("not-json").is_err());
    assert!(parse_scalar("\"unterminated").is_err());
    assert!(parse_scalar(r#""\z""#).is_err());
    assert!(parse_scalar("\"\\").is_err());
    assert!(parse_scalar("01").is_err());
    assert!(parse_scalar("1e").is_err());
    assert!(parse_scalar("true false").is_err());
    assert!(parse_scalar(r#""\uD834x""#).is_err());
}

#[test]
fn parses_empty_arrays() {
    assert_eq!(parse_scalar("[]"), Ok(JsonValue::Array(Vec::new())));
    assert_eq!(parse_scalar("[ \n\t ]"), Ok(JsonValue::Array(Vec::new())));
}

#[test]
fn parses_mixed_scalar_arrays() {
    assert_eq!(
        parse_scalar(r#"[null, true, false, 42, "cat"]"#),
        Ok(JsonValue::Array(vec![
            JsonValue::Null,
            JsonValue::Bool(true),
            JsonValue::Bool(false),
            JsonValue::Number(42.0),
            JsonValue::String(String::from("cat")),
        ]))
    );
}

#[test]
fn parses_nested_arrays() {
    assert_eq!(
        parse_scalar("[1, [2, [3]]]"),
        Ok(JsonValue::Array(vec![
            JsonValue::Number(1.0),
            JsonValue::Array(vec![
                JsonValue::Number(2.0),
                JsonValue::Array(vec![JsonValue::Number(3.0)]),
            ]),
        ]))
    );
}

#[test]
fn rejects_malformed_arrays() {
    assert!(parse_scalar("[1,]").is_err());
    assert!(parse_scalar("[1, 2").is_err());
}

#[test]
fn parses_empty_objects() {
    assert_eq!(parse_scalar("{}"), Ok(JsonValue::Object(Vec::new())));
    assert_eq!(parse_scalar("{ \n\t }"), Ok(JsonValue::Object(Vec::new())));
}

#[test]
fn parses_object_scalar_values() {
    assert_eq!(
        parse_scalar(r#"{"name":"cjson","ok":true,"count":3}"#),
        Ok(JsonValue::Object(vec![
            (
                String::from("name"),
                JsonValue::String(String::from("cjson"))
            ),
            (String::from("ok"), JsonValue::Bool(true)),
            (String::from("count"), JsonValue::Number(3.0)),
        ]))
    );
}

#[test]
fn parses_nested_arrays_and_objects() {
    assert_eq!(
        parse_scalar(r#"{"items":[{"id":1}, []], "meta":{"ready":false}}"#),
        Ok(JsonValue::Object(vec![
            (
                String::from("items"),
                JsonValue::Array(vec![
                    JsonValue::Object(vec![(String::from("id"), JsonValue::Number(1.0))]),
                    JsonValue::Array(Vec::new()),
                ]),
            ),
            (
                String::from("meta"),
                JsonValue::Object(vec![(String::from("ready"), JsonValue::Bool(false))]),
            ),
        ]))
    );
}

#[test]
fn rejects_malformed_objects() {
    assert!(parse_scalar(r#"{"key" true}"#).is_err());
    assert!(parse_scalar(r#"{"key": true,}"#).is_err());
    assert!(parse_scalar(r#"{key: true}"#).is_err());
}

#[test]
fn rejects_excessive_recursion_depth() {
    let input = format!("{}null{}", "[".repeat(130), "]".repeat(130));

    assert!(parse_scalar(&input).is_err());
}

#[test]
fn appends_values_to_arrays() {
    let mut value = node_of(JsonValue::Array(vec![JsonValue::Null]));

    assert_eq!(value.append_array(node_of(JsonValue::Bool(true))), Ok(()));
    assert_eq!(
        value_of(&value),
        JsonValue::Array(vec![JsonValue::Null, JsonValue::Bool(true)])
    );
}

#[test]
fn rejects_array_append_on_non_arrays() {
    let mut value = node_of(JsonValue::Null);

    assert_eq!(
        value.append_array(node_of(JsonValue::Bool(true))),
        Err(JsonEditError::NotArray)
    );
    assert_eq!(value_of(&value), JsonValue::Null);
}

#[test]
fn inserts_and_replaces_object_members() {
    let mut value = node_of(JsonValue::Object(vec![(String::from("name"), JsonValue::Null)]));

    assert_eq!(
        value.insert_object_member(String::from("enabled"), node_of(JsonValue::Bool(true))),
        Ok(None)
    );
    assert_eq!(
        value
            .insert_object_member(
                String::from("name"),
                node_of(JsonValue::String(String::from("cjson")))
            )
            .map(|old| old.map(|o| value_of(&o))),
        Ok(Some(JsonValue::Null))
    );
    assert_eq!(
        value_of(&value),
        JsonValue::Object(vec![
            (
                String::from("name"),
                JsonValue::String(String::from("cjson"))
            ),
            (String::from("enabled"), JsonValue::Bool(true)),
        ])
    );
}

#[test]
fn rejects_object_insert_on_non_objects() {
    let mut value = node_of(JsonValue::Array(Vec::new()));

    assert_eq!(
        value.insert_object_member(String::from("key"), node_of(JsonValue::Null)),
        Err(JsonEditError::NotObject)
    );
    assert_eq!(value_of(&value), JsonValue::Array(Vec::new()));
}

#[test]
fn detaches_array_items_by_index() {
    let mut value = node_of(JsonValue::Array(vec![
        JsonValue::String(String::from("first")),
        JsonValue::String(String::from("second")),
    ]));

    assert_eq!(
        value.detach_array_item(0).map(|old| old.map(|o| value_of(&o))),
        Ok(Some(JsonValue::String(String::from("first"))))
    );
    assert_eq!(
        value_of(&value),
        JsonValue::Array(vec![JsonValue::String(String::from("second"))])
    );
}

#[test]
fn reports_missing_array_items_and_non_arrays() {
    let mut array = node_of(JsonValue::Array(Vec::new()));
    let mut scalar = node_of(JsonValue::Bool(false));

    assert_eq!(array.detach_array_item(4), Ok(None));
    assert_eq!(scalar.detach_array_item(0), Err(JsonEditError::NotArray));
}

#[test]
fn detaches_object_members_by_key() {
    let mut value = node_of(JsonValue::Object(vec![
        (String::from("keep"), JsonValue::Bool(true)),
        (String::from("take"), JsonValue::Number(7.0)),
    ]));

    assert_eq!(
        value.detach_object_member("take").map(|old| old.map(|o| value_of(&o))),
        Ok(Some(JsonValue::Number(7.0)))
    );
    assert_eq!(
        value_of(&value),
        JsonValue::Object(vec![(String::from("keep"), JsonValue::Bool(true))])
    );
}

#[test]
fn reports_missing_object_members_and_non_objects() {
    let mut object = node_of(JsonValue::Object(Vec::new()));
    let mut scalar = node_of(JsonValue::String(String::from("text")));

    assert_eq!(object.detach_object_member("missing"), Ok(None));
    assert_eq!(
        scalar.detach_object_member("missing"),
        Err(JsonEditError::NotObject)
    );
}

#[test]
fn finds_nested_values_by_path() {
    let value = parser::parse_scalar(r#"{"items":[{"name":"first"},{"name":"second"}]}"#).unwrap();

    assert_eq!(
        value.get_path(&[Key("items"), Index(1), Key("name")]).map(value_of),
        Some(JsonValue::String(String::from("second")))
    );
    assert_eq!(value.get_path(&[]), Some(&value));
}

#[test]
fn reports_missing_paths() {
    let value = parser::parse_scalar(r#"{"items":[{"name":"first"}]}"#).unwrap();

    assert_eq!(value.get_path(&[Key("items"), Index(4)]), None);
    assert_eq!(value.get_path(&[Key("missing")]), None);
}

#[test]
fn mutates_nested_values_by_path() {
    let mut value = parser::parse_scalar(r#"{"items":[{"done":false}]}"#).unwrap();

    let target = value.get_path_mut(&[Key("items"), Index(0), Key("done")]);
    assert_eq!(target, Some(&mut node_of(JsonValue::Bool(false))));

    if let Some(slot) = value.get_path_mut(&[Key("items"), Index(0), Key("done")]) {
        *slot = node_of(JsonValue::Bool(true));
    }

    assert_eq!(
        value.get_path(&[Key("items"), Index(0), Key("done")]).map(value_of),
        Some(JsonValue::Bool(true))
    );
}

#[test]
fn replaces_nested_values_and_returns_old_value() {
    let mut value = parser::parse_scalar(r#"{"items":[{"count":1}]}"#).unwrap();

    assert_eq!(
        value
            .replace_at_path(
                &[Key("items"), Index(0), Key("count")],
                node_of(JsonValue::Number(2.0))
            )
            .map(|o| value_of(&o)),
        Some(JsonValue::Number(1.0))
    );
    assert_eq!(
        value.get_path(&[Key("items"), Index(0), Key("count")]).map(value_of),
        Some(JsonValue::Number(2.0))
    );
}

#[test]
fn reports_non_container_paths_without_mutating() {
    let mut value = parser::parse_scalar(r#"{"items":[true]}"#).unwrap();

    assert_eq!(value.get_path(&[Key("items"), Index(0), Key("name")]), None);
    assert_eq!(
        value.replace_at_path(
            &[Key("items"), Index(0), Key("name")],
            node_of(JsonValue::String(String::from("ignored")))
        ),
        None
    );
    assert_eq!(
        value.get_path(&[Key("items"), Index(0)]).map(value_of),
        Some(JsonValue::Bool(true))
    );
}

#[test]
fn parser_reports_byte_offsets_and_keeps_number_text() {
    assert_eq!(
        parser::parse_scalar("[1, 2] x"),
        Err(ParseError::TrailingCharacters { pos: 7 })
    );
    assert_eq!(
        parser::parse_scalar("\"é\" 5"),
        Err(ParseError::TrailingCharacters { pos: 5 })
    );
    assert_eq!(parser::parse_scalar("01"), Err(ParseError::InvalidNumber { pos: 1 }));
    assert_eq!(parser::parse_scalar("1e"), Err(ParseError::InvalidNumber { pos: 2 }));
    assert_eq!(parser::parse_scalar("nul"), Err(ParseError::InvalidLiteral { pos: 0 }));
    assert_eq!(parser::parse_scalar("[1,]"), Err(ParseError::UnexpectedChar { ch: ']', pos: 3 }));
    assert_eq!(parser::parse_scalar(r#""\z""#), Err(ParseError::InvalidEscape { pos: 2 }));
    assert_eq!(
        parser::parse_scalar(r#""\uDC00""#),
        Err(ParseError::InvalidUnicodeEscape { pos: 2 })
    );
    assert_eq!(parser::parse_scalar("\"a\u{1}\""), Err(ParseError::InvalidString { pos: 3 }));
    assert_eq!(parser::parse_scalar("[1"), Err(ParseError::UnexpectedEof));
    let deep = format!("{}null{}", "[".repeat(130), "]".repeat(130));
    assert_eq!(parser::parse_scalar(&deep), Err(ParseError::RecursionLimit { pos: 129 }));
    let ok = format!("{}null{}", "[".repeat(128), "]".repeat(128));
    assert!(parser::parse_scalar(&ok).is_ok());
    assert_eq!(
        parser::parse_scalar("\u{feff} -1.50e+3"),
        Ok(JsonNode::Number(String::from("-1.50e+3")))
    );
}

#[test]
fn setting_a_member_then_reading_it_gives_the_value() {
    let mut value = parser::parse_scalar(r#"{"a":1,"b":{"c":[true]}}"#).unwrap();
    value.insert_object_member(String::from("b"), JsonNode::Null).unwrap();
    assert_eq!(value.get_path(&[Key("b")]), Some(&JsonNode::Null));
    value.insert_object_member(String::from("z"), JsonNode::Bool(false)).unwrap();
    assert_eq!(value.get_path(&[Key("z")]), Some(&JsonNode::Bool(false)));
    let old = value.replace_at_path(&[Key("a")], JsonNode::String(String::from("x")));
    assert_eq!(old, Some(JsonNode::Number(String::from("1"))));
    assert_eq!(value.get_path(&[Key("a")]), Some(&JsonNode::String(String::from("x"))));
}
