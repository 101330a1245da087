use json_rs_prac::{string, value, Context, ParseError, Value};

#[test]
fn string_test() {
    let (left, value) = string("\"abd\\tbc\"foo").unwrap();
    assert_eq!(left, "foo");
    assert_eq!(value, Value::String("abd\tbc".into()));
}

#[test]
fn value_test() {
    let (left, value) = value(r#" { "abc" : "def", "foo": ["bar", 123] } "#).unwrap();
    assert!(left.is_empty());
    assert_eq!(
        value,
        Value::Object(vec![
            ("abc".into(), Value::String("def".into())),
            (
                "foo".into(),
                Value::Array(vec![
                    Value::String("bar".into()),
                    Value::Number(123.0f32.to_bits()),
                ])
            ),
        ])
    );
}

#[test]
fn new_line_value_test() {
    let (_, value) = value(
        "
    {
    \"glossary\": 123
}

    ",
    )
    .unwrap();

    assert_eq!(
        value,
        Value::Object(vec![("glossary".into(), Value::Number(123.0f32.to_bits()))])
    );
}

#[test]
fn escapes_round_trip() {
    let (left, v) = string("\"a\\tb\\nc\\rd\\\"e\\\\f\\u0041g\"").unwrap();
    assert!(left.is_empty());
    assert_eq!(v, Value::String("a\tb\nc\rd\"e\\fAg".into()));
}

#[test]
fn unknown_escape_passes_through() {
    let (left, v) = string("\"a\\qb\"").unwrap();
    assert!(left.is_empty());
    assert_eq!(v, Value::String("aqb".into()));
}

#[test]
fn hex_escape_non_ascii() {
    let (left, v) = string("\"\\u00e9\"").unwrap();
    assert!(left.is_empty());
    assert_eq!(v, Value::String("\u{e9}".into()));
}

#[test]
fn ws_insertion_top_level() {
    let plain = value("123").unwrap().1;
    let spaced = value("  \t\r\n 123 \n\t ").unwrap();
    assert!(spaced.0.is_empty());
    assert_eq!(spaced.1, plain);
}

#[test]
fn ws_insertion_inside_object() {
    let plain = value("{\"a\":1,\"b\":2}").unwrap().1;
    let spaced = value("{ \t\"a\" \n: 1 ,\r\n \"b\" :\t2 }").unwrap().1;
    assert_eq!(spaced, plain);
}

#[test]
fn duplicate_key_last_wins() {
    let (left, v) = value("{\"a\":1,\"a\":2}").unwrap();
    assert!(left.is_empty());
    assert_eq!(
        v,
        Value::Object(vec![("a".into(), Value::Number(2.0f32.to_bits()))])
    );
}

#[test]
fn empty_containers() {
    assert_eq!(value("[]").unwrap().1, Value::Array(vec![]));
    assert_eq!(value("{}").unwrap().1, Value::Object(vec![]));
    assert_eq!(value("{ }").unwrap().1, Value::Object(vec![]));
}

#[test]
fn nested_containers() {
    let (left, v) = value("{\"x\":[1,2,{\"y\":null}]}").unwrap();
    assert!(left.is_empty());
    assert_eq!(
        v,
        Value::Object(vec![(
            "x".into(),
            Value::Array(vec![
                Value::Number(1.0f32.to_bits()),
                Value::Number(2.0f32.to_bits()),
                Value::Object(vec![("y".into(), Value::Null)]),
            ])
        )])
    );
}

#[test]
fn literals() {
    assert_eq!(value("null").unwrap().1, Value::Null);
    assert_eq!(value("true").unwrap().1, Value::Boolean(true));
    assert_eq!(value("false").unwrap().1, Value::Boolean(false));
}

#[test]
fn number_forms() {
    assert_eq!(value("-1.5e2").unwrap().1, Value::Number((-150.0f32).to_bits()));
    assert_eq!(value("0.25").unwrap().1, Value::Number(0.25f32.to_bits()));
    assert_eq!(value("+3").unwrap().1, Value::Number(3.0f32.to_bits()));
    assert_eq!(value("1e3").unwrap().1, Value::Number(1000.0f32.to_bits()));
    assert_eq!(value("2.").unwrap().1, Value::Number(2.0f32.to_bits()));
    assert_eq!(value(".5").unwrap().1, Value::Number(0.5f32.to_bits()));
}

#[test]
fn number_stops_at_incomplete_exponent() {
    let (left, v) = value("1eX").unwrap();
    assert_eq!(left, "eX");
    assert_eq!(v, Value::Number(1.0f32.to_bits()));
}

#[test]
fn unrecognized_leading_character_fails() {
    assert_eq!(
        value("x"),
        Err(ParseError::SyntaxMismatch(Context::Unlabeled))
    );
    assert_eq!(
        value("nul"),
        Err(ParseError::SyntaxMismatch(Context::Unlabeled))
    );
}

#[test]
fn unterminated_string_fails() {
    assert_eq!(
        string("\"ab"),
        Err(ParseError::TruncatedInput(Context::Unlabeled))
    );
}

#[test]
fn malformed_hex_escape_fails() {
    assert_eq!(
        string("\"a\\u12G4\""),
        Err(ParseError::MalformedEscape(Context::Unlabeled))
    );
    assert_eq!(
        string("\"a\\u12\""),
        Err(ParseError::MalformedEscape(Context::Unlabeled))
    );
}

#[test]
fn surrogate_escape_fails() {
    assert_eq!(
        string("\"\\uD834x\""),
        Err(ParseError::MalformedEscape(Context::Unlabeled))
    );
}

#[test]
fn object_missing_close_fails() {
    assert_eq!(
        value("{\"a\":1"),
        Err(ParseError::TruncatedInput(Context::Object))
    );
}

#[test]
fn object_missing_colon_fails() {
    assert_eq!(
        value("{\"a\" 1}"),
        Err(ParseError::SyntaxMismatch(Context::ObjectItem))
    );
}

#[test]
fn object_bad_key_fails() {
    assert_eq!(
        value("{1:2}"),
        Err(ParseError::SyntaxMismatch(Context::ObjectItem))
    );
}

#[test]
fn array_missing_close_fails() {
    assert_eq!(
        value("[1,2"),
        Err(ParseError::TruncatedInput(Context::Unlabeled))
    );
}

#[test]
fn array_missing_separator_fails() {
    assert_eq!(
        value("[1 2]"),
        Err(ParseError::SyntaxMismatch(Context::Unlabeled))
    );
}

#[test]
fn array_trailing_comma_fails() {
    assert!(value("[1,]").is_err());
}

#[test]
fn space_before_array_close_needs_element() {
    // The whitespace before a closing bracket is consumed by the trailing
    // whitespace of the last element, so it needs an element to stand after.
    assert_eq!(value("[ 1 ]").unwrap().1, Value::Array(vec![Value::Number(1.0f32.to_bits())]));
    assert!(value("[ ]").is_err());
}

#[test]
fn remaining_input_is_returned() {
    let (left, v) = value(" true  ,rest").unwrap();
    assert_eq!(left, ",rest");
    assert_eq!(v, Value::Boolean(true));
}
