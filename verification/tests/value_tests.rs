use rust_json_parser::parser::parse_json;
use rust_json_parser::{JsonError, JsonNumber, JsonObject, JsonValue};

/// The number that a double denotes, written as its shortest decimal literal.
fn number(x: f64) -> JsonValue {
    JsonValue::Number(JsonNumber::new(&format!("{}", x)).unwrap())
}

/// The double that a number value denotes.
fn as_f64(value: &JsonValue) -> Option<f64> {
    value
        .as_number()
        .map(|n| n.literal().parse::<f64>().unwrap())
}

#[test]
fn test_json_value_creation() {
    let null_val = JsonValue::Null;
    let bool_val = JsonValue::Boolean(true);
    let num_val = number(42.5);
    let str_val = JsonValue::String("hello".to_string());

    assert!(null_val.is_null());
    assert_eq!(bool_val.as_bool(), Some(true));
    assert_eq!(as_f64(&num_val), Some(42.5));
    assert_eq!(str_val.as_str(), Some("hello"));
}

#[test]
fn test_json_value_accessors() {
    let value = JsonValue::String("test".to_string());
    assert_eq!(value.as_str(), Some("test"));
    assert_eq!(as_f64(&value), None);
    assert_eq!(value.as_bool(), None);
    assert!(!value.is_null());

    let value = number(42.0);
    assert_eq!(as_f64(&value), Some(42.0));
    assert_eq!(value.as_str(), None);

    let value = JsonValue::Boolean(true);
    assert_eq!(value.as_bool(), Some(true));

    let value = JsonValue::Null;
    assert!(value.is_null());
}

#[test]
fn test_json_value_equality() {
    assert_eq!(JsonValue::Null, JsonValue::Null);
    assert_eq!(JsonValue::Boolean(true), JsonValue::Boolean(true));
    assert_eq!(number(42.0), number(42.0));
    assert_eq!(
        JsonValue::String("test".to_string()),
        JsonValue::String("test".to_string())
    );

    assert_ne!(JsonValue::Null, JsonValue::Boolean(false));
    assert_ne!(number(1.0), number(2.0));
}

#[test]
fn test_display_primitives() {
    assert_eq!(JsonValue::Null.to_compact_string(), "null");
    assert_eq!(JsonValue::Boolean(true).to_compact_string(), "true");
    assert_eq!(JsonValue::Boolean(false).to_compact_string(), "false");
    assert_eq!(number(42.0).to_compact_string(), "42");
    assert_eq!(number(3.14).to_compact_string(), "3.14");
    assert_eq!(
        JsonValue::String("hello".to_string()).to_compact_string(),
        "\"hello\""
    );
}

#[test]
fn test_display_array() {
    let value = JsonValue::Array(vec![number(1.0), number(2.0)]);
    assert_eq!(value.to_compact_string(), "[1,2]");
}

#[test]
fn test_display_empty_containers() {
    assert_eq!(JsonValue::Array(vec![]).to_compact_string(), "[]");
    assert_eq!(
        JsonValue::Object(JsonObject::new()).to_compact_string(),
        "{}"
    );
}

#[test]
fn test_display_escape_string() {
    let value = JsonValue::String("hello\nworld".to_string());
    assert_eq!(value.to_compact_string(), "\"hello\\nworld\"");
}

#[test]
fn test_display_escape_quotes() {
    let value = JsonValue::String("say \"hi\"".to_string());
    assert_eq!(value.to_compact_string(), "\"say \\\"hi\\\"\"");
}

// === Further cases ===

fn sample() -> JsonValue {
    let mut inner = JsonObject::new();
    inner.insert("x".to_string(), JsonValue::Null);
    let mut object = JsonObject::new();
    object.insert(
        "key".to_string(),
        JsonValue::Array(vec![number(1.0), number(2.0)]),
    );
    object.insert("o".to_string(), JsonValue::Object(inner));
    object.insert("e".to_string(), JsonValue::Array(vec![]));
    object.insert("f".to_string(), JsonValue::Object(JsonObject::new()));
    object.insert("s".to_string(), JsonValue::String("a\tb".to_string()));
    JsonValue::Object(object)
}

#[test]
fn compact_text_is_exact() {
    assert_eq!(
        sample().to_compact_string(),
        r#"{"key": [1,2],"o": {"x": null},"e": [],"f": {},"s": "a\tb"}"#
    );
}

#[test]
fn compact_text_escapes_keys() {
    let mut object = JsonObject::new();
    object.insert("a\"b\\".to_string(), JsonValue::Boolean(false));
    let value = JsonValue::Object(object);
    assert_eq!(value.to_compact_string(), r#"{"a\"b\\": false}"#);
    assert_eq!(parse_json(&value.to_compact_string()).unwrap(), value);
}

#[test]
fn pretty_text_is_exact() {
    assert_eq!(
        sample().pretty_print(2),
        "{\n  \"key\": [\n    1,\n    2\n  ],\n  \"o\": {\n    \"x\": null\n  },\n  \"e\": [],\n  \"f\": {},\n  \"s\": \"a\\tb\"\n}"
    );
    assert_eq!(
        JsonValue::Array(vec![JsonValue::Array(vec![JsonValue::Null])]).pretty_print(3),
        "[\n   [\n      null\n   ]\n]"
    );
}

#[test]
fn pretty_text_without_indentation_keeps_the_line_breaks() {
    assert_eq!(
        JsonValue::Array(vec![number(1.0), JsonValue::Array(vec![number(2.0)])]).pretty_print(0),
        "[\n1,\n[\n2\n]\n]"
    );
}

#[test]
fn pretty_text_of_what_has_no_entries_builds_no_indentation() {
    assert_eq!(JsonValue::Null.pretty_print(usize::MAX), "null");
    assert_eq!(number(1.5).pretty_print(usize::MAX), "1.5");
    assert_eq!(
        JsonValue::String("s".to_string()).pretty_print(usize::MAX),
        "\"s\""
    );
    assert_eq!(JsonValue::Array(vec![]).pretty_print(usize::MAX), "[]");
    assert_eq!(
        JsonValue::Object(JsonObject::new()).pretty_print(usize::MAX),
        "{}"
    );
}

#[test]
fn pretty_text_of_scalars_and_empty_containers_has_no_line_break() {
    assert_eq!(JsonValue::Null.pretty_print(4), "null");
    assert_eq!(JsonValue::Boolean(true).pretty_print(4), "true");
    assert_eq!(number(-0.5).pretty_print(4), "-0.5");
    assert_eq!(
        JsonValue::String("a\nb".to_string()).pretty_print(4),
        "\"a\\nb\""
    );
    assert_eq!(JsonValue::Array(vec![]).pretty_print(4), "[]");
    assert_eq!(JsonValue::Object(JsonObject::new()).pretty_print(4), "{}");
}

#[test]
fn pretty_print_structure() {
    let value = parse_json(r#"{"key": [1, 2]}"#).unwrap();
    let pretty = value.pretty_print(2);
    assert!(pretty.contains('\n'));
    assert!(pretty.contains("\n  \"key\": ["));
    assert!(pretty.contains("\n    1,"));
    assert_eq!(pretty, "{\n  \"key\": [\n    1,\n    2\n  ]\n}");
    assert_eq!(parse_json(&pretty).unwrap(), value);
}

#[test]
fn numeric_formatting() {
    assert_eq!(number(42.0).to_compact_string(), "42");
    assert_eq!(number(3.14).to_compact_string(), "3.14");
    assert_eq!(number(-0.0).to_compact_string(), "-0");
    assert_eq!(number(1e21).to_compact_string(), "1000000000000000000000");
    assert_eq!(number(0.1 + 0.2).to_compact_string(), "0.30000000000000004");
}

#[test]
fn numbers_are_written_as_their_literal() {
    let value = parse_json("[1.0, 1e2, -0.50]").unwrap();
    assert_eq!(value.to_compact_string(), "[1.0,1e2,-0.50]");
    assert_eq!(as_f64(value.get_index(1).unwrap()), Some(100.0));
    assert_eq!(
        value.get_index(0).unwrap().as_number().unwrap().literal(),
        "1.0"
    );
}

#[test]
fn accessors_are_total() {
    let values = vec![
        JsonValue::Null,
        JsonValue::Boolean(false),
        number(1.0),
        JsonValue::String("s".to_string()),
        JsonValue::Array(vec![JsonValue::Null]),
        sample(),
    ];
    let mut seen = 0;
    for value in &values {
        seen += value.is_null() as usize;
        seen += value.as_bool().is_some() as usize;
        seen += value.as_number().is_some() as usize;
        seen += value.as_str().is_some() as usize;
        seen += value.as_array().is_some() as usize;
        seen += value.as_object().is_some() as usize;
    }
    assert_eq!(seen, values.len());
    assert_eq!(values[4].get("key"), None);
    assert_eq!(values[5].get_index(0), None);
    assert_eq!(values[4].get_index(0), Some(&JsonValue::Null));
    assert_eq!(values[4].get_index(1), None);
    assert_eq!(values[5].get("e"), Some(&JsonValue::Array(vec![])));
    assert_eq!(values[5].get("E"), None);
    assert_eq!(values[0].get("key"), None);
    assert_eq!(values[0].get_index(0), None);
}

#[test]
fn insert_overwrites_in_place_and_returns_the_old_value() {
    let mut object = JsonObject::new();
    assert!(object.is_empty());
    assert_eq!(object.insert("a".to_string(), number(1.0)), None);
    assert_eq!(object.insert("b".to_string(), number(2.0)), None);
    assert_eq!(object.insert("c".to_string(), number(3.0)), None);
    assert_eq!(
        object.insert("a".to_string(), JsonValue::Null),
        Some(number(1.0))
    );
    assert_eq!(object.len(), 3);
    assert!(!object.is_empty());
    assert_eq!(object.key_at(0), "a");
    assert_eq!(object.key_at(1), "b");
    assert_eq!(object.key_at(2), "c");
    assert_eq!(object.get("a"), Some(&JsonValue::Null));
    assert_eq!(object.get("c"), Some(&number(3.0)));
    assert_eq!(object.get("d"), None);
    assert_eq!(
        JsonValue::Object(object).to_compact_string(),
        r#"{"a": null,"b": 2,"c": 3}"#
    );
}

#[test]
fn clone_copies_the_whole_tree() {
    let value = sample();
    let copy = value.clone();
    assert_eq!(copy, value);
    assert_eq!(copy.to_compact_string(), value.to_compact_string());
    let object = value.as_object().unwrap().clone();
    assert_eq!(&object, value.as_object().unwrap());
}

#[test]
fn nesting() {
    let value = parse_json("[[[1]]]").unwrap();
    let innermost = value
        .get_index(0)
        .and_then(|v| v.get_index(0))
        .and_then(|v| v.get_index(0));
    assert_eq!(innermost, Some(&number(1.0)));
    assert!(matches!(
        parse_json("[[[1]]"),
        Err(JsonError::UnexpectedEndOfInput { .. })
    ));
    assert!(matches!(
        parse_json(r#"{"a": {"b": 1}"#),
        Err(JsonError::UnexpectedEndOfInput { .. })
    ));
}

#[test]
fn rejection() {
    for input in ["[1, 2,]", r#"{"a": 1,}"#, r#"{"key" 1}"#, "[1 2 3]"] {
        assert!(matches!(
            parse_json(input),
            Err(JsonError::UnexpectedToken { .. }) | Err(JsonError::UnexpectedEndOfInput { .. })
        ));
    }
}

#[test]
fn escape_fidelity() {
    assert_eq!(
        parse_json(r#""a\nb\tc\"""#).unwrap(),
        JsonValue::String("a\nb\tc\"".to_string())
    );
    assert_eq!(
        parse_json(r#""\u0041""#).unwrap(),
        JsonValue::String("A".to_string())
    );
}

#[test]
fn round_trip_on_a_sample() {
    let mut values = vec![
        sample(),
        JsonValue::Null,
        number(-12.5e-3),
        JsonValue::String("\"\\\n\t\r\u{8}\u{c}/\u{e9}\u{1F600}\u{1}".to_string()),
        JsonValue::Array(vec![]),
        JsonValue::Array(vec![sample(), sample(), JsonValue::Boolean(true)]),
    ];
    let mut odd_keys = JsonObject::new();
    odd_keys.insert("".to_string(), number(0.0));
    odd_keys.insert("a\"b".to_string(), JsonValue::Array(vec![sample()]));
    odd_keys.insert("\\u0041".to_string(), JsonValue::Null);
    values.push(JsonValue::Object(odd_keys));
    for value in &values {
        let text = value.to_compact_string();
        let parsed = parse_json(&text).unwrap();
        assert_eq!(&parsed, value);
        assert_eq!(parsed.to_compact_string(), text);
        for indent in [0usize, 1, 2, 4] {
            assert_eq!(&parse_json(&value.pretty_print(indent)).unwrap(), value);
        }
    }
}

#[test]
fn objects_are_equal_whatever_the_order_of_their_members() {
    let a = parse_json(r#"{"a": 1, "b": [true, {"x": null, "y": "s"}]}"#).unwrap();
    let b = parse_json(r#"{"b": [true, {"y": "s", "x": null}], "a": 1}"#).unwrap();
    assert_eq!(a, b);
    assert_eq!(b, a);
    assert_ne!(a.to_compact_string(), b.to_compact_string());
    let c = parse_json(r#"{"a": 1, "b": [{"x": null, "y": "s"}, true]}"#).unwrap();
    assert_ne!(a, c);
    let d = parse_json(r#"{"a": 1}"#).unwrap();
    assert_ne!(a, d);
    assert_ne!(d, a);
    let e = parse_json(r#"{"a": 1, "c": [true, {"x": null, "y": "s"}]}"#).unwrap();
    assert_ne!(a, e);
    let f = parse_json(r#"{"a": 2, "b": [true, {"x": null, "y": "s"}]}"#).unwrap();
    assert_ne!(a, f);
}

#[test]
fn values_of_different_kinds_are_not_equal() {
    let values = vec![
        JsonValue::Null,
        JsonValue::Boolean(false),
        JsonValue::Boolean(true),
        number(0.0),
        number(1.0),
        JsonValue::String("".to_string()),
        JsonValue::String("1".to_string()),
        JsonValue::Array(vec![]),
        JsonValue::Array(vec![JsonValue::Null]),
        JsonValue::Object(JsonObject::new()),
        sample(),
    ];
    for (i, a) in values.iter().enumerate() {
        for (j, b) in values.iter().enumerate() {
            assert_eq!(a == b, i == j);
        }
    }
}

#[test]
fn numbers_are_equal_when_their_literals_are() {
    assert_eq!(JsonNumber::new("1.0"), JsonNumber::new("1.0"));
    assert_ne!(JsonNumber::new("1.0"), JsonNumber::new("1"));
    assert_ne!(parse_json("1.0").unwrap(), parse_json("1").unwrap());
    assert_eq!(
        as_f64(&parse_json("1.0").unwrap()),
        as_f64(&parse_json("1").unwrap())
    );
}
