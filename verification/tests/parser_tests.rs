use rust_json_parser::parser::{
    err_on_missing_expected_comma, err_on_unexpected_closing_token, err_on_unexpected_comma,
    err_on_unexpected_value_before_colon, next_token_is_expected_colon, parse_file_contents,
    parse_json,
};
use rust_json_parser::{JsonError, JsonNumber, JsonObject, JsonParser, JsonValue, Token};

/// The number that a double denotes, written as its shortest decimal literal.
fn number(x: f64) -> JsonValue {
    JsonValue::Number(JsonNumber::new(&format!("{}", x)).unwrap())
}

// === Struct Usage Tests ===

#[test]
fn test_parser_creation() {
    let parser = JsonParser::new("42");
    assert!(parser.is_ok());
}

#[test]
fn test_parser_creation_tokenize_invalid_escape_error() {
    let parser = JsonParser::new(r#""\q""#); // Invalid escape
    assert!(matches!(parser, Err(JsonError::InvalidEscape { .. })));
}

#[test]
fn test_parser_creation_tokenize_invalid_json_token_error() {
    let parser = JsonParser::new(r#"@"#); // Invalid JSON token
    assert!(matches!(parser, Err(JsonError::UnexpectedToken { .. })));
}

// === Primitive Parsing Tests ===

#[test]
fn test_parse_number() {
    let mut parser = JsonParser::new("42").unwrap();
    let value = parser.parse().unwrap();
    assert_eq!(value, number(42.0));
}

#[test]
fn test_parse_negative_number() {
    let mut parser = JsonParser::new("-3.14").unwrap();
    let value = parser.parse().unwrap();
    assert_eq!(value, number(-3.14));
}

#[test]
fn test_parse_boolean_true() {
    let mut parser = JsonParser::new("true").unwrap();
    let value = parser.parse().unwrap();
    assert_eq!(value, JsonValue::Boolean(true));
}

#[test]
fn test_parse_boolean_false() {
    let mut parser = JsonParser::new("false").unwrap();
    let value = parser.parse().unwrap();
    assert_eq!(value, JsonValue::Boolean(false));
}

#[test]
fn test_parse_null() {
    let mut parser = JsonParser::new("null").unwrap();
    let value = parser.parse().unwrap();
    assert_eq!(value, JsonValue::Null);
}

#[test]
fn test_parse_simple_string() {
    let mut parser = JsonParser::new(r#""hello""#).unwrap();
    let value = parser.parse().unwrap();
    assert_eq!(value, JsonValue::String("hello".to_string()));
}

// === Escape Sequence Integration Tests ===

#[test]
fn test_parse_string_with_newline() {
    let mut parser = JsonParser::new(r#""hello\nworld""#).unwrap();
    let value = parser.parse().unwrap();
    assert_eq!(value, JsonValue::String("hello\nworld".to_string()));
}

#[test]
fn test_parse_string_with_tab() {
    let mut parser = JsonParser::new(r#""col1\tcol2""#).unwrap();
    let value = parser.parse().unwrap();
    assert_eq!(value, JsonValue::String("col1\tcol2".to_string()));
}

#[test]
fn test_parse_string_with_quotes() {
    let mut parser = JsonParser::new(r#""say \"hi\"""#).unwrap();
    let value = parser.parse().unwrap();
    assert_eq!(value, JsonValue::String("say \"hi\"".to_string()));
}

#[test]
fn test_parse_string_with_unicode() {
    let mut parser = JsonParser::new(r#""\u0048\u0065\u006c\u006c\u006f""#).unwrap();
    let value = parser.parse().unwrap();
    assert_eq!(value, JsonValue::String("Hello".to_string()));
}

#[test]
fn test_parse_complex_escapes() {
    let mut parser = JsonParser::new(r#""line1\nline2\t\"quoted\"\u0021""#).unwrap();
    let value = parser.parse().unwrap();
    assert_eq!(
        value,
        JsonValue::String("line1\nline2\t\"quoted\"!".to_string())
    );
}

// === Error Tests ===

#[test]
fn test_parse_empty_input() {
    let parser = JsonParser::new("");
    // Could fail at tokenization (no tokens) or parsing (empty token list)
    // Either is acceptable - just verify it's an error
    assert!(parser.is_err() || parser.unwrap().parse().is_err());
}

#[test]
fn test_parse_whitespace_only() {
    let parser = JsonParser::new("   ");
    assert!(parser.is_err() || parser.unwrap().parse().is_err());
}

#[test]
fn test_error_unclosed_array() {
    let result = parse_json("[1, 2");
    assert!(result.is_err());
}

#[test]
fn test_error_unclosed_object() {
    let result = parse_json(r#"{"key": 1"#);
    assert!(result.is_err());
}

#[test]
fn test_error_trailing_comma_array() {
    let result = parse_json("[1, 2,]");
    assert!(result.is_err());
}

#[test]
fn test_error_trailing_comma_object() {
    let result = parse_json(r#"{"a": 1,}"#);
    assert!(result.is_err());
}

#[test]
fn test_error_missing_colon() {
    let result = parse_json(r#"{"key" 1}"#);
    assert!(result.is_err());
}

#[test]
fn test_error_invalid_key() {
    let result = parse_json(r#"{123: "value"}"#);
    assert!(result.is_err());
}

#[test]
fn test_error_missing_comma_array() {
    let result = parse_json("[1 2 3]");
    assert!(result.is_err());
}

#[test]
fn test_error_missing_comma_object() {
    let result = parse_json(r#"{"a": 1 "b": 2}"#);
    assert!(result.is_err());
}

// === Arrays Tests ===

#[test]
fn test_parse_empty_array() {
    let value = parse_json("[]").unwrap();
    assert_eq!(value, JsonValue::Array(vec![]));
}

#[test]
fn test_parse_array_single() {
    let value = parse_json("[1]").unwrap();
    assert_eq!(value, JsonValue::Array(vec![number(1.0)]));
}

#[test]
fn test_parse_array_multiple() {
    let value = parse_json("[1, 2, 3]").unwrap();
    let expected = JsonValue::Array(vec![number(1.0), number(2.0), number(3.0)]);
    assert_eq!(value, expected);
}

#[test]
fn test_parse_array_mixed_types() {
    let value = parse_json(r#"[1, "two", true, null]"#).unwrap();
    let expected = JsonValue::Array(vec![
        number(1.0),
        JsonValue::String("two".to_string()),
        JsonValue::Boolean(true),
        JsonValue::Null,
    ]);
    assert_eq!(value, expected);
}

#[test]
fn test_parse_nested_arrays() {
    let value = parse_json("[[1, 2], [3, 4]]").unwrap();
    let expected = JsonValue::Array(vec![
        JsonValue::Array(vec![number(1.0), number(2.0)]),
        JsonValue::Array(vec![number(3.0), number(4.0)]),
    ]);
    assert_eq!(value, expected);
}

#[test]
fn test_parse_deeply_nested() {
    let value = parse_json("[[[1]]]").unwrap();
    let expected = JsonValue::Array(vec![JsonValue::Array(vec![JsonValue::Array(vec![
        number(1.0),
    ])])]);
    assert_eq!(value, expected);
}

#[test]
fn test_array_accessor() {
    let value = parse_json("[1, 2, 3]").unwrap();
    let arr = value.as_array().unwrap();
    assert_eq!(arr.len(), 3);
}

#[test]
fn test_array_get_index() {
    let value = parse_json("[10, 20, 30]").unwrap();
    assert_eq!(value.get_index(1), Some(&number(20.0)));
    assert_eq!(value.get_index(5), None);
}

// === Objects Tests ===

#[test]
fn test_parse_empty_object() {
    let value = parse_json("{}").unwrap();
    assert_eq!(value, JsonValue::Object(JsonObject::new()));
}

#[test]
fn test_parse_object_single_key() {
    let value = parse_json(r#"{"key": "value"}"#).unwrap();
    let mut expected = JsonObject::new();
    expected.insert("key".to_string(), JsonValue::String("value".to_string()));
    assert_eq!(value, JsonValue::Object(expected));
}

#[test]
fn test_parse_object_multiple_keys() {
    let value = parse_json(r#"{"name": "Alice", "age": 30}"#).unwrap();
    if let JsonValue::Object(obj) = value {
        assert_eq!(
            obj.get("name"),
            Some(&JsonValue::String("Alice".to_string()))
        );
        assert_eq!(obj.get("age"), Some(&number(30.0)));
    } else {
        panic!("Expected object");
    }
}

#[test]
fn test_parse_nested_object() {
    let value = parse_json(r#"{"outer": {"inner": 1}}"#).unwrap();
    if let JsonValue::Object(outer) = value {
        if let Some(JsonValue::Object(inner)) = outer.get("outer") {
            assert_eq!(inner.get("inner"), Some(&number(1.0)));
        } else {
            panic!("Expected nested object");
        }
    } else {
        panic!("Expected object");
    }
}

#[test]
fn test_parse_array_in_object() {
    let value = parse_json(r#"{"items": [1, 2, 3]}"#).unwrap();
    if let JsonValue::Object(obj) = value {
        if let Some(JsonValue::Array(arr)) = obj.get("items") {
            assert_eq!(arr.len(), 3);
        } else {
            panic!("Expected array");
        }
    } else {
        panic!("Expected object");
    }
}

#[test]
fn test_parse_object_in_array() {
    let value = parse_json(r#"[{"a": 1}, {"b": 2}]"#).unwrap();
    if let JsonValue::Array(arr) = value {
        assert_eq!(arr.len(), 2);
    } else {
        panic!("Expected array");
    }
}

#[test]
fn test_object_accessor() {
    let value = parse_json(r#"{"name": "test"}"#).unwrap();
    let obj = value.as_object().unwrap();
    assert_eq!(obj.len(), 1);
}

#[test]
fn test_object_get() {
    let value = parse_json(r#"{"name": "Alice", "age": 30}"#).unwrap();
    assert_eq!(
        value.get("name"),
        Some(&JsonValue::String("Alice".to_string()))
    );
    assert_eq!(value.get("missing"), None);
}

// === Serialization Tests ===

#[test]
fn test_display_nested() {
    let value = parse_json(r#"{"arr": [1, 2]}"#).unwrap();
    let output = value.to_compact_string();
    // Object key order may vary, so check components
    assert!(output.contains("\"arr\""));
    assert!(output.contains("[1,2]"));
}

#[test]
fn test_display_nested_array() {
    let value = parse_json(r#"[[[1,2]]]"#).unwrap();
    let output = value.to_compact_string();

    assert_eq!(output, "[[[1,2]]]");
}

#[test]
fn test_display_nested_object() {
    let value = parse_json(r#"{"arr": {"nested": 1, "more": "end"}}"#).unwrap();
    let output = value.to_compact_string();

    assert!(output.contains("\"arr\": {"));
    assert!(output.contains("}}"));
    assert!(output.contains("\"nested\": 1"));
    assert!(output.contains("\"more\": \"end\""));
}

// === Integration ===

#[test]
fn test_integration() {
    // Test the full parsing pipeline
    let mut parser = JsonParser::new("42").unwrap();
    assert_eq!(parser.parse().unwrap(), number(42.0));

    let mut parser = JsonParser::new("true").unwrap();
    assert_eq!(parser.parse().unwrap(), JsonValue::Boolean(true));

    let mut parser = JsonParser::new("null").unwrap();
    assert_eq!(parser.parse().unwrap(), JsonValue::Null);

    let mut parser = JsonParser::new(r#""hello""#).unwrap();
    assert_eq!(
        parser.parse().unwrap(),
        JsonValue::String("hello".to_string())
    );
}

#[test]
fn test_error_propagation() {
    // Test that errors propagate properly with correct details
    let result = JsonParser::new("@invalid@");
    assert!(result.is_err());

    // Validate error details through pattern matching
    match result {
        Err(JsonError::UnexpectedToken {
            expected,
            found,
            position,
        }) => {
            assert_eq!(expected, "valid JSON value");
            assert_eq!(found, "@");
            assert_eq!(position, 0);
        }
        _ => panic!("Expected UnexpectedToken error"),
    }
}

// === Exact errors of the grammar ===

fn unexpected(expected: &str, found: &str, position: usize) -> JsonError {
    JsonError::UnexpectedToken {
        expected: expected.to_string(),
        found: found.to_string(),
        position,
    }
}

fn ended(expected: &str, position: usize) -> JsonError {
    JsonError::UnexpectedEndOfInput {
        expected: expected.to_string(),
        position,
    }
}

#[test]
fn empty_token_sequence_ends_the_input() {
    assert_eq!(parse_json("").unwrap_err(), ended("string", 0));
    assert_eq!(parse_json(" \n ").unwrap_err(), ended("string", 0));
}

#[test]
fn punctuation_is_no_value() {
    assert_eq!(
        parse_json("]").unwrap_err(),
        unexpected("string", "RightBracket", 0)
    );
    assert_eq!(parse_json(",").unwrap_err(), unexpected("string", "Comma", 0));
    assert_eq!(parse_json(":").unwrap_err(), unexpected("string", "Colon", 0));
    assert_eq!(
        parse_json("}").unwrap_err(),
        unexpected("string", "RightBrace", 0)
    );
}

#[test]
fn array_errors_are_exact() {
    assert_eq!(
        parse_json("[1, 2").unwrap_err(),
        ended("closing bracket", 4)
    );
    assert_eq!(parse_json("[").unwrap_err(), ended("closing bracket", 1));
    assert_eq!(
        parse_json("[1,").unwrap_err(),
        ended("string, bool, number or object", 3)
    );
    assert_eq!(
        parse_json("[1, 2,]").unwrap_err(),
        unexpected("string, bool, number or object", "]", 5)
    );
    assert_eq!(
        parse_json("[1 2 3]").unwrap_err(),
        unexpected(",", "Number(2)", 2)
    );
    assert_eq!(
        parse_json("[1,,2]").unwrap_err(),
        unexpected("closing bracket", ",", 4)
    );
    assert_eq!(
        parse_json("[,1]").unwrap_err(),
        unexpected("closing bracket", ",", 2)
    );
    assert_eq!(
        parse_json("[1 \"a\"]").unwrap_err(),
        unexpected(",", "String(\"a\")", 2)
    );
    assert_eq!(
        parse_json("[1 [2]]").unwrap_err(),
        unexpected(",", "LeftBracket", 2)
    );
    assert_eq!(
        parse_json("[1 {}]").unwrap_err(),
        unexpected(",", "LeftBrace", 2)
    );
    assert_eq!(
        parse_json("[true null]").unwrap_err(),
        unexpected(",", "Null", 2)
    );
    assert_eq!(
        parse_json("[null false]").unwrap_err(),
        unexpected(",", "Boolean(false)", 2)
    );
    assert_eq!(
        parse_json("[1:2]").unwrap_err(),
        unexpected("valid JSON value", "Colon", 2)
    );
    assert_eq!(
        parse_json("[1}").unwrap_err(),
        unexpected("valid JSON value", "RightBrace", 2)
    );
    assert_eq!(
        parse_json("[[1, 2").unwrap_err(),
        ended("closing bracket", 5)
    );
}

#[test]
fn object_errors_are_exact() {
    assert_eq!(
        parse_json(r#"{"key": 1"#).unwrap_err(),
        ended("closing brace", 4)
    );
    assert_eq!(parse_json("{").unwrap_err(), ended("closing brace", 1));
    assert_eq!(
        parse_json(r#"{"a": 1,}"#).unwrap_err(),
        unexpected("string", "}", 5)
    );
    assert_eq!(
        parse_json(r#"{"a": 1,"#).unwrap_err(),
        ended("string, bool, number or object", 5)
    );
    assert_eq!(
        parse_json(r#"{"key" 1}"#).unwrap_err(),
        unexpected(":", "Number(1)", 1)
    );
    assert_eq!(
        parse_json(r#"{123: "value"}"#).unwrap_err(),
        unexpected("string", "123", 1)
    );
    assert_eq!(
        parse_json("{true: 1}").unwrap_err(),
        unexpected("string", "true", 1)
    );
    assert_eq!(
        parse_json("{false: 1}").unwrap_err(),
        unexpected("string", "false", 1)
    );
    assert_eq!(
        parse_json("{null: 1}").unwrap_err(),
        unexpected("string", "null", 1)
    );
    assert_eq!(
        parse_json(r#"{"a": 1 "b": 2}"#).unwrap_err(),
        unexpected(",", "String(\"b\")", 4)
    );
    assert_eq!(
        parse_json(r#"{"a": 1 2}"#).unwrap_err(),
        unexpected(",", "Number(2)", 4)
    );
    assert_eq!(
        parse_json(r#"{,"a": 1}"#).unwrap_err(),
        unexpected("closing brace", ",", 2)
    );
    assert_eq!(parse_json(r#"{"a""#).unwrap_err(), ended(":", 1));
    assert_eq!(parse_json(r#"{"a": "b""#).unwrap_err(), ended(",", 3));
    assert_eq!(
        parse_json(r#"{"a": 1]"#).unwrap_err(),
        unexpected("valid JSON value", "RightBracket", 4)
    );
}

#[test]
fn container_where_a_key_is_due_is_rejected() {
    assert_eq!(
        parse_json("{{}}").unwrap_err(),
        unexpected("string", "LeftBrace", 1)
    );
    assert_eq!(
        parse_json("{[1]}").unwrap_err(),
        unexpected("string", "LeftBracket", 1)
    );
    assert_eq!(
        parse_json(r#"{"a": 1, {"b": 2}}"#).unwrap_err(),
        unexpected("string", "LeftBrace", 5)
    );
}

#[test]
fn duplicate_keys_keep_the_last_value() {
    let value = parse_json(r#"{"a": 1, "a": 2}"#).unwrap();
    assert_eq!(value.get("a"), Some(&number(2.0)));
    assert_eq!(value.as_object().unwrap().len(), 1);
    let value = parse_json(r#"{"a": 1, "b": 2, "a": [3]}"#).unwrap();
    assert_eq!(value.as_object().unwrap().len(), 2);
    assert_eq!(value.get("a"), Some(&JsonValue::Array(vec![number(3.0)])));
    assert_eq!(value.get("b"), Some(&number(2.0)));
    assert_eq!(value.to_compact_string(), r#"{"a": [3],"b": 2}"#);
}

#[test]
fn tokens_after_the_value_are_rejected() {
    let mut parser = JsonParser::new("[1] 2").unwrap();
    assert_eq!(
        parser.parse().unwrap_err(),
        unexpected("end of input", "Number(2)", 3)
    );
    assert_eq!(
        parse_json("1 2").unwrap_err(),
        unexpected("end of input", "Number(2)", 1)
    );
    assert_eq!(
        parse_json("{} {}").unwrap_err(),
        unexpected("end of input", "LeftBrace", 2)
    );
    assert_eq!(
        parse_json("[1]]").unwrap_err(),
        unexpected("end of input", "RightBracket", 3)
    );
    assert_eq!(
        parse_json("true,").unwrap_err(),
        unexpected("end of input", "Comma", 1)
    );
    assert_eq!(
        parse_json("\"a\": 1").unwrap_err(),
        unexpected("end of input", "Colon", 1)
    );
    assert_eq!(parse_json(" [1] \n").unwrap(), JsonValue::Array(vec![number(1.0)]));
}

#[test]
fn a_parsed_document_leaves_nothing_to_parse() {
    let mut parser = JsonParser::new("7").unwrap();
    assert_eq!(parser.parse().unwrap(), number(7.0));
    assert_eq!(parser.parse().unwrap_err(), ended("string", 1));
    let mut parser = JsonParser::new("[1, [2]]").unwrap();
    assert!(parser.parse().is_ok());
    assert_eq!(parser.parse().unwrap_err(), ended("string", 7));
}

#[test]
fn a_colon_stands_only_after_a_key() {
    assert_eq!(
        parse_json("{: 1}").unwrap_err(),
        unexpected("string", "Colon", 1)
    );
    assert_eq!(
        parse_json(r#"{"a":: 1}"#).unwrap_err(),
        unexpected("valid JSON value", "Colon", 3)
    );
    assert_eq!(
        parse_json(r#"{"a": 1:}"#).unwrap_err(),
        unexpected(",", "Colon", 4)
    );
    assert_eq!(
        parse_json(r#"{"a": 1, : 2}"#).unwrap_err(),
        unexpected("string", "Colon", 5)
    );
    assert_eq!(
        parse_json(r#"{"a": 1, "b" 2}"#).unwrap_err(),
        unexpected(":", "Number(2)", 5)
    );
    assert_eq!(
        parse_json(r#"[{"a": 1, : 2}]"#).unwrap_err(),
        unexpected("string", "Colon", 6)
    );
}

#[test]
fn a_closing_brace_stands_only_at_the_start_or_after_a_value() {
    assert_eq!(
        parse_json(r#"{"a":}"#).unwrap_err(),
        unexpected("valid JSON value", "RightBrace", 3)
    );
    assert_eq!(
        parse_json(r#"{"a": 1, "b":}"#).unwrap_err(),
        unexpected("valid JSON value", "RightBrace", 7)
    );
    assert_eq!(
        parse_json(r#"{"a"}"#).unwrap_err(),
        unexpected(":", "RightBrace", 1)
    );
    assert_eq!(
        parse_json(r#"{"a":,}"#).unwrap_err(),
        unexpected("closing brace", ",", 4)
    );
    assert_eq!(parse_json("{}").unwrap(), JsonValue::Object(JsonObject::new()));
    assert!(parse_json(r#"{"a": {}}"#).is_ok());
    assert!(parse_json(r#"{"a": "b", "c": "d"}"#).is_ok());
}

#[test]
fn contents_of_a_file_are_parsed_or_the_failed_read_is_reported() {
    assert_eq!(
        parse_file_contents(Ok("[1]".to_string())),
        Ok(JsonValue::Array(vec![number(1.0)]))
    );
    assert_eq!(
        parse_file_contents(Ok("[1".to_string())),
        Err(ended("closing bracket", 2))
    );
    assert_eq!(
        parse_file_contents(Err("No such file or directory".to_string())),
        Err(JsonError::Io {
            message: "No such file or directory".to_string()
        })
    );
    assert_eq!(
        parse_file_contents(Err(String::new())),
        Err(JsonError::Io {
            message: String::new()
        })
    );
}

#[test]
fn members_keep_the_order_of_their_first_key() {
    let value = parse_json(r#"{"b": 1, "a": 2, "c": {"z": null, "y": true}}"#).unwrap();
    let object = value.as_object().unwrap();
    assert_eq!(object.key_at(0), "b");
    assert_eq!(object.key_at(1), "a");
    assert_eq!(object.key_at(2), "c");
    assert_eq!(object.value_at(1), &number(2.0));
    assert_eq!(
        value.to_compact_string(),
        r#"{"b": 1,"a": 2,"c": {"z": null,"y": true}}"#
    );
}

#[test]
fn comma_helper_reports_the_token_found() {
    assert_eq!(err_on_missing_expected_comma(false, &Token::Null, 3), Ok(()));
    assert_eq!(
        err_on_missing_expected_comma(true, &Token::Null, 3),
        Err(unexpected(",", "Null", 3))
    );
    assert_eq!(err_on_unexpected_comma(true, "closing brace", 7), Ok(()));
    assert_eq!(
        err_on_unexpected_comma(false, "closing brace", 7),
        Err(unexpected("closing brace", ",", 7))
    );
}

#[test]
fn colon_helpers_tell_keys_from_values() {
    assert_eq!(err_on_unexpected_value_before_colon(true, "1", 2), Ok(()));
    assert_eq!(
        err_on_unexpected_value_before_colon(false, "1", 2),
        Err(unexpected("string", "1", 2))
    );
    assert_eq!(
        next_token_is_expected_colon(true, &Token::Comma, 1),
        Ok(false)
    );
    assert_eq!(
        next_token_is_expected_colon(false, &Token::Colon, 1),
        Ok(true)
    );
    assert_eq!(
        next_token_is_expected_colon(false, &Token::Comma, 1),
        Err(unexpected(":", "Comma", 1))
    );
}

#[test]
fn closing_token_helper_compares_kinds() {
    assert_eq!(
        err_on_unexpected_closing_token(&Token::Null, &Token::RightBrace, "string", "}", 4),
        Ok(())
    );
    assert_eq!(
        err_on_unexpected_closing_token(&Token::RightBrace, &Token::RightBrace, "string", "}", 4),
        Err(unexpected("string", "}", 4))
    );
}

#[test]
fn documents_without_their_closer_end_the_input() {
    let documents = [
        "[]",
        "{}",
        "[1, 2]",
        "[ 1 ,\n [ true , null ] , \"]\" ]",
        r#"{"a": "b"}"#,
        r#"{ "a" : { "b" : [ 1 , { } ] } , "c" : "}" }"#,
        "{\n  \"key\": [\n    1,\n    2\n  ]\n}",
    ];
    for document in documents {
        assert!(parse_json(document).is_ok());
        let cut = &document[..document.len() - 1];
        assert!(
            matches!(
                parse_json(cut),
                Err(JsonError::UnexpectedEndOfInput { .. })
            ),
            "document {document:?}"
        );
    }
}

#[test]
fn every_beginning_of_the_tokens_of_a_document_ends_the_input() {
    // Every token here is followed by a space, so that a cut after a space
    // leaves whole tokens.
    let document = r#"{ "a" : [ 1 , { "b" : "c" } , [ ] ] , "d" : null } "#;
    assert!(parse_json(document).is_ok());
    let mut cuts = 0;
    for (at, c) in document.char_indices() {
        if c == ' ' && at + 1 < document.len() {
            assert!(
                matches!(
                    parse_json(&document[..at]),
                    Err(JsonError::UnexpectedEndOfInput { .. })
                ),
                "cut at {at}"
            );
            cuts += 1;
        }
    }
    assert_eq!(cuts, 19);
}
