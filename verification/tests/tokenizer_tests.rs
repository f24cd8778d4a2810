use rust_json_parser::tokenizer::parse_unicode_hex;
use rust_json_parser::utils::{escape_json_string, resolve_escape_sequence};
use rust_json_parser::{JsonError, JsonNumber, Token, Tokenizer};

/// The number that a double denotes, written as its shortest decimal literal.
fn num(x: f64) -> JsonNumber {
    JsonNumber::new(&format!("{}", x)).unwrap()
}

// === Struct Usage Tests ===

#[test]
fn test_tokenizer_struct_creation() {
    let _ = Tokenizer::new(r#""hello""#);
    // Tokenizer should be created without error
    // Internal state is private, so we test via tokenize()
}

#[test]
fn test_empty_braces() {
    let mut tokenizer = Tokenizer::new("{}");
    let tokens = tokenizer
        .tokenize()
        .expect("Tokenize should process empty brackets");
    assert_eq!(tokens.len(), 2);
    assert_eq!(tokens[0], Token::LeftBrace);
    assert_eq!(tokens[1], Token::RightBrace);
}

#[test]
fn test_tokenizer_multiple_tokens() {
    let mut tokenizer = Tokenizer::new("123 456");
    let tokens = tokenizer.tokenize().unwrap();
    assert_eq!(tokens.len(), 2);
}

// === Basic Token Tests ===

#[test]
fn test_tokenize_number() {
    let mut tokenizer = Tokenizer::new("42");
    let tokens = tokenizer.tokenize().unwrap();
    assert_eq!(tokens, vec![Token::Number(num(42.0))]);
}

#[test]
fn test_tokenize_negative_number() {
    let mut tokenizer = Tokenizer::new("-3.14");
    let tokens = tokenizer.tokenize().unwrap();
    assert_eq!(tokens, vec![Token::Number(num(-3.14))]);
}

#[test]
fn test_decimal_number() {
    let mut tokenizer = Tokenizer::new("0.5");
    let tokens = tokenizer.tokenize().unwrap();
    assert_eq!(tokens.len(), 1);
    assert_eq!(tokens[0], Token::Number(num(0.5)));
}

#[test]
fn test_leading_decimal_not_a_number() {
    // .5 is invalid JSON - numbers must have leading digit (0.5 is valid)
    let mut tokenizer = Tokenizer::new(".5");
    let result = tokenizer.tokenize();
    // Should NOT be interpreted as 0.5
    assert!(matches!(result, Err(JsonError::UnexpectedToken { .. })));
}

#[test]
fn test_tokenize_literals() {
    let mut t1 = Tokenizer::new("true");
    assert_eq!(t1.tokenize().unwrap(), vec![Token::Boolean(true)]);

    let mut t2 = Tokenizer::new("false");
    assert_eq!(t2.tokenize().unwrap(), vec![Token::Boolean(false)]);

    let mut t3 = Tokenizer::new("null");
    assert_eq!(t3.tokenize().unwrap(), vec![Token::Null]);
}

#[test]
fn test_tokenize_simple_string() {
    let mut tokenizer = Tokenizer::new(r#""hello""#);
    let tokens = tokenizer.tokenize().unwrap();
    assert_eq!(tokens, vec![Token::String("hello".to_string())]);
}

#[test]
fn test_simple_object() {
    let mut tokenizer = Tokenizer::new(r#"{"name": "Alice"}"#);
    let tokens = tokenizer
        .tokenize()
        .expect("Tokenize should process simple object");
    assert_eq!(tokens.len(), 5);
    assert_eq!(tokens[0], Token::LeftBrace);
    assert_eq!(tokens[1], Token::String("name".to_string()));
    assert_eq!(tokens[2], Token::Colon);
    assert_eq!(tokens[3], Token::String("Alice".to_string()));
    assert_eq!(tokens[4], Token::RightBrace);
}

#[test]
fn test_multiple_values() {
    let mut tokenizer = Tokenizer::new(r#"{"age": 30, "active": true}"#);
    let tokens = tokenizer
        .tokenize()
        .expect("Tokenize should process object with multiple values");

    assert_eq!(tokens.len(), 9);
    // Verify we have the right tokens
    assert_eq!(tokens[0], Token::LeftBrace);
    assert!(tokens.contains(&Token::String("age".to_string())));
    assert!(tokens.contains(&Token::Number(num(30.0))));
    assert!(tokens.contains(&Token::Comma));
    assert!(tokens.contains(&Token::String("active".to_string())));
    assert!(tokens.contains(&Token::Boolean(true)));
    assert_eq!(tokens[8], Token::RightBrace);
}

// String boundary tests - verify inner vs outer quote handling
#[test]
fn test_empty_string() {
    let mut tokenizer = Tokenizer::new(r#""""#);
    let tokens = tokenizer
        .tokenize()
        .expect("Tokenize should process adjacent quotes with no inner content");
    assert_eq!(tokens.len(), 1);
    assert_eq!(tokens[0], Token::String("".to_string()));
}

#[test]
fn test_string_containing_json_special_chars() {
    let mut tokenizer = Tokenizer::new(r#""{key: value}""#);
    let tokens = tokenizer
        .tokenize()
        .expect("Tokenizer should process JSON delimiters inside string");
    assert_eq!(tokens.len(), 1);
    assert_eq!(tokens[0], Token::String("{key: value}".to_string()));
}

#[test]
fn test_string_with_keyword_like_content() {
    let mut tokenizer = Tokenizer::new(r#""not true or false""#);
    let tokens = tokenizer
        .tokenize()
        .expect("Tokenizer should handle keywords as string content");
    assert_eq!(tokens.len(), 1);
    assert_eq!(tokens[0], Token::String("not true or false".to_string()));
}

#[test]
fn test_string_with_number_like_content() {
    let mut tokenizer = Tokenizer::new(r#""phone: 555-1234""#);
    let tokens = tokenizer
        .tokenize()
        .expect("Tokenizer should handle numeric content inside string");
    assert_eq!(tokens.len(), 1);
    assert_eq!(tokens[0], Token::String("phone: 555-1234".to_string()));
}

// === Escape Sequence Tests ===

#[test]
fn test_escape_newline() {
    let mut tokenizer = Tokenizer::new(r#""hello\nworld""#);
    let tokens = tokenizer.tokenize().unwrap();
    assert_eq!(tokens, vec![Token::String("hello\nworld".to_string())]);
}

#[test]
fn test_escape_tab() {
    let mut tokenizer = Tokenizer::new(r#""col1\tcol2""#);
    let tokens = tokenizer.tokenize().unwrap();
    assert_eq!(tokens, vec![Token::String("col1\tcol2".to_string())]);
}

#[test]
fn test_escape_quote() {
    let mut tokenizer = Tokenizer::new(r#""say \"hello\"""#);
    let tokens = tokenizer.tokenize().unwrap();
    assert_eq!(tokens, vec![Token::String("say \"hello\"".to_string())]);
}

#[test]
fn test_escape_backslash() {
    let mut tokenizer = Tokenizer::new(r#""path\\to\\file""#);
    let tokens = tokenizer.tokenize().unwrap();
    assert_eq!(tokens, vec![Token::String("path\\to\\file".to_string())]);
}

#[test]
fn test_escape_forward_slash() {
    let mut tokenizer = Tokenizer::new(r#""a\/b""#);
    let tokens = tokenizer.tokenize().unwrap();
    assert_eq!(tokens, vec![Token::String("a/b".to_string())]);
}

#[test]
fn test_escape_carriage_return() {
    let mut tokenizer = Tokenizer::new(r#""line\r\n""#);
    let tokens = tokenizer.tokenize().unwrap();
    assert_eq!(tokens, vec![Token::String("line\r\n".to_string())]);
}

#[test]
fn test_escape_backspace_formfeed() {
    let mut tokenizer = Tokenizer::new(r#""\b\f""#);
    let tokens = tokenizer.tokenize().unwrap();
    assert_eq!(tokens, vec![Token::String("\u{0008}\u{000C}".to_string())]);
}

#[test]
fn test_multiple_escapes() {
    let mut tokenizer = Tokenizer::new(r#""a\nb\tc\"""#);
    let tokens = tokenizer.tokenize().unwrap();
    assert_eq!(tokens, vec![Token::String("a\nb\tc\"".to_string())]);
}

// === Unicode Escape Tests ===

#[test]
fn test_unicode_escape_basic() {
    // \u0041 is 'A'
    let mut tokenizer = Tokenizer::new(r#""\u0041""#);
    let tokens = tokenizer.tokenize().unwrap();
    assert_eq!(tokens, vec![Token::String("A".to_string())]);
}

#[test]
fn test_unicode_escape_multiple() {
    // \u0048\u0069 is "Hi"
    let mut tokenizer = Tokenizer::new(r#""\u0048\u0069""#);
    let tokens = tokenizer.tokenize().unwrap();
    assert_eq!(tokens, vec![Token::String("Hi".to_string())]);
}

#[test]
fn test_unicode_escape_mixed() {
    let mut tokenizer = Tokenizer::new(r#""Hello \u0057orld""#);
    let tokens = tokenizer.tokenize().unwrap();
    assert_eq!(tokens, vec![Token::String("Hello World".to_string())]);
}

#[test]
fn test_unicode_escape_lowercase() {
    let mut tokenizer = Tokenizer::new(r#""\u004a""#);
    let tokens = tokenizer.tokenize().unwrap();
    assert_eq!(tokens, vec![Token::String("J".to_string())]);
}

// === Error Tests ===

#[test]
fn test_invalid_escape_sequence() {
    let mut tokenizer = Tokenizer::new(r#""\q""#);
    let result = tokenizer.tokenize();
    assert!(matches!(result, Err(JsonError::InvalidEscape { .. })));
}

#[test]
fn test_invalid_unicode_too_short() {
    let mut tokenizer = Tokenizer::new(r#""\u004""#);
    let result = tokenizer.tokenize();
    assert!(matches!(result, Err(JsonError::InvalidUnicode { .. })));
}

#[test]
fn test_invalid_unicode_bad_hex() {
    let mut tokenizer = Tokenizer::new(r#""\u00GG""#);
    let result = tokenizer.tokenize();
    assert!(matches!(result, Err(JsonError::InvalidUnicode { .. })));
}

#[test]
fn test_unterminated_string_with_escape() {
    let mut tokenizer = Tokenizer::new(r#""hello\n"#);
    let result = tokenizer.tokenize();
    assert!(result.is_err());
}

// === Further cases ===

fn tokens_of(input: &str) -> Result<Vec<Token>, JsonError> {
    Tokenizer::new(input).tokenize()
}

#[test]
fn all_punctuation_tokens_in_order() {
    assert_eq!(
        tokens_of("{}[],:").unwrap(),
        vec![
            Token::LeftBrace,
            Token::RightBrace,
            Token::LeftBracket,
            Token::RightBracket,
            Token::Comma,
            Token::Colon,
        ]
    );
}

#[test]
fn whitespace_between_tokens_is_skipped() {
    assert_eq!(
        tokens_of(" \t\r\n[ \n1 ,\ttrue\r]\n").unwrap(),
        vec![
            Token::LeftBracket,
            Token::Number(num(1.0)),
            Token::Comma,
            Token::Boolean(true),
            Token::RightBracket,
        ]
    );
    assert_eq!(tokens_of("").unwrap(), vec![]);
    assert_eq!(tokens_of("   ").unwrap(), vec![]);
}

#[test]
fn second_scan_of_a_consumed_input_is_empty() {
    let mut tokenizer = Tokenizer::new("[1]");
    assert_eq!(tokenizer.tokenize().unwrap().len(), 3);
    assert_eq!(tokenizer.tokenize().unwrap(), vec![]);
}

#[test]
fn numbers_keep_their_literal() {
    let tokens = tokens_of("1.0 1e5 -0 2E+3 7.e1 -.5 10.").unwrap();
    let literals: Vec<String> = tokens
        .iter()
        .map(|t| match t {
            Token::Number(n) => n.literal().to_string(),
            _ => panic!("expected a number"),
        })
        .collect();
    assert_eq!(
        literals,
        vec!["1.0", "1e5", "-0", "2E+3", "7.e1", "-.5", "10."]
    );
    for literal in &literals {
        assert!(literal.parse::<f64>().is_ok());
    }
}

#[test]
fn invalid_number_carries_the_raw_run_and_the_cursor() {
    assert_eq!(
        tokens_of("12.34.56").unwrap_err(),
        JsonError::InvalidNumber {
            value: "12.34.56".to_string(),
            position: 8,
        }
    );
    assert_eq!(
        tokens_of("[1, 1-2]").unwrap_err(),
        JsonError::InvalidNumber {
            value: "1-2".to_string(),
            position: 7,
        }
    );
    for bad in ["-", "1e", "1e+", "--1", "1ee5", "-e5", "1.2e3.4", "+"] {
        let run_error = tokens_of(bad).unwrap_err();
        if bad == "+" {
            assert!(matches!(run_error, JsonError::UnexpectedToken { .. }));
        } else {
            assert_eq!(
                run_error,
                JsonError::InvalidNumber {
                    value: bad.to_string(),
                    position: bad.len(),
                }
            );
            assert!(bad.parse::<f64>().is_err());
        }
    }
}

#[test]
fn number_literals_are_those_that_parse_as_doubles() {
    let runs = [
        "0", "-0", "1", "12", "1.5", "1.", "-.5", "-1.e2", "1e5", "1E5", "1e+5", "1e-5", "1.5e10",
        "-", "-.", "1e", "1e+", "1e-", "1.2.3", "1-2", "1+2", "--1", "-+1", "1e5e", "1e5.0", "e5",
        "-e5", "1ee5", "1e++5", "1..2", "-1-", "1.e", "0.0.0", "9.", "-9.e-9",
    ];
    for run in runs {
        let expected = run.parse::<f64>().is_ok();
        assert_eq!(JsonNumber::new(run).is_some(), expected, "run {run:?}");
    }
    assert!(JsonNumber::new(".5").is_none());
    assert!(JsonNumber::new("+5").is_none());
    assert!(JsonNumber::new("").is_none());
    assert!(JsonNumber::new("inf").is_none());
    assert!(JsonNumber::new("NaN").is_none());
    assert!(JsonNumber::new("1 ").is_none());
}

#[test]
fn stray_punctuation_is_reported_where_it_stands() {
    assert_eq!(
        tokens_of("@").unwrap_err(),
        JsonError::UnexpectedToken {
            expected: "valid JSON value".to_string(),
            found: "@".to_string(),
            position: 0,
        }
    );
    assert_eq!(
        tokens_of("[1, #]").unwrap_err(),
        JsonError::UnexpectedToken {
            expected: "valid JSON value".to_string(),
            found: "#".to_string(),
            position: 4,
        }
    );
}

#[test]
fn positions_are_byte_offsets() {
    // The two-byte character inside the string moves every later offset by one.
    assert_eq!(
        tokens_of("[\"\u{e9}\", #]").unwrap_err(),
        JsonError::UnexpectedToken {
            expected: "valid JSON value".to_string(),
            found: "#".to_string(),
            position: 7,
        }
    );
    assert_eq!(
        tokens_of("\"\u{1F600}\\q\"").unwrap_err(),
        JsonError::InvalidEscape {
            char: 'q',
            position: 7,
        }
    );
}

#[test]
fn stray_characters_outside_ascii_are_skipped() {
    assert_eq!(
        tokens_of("\u{e9}1\u{2028}").unwrap(),
        vec![Token::Number(num(1.0))]
    );
    assert_eq!(
        tokens_of("\u{0001}true").unwrap(),
        vec![Token::Boolean(true)]
    );
}

#[test]
fn unknown_keyword_is_reported_with_its_first_letter() {
    assert_eq!(
        tokens_of("  nil").unwrap_err(),
        JsonError::UnexpectedToken {
            expected: "valid JSON value".to_string(),
            found: "n".to_string(),
            position: 2,
        }
    );
    assert!(matches!(
        tokens_of("trueish"),
        Err(JsonError::UnexpectedToken { .. })
    ));
    assert!(matches!(
        tokens_of("True"),
        Err(JsonError::UnexpectedToken { .. })
    ));
}

#[test]
fn unterminated_strings_end_the_input() {
    assert_eq!(
        tokens_of("\"abc").unwrap_err(),
        JsonError::UnexpectedEndOfInput {
            expected: "Closing quote".to_string(),
            position: 4,
        }
    );
    assert_eq!(
        tokens_of("\"a\\nb").unwrap_err(),
        JsonError::UnexpectedEndOfInput {
            expected: "Closing quote".to_string(),
            position: 5,
        }
    );
    assert_eq!(
        tokens_of("\"abc\\").unwrap_err(),
        JsonError::UnexpectedEndOfInput {
            expected: "Special meaning char for escape sequence".to_string(),
            position: 5,
        }
    );
}

#[test]
fn invalid_escape_names_the_character() {
    assert_eq!(
        tokens_of(r#""\q""#).unwrap_err(),
        JsonError::InvalidEscape {
            char: 'q',
            position: 3,
        }
    );
}

#[test]
fn invalid_unicode_carries_the_sequence() {
    assert_eq!(
        tokens_of(r#""\u00GG""#).unwrap_err(),
        JsonError::InvalidUnicode {
            sequence: "\\u00GG".to_string(),
            position: 3,
        }
    );
    assert_eq!(
        tokens_of(r#""\u004""#).unwrap_err(),
        JsonError::InvalidUnicode {
            sequence: "\\u004\"".to_string(),
            position: 3,
        }
    );
    assert_eq!(
        tokens_of(r#""\u00"#).unwrap_err(),
        JsonError::InvalidUnicode {
            sequence: "\\u00".to_string(),
            position: 3,
        }
    );
    // A sign is no hexadecimal digit.
    assert!(matches!(
        tokens_of(r#""\u+041""#),
        Err(JsonError::InvalidUnicode { .. })
    ));
}

#[test]
fn lone_surrogates_are_rejected_and_pairs_are_not_combined() {
    assert_eq!(
        tokens_of(r#""\uD800""#).unwrap_err(),
        JsonError::InvalidUnicode {
            sequence: "\\uD800".to_string(),
            position: 3,
        }
    );
    assert!(matches!(
        tokens_of(r#""\uDFFF""#),
        Err(JsonError::InvalidUnicode { .. })
    ));
    assert!(matches!(
        tokens_of(r#""\uD83D\uDE00""#),
        Err(JsonError::InvalidUnicode { .. })
    ));
    assert_eq!(
        tokens_of(r#""\uD7FF\uE000\uFFFF""#).unwrap(),
        vec![Token::String("\u{D7FF}\u{E000}\u{FFFF}".to_string())]
    );
}

#[test]
fn characters_after_an_escape_are_copied_verbatim() {
    assert_eq!(
        tokens_of("\"\\n\u{e9}\u{1F600}x\"").unwrap(),
        vec![Token::String("\n\u{e9}\u{1F600}x".to_string())]
    );
    assert_eq!(
        tokens_of("\"\u{e9}\u{1F600}x\"").unwrap(),
        vec![Token::String("\u{e9}\u{1F600}x".to_string())]
    );
}

#[test]
fn parse_unicode_hex_decodes_four_digits() {
    assert_eq!(parse_unicode_hex("0041"), Some('A'));
    assert_eq!(parse_unicode_hex("00e9"), Some('\u{e9}'));
    assert_eq!(parse_unicode_hex("00E9"), Some('\u{e9}'));
    assert_eq!(parse_unicode_hex("fFfF"), Some('\u{ffff}'));
    assert_eq!(parse_unicode_hex("0000"), Some('\u{0}'));
    assert_eq!(parse_unicode_hex("d800"), None);
    assert_eq!(parse_unicode_hex("041"), None);
    assert_eq!(parse_unicode_hex("00410"), None);
    assert_eq!(parse_unicode_hex("00GG"), None);
    assert_eq!(parse_unicode_hex("+041"), None);
    assert_eq!(parse_unicode_hex(""), None);
}

#[test]
fn resolve_escape_sequence_knows_eight_escapes() {
    assert_eq!(resolve_escape_sequence('n'), Some('\n'));
    assert_eq!(resolve_escape_sequence('t'), Some('\t'));
    assert_eq!(resolve_escape_sequence('r'), Some('\r'));
    assert_eq!(resolve_escape_sequence('\\'), Some('\\'));
    assert_eq!(resolve_escape_sequence('"'), Some('"'));
    assert_eq!(resolve_escape_sequence('/'), Some('/'));
    assert_eq!(resolve_escape_sequence('b'), Some('\u{0008}'));
    assert_eq!(resolve_escape_sequence('f'), Some('\u{000C}'));
    assert_eq!(resolve_escape_sequence('u'), None);
    assert_eq!(resolve_escape_sequence('q'), None);
    assert_eq!(resolve_escape_sequence('N'), None);
}

#[test]
fn escape_json_string_escapes_seven_characters() {
    assert_eq!(
        escape_json_string("\"\\\n\t\r\u{0008}\u{000C}"),
        "\\\"\\\\\\n\\t\\r\\b\\f"
    );
    assert_eq!(escape_json_string("a/b \u{e9}\u{1}"), "a/b \u{e9}\u{1}");
    assert_eq!(escape_json_string(""), "");
}

#[test]
fn is_variant_ignores_what_a_token_carries() {
    let a = Token::String("hello".to_string());
    let b = Token::String("world".to_string());
    assert!(a.is_variant(&b));
    let c = Token::Number(num(42.0));
    assert!(!a.is_variant(&c));
    assert!(c.is_variant(&Token::Number(num(1.5))));
    assert!(Token::Boolean(true).is_variant(&Token::Boolean(false)));
    assert!(Token::Comma.is_variant(&Token::Comma));
    assert!(!Token::Comma.is_variant(&Token::Colon));
    assert!(!Token::LeftBrace.is_variant(&Token::LeftBracket));
    assert!(!Token::Null.is_variant(&Token::Boolean(false)));
}

#[test]
fn tokens_are_named_by_kind_and_content() {
    assert_eq!(Token::LeftBracket.describe(), "LeftBracket");
    assert_eq!(Token::RightBracket.describe(), "RightBracket");
    assert_eq!(Token::LeftBrace.describe(), "LeftBrace");
    assert_eq!(Token::RightBrace.describe(), "RightBrace");
    assert_eq!(Token::Colon.describe(), "Colon");
    assert_eq!(Token::Comma.describe(), "Comma");
    assert_eq!(Token::Null.describe(), "Null");
    assert_eq!(Token::Boolean(true).describe(), "Boolean(true)");
    assert_eq!(Token::Boolean(false).describe(), "Boolean(false)");
    assert_eq!(Token::Number(num(1.5)).describe(), "Number(1.5)");
    assert_eq!(
        Token::String("a\"b".to_string()).describe(),
        "String(\"a\\\"b\")"
    );
}

#[test]
fn every_short_run_is_a_literal_exactly_when_it_parses_as_a_double() {
    let alphabet = ['0', '7', '.', '-', '+', 'e', 'E'];
    let mut runs: Vec<String> = vec![String::new()];
    let mut checked = 0;
    for _ in 0..6 {
        let mut longer = Vec::new();
        for run in &runs {
            for c in alphabet {
                let mut next = run.clone();
                next.push(c);
                longer.push(next);
            }
        }
        for run in &longer {
            let first = run.chars().next().unwrap();
            let expected = (first == '-' || first.is_ascii_digit()) && run.parse::<f64>().is_ok();
            assert_eq!(JsonNumber::new(run).is_some(), expected, "run {run:?}");
            checked += 1;
        }
        runs = longer;
    }
    assert_eq!(checked, 7 + 49 + 343 + 2401 + 16807 + 117649);
}
