use rust_json_parser::error::{io_error, unexpected_end_of_input, unexpected_token_error};
use rust_json_parser::JsonError;
use std::fmt;

/// An error as a program reports it: the library's value behind the standard traits.
#[derive(Debug)]
struct Reported(JsonError);

impl fmt::Display for Reported {
    fn fmt(&self, f: &mut fmt::Formatter<'_>) -> fmt::Result {
        f.write_str(&self.0.message())
    }
}

impl std::error::Error for Reported {}

#[test]
fn test_error_creation() {
    let error = JsonError::UnexpectedToken {
        expected: "number".to_string(),
        found: "@".to_string(),
        position: 5,
    };

    // Error should be Debug-printable
    assert!(format!("{:?}", error).contains("UnexpectedToken"));
}

#[test]
fn test_error_display() {
    let error = JsonError::UnexpectedToken {
        expected: "valid JSON".to_string(),
        found: "@".to_string(),
        position: 0,
    };

    let message = error.message();
    assert!(message.contains("position 0"));
    assert!(message.contains("valid JSON"));
    assert!(message.contains("@"));
}

#[test]
fn test_error_variants() {
    let token_error = JsonError::UnexpectedToken {
        expected: "number".to_string(),
        found: "x".to_string(),
        position: 3,
    };

    let eof_error = JsonError::UnexpectedEndOfInput {
        expected: "closing quote".to_string(),
        position: 10,
    };

    let num_error = JsonError::InvalidNumber {
        value: "12.34.56".to_string(),
        position: 0,
    };

    // All variants should be Debug-printable
    let _ = format!("{:?}", token_error);
    let _ = format!("{:?}", eof_error);
    let _ = format!("{:?}", num_error);
}

#[test]
fn test_invalid_escape_display() {
    let err = JsonError::InvalidEscape {
        char: 'q',
        position: 5,
    };
    let msg = err.message();
    assert!(msg.contains("escape"));
    assert!(msg.contains("q"));
}

#[test]
fn test_invalid_unicode_display() {
    let err = JsonError::InvalidUnicode {
        sequence: "00GG".to_string(),
        position: 3,
    };
    let msg = err.message();
    assert!(msg.contains("unicode") || msg.contains("Unicode"));
}

#[test]
fn test_error_is_std_error() {
    let err = JsonError::InvalidEscape {
        char: 'x',
        position: 0,
    };
    let reported = Reported(err);
    let _: &dyn std::error::Error = &reported;
}

#[test]
fn message_of_unexpected_token_is_exact() {
    let err = unexpected_token_error("number", "@", 5);
    assert_eq!(
        err.message(),
        "Unexpected token at position 5: expected number, found @"
    );
    assert_eq!(
        err,
        JsonError::UnexpectedToken {
            expected: "number".to_string(),
            found: "@".to_string(),
            position: 5,
        }
    );
}

#[test]
fn message_of_unexpected_end_is_exact() {
    let err = unexpected_end_of_input("closing quote", 10);
    assert_eq!(
        err.message(),
        "Unexpected end of input at position 10: expected closing quote"
    );
    assert_eq!(
        err,
        JsonError::UnexpectedEndOfInput {
            expected: "closing quote".to_string(),
            position: 10,
        }
    );
}

#[test]
fn message_of_invalid_number_is_exact() {
    let err = JsonError::InvalidNumber {
        value: "12.34.56".to_string(),
        position: 1234567890,
    };
    assert_eq!(
        err.message(),
        "Invalid number at position 1234567890: value 12.34.56"
    );
}

#[test]
fn message_of_invalid_escape_is_exact() {
    let err = JsonError::InvalidEscape {
        char: 'q',
        position: 0,
    };
    assert_eq!(err.message(), "Invalid escape at position 0: char q");
}

#[test]
fn message_of_invalid_unicode_is_exact() {
    let err = JsonError::InvalidUnicode {
        sequence: "\\u00GG".to_string(),
        position: 3,
    };
    assert_eq!(
        err.message(),
        "Invalid Unicode sequence at position 3: sequence \\u00GG"
    );
}

#[test]
fn message_of_io_error_is_exact() {
    let err = io_error("No such file or directory");
    assert_eq!(err.message(), "IO error: No such file or directory");
    assert_eq!(
        err,
        JsonError::Io {
            message: "No such file or directory".to_string()
        }
    );
}

#[test]
fn message_prints_the_largest_position() {
    let err = unexpected_end_of_input("x", usize::MAX);
    assert_eq!(
        err.message(),
        format!(
            "Unexpected end of input at position {}: expected x",
            usize::MAX
        )
    );
}

#[test]
fn reported_error_displays_its_message() {
    let reported = Reported(unexpected_token_error(":", "Null", 2));
    assert_eq!(
        format!("{}", reported),
        "Unexpected token at position 2: expected :, found Null"
    );
}
