//! The closed set of failures shared by the scanner and the parser.

use vstd::prelude::*;
use vstd::string::StringExecFns;
use crate::text::{decimal, push_decimal};

verus! {

/// Every way in which scanning, parsing or reading a document can fail.
#[derive(Debug, Clone, PartialEq)]
pub enum JsonError {
    /// A token was found that does not match what was expected at this position.
    UnexpectedToken { expected: String, found: String, position: usize },
    /// The input ended before a required token was found.
    UnexpectedEndOfInput { expected: String, position: usize },
    /// A numeric literal is not a valid number.
    InvalidNumber { value: String, position: usize },
    /// An unrecognized escape character follows a backslash inside a string.
    InvalidEscape { char: char, position: usize },
    /// A `\u` escape is not followed by four hexadecimal digits of a scalar value.
    InvalidUnicode { sequence: String, position: usize },
    /// Reading the document failed before any scanning began.
    Io { message: String },
}

/// Mathematical model of a [`JsonError`].
pub enum ErrorView {
    UnexpectedToken { expected: Seq<char>, found: Seq<char>, position: nat },
    UnexpectedEndOfInput { expected: Seq<char>, position: nat },
    InvalidNumber { value: Seq<char>, position: nat },
    InvalidEscape { escape: char, position: nat },
    InvalidUnicode { sequence: Seq<char>, position: nat },
    Io { message: Seq<char> },
}

impl View for JsonError {
    type V = ErrorView;

    open spec fn view(&self) -> ErrorView {
        match self {
            JsonError::UnexpectedToken { expected, found, position } => ErrorView::UnexpectedToken {
                expected: expected@,
                found: found@,
                position: *position as nat,
            },
            JsonError::UnexpectedEndOfInput { expected, position } => {
                ErrorView::UnexpectedEndOfInput { expected: expected@, position: *position as nat }
            },
            JsonError::InvalidNumber { value, position } => ErrorView::InvalidNumber {
                value: value@,
                position: *position as nat,
            },
            JsonError::InvalidEscape { char, position } => ErrorView::InvalidEscape {
                escape: *char,
                position: *position as nat,
            },
            JsonError::InvalidUnicode { sequence, position } => ErrorView::InvalidUnicode {
                sequence: sequence@,
                position: *position as nat,
            },
            JsonError::Io { message } => ErrorView::Io { message: message@ },
        }
    }
}

impl ErrorView {
    /// The human-readable diagnostic of an error.
    pub open spec fn message(self) -> Seq<char> {
        match self {
            ErrorView::UnexpectedToken { expected, found, position } => {
                "Unexpected token at position "@ + decimal(position) + ": expected "@ + expected
                    + ", found "@ + found
            },
            ErrorView::UnexpectedEndOfInput { expected, position } => {
                "Unexpected end of input at position "@ + decimal(position) + ": expected "@
                    + expected
            },
            ErrorView::InvalidNumber { value, position } => {
                "Invalid number at position "@ + decimal(position) + ": value "@ + value
            },
            ErrorView::InvalidEscape { escape, position } => {
                ("Invalid escape at position "@ + decimal(position) + ": char "@).push(escape)
            },
            ErrorView::InvalidUnicode { sequence, position } => {
                "Invalid Unicode sequence at position "@ + decimal(position) + ": sequence "@
                    + sequence
            },
            ErrorView::Io { message } => "IO error: "@ + message,
        }
    }

    /// Structural errors are those of the grammar, as opposed to lexical or environment errors.
    pub open spec fn is_structural(self) -> bool {
        self is UnexpectedToken || self is UnexpectedEndOfInput
    }
}

impl JsonError {
    /// The human-readable diagnostic: the kind of failure, its position and its context.
    pub fn message(&self) -> (r: String)
        ensures
            r@ == self@.message(),
    {
        let mut out = String::new();
        match self {
            JsonError::UnexpectedToken { expected, found, position } => {
                out.append("Unexpected token at position ");
                push_decimal(&mut out, *position);
                out.append(": expected ");
                out.append(expected.as_str());
                out.append(", found ");
                out.append(found.as_str());
            },
            JsonError::UnexpectedEndOfInput { expected, position } => {
                out.append("Unexpected end of input at position ");
                push_decimal(&mut out, *position);
                out.append(": expected ");
                out.append(expected.as_str());
            },
            JsonError::InvalidNumber { value, position } => {
                out.append("Invalid number at position ");
                push_decimal(&mut out, *position);
                out.append(": value ");
                out.append(value.as_str());
            },
            JsonError::InvalidEscape { char, position } => {
                out.append("Invalid escape at position ");
                push_decimal(&mut out, *position);
                out.append(": char ");
                out.push(*char);
            },
            JsonError::InvalidUnicode { sequence, position } => {
                out.append("Invalid Unicode sequence at position ");
                push_decimal(&mut out, *position);
                out.append(": sequence ");
                out.append(sequence.as_str());
            },
            JsonError::Io { message } => {
                out.append("IO error: ");
                out.append(message.as_str());
            },
        }
        assert(out@ =~= self@.message());
        out
    }
}

/// An [`JsonError::UnexpectedToken`] with the given context.
pub fn unexpected_token_error(expected: &str, found: &str, position: usize) -> (r: JsonError)
    ensures
        r@ == (ErrorView::UnexpectedToken {
            expected: expected@,
            found: found@,
            position: position as nat,
        }),
{
    JsonError::UnexpectedToken {
        expected: expected.to_owned(),
        found: found.to_owned(),
        position,
    }
}

/// An [`JsonError::UnexpectedEndOfInput`] with the given context.
pub fn unexpected_end_of_input(expected: &str, position: usize) -> (r: JsonError)
    ensures
        r@ == (ErrorView::UnexpectedEndOfInput { expected: expected@, position: position as nat }),
{
    JsonError::UnexpectedEndOfInput { expected: expected.to_owned(), position }
}

/// An [`JsonError::Io`] carrying the message of a failed read.
pub fn io_error(message: &str) -> (r: JsonError)
    ensures
        r@ == (ErrorView::Io { message: message@ }),
{
    JsonError::Io { message: message.to_owned() }
}

} // verus!
