//! A JSON library: a scanner from text to tokens, a recursive descent parser
//! from tokens to a value tree, accessors on the tree, and its compact and
//! indented serializations. Every function is specified over mathematical
//! models of texts, tokens and values, and proved against its specification.

use vstd::prelude::*;

pub mod error;
pub mod grammar;
pub mod number;
pub mod parser;
pub mod round_trip;
pub mod text;
pub mod tokenizer;
pub mod truncation;
pub mod utils;
pub mod value;

pub use error::JsonError;
pub use number::JsonNumber;
pub use parser::{parse_json, JsonParser};
pub use tokenizer::{Token, Tokenizer};
pub use value::{JsonObject, JsonValue};

verus! {

/// The result of a fallible operation of this library.
pub type JsonResult<T> = Result<T, JsonError>;

} // verus!
