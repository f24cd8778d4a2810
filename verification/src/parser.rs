//! The parser: from tokens to a value tree, by recursive descent.

use vstd::prelude::*;
use crate::error::{unexpected_end_of_input, unexpected_token_error, ErrorView, JsonError};
use crate::tokenizer::{lex, token_views, Token, TokenView, Tokenizer};
use crate::value::{items_view, put, Json, JsonObject, JsonValue};

verus! {

/// The outcome of parsing one value: the value and the index after it.
pub type Parsed = Result<(Json, int), ErrorView>;

/// An unexpected-token error of the grammar.
pub open spec fn unexpected(expected: Seq<char>, found: Seq<char>, position: int) -> ErrorView {
    ErrorView::UnexpectedToken { expected, found, position: position as nat }
}

/// An end-of-input error of the grammar.
pub open spec fn ended(expected: Seq<char>, position: int) -> ErrorView {
    ErrorView::UnexpectedEndOfInput { expected, position: position as nat }
}

/// The value of a scalar token at index `i`.
pub open spec fn parse_primitive_at(tokens: Seq<TokenView>, i: int) -> Result<Json, ErrorView> {
    if i < 0 || i >= tokens.len() {
        Err(ended("string"@, i))
    } else {
        match tokens[i] {
            TokenView::String(s) => Ok(Json::String(s)),
            TokenView::Number(n) => Ok(Json::Number(n)),
            TokenView::Boolean(b) => Ok(Json::Boolean(b)),
            TokenView::Null => Ok(Json::Null),
            other => Err(unexpected("string"@, other.describe(), i)),
        }
    }
}

/// The scalar value that a token stands for inside a container.
pub open spec fn scalar_of(token: TokenView) -> Json {
    match token {
        TokenView::String(s) => Json::String(s),
        TokenView::Number(n) => Json::Number(n),
        TokenView::Boolean(b) => Json::Boolean(b),
        _ => Json::Null,
    }
}

/// How a scalar that stands where a key is due is named in the diagnostic.
pub open spec fn scalar_text(token: TokenView) -> Seq<char> {
    match token {
        TokenView::Number(n) => n,
        TokenView::Boolean(b) => if b {
            "true"@
        } else {
            "false"@
        },
        _ => "null"@,
    }
}

/// A nested container that begins at index `i` ends at index `j`: after it
/// and within the tokens. This holds of every nested container that parses.
pub open spec fn nested_end(tokens: Seq<TokenView>, i: int, j: int) -> bool {
    i < j <= tokens.len()
}

/// Parses the rest of an array from index `i` on: `items` were read so far,
/// and `expect_comma` holds when the last thing read was an item.
pub open spec fn parse_array_from(
    tokens: Seq<TokenView>,
    i: int,
    items: Seq<Json>,
    expect_comma: bool,
) -> Parsed
    decreases tokens.len() - i,
{
    if i < 0 || i >= tokens.len() {
        Err(ended("closing bracket"@, i))
    } else {
        let token = tokens[i];
        match token {
            TokenView::RightBracket => Ok((Json::Array(items), i + 1)),
            TokenView::LeftBracket => if expect_comma {
                Err(unexpected(","@, token.describe(), i))
            } else {
                match parse_array_from(tokens, i + 1, Seq::empty(), false) {
                    Ok((v, j)) => if nested_end(tokens, i, j) {
                        parse_array_from(tokens, j, items.push(v), true)
                    } else {
                        Ok((v, j))
                    },
                    Err(e) => Err(e),
                }
            },
            TokenView::LeftBrace => if expect_comma {
                Err(unexpected(","@, token.describe(), i))
            } else {
                match parse_object_from(tokens, i + 1, Seq::empty(), Seq::empty(), false, false) {
                    Ok((v, j)) => if nested_end(tokens, i, j) {
                        parse_array_from(tokens, j, items.push(v), true)
                    } else {
                        Ok((v, j))
                    },
                    Err(e) => Err(e),
                }
            },
            TokenView::String(_) | TokenView::Number(_) | TokenView::Boolean(_) | TokenView::Null => {
                if expect_comma {
                    Err(unexpected(","@, token.describe(), i))
                } else {
                    parse_array_from(tokens, i + 1, items.push(scalar_of(token)), true)
                }
            },
            TokenView::Comma => if i + 1 >= tokens.len() {
                Err(ended("string, bool, number or object"@, i + 1))
            } else if !expect_comma {
                Err(unexpected("closing bracket"@, ","@, i + 1))
            } else if tokens[i + 1] is RightBracket {
                Err(unexpected("string, bool, number or object"@, "]"@, i + 1))
            } else {
                parse_array_from(tokens, i + 1, items, false)
            },
            _ => Err(unexpected("valid JSON value"@, token.describe(), i)),
        }
    }
}

/// Parses the rest of an object from index `i` on: `members` were stored so
/// far, `key` is the last key read, `colon_found` holds when a key and its
/// colon were read and the value is due, and `expect_comma` when the last
/// thing read was a value. A key is read together with the colon after it; a
/// colon anywhere else is rejected, and so is a closing brace where a value is due.
pub open spec fn parse_object_from(
    tokens: Seq<TokenView>,
    i: int,
    members: Seq<(Seq<char>, Json)>,
    key: Seq<char>,
    colon_found: bool,
    expect_comma: bool,
) -> Parsed
    decreases tokens.len() - i,
{
    if i < 0 || i >= tokens.len() {
        Err(ended("closing brace"@, i))
    } else {
        let token = tokens[i];
        match token {
            TokenView::RightBrace => if colon_found {
                Err(unexpected("valid JSON value"@, token.describe(), i))
            } else {
                Ok((Json::Object(members), i + 1))
            },
            TokenView::LeftBrace => if expect_comma {
                Err(unexpected(","@, token.describe(), i))
            } else if !colon_found {
                Err(unexpected("string"@, token.describe(), i))
            } else {
                match parse_object_from(tokens, i + 1, Seq::empty(), Seq::empty(), false, false) {
                    Ok((v, j)) => if nested_end(tokens, i, j) {
                        parse_object_from(tokens, j, put(members, key, v), key, false, true)
                    } else {
                        Ok((v, j))
                    },
                    Err(e) => Err(e),
                }
            },
            TokenView::LeftBracket => if expect_comma {
                Err(unexpected(","@, token.describe(), i))
            } else if !colon_found {
                Err(unexpected("string"@, token.describe(), i))
            } else {
                match parse_array_from(tokens, i + 1, Seq::empty(), false) {
                    Ok((v, j)) => if nested_end(tokens, i, j) {
                        parse_object_from(tokens, j, put(members, key, v), key, false, true)
                    } else {
                        Ok((v, j))
                    },
                    Err(e) => Err(e),
                }
            },
            TokenView::String(s) => if expect_comma {
                Err(unexpected(","@, token.describe(), i))
            } else if i + 1 >= tokens.len() {
                Err(
                    ended(
                        if colon_found {
                            ","@
                        } else {
                            ":"@
                        },
                        i,
                    ),
                )
            } else if colon_found {
                parse_object_from(
                    tokens,
                    i + 1,
                    put(members, key, Json::String(s)),
                    key,
                    false,
                    true,
                )
            } else if tokens[i + 1] is Colon {
                parse_object_from(tokens, i + 2, members, s, true, false)
            } else {
                Err(unexpected(":"@, tokens[i + 1].describe(), i))
            },
            TokenView::Number(_) | TokenView::Boolean(_) | TokenView::Null => if expect_comma {
                Err(unexpected(","@, token.describe(), i))
            } else if !colon_found {
                Err(unexpected("string"@, scalar_text(token), i))
            } else {
                parse_object_from(
                    tokens,
                    i + 1,
                    put(members, key, scalar_of(token)),
                    key,
                    false,
                    true,
                )
            },
            TokenView::Colon => if expect_comma {
                Err(unexpected(","@, token.describe(), i))
            } else if colon_found {
                Err(unexpected("valid JSON value"@, token.describe(), i))
            } else {
                Err(unexpected("string"@, token.describe(), i))
            },
            TokenView::Comma => if i + 1 >= tokens.len() {
                Err(ended("string, bool, number or object"@, i + 1))
            } else if !expect_comma {
                Err(unexpected("closing brace"@, ","@, i + 1))
            } else if tokens[i + 1] is RightBrace {
                Err(unexpected("string"@, "}"@, i + 1))
            } else {
                parse_object_from(tokens, i + 1, members, key, colon_found, false)
            },
            TokenView::RightBracket => Err(unexpected("valid JSON value"@, token.describe(), i)),
        }
    }
}

/// Parses the value that starts at index `i`: an object after `{`, an array
/// after `[`, else the scalar that the token is.
pub open spec fn parse_value_at(tokens: Seq<TokenView>, i: int) -> Parsed {
    if i < 0 || i >= tokens.len() {
        Err(ended("string"@, i))
    } else {
        match tokens[i] {
            TokenView::LeftBrace => parse_object_from(
                tokens,
                i + 1,
                Seq::empty(),
                Seq::empty(),
                false,
                false,
            ),
            TokenView::LeftBracket => parse_array_from(tokens, i + 1, Seq::empty(), false),
            _ => match parse_primitive_at(tokens, i) {
                Ok(v) => Ok((v, i + 1)),
                Err(e) => Err(e),
            },
        }
    }
}

/// Parses the document that starts at index `i`: one value, after which the
/// tokens must end. A token that is left over is rejected where it stands.
pub open spec fn parse_document_at(tokens: Seq<TokenView>, i: int) -> Parsed {
    match parse_value_at(tokens, i) {
        Ok((v, j)) => if 0 <= j < tokens.len() {
            Err(unexpected("end of input"@, tokens[j].describe(), j))
        } else {
            Ok((v, j))
        },
        Err(e) => Err(e),
    }
}

/// The value that a sequence of tokens denotes: the tokens are one value, no more.
pub open spec fn parse_tokens(tokens: Seq<TokenView>) -> Result<Json, ErrorView> {
    match parse_document_at(tokens, 0) {
        Ok((v, _)) => Ok(v),
        Err(e) => Err(e),
    }
}

/// The value that a document denotes: its tokens, then the value of the tokens.
pub open spec fn parse_text(input: Seq<char>) -> Result<Json, ErrorView> {
    match lex(input) {
        Ok(tokens) => parse_tokens(tokens),
        Err(e) => Err(e),
    }
}

/// Whatever the parser rejects inside an array, it rejects with an error of the grammar.
pub proof fn lemma_array_errors_are_structural(
    tokens: Seq<TokenView>,
    i: int,
    items: Seq<Json>,
    expect_comma: bool,
)
    ensures
        parse_array_from(tokens, i, items, expect_comma) matches Err(e) ==> e.is_structural(),
    decreases tokens.len() - i,
{
    if 0 <= i < tokens.len() {
        let token = tokens[i];
        match token {
            TokenView::LeftBracket => {
                if !expect_comma {
                    lemma_array_errors_are_structural(tokens, i + 1, Seq::empty(), false);
                    match parse_array_from(tokens, i + 1, Seq::empty(), false) {
                        Ok((v, j)) => {
                            if nested_end(tokens, i, j) {
                                lemma_array_errors_are_structural(tokens, j, items.push(v), true);
                            }
                        },
                        Err(e) => {},
                    }
                }
            },
            TokenView::LeftBrace => {
                if !expect_comma {
                    lemma_object_errors_are_structural(
                        tokens,
                        i + 1,
                        Seq::empty(),
                        Seq::empty(),
                        false,
                        false,
                    );
                    match parse_object_from(tokens, i + 1, Seq::empty(), Seq::empty(), false, false) {
                        Ok((v, j)) => {
                            if nested_end(tokens, i, j) {
                                lemma_array_errors_are_structural(tokens, j, items.push(v), true);
                            }
                        },
                        Err(e) => {},
                    }
                }
            },
            TokenView::String(_) | TokenView::Number(_) | TokenView::Boolean(_) | TokenView::Null => {
                if !expect_comma {
                    lemma_array_errors_are_structural(
                        tokens,
                        i + 1,
                        items.push(scalar_of(token)),
                        true,
                    );
                }
            },
            TokenView::Comma => {
                if i + 1 < tokens.len() && expect_comma && !(tokens[i + 1] is RightBracket) {
                    lemma_array_errors_are_structural(tokens, i + 1, items, false);
                }
            },
            _ => {},
        }
    }
}

/// Whatever the parser rejects inside an object, it rejects with an error of the grammar.
pub proof fn lemma_object_errors_are_structural(
    tokens: Seq<TokenView>,
    i: int,
    members: Seq<(Seq<char>, Json)>,
    key: Seq<char>,
    colon_found: bool,
    expect_comma: bool,
)
    ensures
        parse_object_from(tokens, i, members, key, colon_found, expect_comma) matches Err(e)
            ==> e.is_structural(),
    decreases tokens.len() - i,
{
    if 0 <= i < tokens.len() {
        let token = tokens[i];
        match token {
            TokenView::LeftBrace => {
                if !expect_comma && colon_found {
                    lemma_object_errors_are_structural(
                        tokens,
                        i + 1,
                        Seq::empty(),
                        Seq::empty(),
                        false,
                        false,
                    );
                    match parse_object_from(tokens, i + 1, Seq::empty(), Seq::empty(), false, false) {
                        Ok((v, j)) => {
                            if nested_end(tokens, i, j) {
                                lemma_object_errors_are_structural(
                                    tokens,
                                    j,
                                    put(members, key, v),
                                    key,
                                    false,
                                    true,
                                );
                            }
                        },
                        Err(e) => {},
                    }
                }
            },
            TokenView::LeftBracket => {
                if !expect_comma && colon_found {
                    lemma_array_errors_are_structural(tokens, i + 1, Seq::empty(), false);
                    match parse_array_from(tokens, i + 1, Seq::empty(), false) {
                        Ok((v, j)) => {
                            if nested_end(tokens, i, j) {
                                lemma_object_errors_are_structural(
                                    tokens,
                                    j,
                                    put(members, key, v),
                                    key,
                                    false,
                                    true,
                                );
                            }
                        },
                        Err(e) => {},
                    }
                }
            },
            TokenView::String(s) => {
                if !expect_comma && i + 1 < tokens.len() {
                    if colon_found {
                        lemma_object_errors_are_structural(
                            tokens,
                            i + 1,
                            put(members, key, Json::String(s)),
                            key,
                            false,
                            true,
                        );
                    } else if tokens[i + 1] is Colon {
                        lemma_object_errors_are_structural(tokens, i + 2, members, s, true, false);
                    }
                }
            },
            TokenView::Number(_) | TokenView::Boolean(_) | TokenView::Null => {
                if !expect_comma && colon_found {
                    lemma_object_errors_are_structural(
                        tokens,
                        i + 1,
                        put(members, key, scalar_of(token)),
                        key,
                        false,
                        true,
                    );
                }
            },
            TokenView::Comma => {
                if i + 1 < tokens.len() && expect_comma && !(tokens[i + 1] is RightBrace) {
                    lemma_object_errors_are_structural(
                        tokens,
                        i + 1,
                        members,
                        key,
                        colon_found,
                        false,
                    );
                }
            },
            _ => {},
        }
    }
}

/// An array that parses ends after the index where its parsing went on, within the tokens.
pub proof fn lemma_array_ends_after(
    tokens: Seq<TokenView>,
    i: int,
    items: Seq<Json>,
    expect_comma: bool,
)
    ensures
        parse_array_from(tokens, i, items, expect_comma) matches Ok((_, j)) ==> i < j
            <= tokens.len(),
    decreases tokens.len() - i,
{
    if 0 <= i < tokens.len() {
        let token = tokens[i];
        match token {
            TokenView::LeftBracket => {
                if !expect_comma {
                    lemma_array_ends_after(tokens, i + 1, Seq::empty(), false);
                    match parse_array_from(tokens, i + 1, Seq::empty(), false) {
                        Ok((v, j)) => {
                            if nested_end(tokens, i, j) {
                                lemma_array_ends_after(tokens, j, items.push(v), true);
                            }
                        },
                        Err(e) => {},
                    }
                }
            },
            TokenView::LeftBrace => {
                if !expect_comma {
                    lemma_object_ends_after(
                        tokens,
                        i + 1,
                        Seq::empty(),
                        Seq::empty(),
                        false,
                        false,
                    );
                    match parse_object_from(tokens, i + 1, Seq::empty(), Seq::empty(), false, false) {
                        Ok((v, j)) => {
                            if nested_end(tokens, i, j) {
                                lemma_array_ends_after(tokens, j, items.push(v), true);
                            }
                        },
                        Err(e) => {},
                    }
                }
            },
            TokenView::String(_) | TokenView::Number(_) | TokenView::Boolean(_) | TokenView::Null => {
                if !expect_comma {
                    lemma_array_ends_after(
                        tokens,
                        i + 1,
                        items.push(scalar_of(token)),
                        true,
                    );
                }
            },
            TokenView::Comma => {
                if i + 1 < tokens.len() && expect_comma && !(tokens[i + 1] is RightBracket) {
                    lemma_array_ends_after(tokens, i + 1, items, false);
                }
            },
            _ => {},
        }
    }
}

/// An object that parses ends after the index where its parsing went on, within the tokens.
pub proof fn lemma_object_ends_after(
    tokens: Seq<TokenView>,
    i: int,
    members: Seq<(Seq<char>, Json)>,
    key: Seq<char>,
    colon_found: bool,
    expect_comma: bool,
)
    ensures
        parse_object_from(tokens, i, members, key, colon_found, expect_comma) matches Ok((_, j))
            ==> i < j <= tokens.len(),
    decreases tokens.len() - i,
{
    if 0 <= i < tokens.len() {
        let token = tokens[i];
        match token {
            TokenView::LeftBrace => {
                if !expect_comma && colon_found {
                    lemma_object_ends_after(
                        tokens,
                        i + 1,
                        Seq::empty(),
                        Seq::empty(),
                        false,
                        false,
                    );
                    match parse_object_from(tokens, i + 1, Seq::empty(), Seq::empty(), false, false) {
                        Ok((v, j)) => {
                            if nested_end(tokens, i, j) {
                                lemma_object_ends_after(
                                    tokens,
                                    j,
                                    put(members, key, v),
                                    key,
                                    false,
                                    true,
                                );
                            }
                        },
                        Err(e) => {},
                    }
                }
            },
            TokenView::LeftBracket => {
                if !expect_comma && colon_found {
                    lemma_array_ends_after(tokens, i + 1, Seq::empty(), false);
                    match parse_array_from(tokens, i + 1, Seq::empty(), false) {
                        Ok((v, j)) => {
                            if nested_end(tokens, i, j) {
                                lemma_object_ends_after(
                                    tokens,
                                    j,
                                    put(members, key, v),
                                    key,
                                    false,
                                    true,
                                );
                            }
                        },
                        Err(e) => {},
                    }
                }
            },
            TokenView::String(s) => {
                if !expect_comma && i + 1 < tokens.len() {
                    if colon_found {
                        lemma_object_ends_after(
                            tokens,
                            i + 1,
                            put(members, key, Json::String(s)),
                            key,
                            false,
                            true,
                        );
                    } else if tokens[i + 1] is Colon {
                        lemma_object_ends_after(tokens, i + 2, members, s, true, false);
                    }
                }
            },
            TokenView::Number(_) | TokenView::Boolean(_) | TokenView::Null => {
                if !expect_comma && colon_found {
                    lemma_object_ends_after(
                        tokens,
                        i + 1,
                        put(members, key, scalar_of(token)),
                        key,
                        false,
                        true,
                    );
                }
            },
            TokenView::Comma => {
                if i + 1 < tokens.len() && expect_comma && !(tokens[i + 1] is RightBrace) {
                    lemma_object_ends_after(
                        tokens,
                        i + 1,
                        members,
                        key,
                        colon_found,
                        false,
                    );
                }
            },
            _ => {},
        }
    }
}

/// Tokens are only ever rejected with an error of the grammar: an unexpected
/// token or an unexpected end of the input. The other errors come from the
/// scanner alone.
pub proof fn lemma_token_errors_are_structural(tokens: Seq<TokenView>)
    ensures
        parse_tokens(tokens) matches Err(e) ==> e.is_structural(),
{
    if tokens.len() > 0 {
        lemma_object_errors_are_structural(tokens, 1, Seq::empty(), Seq::empty(), false, false);
        lemma_array_errors_are_structural(tokens, 1, Seq::empty(), false);
    }
}

/// Whether an executable result is the one that the model gives.
pub open spec fn value_matches(r: Result<JsonValue, JsonError>, model: Result<Json, ErrorView>) -> bool {
    match model {
        Ok(v) => r is Ok && r->Ok_0@ == v,
        Err(e) => r is Err && r->Err_0@ == e,
    }
}

/// Whether an executable result and the cursor after it are those that the model gives.
pub open spec fn parsed_matches(r: Result<JsonValue, JsonError>, cursor: nat, model: Parsed) -> bool {
    match model {
        Ok((v, j)) => r is Ok && r->Ok_0@ == v && cursor == j,
        Err(e) => r is Err && r->Err_0@ == e,
    }
}

/// Fails when a value stands where a comma is due.
pub fn err_on_missing_expected_comma(expected_comma: bool, found: &Token, position: usize) -> (r:
    Result<(), JsonError>)
    ensures
        expected_comma ==> r is Err && r->Err_0@ == unexpected(
            ","@,
            found@.describe(),
            position as int,
        ),
        !expected_comma ==> r is Ok,
{
    if expected_comma {
        let found = found.describe();
        return Err(unexpected_token_error(",", found.as_str(), position));
    }
    Ok(())
}

/// Fails when a value stands where a key is due.
pub fn err_on_unexpected_value_before_colon(colon_found: bool, found: &str, position: usize) -> (r:
    Result<(), JsonError>)
    ensures
        !colon_found ==> r is Err && r->Err_0@ == unexpected("string"@, found@, position as int),
        colon_found ==> r is Ok,
{
    if !colon_found {
        return Err(unexpected_token_error("string", found, position));
    }
    Ok(())
}

/// Tells whether a string is a key: it is one when no colon was read yet,
/// and then the next token must be a colon.
pub fn next_token_is_expected_colon(colon_found: bool, next_token: &Token, position: usize) -> (r:
    Result<bool, JsonError>)
    ensures
        colon_found ==> r == Ok::<bool, JsonError>(false),
        !colon_found && next_token@ is Colon ==> r == Ok::<bool, JsonError>(true),
        !colon_found && !(next_token@ is Colon) ==> r is Err && r->Err_0@ == unexpected(
            ":"@,
            next_token@.describe(),
            position as int,
        ),
{
    if colon_found {
        return Ok(false);
    }
    if !next_token.is_variant(&Token::Colon) {
        let found = next_token.describe();
        return Err(unexpected_token_error(":", found.as_str(), position));
    }
    Ok(true)
}

/// Fails when a comma stands where none is due.
pub fn err_on_unexpected_comma(expected_comma: bool, expected: &str, position: usize) -> (r: Result<
    (),
    JsonError,
>)
    ensures
        !expected_comma ==> r is Err && r->Err_0@ == unexpected(expected@, ","@, position as int),
        expected_comma ==> r is Ok,
{
    if !expected_comma {
        return Err(unexpected_token_error(expected, ",", position));
    }
    Ok(())
}

/// Fails when a closing token stands right after a comma.
pub fn err_on_unexpected_closing_token(
    token: &Token,
    expected_token: &Token,
    expected: &str,
    found: &str,
    position: usize,
) -> (r: Result<(), JsonError>)
    ensures
        token@.same_kind(expected_token@) ==> r is Err && r->Err_0@ == unexpected(
            expected@,
            found@,
            position as int,
        ),
        !token@.same_kind(expected_token@) ==> r is Ok,
{
    if token.is_variant(expected_token) {
        return Err(unexpected_token_error(expected, found, position));
    }
    Ok(())
}

/// The models of the items grow with the items.
pub proof fn lemma_items_view_push(items: Seq<JsonValue>, v: JsonValue)
    ensures
        items_view(items.push(v)) == items_view(items).push(v@),
{
    assert(items_view(items.push(v)) =~= items_view(items).push(v@));
}

/// A recursive descent parser over the tokens of one document.
pub struct JsonParser {
    tokens: Vec<Token>,
    current: usize,
}

impl JsonParser {
    #[verifier::type_invariant]
    spec fn inv(&self) -> bool {
        forall|k: int| 0 <= k < self.tokens.len() ==> (#[trigger] self.tokens[k]).wf()
    }

    /// The tokens being parsed.
    pub closed spec fn tokens(&self) -> Seq<TokenView> {
        token_views(self.tokens@)
    }

    /// Index of the next token to parse.
    pub closed spec fn cursor(&self) -> nat {
        self.current as nat
    }

    /// Scans `input` and makes a parser over its tokens.
    pub fn new(input: &str) -> (r: Result<Self, JsonError>)
        ensures
            match lex(input@) {
                Ok(tokens) => r is Ok && r->Ok_0.tokens() == tokens && r->Ok_0.cursor() == 0,
                Err(e) => r is Err && r->Err_0@ == e,
            },
    {
        let mut tokenizer = Tokenizer::new(input);
        match tokenizer.tokenize() {
            Ok(tokens) => Ok(Self { current: 0, tokens }),
            Err(e) => Err(e),
        }
    }

    /// Parses the document that starts under the cursor: one value, after
    /// which the tokens must end. A token that is left over is rejected.
    pub fn parse(&mut self) -> (r: Result<JsonValue, JsonError>)
        ensures
            final(self).tokens() == old(self).tokens(),
            parsed_matches(
                r,
                final(self).cursor(),
                parse_document_at(old(self).tokens(), old(self).cursor() as int),
            ),
            r is Ok ==> r->Ok_0.wf(),
    {
        let value = match self.parse_value() {
            Ok(value) => value,
            Err(e) => {
                return Err(e);
            },
        };
        match self.peek() {
            Some(token) => {
                let found = token.describe();
                Err(unexpected_token_error("end of input", found.as_str(), self.current))
            },
            None => Ok(value),
        }
    }

    /// Parses the value that starts under the cursor and steps over it.
    fn parse_value(&mut self) -> (r: Result<JsonValue, JsonError>)
        ensures
            final(self).tokens() == old(self).tokens(),
            parsed_matches(
                r,
                final(self).cursor(),
                parse_value_at(old(self).tokens(), old(self).cursor() as int),
            ),
            r is Ok ==> r->Ok_0.wf(),
    {
        match self.peek() {
            Some(Token::LeftBrace) => self.parse_object(),
            Some(Token::LeftBracket) => self.parse_array(),
            Some(_) => {
                let value = self.parse_primitive();
                if value.is_ok() {
                    self.advance();
                }
                value
            },
            None => Err(unexpected_end_of_input("string", self.current)),
        }
    }

    /// The scalar value under the cursor.
    fn parse_primitive(&mut self) -> (r: Result<JsonValue, JsonError>)
        ensures
            final(self).tokens() == old(self).tokens(),
            final(self).cursor() == old(self).cursor(),
            value_matches(r, parse_primitive_at(old(self).tokens(), old(self).cursor() as int)),
            r is Ok ==> r->Ok_0.wf(),
    {
        proof {
            use_type_invariant(&*self);
        }
        match self.peek() {
            Some(Token::String(s)) => Ok(JsonValue::String(s.clone())),
            Some(Token::Number(n)) => Ok(JsonValue::Number(n.clone())),
            Some(Token::Boolean(b)) => Ok(JsonValue::Boolean(*b)),
            Some(Token::Null) => Ok(JsonValue::Null),
            Some(token) => {
                let found = token.describe();
                Err(unexpected_token_error("string", found.as_str(), self.current))
            },
            None => Err(unexpected_end_of_input("string", self.current)),
        }
    }

    /// Parses an array whose opening bracket is under the cursor: items with
    /// a comma between neighbours, up to the closing bracket.
    #[verifier::loop_isolation(false)]
    fn parse_array(&mut self) -> (r: Result<JsonValue, JsonError>)
        requires
            old(self).cursor() < old(self).tokens().len(),
        ensures
            final(self).tokens() == old(self).tokens(),
            parsed_matches(
                r,
                final(self).cursor(),
                parse_array_from(old(self).tokens(), old(self).cursor() as int + 1, Seq::empty(), false),
            ),
            r is Ok ==> old(self).cursor() < final(self).cursor() <= final(self).tokens().len(),
            r is Ok ==> r->Ok_0.wf(),
        decreases old(self).tokens().len() - old(self).cursor(), 0nat,
    {
        let ghost tokens = self.tokens();
        let ghost start = self.cursor() as int;
        self.advance();
        let mut array: Vec<JsonValue> = Vec::new();
        let mut expect_comma = false;
        assert(items_view(array@) =~= Seq::<Json>::empty());
        loop
            invariant
                self.tokens() == tokens,
                start < self.cursor() <= tokens.len(),
                parse_array_from(tokens, start + 1, Seq::empty(), false) == parse_array_from(
                    tokens,
                    self.cursor() as int,
                    items_view(array@),
                    expect_comma,
                ),
                forall|k: int| 0 <= k < array.len() ==> (#[trigger] array[k]).wf(),
            decreases tokens.len() - self.cursor(),
        {
            let ghost before = array@;
            let position = self.current;
            let token = match self.peek() {
                Some(token) => token,
                None => {
                    return Err(unexpected_end_of_input("closing bracket", self.current));
                },
            };
            match token {
                Token::LeftBracket => {
                    match err_on_missing_expected_comma(expect_comma, token, position) {
                        Err(e) => {
                            return Err(e);
                        },
                        Ok(_) => {},
                    }
                    match self.parse_array() {
                        Ok(nested_array) => {
                            proof {
                                lemma_items_view_push(before, nested_array);
                            }
                            array.push(nested_array);
                            expect_comma = true;
                        },
                        Err(e) => {
                            return Err(e);
                        },
                    }
                },
                Token::RightBracket => {
                    self.advance();
                    let r = JsonValue::Array(array);
                    assert(r@->Array_0 =~= items_view(before));
                    return Ok(r);
                },
                Token::LeftBrace => {
                    match err_on_missing_expected_comma(expect_comma, token, position) {
                        Err(e) => {
                            return Err(e);
                        },
                        Ok(_) => {},
                    }
                    match self.parse_object() {
                        Ok(nested_object) => {
                            proof {
                                lemma_items_view_push(before, nested_object);
                            }
                            array.push(nested_object);
                            expect_comma = true;
                        },
                        Err(e) => {
                            return Err(e);
                        },
                    }
                },
                Token::String(s) => {
                    match err_on_missing_expected_comma(expect_comma, token, position) {
                        Err(e) => {
                            return Err(e);
                        },
                        Ok(_) => {},
                    }
                    let item = JsonValue::String(s.clone());
                    proof {
                        lemma_items_view_push(before, item);
                    }
                    array.push(item);
                    self.advance();
                    expect_comma = true;
                },
                Token::Number(n) => {
                    match err_on_missing_expected_comma(expect_comma, token, position) {
                        Err(e) => {
                            return Err(e);
                        },
                        Ok(_) => {},
                    }
                    let item = JsonValue::Number(n.clone());
                    proof {
                        lemma_items_view_push(before, item);
                    }
                    array.push(item);
                    self.advance();
                    expect_comma = true;
                },
                Token::Boolean(b) => {
                    match err_on_missing_expected_comma(expect_comma, token, position) {
                        Err(e) => {
                            return Err(e);
                        },
                        Ok(_) => {},
                    }
                    let item = JsonValue::Boolean(*b);
                    proof {
                        lemma_items_view_push(before, item);
                    }
                    array.push(item);
                    self.advance();
                    expect_comma = true;
                },
                Token::Null => {
                    match err_on_missing_expected_comma(expect_comma, token, position) {
                        Err(e) => {
                            return Err(e);
                        },
                        Ok(_) => {},
                    }
                    let item = JsonValue::Null;
                    proof {
                        lemma_items_view_push(before, item);
                    }
                    array.push(item);
                    self.advance();
                    expect_comma = true;
                },
                Token::Comma => {
                    self.advance();
                    let token = match self.peek() {
                        Some(token) => token,
                        None => {
                            return Err(
                                unexpected_end_of_input(
                                    "string, bool, number or object",
                                    self.current,
                                ),
                            );
                        },
                    };
                    match err_on_unexpected_comma(expect_comma, "closing bracket", self.current) {
                        Err(e) => {
                            return Err(e);
                        },
                        Ok(_) => {},
                    }
                    match err_on_unexpected_closing_token(
                        token,
                        &Token::RightBracket,
                        "string, bool, number or object",
                        "]",
                        self.current,
                    ) {
                        Err(e) => {
                            return Err(e);
                        },
                        Ok(_) => {},
                    }
                    expect_comma = false;
                },
                _ => {
                    let found = token.describe();
                    return Err(unexpected_token_error("valid JSON value", found.as_str(), position));
                },
            }
        }
    }

    /// Parses an object whose opening brace is under the cursor: members, each
    /// a key, a colon and a value, with a comma between neighbours, up to the
    /// closing brace.
    #[verifier::loop_isolation(false)]
    fn parse_object(&mut self) -> (r: Result<JsonValue, JsonError>)
        requires
            old(self).cursor() < old(self).tokens().len(),
        ensures
            final(self).tokens() == old(self).tokens(),
            parsed_matches(
                r,
                final(self).cursor(),
                parse_object_from(
                    old(self).tokens(),
                    old(self).cursor() as int + 1,
                    Seq::empty(),
                    Seq::empty(),
                    false,
                    false,
                ),
            ),
            r is Ok ==> old(self).cursor() < final(self).cursor() <= final(self).tokens().len(),
            r is Ok ==> r->Ok_0.wf(),
        decreases old(self).tokens().len() - old(self).cursor(), 0nat,
    {
        let ghost tokens = self.tokens();
        let ghost start = self.cursor() as int;
        self.advance();
        let mut key = String::new();
        let mut object = JsonObject::new();
        let mut colon_found = false;
        let mut expect_comma = false;
        loop
            invariant
                self.tokens() == tokens,
                start < self.cursor() <= tokens.len(),
                parse_object_from(tokens, start + 1, Seq::empty(), Seq::empty(), false, false)
                    == parse_object_from(
                    tokens,
                    self.cursor() as int,
                    object@,
                    key@,
                    colon_found,
                    expect_comma,
                ),
                object.wf(),
            decreases tokens.len() - self.cursor(),
        {
            let position = self.current;
            let token = match self.peek() {
                Some(token) => token,
                None => {
                    return Err(unexpected_end_of_input("closing brace", self.current));
                },
            };
            match token {
                Token::LeftBrace => {
                    match err_on_missing_expected_comma(expect_comma, token, position) {
                        Err(e) => {
                            return Err(e);
                        },
                        Ok(_) => {},
                    }
                    if !colon_found {
                        let found = token.describe();
                        return Err(unexpected_token_error("string", found.as_str(), position));
                    }
                    match self.parse_object() {
                        Ok(nested_object) => {
                            object.insert(key.clone(), nested_object);
                            colon_found = false;
                            expect_comma = true;
                        },
                        Err(e) => {
                            return Err(e);
                        },
                    }
                },
                Token::RightBrace => {
                    if colon_found {
                        let found = token.describe();
                        return Err(
                            unexpected_token_error("valid JSON value", found.as_str(), position),
                        );
                    }
                    self.advance();
                    return Ok(JsonValue::Object(object));
                },
                Token::LeftBracket => {
                    match err_on_missing_expected_comma(expect_comma, token, position) {
                        Err(e) => {
                            return Err(e);
                        },
                        Ok(_) => {},
                    }
                    if !colon_found {
                        let found = token.describe();
                        return Err(unexpected_token_error("string", found.as_str(), position));
                    }
                    match self.parse_array() {
                        Ok(array) => {
                            object.insert(key.clone(), array);
                            colon_found = false;
                            expect_comma = true;
                        },
                        Err(e) => {
                            return Err(e);
                        },
                    }
                },
                Token::String(s) => {
                    match err_on_missing_expected_comma(expect_comma, token, position) {
                        Err(e) => {
                            return Err(e);
                        },
                        Ok(_) => {},
                    }
                    let count = self.tokens.len();
                    assert(position < count);
                    let next_token = match self.get_token(position + 1) {
                        Some(next_token) => next_token,
                        None => {
                            return Err(
                                unexpected_end_of_input(
                                    if colon_found {
                                        ","
                                    } else {
                                        ":"
                                    },
                                    position,
                                ),
                            );
                        },
                    };
                    match next_token_is_expected_colon(colon_found, next_token, position) {
                        Ok(true) => {
                            key = s.clone();
                            colon_found = true;
                            self.advance();
                        },
                        Ok(false) => {
                            object.insert(key.clone(), JsonValue::String(s.clone()));
                            colon_found = false;
                            expect_comma = true;
                        },
                        Err(e) => {
                            return Err(e);
                        },
                    }
                    self.advance();
                },
                Token::Number(n) => {
                    match err_on_missing_expected_comma(expect_comma, token, position) {
                        Err(e) => {
                            return Err(e);
                        },
                        Ok(_) => {},
                    }
                    match err_on_unexpected_value_before_colon(colon_found, n.literal(), position) {
                        Err(e) => {
                            return Err(e);
                        },
                        Ok(_) => {},
                    }
                    object.insert(key.clone(), JsonValue::Number(n.clone()));
                    colon_found = false;
                    expect_comma = true;
                    self.advance();
                },
                Token::Boolean(b) => {
                    match err_on_missing_expected_comma(expect_comma, token, position) {
                        Err(e) => {
                            return Err(e);
                        },
                        Ok(_) => {},
                    }
                    match err_on_unexpected_value_before_colon(
                        colon_found,
                        if *b {
                            "true"
                        } else {
                            "false"
                        },
                        position,
                    ) {
                        Err(e) => {
                            return Err(e);
                        },
                        Ok(_) => {},
                    }
                    object.insert(key.clone(), JsonValue::Boolean(*b));
                    colon_found = false;
                    expect_comma = true;
                    self.advance();
                },
                Token::Null => {
                    match err_on_missing_expected_comma(expect_comma, token, position) {
                        Err(e) => {
                            return Err(e);
                        },
                        Ok(_) => {},
                    }
                    match err_on_unexpected_value_before_colon(colon_found, "null", position) {
                        Err(e) => {
                            return Err(e);
                        },
                        Ok(_) => {},
                    }
                    object.insert(key.clone(), JsonValue::Null);
                    colon_found = false;
                    expect_comma = true;
                    self.advance();
                },
                Token::Colon => {
                    let found = token.describe();
                    let expected = if expect_comma {
                        ","
                    } else if colon_found {
                        "valid JSON value"
                    } else {
                        "string"
                    };
                    return Err(unexpected_token_error(expected, found.as_str(), position));
                },
                Token::Comma => {
                    self.advance();
                    let token = match self.peek() {
                        Some(token) => token,
                        None => {
                            return Err(
                                unexpected_end_of_input(
                                    "string, bool, number or object",
                                    self.current,
                                ),
                            );
                        },
                    };
                    match err_on_unexpected_comma(expect_comma, "closing brace", self.current) {
                        Err(e) => {
                            return Err(e);
                        },
                        Ok(_) => {},
                    }
                    match err_on_unexpected_closing_token(
                        token,
                        &Token::RightBrace,
                        "string",
                        "}",
                        self.current,
                    ) {
                        Err(e) => {
                            return Err(e);
                        },
                        Ok(_) => {},
                    }
                    expect_comma = false;
                },
                _ => {
                    let found = token.describe();
                    return Err(unexpected_token_error("valid JSON value", found.as_str(), position));
                },
            }
        }
    }

    /// The token under the cursor.
    fn peek(&self) -> (r: Option<&Token>)
        ensures
            match r {
                Some(t) => self.cursor() < self.tokens().len() && t@ == self.tokens()[
                    self.cursor() as int
                ] && t.wf(),
                None => self.cursor() >= self.tokens().len(),
            },
    {
        proof {
            use_type_invariant(self);
        }
        if !self.is_at_end() {
            return Some(&self.tokens[self.current]);
        }
        None
    }

    /// The token at `index`.
    fn get_token(&self, index: usize) -> (r: Option<&Token>)
        ensures
            match r {
                Some(t) => index < self.tokens().len() && t@ == self.tokens()[index as int]
                    && t.wf(),
                None => index >= self.tokens().len(),
            },
    {
        proof {
            use_type_invariant(self);
        }
        if index < self.tokens.len() {
            Some(&self.tokens[index])
        } else {
            None
        }
    }

    /// Moves past the token under the cursor.
    fn advance(&mut self)
        ensures
            final(self).tokens() == old(self).tokens(),
            final(self).cursor() == (if old(self).cursor() < old(self).tokens().len() {
                old(self).cursor() + 1
            } else {
                old(self).cursor()
            }),
    {
        proof {
            use_type_invariant(&*self);
        }
        if self.current < self.tokens.len() {
            self.current = self.current + 1;
        }
    }

    /// Whether every token has been consumed.
    fn is_at_end(&self) -> (r: bool)
        ensures
            r == (self.cursor() >= self.tokens().len()),
    {
        self.current >= self.tokens.len()
    }
}

/// Parses what was read of a document: the text, if the read succeeded, and
/// else hands on the message of the failed read as an I/O error.
pub fn parse_file_contents(read: Result<String, String>) -> (r: Result<JsonValue, JsonError>)
    ensures
        match read {
            Ok(text) => value_matches(r, parse_text(text@)),
            Err(m) => r is Err && r->Err_0@ == (ErrorView::Io { message: m@ }),
        },
        r is Ok ==> r->Ok_0.wf(),
{
    match read {
        Ok(text) => parse_json(text.as_str()),
        Err(message) => Err(JsonError::Io { message }),
    }
}

/// Parses a document: scans it, then parses its tokens.
pub fn parse_json(input: &str) -> (r: Result<JsonValue, JsonError>)
    ensures
        value_matches(r, parse_text(input@)),
        r is Ok ==> r->Ok_0.wf(),
{
    match JsonParser::new(input) {
        Ok(parser) => {
            let mut parser = parser;
            parser.parse()
        },
        Err(e) => Err(e),
    }
}

} // verus!
