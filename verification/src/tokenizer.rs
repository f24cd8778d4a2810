//! The scanner: from the characters of a document to its tokens.

use vstd::prelude::*;
use vstd::string::StringExecFns;
use vstd::utf8::is_scalar;
use crate::error::{ErrorView, JsonError};
use crate::number::{is_number_literal, number_literal, JsonNumber};
use crate::text::{
    alphabetic, byte_len, byte_offset, chars_of, digit, is_alphabetic, is_digit, is_number_char,
    is_punctuation, is_whitespace, lemma_byte_len_is_encoded_len,
    lemma_byte_offset_step, number_char, punctuation, push_range, range_equals, whitespace,
    width_of,
};
use crate::utils::{escape, resolve_escape, resolve_escape_sequence};

verus! {

/// A minimal lexical unit: a punctuation mark or a scalar literal.
#[derive(Debug, Clone, PartialEq)]
pub enum Token {
    /// A quoted string, escapes already resolved.
    String(String),
    /// A numeric literal.
    Number(JsonNumber),
    /// `true` or `false`.
    Boolean(bool),
    /// `null`.
    Null,
    /// `[`
    LeftBracket,
    /// `]`
    RightBracket,
    /// `{`
    LeftBrace,
    /// `}`
    RightBrace,
    /// `:`
    Colon,
    /// `,`
    Comma,
}

/// Mathematical model of a [`Token`].
pub enum TokenView {
    String(Seq<char>),
    Number(Seq<char>),
    Boolean(bool),
    Null,
    LeftBracket,
    RightBracket,
    LeftBrace,
    RightBrace,
    Colon,
    Comma,
}

impl TokenView {
    /// Whether two tokens are of the same kind, whatever they carry.
    pub open spec fn same_kind(self, other: TokenView) -> bool {
        match self {
            TokenView::String(_) => other is String,
            TokenView::Number(_) => other is Number,
            TokenView::Boolean(_) => other is Boolean,
            TokenView::Null => other is Null,
            TokenView::LeftBracket => other is LeftBracket,
            TokenView::RightBracket => other is RightBracket,
            TokenView::LeftBrace => other is LeftBrace,
            TokenView::RightBrace => other is RightBrace,
            TokenView::Colon => other is Colon,
            TokenView::Comma => other is Comma,
        }
    }

    /// How a token is named in a diagnostic: its kind, and what it carries in parentheses.
    pub open spec fn describe(self) -> Seq<char> {
        match self {
            TokenView::String(s) => "String(\""@ + escape(s) + "\")"@,
            TokenView::Number(n) => "Number("@ + n + ")"@,
            TokenView::Boolean(b) => if b {
                "Boolean(true)"@
            } else {
                "Boolean(false)"@
            },
            TokenView::Null => "Null"@,
            TokenView::LeftBracket => "LeftBracket"@,
            TokenView::RightBracket => "RightBracket"@,
            TokenView::LeftBrace => "LeftBrace"@,
            TokenView::RightBrace => "RightBrace"@,
            TokenView::Colon => "Colon"@,
            TokenView::Comma => "Comma"@,
        }
    }
}

impl View for Token {
    type V = TokenView;

    open spec fn view(&self) -> TokenView {
        match self {
            Token::String(s) => TokenView::String(s@),
            Token::Number(n) => TokenView::Number(n@),
            Token::Boolean(b) => TokenView::Boolean(*b),
            Token::Null => TokenView::Null,
            Token::LeftBracket => TokenView::LeftBracket,
            Token::RightBracket => TokenView::RightBracket,
            Token::LeftBrace => TokenView::LeftBrace,
            Token::RightBrace => TokenView::RightBrace,
            Token::Colon => TokenView::Colon,
            Token::Comma => TokenView::Comma,
        }
    }
}

impl Token {
    /// A token is well formed when the number it may carry is.
    pub open spec fn wf(&self) -> bool {
        self matches Token::Number(n) ==> n.wf()
    }

    /// Returns `true` if `self` and `other` are the same variant, ignoring what they carry.
    pub fn is_variant(&self, other: &Self) -> (r: bool)
        ensures
            r == self@.same_kind(other@),
    {
        match self {
            Token::String(_) => matches!(other, Token::String(_)),
            Token::Number(_) => matches!(other, Token::Number(_)),
            Token::Boolean(_) => matches!(other, Token::Boolean(_)),
            Token::Null => matches!(other, Token::Null),
            Token::LeftBracket => matches!(other, Token::LeftBracket),
            Token::RightBracket => matches!(other, Token::RightBracket),
            Token::LeftBrace => matches!(other, Token::LeftBrace),
            Token::RightBrace => matches!(other, Token::RightBrace),
            Token::Colon => matches!(other, Token::Colon),
            Token::Comma => matches!(other, Token::Comma),
        }
    }

    /// The name of the token in a diagnostic.
    pub fn describe(&self) -> (r: String)
        ensures
            r@ == self@.describe(),
    {
        let mut out = String::new();
        match self {
            Token::String(s) => {
                out.append("String(\"");
                crate::utils::push_escaped_str(&mut out, s.as_str());
                out.append("\")");
            },
            Token::Number(n) => {
                out.append("Number(");
                out.append(n.literal());
                out.append(")");
            },
            Token::Boolean(b) => {
                if *b {
                    out.append("Boolean(true)");
                } else {
                    out.append("Boolean(false)");
                }
            },
            Token::Null => out.append("Null"),
            Token::LeftBracket => out.append("LeftBracket"),
            Token::RightBracket => out.append("RightBracket"),
            Token::LeftBrace => out.append("LeftBrace"),
            Token::RightBrace => out.append("RightBrace"),
            Token::Colon => out.append("Colon"),
            Token::Comma => out.append("Comma"),
        }
        assert(out@ =~= self@.describe());
        out
    }
}

/// The models of a sequence of tokens.
pub open spec fn token_views(tokens: Seq<Token>) -> Seq<TokenView> {
    tokens.map_values(|t: Token| t@)
}

/// Value of a hexadecimal digit.
pub open spec fn hex_value(c: char) -> Option<u32> {
    if '0' <= c && c <= '9' {
        Some((c as u32 - '0' as u32) as u32)
    } else if 'a' <= c && c <= 'f' {
        Some((c as u32 - 'a' as u32 + 10) as u32)
    } else if 'A' <= c && c <= 'F' {
        Some((c as u32 - 'A' as u32 + 10) as u32)
    } else {
        None
    }
}

/// The character that four hexadecimal digits denote, if they are four
/// hexadecimal digits and their value is a scalar value. The codes of
/// surrogates are no scalar values: a lone surrogate is rejected, and two in
/// a row are not combined into one character.
pub open spec fn unicode_escape(s: Seq<char>) -> Option<char> {
    if s.len() == 4 && hex_value(s[0]) is Some && hex_value(s[1]) is Some && hex_value(s[2]) is Some
        && hex_value(s[3]) is Some {
        let code = (((hex_value(s[0])->0 * 16 + hex_value(s[1])->0) * 16 + hex_value(s[2])->0) * 16
            + hex_value(s[3])->0) as u32;
        if is_scalar(code) {
            Some(code as char)
        } else {
            None
        }
    } else {
        None
    }
}

/// The outcome of scanning one piece of text: what was read and the index after it.
pub type Scan<T> = Result<(T, int), ErrorView>;

/// Puts `prefix` before the text of a successful scan.
pub open spec fn prefixed(prefix: Seq<char>, r: Scan<Seq<char>>) -> Scan<Seq<char>> {
    match r {
        Ok((s, j)) => Ok((prefix + s, j)),
        Err(e) => Err(e),
    }
}

/// Scans the inside of a string from index `i` on, up to its closing quote:
/// plain characters stand for themselves, a backslash starts an escape.
pub open spec fn scan_string(input: Seq<char>, i: int) -> Scan<Seq<char>>
    decreases input.len() - i,
{
    if i < 0 || i >= input.len() {
        Err(
            ErrorView::UnexpectedEndOfInput {
                expected: "Closing quote"@,
                position: byte_len(input),
            },
        )
    } else if input[i] == '"' {
        Ok((Seq::empty(), i + 1))
    } else if input[i] == '\\' {
        if i + 1 >= input.len() {
            Err(
                ErrorView::UnexpectedEndOfInput {
                    expected: "Special meaning char for escape sequence"@,
                    position: byte_len(input),
                },
            )
        } else if input[i + 1] == 'u' {
            if i + 6 > input.len() {
                Err(
                    ErrorView::InvalidUnicode {
                        sequence: "\\u"@ + input.skip(i + 2),
                        position: byte_offset(input, i + 2),
                    },
                )
            } else {
                match unicode_escape(input.subrange(i + 2, i + 6)) {
                    Some(c) => prefixed(seq![c], scan_string(input, i + 6)),
                    None => Err(
                        ErrorView::InvalidUnicode {
                            sequence: "\\u"@ + input.subrange(i + 2, i + 6),
                            position: byte_offset(input, i + 2),
                        },
                    ),
                }
            }
        } else {
            match resolve_escape(input[i + 1]) {
                Some(c) => prefixed(seq![c], scan_string(input, i + 2)),
                None => Err(
                    ErrorView::InvalidEscape {
                        escape: input[i + 1],
                        position: byte_offset(input, i + 2),
                    },
                ),
            }
        }
    } else {
        prefixed(seq![input[i]], scan_string(input, i + 1))
    }
}

/// Index after the longest run of number characters that starts at `i`.
pub open spec fn number_run_end(input: Seq<char>, i: int) -> int
    decreases input.len() - i,
{
    if 0 <= i < input.len() && is_number_char(input[i]) {
        number_run_end(input, i + 1)
    } else {
        i
    }
}

/// Index after the longest run of letters that starts at `i`.
pub open spec fn word_end(input: Seq<char>, i: int) -> int
    decreases input.len() - i,
{
    if 0 <= i < input.len() && is_alphabetic(input[i]) {
        word_end(input, i + 1)
    } else {
        i
    }
}

/// Scans a number at index `i`: the longest run of number characters, which
/// must be a numeric literal.
pub open spec fn scan_number(input: Seq<char>, i: int) -> Scan<Seq<char>> {
    let j = number_run_end(input, i);
    let run = input.subrange(i, j);
    if is_number_literal(run) {
        Ok((run, j))
    } else {
        Err(ErrorView::InvalidNumber { value: run, position: byte_offset(input, j) })
    }
}

/// Scans a keyword at index `i`: the longest run of letters, which must be
/// `true`, `false` or `null`.
pub open spec fn scan_keyword(input: Seq<char>, i: int) -> Scan<TokenView> {
    let j = word_end(input, i);
    let word = input.subrange(i, j);
    if word == "true"@ {
        Ok((TokenView::Boolean(true), j))
    } else if word == "false"@ {
        Ok((TokenView::Boolean(false), j))
    } else if word == "null"@ {
        Ok((TokenView::Null, j))
    } else {
        Err(
            ErrorView::UnexpectedToken {
                expected: "valid JSON value"@,
                found: if word.len() > 0 {
                    seq![word[0]]
                } else {
                    "unknown"@
                },
                position: byte_offset(input, i),
            },
        )
    }
}

/// Puts `tokens` before the tokens of a successful scan.
pub open spec fn after_tokens(
    tokens: Seq<TokenView>,
    r: Result<Seq<TokenView>, ErrorView>,
) -> Result<Seq<TokenView>, ErrorView> {
    match r {
        Ok(rest) => Ok(tokens + rest),
        Err(e) => Err(e),
    }
}

/// The tokens of `input` from index `i` on, or the first error met. A string,
/// a number or a keyword always ends after the index where it begins, so the
/// branches that give no further tokens are never taken.
pub open spec fn lex_from(input: Seq<char>, i: int) -> Result<Seq<TokenView>, ErrorView>
    decreases input.len() - i,
{
    if i < 0 || i >= input.len() {
        Ok(Seq::empty())
    } else {
        let c = input[i];
        if is_whitespace(c) {
            lex_from(input, i + 1)
        } else if c == '"' {
            match scan_string(input, i + 1) {
                Ok((s, j)) => if i < j <= input.len() {
                    after_tokens(seq![TokenView::String(s)], lex_from(input, j))
                } else {
                    Ok(Seq::empty())
                },
                Err(e) => Err(e),
            }
        } else if is_digit(c) || c == '-' {
            match scan_number(input, i) {
                Ok((n, j)) => if i < j <= input.len() {
                    after_tokens(seq![TokenView::Number(n)], lex_from(input, j))
                } else {
                    Ok(Seq::empty())
                },
                Err(e) => Err(e),
            }
        } else if c == '{' {
            after_tokens(seq![TokenView::LeftBrace], lex_from(input, i + 1))
        } else if c == '}' {
            after_tokens(seq![TokenView::RightBrace], lex_from(input, i + 1))
        } else if c == '[' {
            after_tokens(seq![TokenView::LeftBracket], lex_from(input, i + 1))
        } else if c == ']' {
            after_tokens(seq![TokenView::RightBracket], lex_from(input, i + 1))
        } else if c == ',' {
            after_tokens(seq![TokenView::Comma], lex_from(input, i + 1))
        } else if c == ':' {
            after_tokens(seq![TokenView::Colon], lex_from(input, i + 1))
        } else if is_alphabetic(c) {
            match scan_keyword(input, i) {
                Ok((t, j)) => if i < j <= input.len() {
                    after_tokens(seq![t], lex_from(input, j))
                } else {
                    Ok(Seq::empty())
                },
                Err(e) => Err(e),
            }
        } else if is_punctuation(c) {
            Err(
                ErrorView::UnexpectedToken {
                    expected: "valid JSON value"@,
                    found: seq![c],
                    position: byte_offset(input, i),
                },
            )
        } else {
            lex_from(input, i + 1)
        }
    }
}

/// The tokens of a whole document.
pub open spec fn lex(input: Seq<char>) -> Result<Seq<TokenView>, ErrorView> {
    lex_from(input, 0)
}

/// Whether an executable scan result is the one that the model gives.
pub open spec fn tokens_match(
    r: Result<Vec<Token>, JsonError>,
    model: Result<Seq<TokenView>, ErrorView>,
) -> bool {
    match model {
        Ok(tokens) => r is Ok && token_views(r->Ok_0@) == tokens,
        Err(e) => r is Err && r->Err_0@ == e,
    }
}

/// Whether an executable text result is the one that the model gives, with the
/// cursor where the model leaves it.
pub open spec fn text_matches(
    r: Result<String, JsonError>,
    cursor: nat,
    model: Scan<Seq<char>>,
) -> bool {
    match model {
        Ok((s, j)) => r is Ok && r->Ok_0@ == s && cursor == j,
        Err(e) => r is Err && r->Err_0@ == e,
    }
}

/// A run of number characters ends at or after the index where it begins, within the input.
pub proof fn lemma_number_run_end_bounds(input: Seq<char>, i: int)
    requires
        0 <= i <= input.len(),
    ensures
        i <= number_run_end(input, i) <= input.len(),
    decreases input.len() - i,
{
    if i < input.len() && is_number_char(input[i]) {
        lemma_number_run_end_bounds(input, i + 1);
    }
}

/// A run of letters ends at or after the index where it begins, within the input.
pub proof fn lemma_word_end_bounds(input: Seq<char>, i: int)
    requires
        0 <= i <= input.len(),
    ensures
        i <= word_end(input, i) <= input.len(),
    decreases input.len() - i,
{
    if i < input.len() && is_alphabetic(input[i]) {
        lemma_word_end_bounds(input, i + 1);
    }
}

/// A successful string scan ends after the index where it began.
pub proof fn lemma_scan_string_advances(input: Seq<char>, i: int)
    requires
        0 <= i,
    ensures
        scan_string(input, i) matches Ok((_, j)) ==> i < j <= input.len(),
    decreases input.len() - i,
{
    if i < input.len() && input[i] != '"' {
        if input[i] == '\\' {
            if i + 1 < input.len() {
                if input[i + 1] == 'u' {
                    if i + 6 <= input.len() {
                        lemma_scan_string_advances(input, i + 6);
                    }
                } else {
                    lemma_scan_string_advances(input, i + 2);
                }
            }
        } else {
            lemma_scan_string_advances(input, i + 1);
        }
    }
}

/// A number that begins with a digit or a minus sign ends after the index where it begins.
pub proof fn lemma_scan_number_advances(input: Seq<char>, i: int)
    requires
        0 <= i < input.len(),
        is_digit(input[i]) || input[i] == '-',
    ensures
        scan_number(input, i) matches Ok((_, j)) ==> i < j <= input.len(),
{
    lemma_number_run_end_bounds(input, i + 1);
}

/// A keyword that begins with a letter ends after the index where it begins.
pub proof fn lemma_scan_keyword_advances(input: Seq<char>, i: int)
    requires
        0 <= i < input.len(),
        is_alphabetic(input[i]),
    ensures
        scan_keyword(input, i) matches Ok((_, j)) ==> i < j <= input.len(),
{
    lemma_word_end_bounds(input, i + 1);
}

/// Characters without a quote or a backslash among them are copied as they are.
pub proof fn lemma_scan_plain(input: Seq<char>, from: int, to: int)
    requires
        0 <= from <= to <= input.len(),
        forall|k: int| from <= k < to ==> input[k] != '"' && input[k] != '\\',
    ensures
        scan_string(input, from) == prefixed(input.subrange(from, to), scan_string(input, to)),
    decreases to - from,
{
    let r = scan_string(input, to);
    if from == to {
        assert(input.subrange(from, to) =~= Seq::<char>::empty());
        match r {
            Ok((s, j)) => {
                assert(Seq::<char>::empty() + s =~= s);
            },
            Err(e) => {},
        }
    } else {
        lemma_scan_plain(input, from + 1, to);
        match r {
            Ok((s, j)) => {
                assert(seq![input[from]] + (input.subrange(from + 1, to) + s) =~= input.subrange(
                    from,
                    to,
                ) + s);
            },
            Err(e) => {},
        }
    }
}

/// A scanner over one document. It is made for one call of [`Tokenizer::tokenize`].
pub struct Tokenizer<'input> {
    input: &'input str,
    chars: Vec<char>,
    current: usize,
}

/// The value of a hexadecimal digit.
fn hex_digit(c: char) -> (r: Option<u32>)
    ensures
        r == hex_value(c),
{
    if '0' <= c && c <= '9' {
        Some(c as u32 - '0' as u32)
    } else if 'a' <= c && c <= 'f' {
        Some(c as u32 - 'a' as u32 + 10)
    } else if 'A' <= c && c <= 'F' {
        Some(c as u32 - 'A' as u32 + 10)
    } else {
        None
    }
}

/// Decodes four hexadecimal digits into the character with that code.
pub fn parse_unicode_hex(s: &str) -> (r: Option<char>)
    ensures
        r == unicode_escape(s@),
{
    let chars = chars_of(s);
    if chars.len() != 4 {
        return None;
    }
    match (hex_digit(chars[0]), hex_digit(chars[1]), hex_digit(chars[2]), hex_digit(chars[3])) {
        (Some(a), Some(b), Some(c), Some(d)) => char::from_u32(((a * 16 + b) * 16 + c) * 16 + d),
        _ => None,
    }
}

impl<'input> Tokenizer<'input> {
    #[verifier::type_invariant]
    spec fn inv(&self) -> bool {
        self.chars@ == self.input@ && self.current <= self.chars.len()
    }

    /// The document being scanned.
    pub closed spec fn text(&self) -> Seq<char> {
        self.chars@
    }

    /// Index of the next character to scan.
    pub closed spec fn cursor(&self) -> nat {
        self.current as nat
    }

    /// A scanner at the start of `input`.
    pub fn new(input: &'input str) -> (r: Self)
        ensures
            r.text() == input@,
            r.cursor() == 0,
    {
        Self { current: 0, chars: chars_of(input), input }
    }

    /// The character under the cursor.
    fn peek(&self) -> (r: Option<char>)
        ensures
            r == (if self.cursor() < self.text().len() {
                Some(self.text()[self.cursor() as int])
            } else {
                None
            }),
    {
        if self.current < self.chars.len() {
            Some(self.chars[self.current])
        } else {
            None
        }
    }

    /// Moves past the character under the cursor and returns it.
    fn advance(&mut self) -> (r: Option<char>)
        ensures
            final(self).text() == old(self).text(),
            r == (if old(self).cursor() < old(self).text().len() {
                Some(old(self).text()[old(self).cursor() as int])
            } else {
                None
            }),
            final(self).cursor() == (if old(self).cursor() < old(self).text().len() {
                old(self).cursor() + 1
            } else {
                old(self).cursor()
            }),
    {
        proof {
            use_type_invariant(&*self);
        }
        if self.current < self.chars.len() {
            let c = self.chars[self.current];
            self.current = self.current + 1;
            Some(c)
        } else {
            None
        }
    }

    /// The text between two indices.
    fn _input_slice_to_string(&self, start: usize, end: usize) -> (r: String)
        requires
            start <= end <= self.text().len(),
        ensures
            r@ == self.text().subrange(start as int, end as int),
    {
        let mut out = String::new();
        push_range(&mut out, &self.chars, start, end);
        assert(out@ =~= self.text().subrange(start as int, end as int));
        out
    }

    /// Whether the whole input has been consumed.
    fn _is_at_end(&self) -> (r: bool)
        ensures
            r == (self.cursor() >= self.text().len()),
    {
        self.peek().is_none()
    }

    /// The byte offset of the character at index `i`.
    #[verifier::loop_isolation(false)]
    fn position_at(&self, i: usize) -> (r: usize)
        requires
            i <= self.text().len(),
        ensures
            r == byte_offset(self.text(), i as int),
            i == self.text().len() ==> r == byte_len(self.text()),
    {
        proof {
            use_type_invariant(self);
            lemma_byte_len_is_encoded_len(self.text());
            assert(self.text().take(self.text().len() as int) =~= self.text());
        }
        let total = self.input.as_bytes().len();
        let mut k: usize = 0;
        let mut offset: usize = 0;
        assert(self.chars@.take(0) =~= Seq::<char>::empty());
        while k < i
            invariant
                k <= i <= self.chars.len(),
                offset == byte_offset(self.chars@, k as int),
                byte_len(self.chars@) == total,
            decreases i - k,
        {
            proof {
                lemma_byte_offset_step(self.chars@, k as int);
            }
            offset = offset + width_of(self.chars[k]);
            k += 1;
        }
        offset
    }

    /// Scans a number whose first character is under the cursor.
    #[verifier::loop_isolation(false)]
    fn consume_number(&mut self) -> (r: Result<JsonNumber, JsonError>)
        requires
            old(self).cursor() <= old(self).text().len(),
        ensures
            final(self).text() == old(self).text(),
            final(self).cursor() <= final(self).text().len(),
            match scan_number(old(self).text(), old(self).cursor() as int) {
                Ok((n, j)) => r is Ok && r->Ok_0@ == n && r->Ok_0.wf() && final(self).cursor() == j,
                Err(e) => r is Err && r->Err_0@ == e,
            },
    {
        let start = self.current;
        let ghost text = self.text();
        loop
            invariant
                self.text() == text,
                start <= self.cursor() <= text.len(),
                number_run_end(text, start as int) == number_run_end(text, self.cursor() as int),
            decreases text.len() - self.cursor(),
        {
            match self.peek() {
                Some(c) => {
                    if !number_char(c) {
                        break ;
                    }
                    self.advance();
                },
                None => {
                    break ;
                },
            }
        }
        let slice = self._input_slice_to_string(start, self.current);
        let run = chars_of(slice.as_str());
        if number_literal(&run) {
            Ok(JsonNumber::from_checked(slice))
        } else {
            Err(JsonError::InvalidNumber { value: slice, position: self.position_at(self.current) })
        }
    }

    /// Scans the inside of a string up to its closing quote, copying plain
    /// characters as they are; at the first backslash the work is handed to
    /// [`Tokenizer::consume_string_slow`].
    #[verifier::loop_isolation(false)]
    fn consume_string(&mut self) -> (r: Result<String, JsonError>)
        requires
            old(self).cursor() <= old(self).text().len(),
        ensures
            final(self).text() == old(self).text(),
            final(self).cursor() <= final(self).text().len(),
            text_matches(
                r,
                final(self).cursor(),
                scan_string(old(self).text(), old(self).cursor() as int),
            ),
    {
        let start = self.current;
        let ghost text = self.text();
        loop
            invariant
                self.text() == text,
                start <= self.cursor() <= text.len(),
                forall|k: int| start <= k < self.cursor() ==> text[k] != '"' && text[k] != '\\',
            decreases text.len() - self.cursor(),
        {
            proof {
                lemma_scan_plain(text, start as int, self.cursor() as int);
            }
            match self.peek() {
                Some('"') => {
                    let s = self._input_slice_to_string(start, self.current);
                    self.advance();
                    assert(s@ + Seq::<char>::empty() =~= s@);
                    return Ok(s);
                },
                Some('\\') => {
                    let s = self._input_slice_to_string(start, self.current);
                    return self.consume_string_slow(s);
                },
                Some(_) => {
                    self.advance();
                },
                None => {
                    return Err(
                        JsonError::UnexpectedEndOfInput {
                            expected: "Closing quote".to_owned(),
                            position: self.position_at(self.current),
                        },
                    );
                },
            }
        }
    }

    /// Scans the rest of a string, resolving escapes, and returns `s` followed
    /// by what was read.
    #[verifier::loop_isolation(false)]
    fn consume_string_slow(&mut self, s: String) -> (r: Result<String, JsonError>)
        requires
            old(self).cursor() <= old(self).text().len(),
        ensures
            final(self).text() == old(self).text(),
            final(self).cursor() <= final(self).text().len(),
            text_matches(
                r,
                final(self).cursor(),
                prefixed(s@, scan_string(old(self).text(), old(self).cursor() as int)),
            ),
    {
        let mut s = s;
        let ghost text = self.text();
        let ghost start = self.cursor() as int;
        let ghost prefix = s@;
        assert(prefixed(Seq::<char>::empty(), scan_string(text, start)) == scan_string(text, start))
            by {
            match scan_string(text, start) {
                Ok((t, j)) => {
                    assert(Seq::<char>::empty() + t =~= t);
                },
                Err(e) => {},
            }
        }
        let ghost read = Seq::<char>::empty();
        assert(prefix + read =~= prefix);
        loop
            invariant
                self.text() == text,
                self.cursor() <= text.len(),
                s@ == prefix + read,
                scan_string(text, start) == prefixed(read, scan_string(text, self.cursor() as int)),
            decreases text.len() - self.cursor(),
        {
            let ghost here = self.cursor() as int;
            match self.peek() {
                None => {
                    return Err(
                        JsonError::UnexpectedEndOfInput {
                            expected: "Closing quote".to_owned(),
                            position: self.position_at(self.current),
                        },
                    );
                },
                Some('"') => {
                    self.advance();
                    assert(read + Seq::<char>::empty() =~= read);
                    return Ok(s);
                },
                Some('\\') => {
                    self.advance();
                    let special_meaning = match self.advance() {
                        Some(c) => c,
                        None => {
                            return Err(
                                JsonError::UnexpectedEndOfInput {
                                    expected: "Special meaning char for escape sequence".to_owned(),
                                    position: self.position_at(self.current),
                                },
                            );
                        },
                    };
                    if special_meaning == 'u' {
                        let hex_start = self.current;
                        if self.chars.len() - hex_start < 4 {
                            proof {
                                use_type_invariant(&*self);
                            }
                            let mut sequence = "\\u".to_owned();
                            push_range(&mut sequence, &self.chars, hex_start, self.chars.len());
                            assert(text.subrange(hex_start as int, text.len() as int) =~= text.skip(
                                hex_start as int,
                            ));
                            return Err(
                                JsonError::InvalidUnicode {
                                    sequence,
                                    position: self.position_at(hex_start),
                                },
                            );
                        }
                        let hex_str = self._input_slice_to_string(hex_start, hex_start + 4);
                        match parse_unicode_hex(hex_str.as_str()) {
                            Some(ch) => {
                                s.push(ch);
                                proof {
                                    use_type_invariant(&*self);
                                }
                                self.current = hex_start + 4;
                                proof {
                                    let next = scan_string(text, here + 6);
                                    match next {
                                        Ok((t, j)) => {
                                            assert(read + (seq![ch] + t) =~= read.push(ch) + t);
                                        },
                                        Err(e) => {},
                                    }
                                    assert(prefix + read.push(ch) =~= (prefix + read).push(ch));
                                    read = read.push(ch);
                                }
                            },
                            None => {
                                let mut sequence = "\\u".to_owned();
                                sequence.append(hex_str.as_str());
                                return Err(
                                    JsonError::InvalidUnicode {
                                        sequence,
                                        position: self.position_at(hex_start),
                                    },
                                );
                            },
                        }
                    } else {
                        match resolve_escape_sequence(special_meaning) {
                            Some(ch) => {
                                s.push(ch);
                                proof {
                                    let next = scan_string(text, here + 2);
                                    match next {
                                        Ok((t, j)) => {
                                            assert(read + (seq![ch] + t) =~= read.push(ch) + t);
                                        },
                                        Err(e) => {},
                                    }
                                    assert(prefix + read.push(ch) =~= (prefix + read).push(ch));
                                    read = read.push(ch);
                                }
                            },
                            None => {
                                return Err(
                                    JsonError::InvalidEscape {
                                        char: special_meaning,
                                        position: self.position_at(self.current),
                                    },
                                );
                            },
                        }
                    }
                },
                Some(c) => {
                    s.push(c);
                    self.advance();
                    proof {
                        let next = scan_string(text, here + 1);
                        match next {
                            Ok((t, j)) => {
                                assert(read + (seq![c] + t) =~= read.push(c) + t);
                            },
                            Err(e) => {},
                        }
                        assert(prefix + read.push(c) =~= (prefix + read).push(c));
                        read = read.push(c);
                    }
                },
            }
        }
    }

    /// Scans a keyword whose first letter is under the cursor.
    #[verifier::loop_isolation(false)]
    fn consume_keyword(&mut self) -> (r: Result<Token, JsonError>)
        requires
            old(self).cursor() <= old(self).text().len(),
        ensures
            final(self).text() == old(self).text(),
            final(self).cursor() <= final(self).text().len(),
            match scan_keyword(old(self).text(), old(self).cursor() as int) {
                Ok((t, j)) => r is Ok && r->Ok_0@ == t && final(self).cursor() == j,
                Err(e) => r is Err && r->Err_0@ == e,
            },
    {
        let start = self.current;
        let ghost text = self.text();
        loop
            invariant
                self.text() == text,
                start <= self.cursor() <= text.len(),
                word_end(text, start as int) == word_end(text, self.cursor() as int),
            decreases text.len() - self.cursor(),
        {
            match self.peek() {
                Some(c) => {
                    if !alphabetic(c) {
                        break ;
                    }
                    self.advance();
                },
                None => {
                    break ;
                },
            }
        }
        proof {
            use_type_invariant(&*self);
        }
        if range_equals(&self.chars, start, self.current, "true") {
            Ok(Token::Boolean(true))
        } else if range_equals(&self.chars, start, self.current, "false") {
            Ok(Token::Boolean(false))
        } else if range_equals(&self.chars, start, self.current, "null") {
            Ok(Token::Null)
        } else {
            let mut found = String::new();
            if start < self.current {
                found.push(self.chars[start]);
                assert(found@ =~= seq![text[start as int]]);
            } else {
                found.append("unknown");
                assert(found@ =~= "unknown"@);
            }
            Err(
                JsonError::UnexpectedToken {
                    expected: "valid JSON value".to_owned(),
                    found,
                    position: self.position_at(start),
                },
            )
        }
    }

    /// Consumes the input and returns the complete list of tokens, or the
    /// first error that the text holds.
    #[verifier::loop_isolation(false)]
    pub fn tokenize(&mut self) -> (r: Result<Vec<Token>, JsonError>)
        ensures
            final(self).text() == old(self).text(),
            tokens_match(r, lex_from(old(self).text(), old(self).cursor() as int)),
            r is Ok ==> final(self).cursor() == final(self).text().len(),
            r is Ok ==> forall|k: int| 0 <= k < r->Ok_0.len() ==> (#[trigger] r->Ok_0[k]).wf(),
    {
        let mut tokens: Vec<Token> = Vec::new();
        let ghost text = self.text();
        let ghost start = self.cursor() as int;
        proof {
            use_type_invariant(&*self);
            assert(token_views(tokens@) =~= Seq::<TokenView>::empty());
            match lex_from(text, start) {
                Ok(ts) => {
                    assert(Seq::<TokenView>::empty() + ts =~= ts);
                },
                Err(e) => {},
            }
        }
        loop
            invariant
                self.text() == text,
                self.cursor() <= text.len(),
                lex_from(text, start) == after_tokens(
                    token_views(tokens@),
                    lex_from(text, self.cursor() as int),
                ),
                forall|k: int| 0 <= k < tokens.len() ==> (#[trigger] tokens[k]).wf(),
            decreases text.len() - self.cursor(),
        {
            let ghost here = self.cursor() as int;
            let ghost before = token_views(tokens@);
            let c = match self.peek() {
                Some(c) => c,
                None => {
                    assert(before + Seq::<TokenView>::empty() =~= before);
                    return Ok(tokens);
                },
            };
            if whitespace(c) {
                self.advance();
            } else if c == '"' {
                self.advance();
                proof {
                    lemma_scan_string_advances(text, here + 1);
                }
                match self.consume_string() {
                    Ok(s) => {
                        tokens.push(Token::String(s));
                    },
                    Err(e) => {
                        return Err(e);
                    },
                }
            } else if digit(c) || c == '-' {
                proof {
                    lemma_number_run_end_bounds(text, here + 1);
                }
                match self.consume_number() {
                    Ok(n) => {
                        tokens.push(Token::Number(n));
                    },
                    Err(e) => {
                        return Err(e);
                    },
                }
            } else if c == '{' {
                self.advance();
                tokens.push(Token::LeftBrace);
            } else if c == '}' {
                self.advance();
                tokens.push(Token::RightBrace);
            } else if c == '[' {
                self.advance();
                tokens.push(Token::LeftBracket);
            } else if c == ']' {
                self.advance();
                tokens.push(Token::RightBracket);
            } else if c == ',' {
                self.advance();
                tokens.push(Token::Comma);
            } else if c == ':' {
                self.advance();
                tokens.push(Token::Colon);
            } else if alphabetic(c) {
                proof {
                    lemma_word_end_bounds(text, here + 1);
                }
                match self.consume_keyword() {
                    Ok(t) => {
                        tokens.push(t);
                    },
                    Err(e) => {
                        return Err(e);
                    },
                }
            } else if punctuation(c) {
                let mut found = String::new();
                found.push(c);
                assert(found@ =~= seq![c]);
                return Err(
                    JsonError::UnexpectedToken {
                        expected: "valid JSON value".to_owned(),
                        found,
                        position: self.position_at(self.current),
                    },
                );
            } else {
                self.advance();
            }
            proof {
                let after = token_views(tokens@);
                if after != before {
                    let t = tokens@.last()@;
                    assert(after =~= before.push(t));
                    match lex_from(text, self.cursor() as int) {
                        Ok(rest) => {
                            assert(before + (seq![t] + rest) =~= before.push(t) + rest);
                        },
                        Err(e) => {},
                    }
                }
            }
        }
    }
}

} // verus!
