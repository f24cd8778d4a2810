//! A document that is cut short ends the input: every proper beginning of
//! tokens that parse is rejected with an end-of-input error, and so is a text
//! that parses, without the bracket or brace that closes it.

use vstd::prelude::*;
use crate::error::ErrorView;
use crate::parser::{
    lemma_array_ends_after, lemma_object_ends_after, parse_array_from, parse_object_from,
    parse_text, parse_tokens, scalar_of, Parsed,
};
use crate::text::{is_alphabetic, is_number_char};
use crate::tokenizer::{
    after_tokens, lemma_number_run_end_bounds, lemma_scan_string_advances, lemma_word_end_bounds,
    lex, lex_from, number_run_end, scan_keyword, scan_number, scan_string, word_end, TokenView,
};
use crate::round_trip::lemma_round_trip;
use crate::value::{compact, put, Json};

verus! {

/// What becomes of a parse that succeeds on the whole tokens when only the
/// first `n` tokens are there: the same result where the parse ended within
/// them, an end-of-input error where it did not.
pub open spec fn cut_result(whole: Parsed, cut: Parsed, n: int) -> bool {
    match whole {
        Ok((_, j)) => if j <= n {
            cut == whole
        } else {
            cut matches Err(e) && e is UnexpectedEndOfInput
        },
        Err(_) => true,
    }
}

/// The rest of an array that parses, cut after the first `n` tokens.
#[verifier::rlimit(60)]
pub proof fn lemma_array_cut(
    tokens: Seq<TokenView>,
    i: int,
    items: Seq<Json>,
    expect_comma: bool,
    n: int,
)
    requires
        0 <= i <= n <= tokens.len(),
        parse_array_from(tokens, i, items, expect_comma) is Ok,
    ensures
        cut_result(
            parse_array_from(tokens, i, items, expect_comma),
            parse_array_from(tokens.take(n), i, items, expect_comma),
            n,
        ),
    decreases tokens.len() - i,
{
    let cut = tokens.take(n);
    lemma_array_ends_after(tokens, i, items, expect_comma);
    if i < n {
        let token = tokens[i];
        assert(cut[i] == token);
        match token {
            TokenView::LeftBracket => {
                lemma_array_ends_after(tokens, i + 1, Seq::empty(), false);
                lemma_array_cut(tokens, i + 1, Seq::empty(), false, n);
                let (v, j) = parse_array_from(tokens, i + 1, Seq::empty(), false)->Ok_0;
                lemma_array_ends_after(tokens, j, items.push(v), true);
                if j <= n {
                    lemma_array_cut(tokens, j, items.push(v), true, n);
                }
            },
            TokenView::LeftBrace => {
                lemma_object_ends_after(tokens, i + 1, Seq::empty(), Seq::empty(), false, false);
                lemma_object_cut(tokens, i + 1, Seq::empty(), Seq::empty(), false, false, n);
                let (v, j) = parse_object_from(
                    tokens,
                    i + 1,
                    Seq::empty(),
                    Seq::empty(),
                    false,
                    false,
                )->Ok_0;
                lemma_array_ends_after(tokens, j, items.push(v), true);
                if j <= n {
                    lemma_array_cut(tokens, j, items.push(v), true, n);
                }
            },
            TokenView::String(_) | TokenView::Number(_) | TokenView::Boolean(_) | TokenView::Null => {
                lemma_array_cut(tokens, i + 1, items.push(scalar_of(token)), true, n);
            },
            TokenView::Comma => {
                lemma_array_ends_after(tokens, i + 1, items, false);
                if i + 1 < n {
                    assert(cut[i + 1] == tokens[i + 1]);
                    lemma_array_cut(tokens, i + 1, items, false, n);
                }
            },
            _ => {},
        }
    }
}

/// The rest of an object that parses, cut after the first `n` tokens.
#[verifier::rlimit(60)]
pub proof fn lemma_object_cut(
    tokens: Seq<TokenView>,
    i: int,
    members: Seq<(Seq<char>, Json)>,
    key: Seq<char>,
    colon_found: bool,
    expect_comma: bool,
    n: int,
)
    requires
        0 <= i <= n <= tokens.len(),
        parse_object_from(tokens, i, members, key, colon_found, expect_comma) is Ok,
    ensures
        cut_result(
            parse_object_from(tokens, i, members, key, colon_found, expect_comma),
            parse_object_from(tokens.take(n), i, members, key, colon_found, expect_comma),
            n,
        ),
    decreases tokens.len() - i,
{
    let cut = tokens.take(n);
    lemma_object_ends_after(tokens, i, members, key, colon_found, expect_comma);
    if i < n {
        let token = tokens[i];
        assert(cut[i] == token);
        match token {
            TokenView::LeftBrace => {
                lemma_object_ends_after(tokens, i + 1, Seq::empty(), Seq::empty(), false, false);
                lemma_object_cut(tokens, i + 1, Seq::empty(), Seq::empty(), false, false, n);
                let (v, j) = parse_object_from(
                    tokens,
                    i + 1,
                    Seq::empty(),
                    Seq::empty(),
                    false,
                    false,
                )->Ok_0;
                lemma_object_ends_after(tokens, j, put(members, key, v), key, false, true);
                if j <= n {
                    lemma_object_cut(tokens, j, put(members, key, v), key, false, true, n);
                }
            },
            TokenView::LeftBracket => {
                lemma_array_ends_after(tokens, i + 1, Seq::empty(), false);
                lemma_array_cut(tokens, i + 1, Seq::empty(), false, n);
                let (v, j) = parse_array_from(tokens, i + 1, Seq::empty(), false)->Ok_0;
                lemma_object_ends_after(tokens, j, put(members, key, v), key, false, true);
                if j <= n {
                    lemma_object_cut(tokens, j, put(members, key, v), key, false, true, n);
                }
            },
            TokenView::String(s) => {
                if colon_found {
                    lemma_object_ends_after(
                        tokens,
                        i + 1,
                        put(members, key, Json::String(s)),
                        key,
                        false,
                        true,
                    );
                    if i + 1 < n {
                        lemma_object_cut(
                            tokens,
                            i + 1,
                            put(members, key, Json::String(s)),
                            key,
                            false,
                            true,
                            n,
                        );
                    }
                } else {
                    lemma_object_ends_after(tokens, i + 2, members, s, true, false);
                    if i + 1 < n {
                        assert(cut[i + 1] == tokens[i + 1]);
                        lemma_object_cut(tokens, i + 2, members, s, true, false, n);
                    }
                }
            },
            TokenView::Number(_) | TokenView::Boolean(_) | TokenView::Null => {
                lemma_object_cut(
                    tokens,
                    i + 1,
                    put(members, key, scalar_of(token)),
                    key,
                    false,
                    true,
                    n,
                );
            },
            TokenView::Comma => {
                lemma_object_ends_after(tokens, i + 1, members, key, colon_found, false);
                if i + 1 < n {
                    assert(cut[i + 1] == tokens[i + 1]);
                    lemma_object_cut(tokens, i + 1, members, key, colon_found, false, n);
                }
            },
            _ => {},
        }
    }
}

/// Every proper beginning of tokens that parse as a document is rejected
/// with an end-of-input error: never a value, never an unexpected token.
pub proof fn lemma_truncated_tokens(tokens: Seq<TokenView>, n: int)
    requires
        parse_tokens(tokens) is Ok,
        0 <= n < tokens.len(),
    ensures
        parse_tokens(tokens.take(n)) is Err,
        parse_tokens(tokens.take(n))->Err_0 is UnexpectedEndOfInput,
{
    let cut = tokens.take(n);
    if n > 0 {
        assert(cut[0] == tokens[0]);
        match tokens[0] {
            TokenView::LeftBrace => {
                lemma_object_ends_after(tokens, 1, Seq::empty(), Seq::empty(), false, false);
                lemma_object_cut(tokens, 1, Seq::empty(), Seq::empty(), false, false, n);
            },
            TokenView::LeftBracket => {
                lemma_array_ends_after(tokens, 1, Seq::empty(), false);
                lemma_array_cut(tokens, 1, Seq::empty(), false, n);
            },
            _ => {},
        }
    }
}

/// A bracket or brace that closes a container.
pub open spec fn is_closer(c: char) -> bool {
    c == ']' || c == '}'
}

/// A run of number characters ends where it ended when the input loses a
/// last character that is no number character.
pub proof fn lemma_number_run_cut(input: Seq<char>, i: int)
    requires
        0 <= i,
        input.len() > 0,
        !is_number_char(input.last()),
    ensures
        number_run_end(input.drop_last(), i) == number_run_end(input, i),
    decreases input.len() - i,
{
    if i < input.len() - 1 && is_number_char(input[i]) {
        lemma_number_run_cut(input, i + 1);
    }
}

/// A run of letters ends where it ended when the input loses a last
/// character that is no letter.
pub proof fn lemma_word_cut(input: Seq<char>, i: int)
    requires
        0 <= i,
        input.len() > 0,
        !is_alphabetic(input.last()),
    ensures
        word_end(input.drop_last(), i) == word_end(input, i),
    decreases input.len() - i,
{
    if i < input.len() - 1 && is_alphabetic(input[i]) {
        lemma_word_cut(input, i + 1);
    }
}

/// A string that scans ends with its closing quote.
pub proof fn lemma_scan_string_closes(input: Seq<char>, q: int)
    requires
        0 <= q,
        scan_string(input, q) is Ok,
    ensures
        ({
            let j = scan_string(input, q)->Ok_0.1;
            q < j <= input.len() && input[j - 1] == '"'
        }),
    decreases input.len() - q,
{
    lemma_scan_string_advances(input, q);
    if input[q] == '"' {
    } else if input[q] == '\\' {
        if input[q + 1] == 'u' {
            lemma_scan_string_closes(input, q + 6);
        } else {
            lemma_scan_string_closes(input, q + 2);
        }
    } else {
        lemma_scan_string_closes(input, q + 1);
    }
}

/// A string that scans and ends before the last character scans the same
/// when that character is gone.
pub proof fn lemma_scan_string_cut(input: Seq<char>, q: int)
    requires
        0 <= q,
        scan_string(input, q) is Ok,
        scan_string(input, q)->Ok_0.1 < input.len(),
    ensures
        scan_string(input.drop_last(), q) == scan_string(input, q),
    decreases input.len() - q,
{
    let cut = input.drop_last();
    lemma_scan_string_advances(input, q);
    assert(cut[q] == input[q]);
    if input[q] == '"' {
    } else if input[q] == '\\' {
        if input[q + 1] == 'u' {
            lemma_scan_string_advances(input, q + 6);
            assert(cut[q + 1] == input[q + 1]);
            assert(cut.subrange(q + 2, q + 6) =~= input.subrange(q + 2, q + 6));
            lemma_scan_string_cut(input, q + 6);
        } else {
            lemma_scan_string_advances(input, q + 2);
            assert(cut[q + 1] == input[q + 1]);
            lemma_scan_string_cut(input, q + 2);
        }
    } else {
        lemma_scan_string_advances(input, q + 1);
        lemma_scan_string_cut(input, q + 1);
    }
}

/// A text that scans and ends with a closing bracket or brace scans, without
/// that last character, to the same tokens without the last.
#[verifier::rlimit(60)]
pub proof fn lemma_lex_cut(input: Seq<char>, i: int)
    requires
        input.len() > 0,
        is_closer(input.last()),
        0 <= i < input.len(),
        lex_from(input, i) is Ok,
    ensures
        lex_from(input, i)->Ok_0.len() >= 1,
        lex_from(input.drop_last(), i) == Ok::<Seq<TokenView>, ErrorView>(
            lex_from(input, i)->Ok_0.drop_last(),
        ),
    decreases input.len() - i,
{
    let cut = input.drop_last();
    let m = input.len() - 1;
    let c = input[i];
    let whole = lex_from(input, i)->Ok_0;
    if i == m {
        assert(lex_from(input, i + 1) == Ok::<Seq<TokenView>, ErrorView>(Seq::empty()));
        assert(whole.drop_last() =~= Seq::<TokenView>::empty());
    } else {
        assert(cut[i] == c);
        if c == '"' {
            lemma_scan_string_closes(input, i + 1);
            let (s, j) = scan_string(input, i + 1)->Ok_0;
            lemma_scan_string_cut(input, i + 1);
            lemma_lex_cut_after(input, i, j, TokenView::String(s));
        } else if crate::text::is_digit(c) || c == '-' {
            lemma_number_run_cut(input, i);
            lemma_number_run_end_bounds(cut, i + 1);
            lemma_number_run_end_bounds(input, i + 1);
            let (run, j) = scan_number(input, i)->Ok_0;
            assert(cut.subrange(i, j) =~= input.subrange(i, j));
            lemma_lex_cut_after(input, i, j, TokenView::Number(run));
        } else if crate::text::is_alphabetic(c) {
            lemma_word_cut(input, i);
            lemma_word_end_bounds(cut, i + 1);
            lemma_word_end_bounds(input, i + 1);
            let (token, j) = scan_keyword(input, i)->Ok_0;
            assert(cut.subrange(i, j) =~= input.subrange(i, j));
            lemma_lex_cut_after(input, i, j, token);
        } else if c == '{' {
            lemma_lex_cut_after(input, i, i + 1, TokenView::LeftBrace);
        } else if c == '}' {
            lemma_lex_cut_after(input, i, i + 1, TokenView::RightBrace);
        } else if c == '[' {
            lemma_lex_cut_after(input, i, i + 1, TokenView::LeftBracket);
        } else if c == ']' {
            lemma_lex_cut_after(input, i, i + 1, TokenView::RightBracket);
        } else if c == ',' {
            lemma_lex_cut_after(input, i, i + 1, TokenView::Comma);
        } else if c == ':' {
            lemma_lex_cut_after(input, i, i + 1, TokenView::Colon);
        } else {
            lemma_lex_cut(input, i + 1);
        }
    }
}

/// The step of [`lemma_lex_cut`] after one token that ends at index `j`,
/// before the last character.
pub proof fn lemma_lex_cut_after(input: Seq<char>, i: int, j: int, token: TokenView)
    requires
        input.len() > 0,
        is_closer(input.last()),
        0 <= i < j < input.len(),
        lex_from(input, i) is Ok,
        lex_from(input, i) == after_tokens(seq![token], lex_from(input, j)),
    ensures
        lex_from(input, j) is Ok,
        lex_from(input, i)->Ok_0.len() >= 2,
        after_tokens(seq![token], lex_from(input.drop_last(), j)) == Ok::<
            Seq<TokenView>,
            ErrorView,
        >(lex_from(input, i)->Ok_0.drop_last()),
    decreases input.len() - i, 0nat,
{
    lemma_lex_cut(input, j);
    let rest = lex_from(input, j)->Ok_0;
    assert((seq![token] + rest).drop_last() =~= seq![token] + rest.drop_last());
}

/// A document that parses and ends with the bracket or brace that closes it
/// is rejected, without that last character, with an end-of-input error:
/// never a value, never an unexpected token.
pub proof fn lemma_truncated_document(document: Seq<char>)
    requires
        document.len() > 0,
        is_closer(document.last()),
        parse_text(document) is Ok,
    ensures
        parse_text(document.drop_last()) is Err,
        parse_text(document.drop_last())->Err_0 is UnexpectedEndOfInput,
{
    lemma_lex_cut(document, 0);
    let tokens = lex(document)->Ok_0;
    assert(tokens.drop_last() =~= tokens.take(tokens.len() - 1));
    lemma_truncated_tokens(tokens, tokens.len() - 1);
}

/// The compact text of a well-formed array or object without its last
/// character, the closing bracket or brace, is rejected with an end-of-input
/// error.
pub proof fn lemma_unclosed(v: Json)
    requires
        v.wf(),
        v is Array || v is Object,
    ensures
        parse_text(compact(v).drop_last()) is Err,
        parse_text(compact(v).drop_last())->Err_0 is UnexpectedEndOfInput,
{
    lemma_round_trip(v);
    lemma_truncated_document(compact(v));
}

} // verus!
