//! Parsing undoes serializing: the text of a well-formed value scans to the
//! tokens of that value, and those tokens parse to the value itself.

use vstd::prelude::*;
use crate::number::{digits_end, is_number_literal};
use crate::text::{is_alphabetic, is_digit, is_number_char};
use crate::tokenizer::{
    after_tokens, lex, lex_from, number_run_end, prefixed, scan_string, word_end, TokenView,
};
use crate::error::ErrorView;
use crate::parser::{
    nested_end, parse_array_from, parse_object_from, parse_text, parse_tokens,
};
use crate::utils::{escape, escape_char, resolve_escape};
use crate::value::{
    compact, compact_items, compact_members, key_index, lemma_key_index, pretty, pretty_items,
    pretty_members, put, quoted, spaces, unique_keys, Json,
};

verus! {

/// Element by element, `input` from index `p` on is `s`.
#[verifier::opaque]
pub open spec fn agrees<T>(input: Seq<T>, p: int, s: Seq<T>) -> bool {
    forall|k: int| 0 <= k < s.len() ==> input[p + k] == #[trigger] s[k]
}

/// The sequence `s` stands in `input` at index `p`.
pub open spec fn occurs<T>(input: Seq<T>, p: int, s: Seq<T>) -> bool {
    &&& 0 <= p
    &&& p + s.len() <= input.len()
    &&& agrees(input, p, s)
}

/// What stands at an index of a sequence that stands in the input.
pub proof fn lemma_occurs_at<T>(input: Seq<T>, p: int, s: Seq<T>, k: int)
    requires
        occurs(input, p, s),
        0 <= k < s.len(),
    ensures
        0 <= p + k < input.len(),
        input[p + k] == s[k],
{
    reveal(agrees);
}

/// A sequence stands in itself at the start.
pub proof fn lemma_occurs_whole<T>(s: Seq<T>)
    ensures
        occurs(s, 0, s),
{
    reveal(agrees);
}

/// A character that ends a number or a keyword inside a serialized text.
pub open spec fn is_stop(c: char) -> bool {
    c == ',' || c == ']' || c == '}' || c == '\n'
}

/// At index `q` the input ends or a stop character stands.
pub open spec fn ends_at(input: Seq<char>, q: int) -> bool {
    q == input.len() || (0 <= q < input.len() && is_stop(input[q]))
}

/// The tokens of a value.
pub open spec fn value_tokens(v: Json) -> Seq<TokenView>
    decreases v, 0nat,
{
    match v {
        Json::Null => seq![TokenView::Null],
        Json::Boolean(b) => seq![TokenView::Boolean(b)],
        Json::Number(n) => seq![TokenView::Number(n)],
        Json::String(s) => seq![TokenView::String(s)],
        Json::Array(items) => seq![TokenView::LeftBracket] + item_tokens(items, items.len())
            + seq![TokenView::RightBracket],
        Json::Object(members) => seq![TokenView::LeftBrace] + member_tokens(
            members,
            members.len(),
        ) + seq![TokenView::RightBrace],
    }
}

/// The tokens of the first `n` items, with a comma between neighbours.
pub open spec fn item_tokens(items: Seq<Json>, n: nat) -> Seq<TokenView>
    decreases items, n,
{
    if n == 0 || n > items.len() {
        Seq::empty()
    } else if n == 1 {
        value_tokens(items[0])
    } else {
        item_tokens(items, (n - 1) as nat) + seq![TokenView::Comma] + value_tokens(items[n - 1])
    }
}

/// The tokens of the first `n` members, each as its key, a colon and its
/// value, with a comma between neighbours.
pub open spec fn member_tokens(members: Seq<(Seq<char>, Json)>, n: nat) -> Seq<TokenView>
    decreases members, n,
{
    if n == 0 || n > members.len() {
        Seq::empty()
    } else if n == 1 {
        seq![TokenView::String(members[0].0), TokenView::Colon] + value_tokens(members[0].1)
    } else {
        member_tokens(members, (n - 1) as nat) + seq![
            TokenView::Comma,
            TokenView::String(members[n - 1].0),
            TokenView::Colon,
        ] + value_tokens(members[n - 1].1)
    }
}

/// A sequence that stands at an index is made of parts that stand one after the other.
pub proof fn lemma_occurs_split<T>(input: Seq<T>, p: int, a: Seq<T>, b: Seq<T>)
    ensures
        occurs(input, p, a + b) <==> occurs(input, p, a) && occurs(input, p + a.len(), b),
{
    reveal(agrees);
    let ab = a + b;
    if occurs(input, p, ab) {
        assert forall|k: int| 0 <= k < a.len() implies input[p + k] == #[trigger] a[k] by {
            assert(ab[k] == a[k]);
        }
        assert forall|k: int| 0 <= k < b.len() implies input[p + a.len() + k] == #[trigger] b[k] by {
            assert(ab[a.len() + k] == b[k]);
        }
    }
    if occurs(input, p, a) && occurs(input, p + a.len(), b) {
        assert forall|k: int| 0 <= k < ab.len() implies input[p + k] == #[trigger] ab[k] by {
            if k < a.len() {
                assert(ab[k] == a[k]);
            } else {
                assert(ab[k] == b[k - a.len()]);
                assert(input[p + a.len() + (k - a.len())] == b[k - a.len()]);
            }
        }
    }
}

/// Tokens put before tokens put before a result are their concatenation put before it.
pub proof fn lemma_after_tokens_twice(
    a: Seq<TokenView>,
    b: Seq<TokenView>,
    r: Result<Seq<TokenView>, ErrorView>,
)
    ensures
        after_tokens(a, after_tokens(b, r)) == after_tokens(a + b, r),
{
    match r {
        Ok(rest) => {
            assert(a + (b + rest) =~= (a + b) + rest);
        },
        Err(e) => {},
    }
}

/// A run of letters that ends at a character that is no letter is a whole word.
pub proof fn lemma_word_end(input: Seq<char>, p: int, k: int)
    requires
        0 <= p,
        0 <= k,
        p + k <= input.len(),
        forall|j: int| 0 <= j < k ==> is_alphabetic(#[trigger] input[p + j]),
        p + k == input.len() || !is_alphabetic(input[p + k]),
    ensures
        word_end(input, p) == p + k,
    decreases k,
{
    if k > 0 {
        assert(is_alphabetic(input[p + 0]));
        assert forall|j: int| 0 <= j < k - 1 implies is_alphabetic(#[trigger] input[p + 1 + j]) by {
            assert(is_alphabetic(input[p + (j + 1)]));
        }
        lemma_word_end(input, p + 1, k - 1);
    }
}

/// A run of number characters that ends at another character is a whole run.
pub proof fn lemma_number_run_end(input: Seq<char>, p: int, k: int)
    requires
        0 <= p,
        0 <= k,
        p + k <= input.len(),
        forall|j: int| 0 <= j < k ==> is_number_char(#[trigger] input[p + j]),
        p + k == input.len() || !is_number_char(input[p + k]),
    ensures
        number_run_end(input, p) == p + k,
    decreases k,
{
    if k > 0 {
        assert(is_number_char(input[p + 0]));
        assert forall|j: int| 0 <= j < k - 1 implies is_number_char(#[trigger] input[p + 1 + j]) by {
            assert(is_number_char(input[p + (j + 1)]));
        }
        lemma_number_run_end(input, p + 1, k - 1);
    }
}

/// Up to where the digits end, there are digits.
pub proof fn lemma_digits_run(s: Seq<char>, i: int, k: int)
    requires
        0 <= i <= k < digits_end(s, i),
    ensures
        k < s.len(),
        is_digit(s[k]),
    decreases s.len() - i,
{
    if i < s.len() && is_digit(s[i]) {
        if k > i {
            lemma_digits_run(s, i + 1, k);
        }
    }
}

/// A numeric literal is made of number characters.
pub proof fn lemma_literal_chars(s: Seq<char>)
    requires
        is_number_literal(s),
    ensures
        forall|k: int| 0 <= k < s.len() ==> is_number_char(#[trigger] s[k]),
{
    let a: int = if s.len() > 0 && s[0] == '-' {
        1
    } else {
        0
    };
    let b = digits_end(s, a);
    let dot = b < s.len() && s[b] == '.';
    let c = if dot {
        digits_end(s, b + 1)
    } else {
        b
    };
    let d: int = if c + 1 < s.len() && (s[c + 1] == '+' || s[c + 1] == '-') {
        c + 2
    } else {
        c + 1
    };
    crate::number::lemma_digits_end_bounds(s, a);
    if dot {
        crate::number::lemma_digits_end_bounds(s, b + 1);
    }
    assert forall|k: int| 0 <= k < s.len() implies is_number_char(#[trigger] s[k]) by {
        if k < a {
        } else if k < b {
            lemma_digits_run(s, a, k);
        } else if dot && k == b {
        } else if k < c {
            lemma_digits_run(s, b + 1, k);
        } else if k == c {
        } else if k < d {
        } else {
            lemma_digits_run(s, d, k);
        }
    }
}

/// The keyword `null` scans to its token.
pub proof fn lemma_lex_null(input: Seq<char>, p: int)
    requires
        occurs(input, p, "null"@),
        ends_at(input, p + 4),
    ensures
        lex_from(input, p) == after_tokens(seq![TokenView::Null], lex_from(input, p + 4)),
{
    reveal(agrees);
    reveal_strlit("null");
    reveal_strlit("true");
    reveal_strlit("false");
    let w = "null"@;
    assert(input[p + 0] == w[0] && input[p + 1] == w[1] && input[p + 2] == w[2] && input[p + 3]
        == w[3]);
    assert forall|j: int| 0 <= j < 4 implies is_alphabetic(#[trigger] input[p + j]) by {
        assert(input[p + j] == w[j]);
    }
    lemma_word_end(input, p, 4);
    assert(input.subrange(p, p + 4) =~= w);
    assert(w.len() != "true"@.len() || w[0] != "true"@[0]);
    assert(w.len() != "false"@.len());
}

/// The keyword `true` scans to its token.
pub proof fn lemma_lex_true(input: Seq<char>, p: int)
    requires
        occurs(input, p, "true"@),
        ends_at(input, p + 4),
    ensures
        lex_from(input, p) == after_tokens(seq![TokenView::Boolean(true)], lex_from(input, p + 4)),
{
    reveal(agrees);
    reveal_strlit("true");
    let w = "true"@;
    assert(input[p + 0] == w[0] && input[p + 1] == w[1] && input[p + 2] == w[2] && input[p + 3]
        == w[3]);
    assert forall|j: int| 0 <= j < 4 implies is_alphabetic(#[trigger] input[p + j]) by {
        assert(input[p + j] == w[j]);
    }
    lemma_word_end(input, p, 4);
    assert(input.subrange(p, p + 4) =~= w);
}

/// The keyword `false` scans to its token.
pub proof fn lemma_lex_false(input: Seq<char>, p: int)
    requires
        occurs(input, p, "false"@),
        ends_at(input, p + 5),
    ensures
        lex_from(input, p) == after_tokens(seq![TokenView::Boolean(false)], lex_from(input, p + 5)),
{
    reveal(agrees);
    reveal_strlit("true");
    reveal_strlit("false");
    let w = "false"@;
    assert(input[p + 0] == w[0] && input[p + 1] == w[1] && input[p + 2] == w[2] && input[p + 3]
        == w[3] && input[p + 4] == w[4]);
    assert forall|j: int| 0 <= j < 5 implies is_alphabetic(#[trigger] input[p + j]) by {
        assert(input[p + j] == w[j]);
    }
    lemma_word_end(input, p, 5);
    assert(input.subrange(p, p + 5) =~= w);
    assert(w.len() != "true"@.len());
}

/// A numeric literal scans to its token.
pub proof fn lemma_lex_number(input: Seq<char>, p: int, n: Seq<char>)
    requires
        is_number_literal(n),
        occurs(input, p, n),
        ends_at(input, p + n.len()),
    ensures
        lex_from(input, p) == after_tokens(
            seq![TokenView::Number(n)],
            lex_from(input, p + n.len()),
        ),
{
    reveal(agrees);
    lemma_literal_chars(n);
    lemma_occurs_at(input, p, n, 0);
    assert forall|j: int| 0 <= j < n.len() implies is_number_char(#[trigger] input[p + j]) by {
        assert(input[p + j] == n[j]);
    }
    lemma_number_run_end(input, p, n.len() as int);
    assert(input.subrange(p, p + n.len()) =~= n);
}

/// The escaped form of a text begins with the escaped form of its first character.
pub proof fn lemma_escape_front(s: Seq<char>)
    requires
        s.len() > 0,
    ensures
        escape(s) == escape_char(s[0]) + escape(s.drop_first()),
    decreases s.len(),
{
    if s.len() == 1 {
        assert(s.drop_last() =~= Seq::<char>::empty());
        assert(s.drop_first() =~= Seq::<char>::empty());
        assert(escape(Seq::<char>::empty()) =~= Seq::<char>::empty());
        assert(escape(s) =~= escape_char(s[0]) + escape(s.drop_first()));
    } else {
        lemma_escape_front(s.drop_last());
        assert(s.drop_last().drop_first() =~= s.drop_first().drop_last());
        assert(escape(s) =~= escape_char(s[0]) + escape(s.drop_first()));
    }
}

/// The escaped form of a text, followed by a quote, scans back to the text.
pub proof fn lemma_scan_escaped(input: Seq<char>, q: int, s: Seq<char>)
    requires
        occurs(input, q, escape(s)),
        q + escape(s).len() < input.len(),
        input[q + escape(s).len()] == '"',
    ensures
        scan_string(input, q) == Ok::<(Seq<char>, int), ErrorView>(
            (s, q + escape(s).len() + 1),
        ),
    decreases s.len(),
{
    if s.len() == 0 {
        assert(escape(s) =~= Seq::<char>::empty());
        assert(s =~= Seq::<char>::empty());
    } else {
        let c = s[0];
        let rest = s.drop_first();
        let head = escape_char(c);
        lemma_escape_front(s);
        lemma_occurs_split(input, q, head, escape(rest));
        assert(escape(s).len() == head.len() + escape(rest).len());
        lemma_occurs_at(input, q, head, 0);
        lemma_scan_escaped(input, q + head.len(), rest);
        let next = scan_string(input, q + head.len());
        assert(next == Ok::<(Seq<char>, int), ErrorView>(
            (rest, q + escape(s).len() + 1),
        ));
        assert(seq![c] + rest =~= s);
        if head.len() == 2 {
            lemma_occurs_at(input, q, head, 1);
            assert(input[q] == '\\');
            assert(input[q + 1] != 'u');
            assert(resolve_escape(input[q + 1]) == Some(c));
            assert(scan_string(input, q) == prefixed(seq![c], next));
        } else {
            assert(head =~= seq![c]);
            assert(input[q] == c);
            assert(c != '"' && c != '\\');
            assert(scan_string(input, q) == prefixed(seq![c], next));
        }
    }
}

/// A quoted text scans to its string token.
pub proof fn lemma_lex_string(input: Seq<char>, p: int, s: Seq<char>)
    requires
        occurs(input, p, quoted(s)),
    ensures
        lex_from(input, p) == after_tokens(
            seq![TokenView::String(s)],
            lex_from(input, p + quoted(s).len()),
        ),
{
    let open = seq!['"'];
    lemma_occurs_split(input, p, open + escape(s), open);
    lemma_occurs_split(input, p, open, escape(s));
    lemma_occurs_at(input, p, open, 0);
    lemma_occurs_at(input, p + 1 + escape(s).len(), open, 0);
    lemma_scan_escaped(input, p + 1, s);
}

/// All items are well formed.
pub open spec fn items_wf(items: Seq<Json>) -> bool {
    forall|i: int| 0 <= i < items.len() ==> (#[trigger] items[i]).wf()
}

/// All member values are well formed.
pub open spec fn members_wf(members: Seq<(Seq<char>, Json)>) -> bool {
    forall|i: int| 0 <= i < members.len() ==> (#[trigger] members[i]).1.wf()
}

/// The compact text of a well-formed value scans to the tokens of the value,
/// wherever it stands, if the input ends after it or goes on with a comma or
/// a closing bracket or brace.
pub proof fn lemma_lex_value(v: Json, input: Seq<char>, p: int)
    requires
        v.wf(),
        occurs(input, p, compact(v)),
        ends_at(input, p + compact(v).len()),
    ensures
        lex_from(input, p) == after_tokens(value_tokens(v), lex_from(input, p + compact(v).len())),
    decreases v, 0nat,
{
    match v {
        Json::Null => {
            reveal_strlit("null");
            lemma_lex_null(input, p);
        },
        Json::Boolean(b) => {
            reveal_strlit("true");
            reveal_strlit("false");
            if b {
                lemma_lex_true(input, p);
            } else {
                lemma_lex_false(input, p);
            }
        },
        Json::Number(n) => {
            lemma_lex_number(input, p, n);
        },
        Json::String(s) => {
            lemma_lex_string(input, p, s);
        },
        Json::Array(items) => {
            assert(items_wf(items));
            lemma_lex_array(items, input, p);
        },
        Json::Object(members) => {
            assert(members_wf(members));
            lemma_lex_object(members, input, p);
        },
    }
}

/// The compact text of an array scans to its tokens.
pub proof fn lemma_lex_array(items: Seq<Json>, input: Seq<char>, p: int)
    requires
        items_wf(items),
        occurs(input, p, compact(Json::Array(items))),
    ensures
        lex_from(input, p) == after_tokens(
            value_tokens(Json::Array(items)),
            lex_from(input, p + compact(Json::Array(items)).len()),
        ),
    decreases items, items.len() + 1,
{
    let body = compact_items(items, items.len());
    let open = seq!['['];
    let close = seq![']'];
    lemma_occurs_split(input, p, open + body, close);
    lemma_occurs_split(input, p, open, body);
    lemma_occurs_at(input, p, open, 0);
    lemma_occurs_at(input, p + 1 + body.len(), close, 0);
    lemma_lex_items(items, items.len(), input, p + 1);
    let end = p + 2 + body.len();
    let rest = lex_from(input, end);
    let inner = item_tokens(items, items.len());
    assert(lex_from(input, p) == after_tokens(seq![TokenView::LeftBracket], lex_from(input, p + 1)));
    assert(lex_from(input, p + 1 + body.len()) == after_tokens(seq![TokenView::RightBracket], rest));
    lemma_after_tokens_twice(inner, seq![TokenView::RightBracket], rest);
    lemma_after_tokens_twice(seq![TokenView::LeftBracket], inner + seq![TokenView::RightBracket], rest);
    assert(seq![TokenView::LeftBracket] + (inner + seq![TokenView::RightBracket]) =~= value_tokens(
        Json::Array(items),
    ));
}

/// The compact text of an object scans to its tokens.
pub proof fn lemma_lex_object(members: Seq<(Seq<char>, Json)>, input: Seq<char>, p: int)
    requires
        members_wf(members),
        occurs(input, p, compact(Json::Object(members))),
    ensures
        lex_from(input, p) == after_tokens(
            value_tokens(Json::Object(members)),
            lex_from(input, p + compact(Json::Object(members)).len()),
        ),
    decreases members, members.len() + 1,
{
    let body = compact_members(members, members.len());
    let open = seq!['{'];
    let close = seq!['}'];
    lemma_occurs_split(input, p, open + body, close);
    lemma_occurs_split(input, p, open, body);
    lemma_occurs_at(input, p, open, 0);
    lemma_occurs_at(input, p + 1 + body.len(), close, 0);
    lemma_lex_members(members, members.len(), input, p + 1);
    let end = p + 2 + body.len();
    let rest = lex_from(input, end);
    let inner = member_tokens(members, members.len());
    assert(lex_from(input, p) == after_tokens(seq![TokenView::LeftBrace], lex_from(input, p + 1)));
    assert(lex_from(input, p + 1 + body.len()) == after_tokens(seq![TokenView::RightBrace], rest));
    lemma_after_tokens_twice(inner, seq![TokenView::RightBrace], rest);
    lemma_after_tokens_twice(seq![TokenView::LeftBrace], inner + seq![TokenView::RightBrace], rest);
    assert(seq![TokenView::LeftBrace] + (inner + seq![TokenView::RightBrace]) =~= value_tokens(
        Json::Object(members),
    ));
}

/// The compact text of the first `n` items scans to their tokens.
#[verifier::rlimit(40)]
pub proof fn lemma_lex_items(items: Seq<Json>, n: nat, input: Seq<char>, q: int)
    requires
        n <= items.len(),
        items_wf(items),
        occurs(input, q, compact_items(items, n)),
        ends_at(input, q + compact_items(items, n).len()),
    ensures
        lex_from(input, q) == after_tokens(
            item_tokens(items, n),
            lex_from(input, q + compact_items(items, n).len()),
        ),
    decreases items, n,
{
    if n == 0 {
        match lex_from(input, q) {
            Ok(rest) => {
                assert(Seq::<TokenView>::empty() + rest =~= rest);
            },
            Err(e) => {},
        }
    } else if n == 1 {
        assert(items[0].wf());
        lemma_lex_value(items[0], input, q);
    } else {
        let first = compact_items(items, (n - 1) as nat);
        let comma = seq![','];
        let last = compact(items[n - 1]);
        assert(items[n - 1].wf());
        lemma_occurs_split(input, q, first + comma, last);
        lemma_occurs_split(input, q, first, comma);
        lemma_occurs_at(input, q + first.len(), comma, 0);
        lemma_lex_items(items, (n - 1) as nat, input, q);
        lemma_lex_value(items[n - 1], input, q + first.len() + 1);
        let rest = lex_from(input, q + first.len() + 1 + last.len());
        lemma_after_tokens_twice(seq![TokenView::Comma], value_tokens(items[n - 1]), rest);
        lemma_after_tokens_twice(
            item_tokens(items, (n - 1) as nat),
            seq![TokenView::Comma] + value_tokens(items[n - 1]),
            rest,
        );
        assert(item_tokens(items, (n - 1) as nat) + (seq![TokenView::Comma] + value_tokens(
            items[n - 1],
        )) =~= item_tokens(items, n));
    }
}

/// The compact text of several members is that of all but the last, a comma and the last member.
pub proof fn lemma_compact_members_unfold(members: Seq<(Seq<char>, Json)>, n: nat)
    requires
        1 < n <= members.len(),
    ensures
        compact_members(members, n) == compact_members(members, (n - 1) as nat) + seq![','] + (
        quoted(members[n - 1].0) + ": "@ + compact(members[n - 1].1)),
{
    let first = compact_members(members, (n - 1) as nat);
    let last = quoted(members[n - 1].0) + ": "@ + compact(members[n - 1].1);
    assert(compact_members(members, n) =~= first + seq![','] + last);
}

/// The indented text of several members is that of all but the last, a
/// comma, a line break, the indentation and the last member.
pub proof fn lemma_pretty_members_unfold(
    members: Seq<(Seq<char>, Json)>,
    n: nat,
    depth: nat,
    indent: nat,
)
    requires
        1 <= n <= members.len(),
    ensures
        n == 1 ==> pretty_members(members, n, depth, indent) == spaces(depth * indent) + (quoted(
            members[0].0,
        ) + ": "@ + pretty(members[0].1, depth, indent)),
        n > 1 ==> pretty_members(members, n, depth, indent) == pretty_members(
            members,
            (n - 1) as nat,
            depth,
            indent,
        ) + ",\n"@ + (spaces(depth * indent) + (quoted(members[n - 1].0) + ": "@ + pretty(
            members[n - 1].1,
            depth,
            indent,
        ))),
{
    let pad = spaces(depth * indent);
    let last = quoted(members[n - 1].0) + ": "@ + pretty(members[n - 1].1, depth, indent);
    if n == 1 {
        assert(pretty_members(members, n, depth, indent) =~= pad + last);
    } else {
        let first = pretty_members(members, (n - 1) as nat, depth, indent);
        assert(pretty_members(members, n, depth, indent) =~= first + ",\n"@ + (pad + last));
    }
}

/// The tokens of several members are those of all but the last, a comma and
/// those of the last member.
pub proof fn lemma_member_tokens_unfold(members: Seq<(Seq<char>, Json)>, n: nat)
    requires
        1 < n <= members.len(),
    ensures
        member_tokens(members, n) == member_tokens(members, (n - 1) as nat) + (seq![
            TokenView::Comma,
        ] + (seq![TokenView::String(members[n - 1].0), TokenView::Colon] + value_tokens(
            members[n - 1].1,
        ))),
        member_tokens(members, n) == member_tokens(members, (n - 1) as nat) + seq![
            TokenView::Comma,
        ] + (seq![TokenView::String(members[n - 1].0), TokenView::Colon] + value_tokens(
            members[n - 1].1,
        )),
{
    let first = member_tokens(members, (n - 1) as nat);
    let member = seq![TokenView::String(members[n - 1].0), TokenView::Colon] + value_tokens(
        members[n - 1].1,
    );
    assert(member_tokens(members, n) =~= first + (seq![TokenView::Comma] + member));
    assert(member_tokens(members, n) =~= first + seq![TokenView::Comma] + member);
}

/// The compact text of one member scans to its key, a colon and the tokens of its value.
pub proof fn lemma_lex_member(key: Seq<char>, value: Json, input: Seq<char>, q: int)
    requires
        value.wf(),
        occurs(input, q, quoted(key) + ": "@ + compact(value)),
        ends_at(input, q + (quoted(key) + ": "@ + compact(value)).len()),
    ensures
        lex_from(input, q) == after_tokens(
            seq![TokenView::String(key), TokenView::Colon] + value_tokens(value),
            lex_from(input, q + (quoted(key) + ": "@ + compact(value)).len()),
        ),
    decreases value, 1nat,
{
    reveal_strlit(": ");
    let k = quoted(key);
    let sep = ": "@;
    let body = compact(value);
    lemma_occurs_split(input, q, k + sep, body);
    lemma_occurs_split(input, q, k, sep);
    lemma_occurs_at(input, q + k.len(), sep, 0);
    lemma_occurs_at(input, q + k.len(), sep, 1);
    lemma_lex_string(input, q, key);
    lemma_lex_value(value, input, q + k.len() + 2);
    let rest = lex_from(input, q + k.len() + 2 + body.len());
    assert(lex_from(input, q + k.len()) == after_tokens(
        seq![TokenView::Colon],
        lex_from(input, q + k.len() + 1),
    ));
    assert(lex_from(input, q + k.len() + 1) == lex_from(input, q + k.len() + 2));
    lemma_after_tokens_twice(seq![TokenView::Colon], value_tokens(value), rest);
    lemma_after_tokens_twice(
        seq![TokenView::String(key)],
        seq![TokenView::Colon] + value_tokens(value),
        rest,
    );
    assert(seq![TokenView::String(key)] + (seq![TokenView::Colon] + value_tokens(value)) =~= seq![
        TokenView::String(key),
        TokenView::Colon,
    ] + value_tokens(value));
}

/// The compact text of the first `n` members scans to their tokens.
#[verifier::rlimit(40)]
pub proof fn lemma_lex_members(
    members: Seq<(Seq<char>, Json)>,
    n: nat,
    input: Seq<char>,
    q: int,
)
    requires
        n <= members.len(),
        members_wf(members),
        occurs(input, q, compact_members(members, n)),
        ends_at(input, q + compact_members(members, n).len()),
    ensures
        lex_from(input, q) == after_tokens(
            member_tokens(members, n),
            lex_from(input, q + compact_members(members, n).len()),
        ),
    decreases members, n,
{
    if n == 0 {
        match lex_from(input, q) {
            Ok(rest) => {
                assert(Seq::<TokenView>::empty() + rest =~= rest);
            },
            Err(e) => {},
        }
    } else {
        let key = members[n - 1].0;
        let value = members[n - 1].1;
        let last = quoted(key) + ": "@ + compact(value);
        let member = seq![TokenView::String(key), TokenView::Colon] + value_tokens(value);
        assert(value.wf());
        if n == 1 {
            lemma_lex_member(key, value, input, q);
        } else {
            let first = compact_members(members, (n - 1) as nat);
            let comma = seq![','];
            lemma_compact_members_unfold(members, n);
            lemma_occurs_split(input, q, first + comma, last);
            lemma_occurs_split(input, q, first, comma);
            let c = q + first.len();
            lemma_occurs_at(input, c, comma, 0);
            lemma_lex_members(members, (n - 1) as nat, input, q);
            lemma_lex_member(key, value, input, c + 1);
            let rest = lex_from(input, c + 1 + last.len());
            assert(lex_from(input, c) == after_tokens(seq![TokenView::Comma], lex_from(input, c + 1)));
            lemma_after_tokens_twice(seq![TokenView::Comma], member, rest);
            lemma_after_tokens_twice(
                member_tokens(members, (n - 1) as nat),
                seq![TokenView::Comma] + member,
                rest,
            );
            lemma_member_tokens_unfold(members, n);
        }
    }
}

/// A run of spaces is skipped.
pub proof fn lemma_lex_spaces(input: Seq<char>, p: int, n: nat)
    requires
        occurs(input, p, spaces(n)),
    ensures
        lex_from(input, p) == lex_from(input, p + n),
    decreases n,
{
    reveal(agrees);
    if n > 0 {
        assert(input[p + 0] == spaces(n)[0]);
        assert forall|k: int| 0 <= k < spaces((n - 1) as nat).len() implies input[p + 1 + k]
            == #[trigger] spaces((n - 1) as nat)[k] by {
            assert(input[p + (k + 1)] == spaces(n)[k + 1]);
        }
        lemma_lex_spaces(input, p + 1, (n - 1) as nat);
    }
}

/// The indented text of a well-formed value scans to the tokens of the
/// value, wherever it stands, if the input ends after it or goes on with a
/// comma, a line break or a closing bracket or brace.
pub proof fn lemma_lex_pretty(v: Json, depth: nat, indent: nat, input: Seq<char>, p: int)
    requires
        v.wf(),
        occurs(input, p, pretty(v, depth, indent)),
        ends_at(input, p + pretty(v, depth, indent).len()),
    ensures
        lex_from(input, p) == after_tokens(
            value_tokens(v),
            lex_from(input, p + pretty(v, depth, indent).len()),
        ),
    decreases v, 0nat,
{
    match v {
        Json::Array(items) => {
            lemma_array_wf(items);
            if items.len() == 0 {
                reveal_strlit("[]");
                assert(compact(v) =~= "[]"@);
                lemma_lex_value(v, input, p);
            } else {
                lemma_lex_pretty_array(items, depth, indent, input, p);
            }
        },
        Json::Object(members) => {
            assert(members_wf(members));
            if members.len() == 0 {
                reveal_strlit("{}");
                assert(compact(v) =~= "{}"@);
                lemma_lex_value(v, input, p);
            } else {
                lemma_lex_pretty_object(members, depth, indent, input, p);
            }
        },
        _ => {
            lemma_lex_value(v, input, p);
        },
    }
}

/// The indented text of an array that is not empty scans to its tokens.
#[verifier::rlimit(40)]
pub proof fn lemma_lex_pretty_array(
    items: Seq<Json>,
    depth: nat,
    indent: nat,
    input: Seq<char>,
    p: int,
)
    requires
        items.len() > 0,
        items_wf(items),
        occurs(input, p, pretty(Json::Array(items), depth, indent)),
    ensures
        lex_from(input, p) == after_tokens(
            value_tokens(Json::Array(items)),
            lex_from(input, p + pretty(Json::Array(items), depth, indent).len()),
        ),
    decreases items, items.len() + 1,
{
    reveal_strlit("[\n");
    reveal_strlit("\n");
    reveal_strlit("]");
    let open = "[\n"@;
    let body = pretty_items(items, items.len(), depth + 1, indent);
    let line = "\n"@;
    let pad = spaces(depth * indent);
    let close = "]"@;
    lemma_occurs_split(input, p, open + body + line + pad, close);
    lemma_occurs_split(input, p, open + body + line, pad);
    lemma_occurs_split(input, p, open + body, line);
    lemma_occurs_split(input, p, open, body);
    lemma_occurs_at(input, p, open, 0);
    lemma_occurs_at(input, p, open, 1);
    let q = p + 2 + body.len();
    lemma_occurs_at(input, q, line, 0);
    lemma_occurs_at(input, q + 1 + pad.len(), close, 0);
    lemma_lex_pretty_items(items, items.len(), depth + 1, indent, input, p + 2);
    lemma_lex_spaces(input, q + 1, depth * indent);
    let end = q + 2 + pad.len();
    let rest = lex_from(input, end);
    let inner = item_tokens(items, items.len());
    assert(lex_from(input, p) == after_tokens(seq![TokenView::LeftBracket], lex_from(input, p + 1)));
    assert(lex_from(input, p + 1) == lex_from(input, p + 2));
    assert(lex_from(input, q) == lex_from(input, q + 1));
    assert(lex_from(input, q + 1 + pad.len()) == after_tokens(seq![TokenView::RightBracket], rest));
    lemma_after_tokens_twice(inner, seq![TokenView::RightBracket], rest);
    lemma_after_tokens_twice(seq![TokenView::LeftBracket], inner + seq![TokenView::RightBracket], rest);
    assert(seq![TokenView::LeftBracket] + (inner + seq![TokenView::RightBracket]) =~= value_tokens(
        Json::Array(items),
    ));
}

/// The indented text of the first `n` items scans to their tokens.
#[verifier::rlimit(40)]
pub proof fn lemma_lex_pretty_items(
    items: Seq<Json>,
    n: nat,
    depth: nat,
    indent: nat,
    input: Seq<char>,
    q: int,
)
    requires
        n <= items.len(),
        items_wf(items),
        occurs(input, q, pretty_items(items, n, depth, indent)),
        ends_at(input, q + pretty_items(items, n, depth, indent).len()),
    ensures
        lex_from(input, q) == after_tokens(
            item_tokens(items, n),
            lex_from(input, q + pretty_items(items, n, depth, indent).len()),
        ),
    decreases items, n,
{
    let pad = spaces(depth * indent);
    if n == 0 {
        match lex_from(input, q) {
            Ok(rest) => {
                assert(Seq::<TokenView>::empty() + rest =~= rest);
            },
            Err(e) => {},
        }
    } else if n == 1 {
        assert(items[0].wf());
        let last = pretty(items[0], depth, indent);
        lemma_occurs_split(input, q, pad, last);
        lemma_lex_spaces(input, q, depth * indent);
        lemma_lex_pretty(items[0], depth, indent, input, q + pad.len());
    } else {
        reveal_strlit(",\n");
        let first = pretty_items(items, (n - 1) as nat, depth, indent);
        let sep = ",\n"@;
        let last = pretty(items[n - 1], depth, indent);
        assert(items[n - 1].wf());
        lemma_occurs_split(input, q, first + sep + pad, last);
        lemma_occurs_split(input, q, first + sep, pad);
        lemma_occurs_split(input, q, first, sep);
        let c = q + first.len();
        lemma_occurs_at(input, c, sep, 0);
        lemma_occurs_at(input, c, sep, 1);
        lemma_lex_pretty_items(items, (n - 1) as nat, depth, indent, input, q);
        lemma_lex_spaces(input, c + 2, depth * indent);
        lemma_lex_pretty(items[n - 1], depth, indent, input, c + 2 + pad.len());
        let rest = lex_from(input, c + 2 + pad.len() + last.len());
        assert(lex_from(input, c) == after_tokens(seq![TokenView::Comma], lex_from(input, c + 1)));
        assert(lex_from(input, c + 1) == lex_from(input, c + 2));
        lemma_after_tokens_twice(seq![TokenView::Comma], value_tokens(items[n - 1]), rest);
        lemma_after_tokens_twice(
            item_tokens(items, (n - 1) as nat),
            seq![TokenView::Comma] + value_tokens(items[n - 1]),
            rest,
        );
        assert(item_tokens(items, (n - 1) as nat) + (seq![TokenView::Comma] + value_tokens(
            items[n - 1],
        )) =~= item_tokens(items, n));
    }
}

/// The indented text of one member scans to its key, a colon and the tokens of its value.
pub proof fn lemma_lex_pretty_member(
    key: Seq<char>,
    value: Json,
    depth: nat,
    indent: nat,
    input: Seq<char>,
    q: int,
)
    requires
        value.wf(),
        occurs(input, q, quoted(key) + ": "@ + pretty(value, depth, indent)),
        ends_at(input, q + (quoted(key) + ": "@ + pretty(value, depth, indent)).len()),
    ensures
        lex_from(input, q) == after_tokens(
            seq![TokenView::String(key), TokenView::Colon] + value_tokens(value),
            lex_from(input, q + (quoted(key) + ": "@ + pretty(value, depth, indent)).len()),
        ),
    decreases value, 1nat,
{
    reveal_strlit(": ");
    let k = quoted(key);
    let sep = ": "@;
    let body = pretty(value, depth, indent);
    lemma_occurs_split(input, q, k + sep, body);
    lemma_occurs_split(input, q, k, sep);
    lemma_occurs_at(input, q + k.len(), sep, 0);
    lemma_occurs_at(input, q + k.len(), sep, 1);
    lemma_lex_string(input, q, key);
    lemma_lex_pretty(value, depth, indent, input, q + k.len() + 2);
    let rest = lex_from(input, q + k.len() + 2 + body.len());
    assert(lex_from(input, q + k.len()) == after_tokens(
        seq![TokenView::Colon],
        lex_from(input, q + k.len() + 1),
    ));
    assert(lex_from(input, q + k.len() + 1) == lex_from(input, q + k.len() + 2));
    lemma_after_tokens_twice(seq![TokenView::Colon], value_tokens(value), rest);
    lemma_after_tokens_twice(
        seq![TokenView::String(key)],
        seq![TokenView::Colon] + value_tokens(value),
        rest,
    );
    assert(seq![TokenView::String(key)] + (seq![TokenView::Colon] + value_tokens(value)) =~= seq![
        TokenView::String(key),
        TokenView::Colon,
    ] + value_tokens(value));
}

/// The indented text of one member after its indentation scans to the tokens of the member.
pub proof fn lemma_lex_pretty_line(
    key: Seq<char>,
    value: Json,
    depth: nat,
    indent: nat,
    input: Seq<char>,
    q: int,
)
    requires
        value.wf(),
        occurs(
            input,
            q,
            spaces(depth * indent) + (quoted(key) + ": "@ + pretty(value, depth, indent)),
        ),
        ends_at(
            input,
            q + (spaces(depth * indent) + (quoted(key) + ": "@ + pretty(
                value,
                depth,
                indent,
            ))).len(),
        ),
    ensures
        lex_from(input, q) == after_tokens(
            seq![TokenView::String(key), TokenView::Colon] + value_tokens(value),
            lex_from(
                input,
                q + (spaces(depth * indent) + (quoted(key) + ": "@ + pretty(
                    value,
                    depth,
                    indent,
                ))).len(),
            ),
        ),
    decreases value, 2nat,
{
    let pad = spaces(depth * indent);
    let last = quoted(key) + ": "@ + pretty(value, depth, indent);
    lemma_occurs_split(input, q, pad, last);
    lemma_lex_spaces(input, q, depth * indent);
    lemma_lex_pretty_member(key, value, depth, indent, input, q + pad.len());
}

/// The indented text of the first `n` members scans to their tokens.
#[verifier::rlimit(40)]
pub proof fn lemma_lex_pretty_members(
    members: Seq<(Seq<char>, Json)>,
    n: nat,
    depth: nat,
    indent: nat,
    input: Seq<char>,
    q: int,
)
    requires
        n <= members.len(),
        members_wf(members),
        occurs(input, q, pretty_members(members, n, depth, indent)),
        ends_at(input, q + pretty_members(members, n, depth, indent).len()),
    ensures
        lex_from(input, q) == after_tokens(
            member_tokens(members, n),
            lex_from(input, q + pretty_members(members, n, depth, indent).len()),
        ),
    decreases members, n,
{
    if n == 0 {
        match lex_from(input, q) {
            Ok(rest) => {
                assert(Seq::<TokenView>::empty() + rest =~= rest);
            },
            Err(e) => {},
        }
    } else {
        let key = members[n - 1].0;
        let value = members[n - 1].1;
        let line = spaces(depth * indent) + (quoted(key) + ": "@ + pretty(value, depth, indent));
        let member = seq![TokenView::String(key), TokenView::Colon] + value_tokens(value);
        assert(value.wf());
        lemma_pretty_members_unfold(members, n, depth, indent);
        if n == 1 {
            lemma_lex_pretty_line(key, value, depth, indent, input, q);
        } else {
            reveal_strlit(",\n");
            let first = pretty_members(members, (n - 1) as nat, depth, indent);
            let sep = ",\n"@;
            lemma_occurs_split(input, q, first + sep, line);
            lemma_occurs_split(input, q, first, sep);
            let c = q + first.len();
            lemma_occurs_at(input, c, sep, 0);
            lemma_occurs_at(input, c, sep, 1);
            lemma_lex_pretty_members(members, (n - 1) as nat, depth, indent, input, q);
            lemma_lex_pretty_line(key, value, depth, indent, input, c + 2);
            let rest = lex_from(input, c + 2 + line.len());
            assert(lex_from(input, c) == after_tokens(seq![TokenView::Comma], lex_from(input, c + 1)));
            assert(lex_from(input, c + 1) == lex_from(input, c + 2));
            lemma_after_tokens_twice(seq![TokenView::Comma], member, rest);
            lemma_after_tokens_twice(
                member_tokens(members, (n - 1) as nat),
                seq![TokenView::Comma] + member,
                rest,
            );
            lemma_member_tokens_unfold(members, n);
        }
    }
}

/// The indented text of an object that is not empty scans to its tokens.
#[verifier::rlimit(40)]
pub proof fn lemma_lex_pretty_object(
    members: Seq<(Seq<char>, Json)>,
    depth: nat,
    indent: nat,
    input: Seq<char>,
    p: int,
)
    requires
        members.len() > 0,
        members_wf(members),
        occurs(input, p, pretty(Json::Object(members), depth, indent)),
    ensures
        lex_from(input, p) == after_tokens(
            value_tokens(Json::Object(members)),
            lex_from(input, p + pretty(Json::Object(members), depth, indent).len()),
        ),
    decreases members, members.len() + 1,
{
    reveal_strlit("{\n");
    reveal_strlit("\n");
    reveal_strlit("}");
    let open = "{\n"@;
    let body = pretty_members(members, members.len(), depth + 1, indent);
    let line = "\n"@;
    let pad = spaces(depth * indent);
    let close = "}"@;
    lemma_occurs_split(input, p, open + body + line + pad, close);
    lemma_occurs_split(input, p, open + body + line, pad);
    lemma_occurs_split(input, p, open + body, line);
    lemma_occurs_split(input, p, open, body);
    lemma_occurs_at(input, p, open, 0);
    lemma_occurs_at(input, p, open, 1);
    let q = p + 2 + body.len();
    lemma_occurs_at(input, q, line, 0);
    lemma_occurs_at(input, q + 1 + pad.len(), close, 0);
    lemma_lex_pretty_members(members, members.len(), depth + 1, indent, input, p + 2);
    lemma_lex_spaces(input, q + 1, depth * indent);
    let end = q + 2 + pad.len();
    let rest = lex_from(input, end);
    let inner = member_tokens(members, members.len());
    assert(lex_from(input, p) == after_tokens(seq![TokenView::LeftBrace], lex_from(input, p + 1)));
    assert(lex_from(input, p + 1) == lex_from(input, p + 2));
    assert(lex_from(input, q) == lex_from(input, q + 1));
    assert(lex_from(input, q + 1 + pad.len()) == after_tokens(seq![TokenView::RightBrace], rest));
    lemma_after_tokens_twice(inner, seq![TokenView::RightBrace], rest);
    lemma_after_tokens_twice(seq![TokenView::LeftBrace], inner + seq![TokenView::RightBrace], rest);
    assert(seq![TokenView::LeftBrace] + (inner + seq![TokenView::RightBrace]) =~= value_tokens(
        Json::Object(members),
    ));
}

/// The compact text of a well-formed value scans to the tokens of the value.
pub proof fn lemma_lex_compact(v: Json)
    requires
        v.wf(),
    ensures
        lex(compact(v)) == Ok::<Seq<TokenView>, ErrorView>(value_tokens(v)),
{
    let input = compact(v);
    lemma_occurs_whole(input);
    lemma_lex_value(v, input, 0);
    assert(value_tokens(v) + Seq::<TokenView>::empty() =~= value_tokens(v));
}

/// The items of a well-formed array are well formed.
pub proof fn lemma_array_wf(items: Seq<Json>)
    requires
        Json::Array(items).wf(),
    ensures
        items_wf(items),
{
    let v = Json::Array(items);
    assert(v.wf());
    assert(v->Array_0 == items);
    assert forall|i: int| 0 <= i < items.len() implies (#[trigger] items[i]).wf() by {
        assert(v->Array_0[i].wf());
    }
}

/// The tokens of a value begin with a token that opens a container or is a scalar.
pub proof fn lemma_first_token(v: Json)
    ensures
        value_tokens(v).len() >= 1,
        v is Array ==> value_tokens(v)[0] is LeftBracket && value_tokens(v).len() >= 2,
        v is Object ==> value_tokens(v)[0] is LeftBrace && value_tokens(v).len() >= 2,
        v is Null ==> value_tokens(v) == seq![TokenView::Null],
        v is Boolean ==> value_tokens(v) == seq![TokenView::Boolean(v->Boolean_0)],
        v is Number ==> value_tokens(v) == seq![TokenView::Number(v->Number_0)],
        v is String ==> value_tokens(v) == seq![TokenView::String(v->String_0)],
{
}

/// Parsing the tokens of one item inside an array, where an item is due,
/// adds the item and leaves the parser after it, expecting a comma.
pub proof fn lemma_parse_item(v: Json, tokens: Seq<TokenView>, r: int, acc: Seq<Json>)
    requires
        v.wf(),
        occurs(tokens, r, value_tokens(v)),
    ensures
        parse_array_from(tokens, r, acc, false) == parse_array_from(
            tokens,
            r + value_tokens(v).len(),
            acc.push(v),
            true,
        ),
    decreases v, 0nat,
{
    lemma_first_token(v);
    let t = value_tokens(v);
    lemma_occurs_at(tokens, r, t, 0);
    match v {
        Json::Array(items) => {
            assert(items_wf(items));
            lemma_parse_array(items, tokens, r);
        },
        Json::Object(members) => {
            lemma_parse_object(members, tokens, r);
        },
        _ => {},
    }
}

/// Parsing the tokens of the first `k` items of an array reads those items.
#[verifier::rlimit(40)]
pub proof fn lemma_parse_items(items: Seq<Json>, k: nat, tokens: Seq<TokenView>, start: int)
    requires
        k <= items.len(),
        Json::Array(items).wf(),
        occurs(tokens, start, item_tokens(items, k)),
    ensures
        parse_array_from(tokens, start, Seq::empty(), false) == parse_array_from(
            tokens,
            start + item_tokens(items, k).len(),
            items.take(k as int),
            k > 0,
        ),
    decreases items, k,
{
    lemma_array_wf(items);
    if k == 0 {
        assert(items.take(0) =~= Seq::<Json>::empty());
    } else if k == 1 {
        assert(items[0].wf());
        lemma_parse_item(items[0], tokens, start, Seq::empty());
        assert(Seq::<Json>::empty().push(items[0]) =~= items.take(1));
    } else {
        let first = item_tokens(items, (k - 1) as nat);
        let comma = seq![TokenView::Comma];
        let v = items[k - 1];
        let last = value_tokens(v);
        assert(v.wf());
        lemma_first_token(v);
        lemma_occurs_split(tokens, start, first + comma, last);
        lemma_occurs_split(tokens, start, first, comma);
        lemma_parse_items(items, (k - 1) as nat, tokens, start);
        let q = start + first.len();
        lemma_occurs_at(tokens, q, comma, 0);
        lemma_occurs_at(tokens, q + 1, last, 0);
        let acc = items.take(k - 1);
        assert(parse_array_from(tokens, q, acc, true) == parse_array_from(tokens, q + 1, acc, false));
        lemma_parse_item(v, tokens, q + 1, acc);
        assert(acc.push(v) =~= items.take(k as int));
    }
}

/// Parsing the tokens of an array, after its opening bracket, gives the array.
pub proof fn lemma_parse_array(items: Seq<Json>, tokens: Seq<TokenView>, p: int)
    requires
        Json::Array(items).wf(),
        occurs(tokens, p, value_tokens(Json::Array(items))),
    ensures
        parse_array_from(tokens, p + 1, Seq::empty(), false) == Ok::<(Json, int), ErrorView>(
            (Json::Array(items), p + value_tokens(Json::Array(items)).len()),
        ),
        nested_end(tokens, p, p + value_tokens(Json::Array(items)).len()),
    decreases items, items.len() + 1,
{
    let inner = item_tokens(items, items.len());
    let open = seq![TokenView::LeftBracket];
    let close = seq![TokenView::RightBracket];
    lemma_occurs_split(tokens, p, open + inner, close);
    lemma_occurs_split(tokens, p, open, inner);
    lemma_occurs_at(tokens, p + 1 + inner.len(), close, 0);
    lemma_parse_items(items, items.len(), tokens, p + 1);
    assert(items.take(items.len() as int) =~= items);
}

/// Parsing the tokens of one member, where a key is due, stores the member
/// and leaves the parser after it, expecting a comma.
pub proof fn lemma_parse_member(
    key: Seq<char>,
    v: Json,
    tokens: Seq<TokenView>,
    r: int,
    acc: Seq<(Seq<char>, Json)>,
    last_key: Seq<char>,
)
    requires
        v.wf(),
        occurs(tokens, r, seq![TokenView::String(key), TokenView::Colon] + value_tokens(v)),
        v is String ==> r + 2 + value_tokens(v).len() < tokens.len(),
    ensures
        parse_object_from(tokens, r, acc, last_key, false, false) == parse_object_from(
            tokens,
            r + 2 + value_tokens(v).len(),
            put(acc, key, v),
            key,
            false,
            true,
        ),
    decreases v, 0nat,
{
    lemma_first_token(v);
    let head = seq![TokenView::String(key), TokenView::Colon];
    let t = value_tokens(v);
    lemma_occurs_split(tokens, r, head, t);
    lemma_occurs_at(tokens, r, head, 0);
    lemma_occurs_at(tokens, r, head, 1);
    lemma_occurs_at(tokens, r + 2, t, 0);
    assert(parse_object_from(tokens, r, acc, last_key, false, false) == parse_object_from(
        tokens,
        r + 2,
        acc,
        key,
        true,
        false,
    ));
    match v {
        Json::Array(items) => {
            lemma_parse_array(items, tokens, r + 2);
        },
        Json::Object(members) => {
            lemma_parse_object(members, tokens, r + 2);
        },
        _ => {},
    }
}

/// Parsing the tokens of the first `k` members of an object stores those members.
#[verifier::rlimit(40)]
pub proof fn lemma_parse_members(
    members: Seq<(Seq<char>, Json)>,
    k: nat,
    tokens: Seq<TokenView>,
    start: int,
)
    requires
        k <= members.len(),
        Json::Object(members).wf(),
        occurs(tokens, start, member_tokens(members, k)),
        k > 0 && members[k - 1].1 is String ==> start + member_tokens(members, k).len()
            < tokens.len(),
    ensures
        parse_object_from(tokens, start, Seq::empty(), Seq::empty(), false, false)
            == parse_object_from(
            tokens,
            start + member_tokens(members, k).len(),
            members.take(k as int),
            if k == 0 {
                Seq::empty()
            } else {
                members[k - 1].0
            },
            false,
            k > 0,
        ),
    decreases members, k,
{
    assert(members_wf(members) && unique_keys(members));
    if k == 0 {
        assert(members.take(0) =~= Seq::<(Seq<char>, Json)>::empty());
    } else {
        let key = members[k - 1].0;
        let v = members[k - 1].1;
        let acc = members.take(k - 1);
        assert(v.wf());
        lemma_key_index(acc, key, 0);
        assert(key_index(acc, key) is None) by {
            if key_index(acc, key) is Some {
                let i = key_index(acc, key)->0;
                assert(members[i].0 != members[k - 1].0);
            }
        }
        assert(put(acc, key, v) =~= members.take(k as int));
        let member = seq![TokenView::String(key), TokenView::Colon] + value_tokens(v);
        if k == 1 {
            assert(acc =~= Seq::<(Seq<char>, Json)>::empty());
            lemma_parse_member(key, v, tokens, start, acc, Seq::empty());
        } else {
            let first = member_tokens(members, (k - 1) as nat);
            let comma = seq![TokenView::Comma];
            let lead = seq![TokenView::Comma, TokenView::String(key), TokenView::Colon];
            lemma_member_tokens_unfold(members, k);
            lemma_occurs_split(tokens, start, first + comma, member);
            lemma_occurs_split(tokens, start, first, comma);
            lemma_parse_members(members, (k - 1) as nat, tokens, start);
            let q = start + first.len();
            lemma_occurs_at(tokens, q, comma, 0);
            lemma_occurs_at(tokens, q + 1, member, 0);
            let last_key = members[k - 2].0;
            assert(parse_object_from(tokens, q, acc, last_key, false, true) == parse_object_from(
                tokens,
                q + 1,
                acc,
                last_key,
                false,
                false,
            ));
            lemma_parse_member(key, v, tokens, q + 1, acc, last_key);
        }
    }
}

/// Parsing the tokens of an object, after its opening brace, gives the object.
pub proof fn lemma_parse_object(members: Seq<(Seq<char>, Json)>, tokens: Seq<TokenView>, p: int)
    requires
        Json::Object(members).wf(),
        occurs(tokens, p, value_tokens(Json::Object(members))),
    ensures
        parse_object_from(tokens, p + 1, Seq::empty(), Seq::empty(), false, false) == Ok::<
            (Json, int),
            ErrorView,
        >((Json::Object(members), p + value_tokens(Json::Object(members)).len())),
        nested_end(tokens, p, p + value_tokens(Json::Object(members)).len()),
    decreases members, members.len() + 1,
{
    let inner = member_tokens(members, members.len());
    let open = seq![TokenView::LeftBrace];
    let close = seq![TokenView::RightBrace];
    lemma_occurs_split(tokens, p, open + inner, close);
    lemma_occurs_split(tokens, p, open, inner);
    lemma_occurs_at(tokens, p + 1 + inner.len(), close, 0);
    lemma_parse_members(members, members.len(), tokens, p + 1);
    assert(members.take(members.len() as int) =~= members);
}

/// The tokens of a well-formed value parse to the value.
pub proof fn lemma_parse_value_tokens(v: Json)
    requires
        v.wf(),
    ensures
        parse_tokens(value_tokens(v)) == Ok::<Json, ErrorView>(v),
{
    let tokens = value_tokens(v);
    lemma_first_token(v);
    lemma_occurs_whole(tokens);
    match v {
        Json::Array(items) => {
            lemma_parse_array(items, tokens, 0);
        },
        Json::Object(members) => {
            lemma_parse_object(members, tokens, 0);
        },
        _ => {},
    }
}

/// Parsing the compact text of a well-formed value gives the value back.
pub proof fn lemma_round_trip(v: Json)
    requires
        v.wf(),
    ensures
        parse_text(compact(v)) == Ok::<Json, ErrorView>(v),
{
    lemma_lex_compact(v);
    lemma_parse_value_tokens(v);
}

/// Serializing, parsing and serializing again gives the text of the first time.
pub proof fn lemma_serialize_parse_serialize(v: Json)
    requires
        v.wf(),
    ensures
        parse_text(compact(v)) is Ok,
        compact(parse_text(compact(v))->Ok_0) == compact(v),
{
    lemma_round_trip(v);
}

/// Parsing the indented text of a well-formed value gives the value back,
/// whatever the indentation.
pub proof fn lemma_pretty_round_trip(v: Json, indent: nat)
    requires
        v.wf(),
    ensures
        parse_text(pretty(v, 0, indent)) == Ok::<Json, ErrorView>(v),
{
    let input = pretty(v, 0, indent);
    lemma_occurs_whole(input);
    lemma_lex_pretty(v, 0, indent, input, 0);
    assert(value_tokens(v) + Seq::<TokenView>::empty() =~= value_tokens(v));
    lemma_parse_value_tokens(v);
}

} // verus!
