//! What the parser accepts is a document: tokens that parse are the tokens
//! of a value tree, written as the grammar writes them.

use vstd::prelude::*;
use crate::parser::{
    lemma_array_ends_after, lemma_object_ends_after, parse_array_from, parse_object_from,
    parse_tokens, scalar_of,
};
use crate::round_trip::{item_tokens, member_tokens, value_tokens};
use crate::tokenizer::TokenView;
use crate::value::{key_index, lemma_key_index, put, unique_keys, Json};

verus! {

/// The tokens of items, each after a comma.
pub open spec fn comma_items(more: Seq<Json>) -> Seq<TokenView>
    decreases more.len(),
{
    if more.len() == 0 {
        Seq::empty()
    } else {
        seq![TokenView::Comma] + value_tokens(more[0]) + comma_items(more.drop_first())
    }
}

/// The tokens of one member: its key, a colon and its value.
pub open spec fn one_member(member: (Seq<char>, Json)) -> Seq<TokenView> {
    seq![TokenView::String(member.0), TokenView::Colon] + value_tokens(member.1)
}

/// The tokens of members, each after a comma.
pub open spec fn comma_members(more: Seq<(Seq<char>, Json)>) -> Seq<TokenView>
    decreases more.len(),
{
    if more.len() == 0 {
        Seq::empty()
    } else {
        seq![TokenView::Comma] + one_member(more[0]) + comma_members(more.drop_first())
    }
}

/// The tokens of the items that are still to come in an array: after an
/// item, each comes after a comma; else the first comes without one.
pub open spec fn items_to_come(more: Seq<Json>, expect_comma: bool) -> Seq<TokenView> {
    if expect_comma {
        comma_items(more)
    } else if more.len() == 0 {
        Seq::empty()
    } else {
        value_tokens(more[0]) + comma_items(more.drop_first())
    }
}

/// The tokens of the members that are still to come in an object: after a
/// value, each comes after a comma; after a key and its colon, the value of
/// the first comes; else the first comes without a comma.
pub open spec fn members_to_come(
    more: Seq<(Seq<char>, Json)>,
    colon_found: bool,
    expect_comma: bool,
) -> Seq<TokenView> {
    if expect_comma {
        comma_members(more)
    } else if more.len() == 0 {
        Seq::empty()
    } else if colon_found {
        value_tokens(more[0].1) + comma_members(more.drop_first())
    } else {
        one_member(more[0]) + comma_members(more.drop_first())
    }
}

/// The members after storing `entries` one after the other, in their order.
pub open spec fn put_all(members: Seq<(Seq<char>, Json)>, entries: Seq<(Seq<char>, Json)>) -> Seq<
    (Seq<char>, Json),
>
    decreases entries.len(),
{
    if entries.len() == 0 {
        members
    } else {
        put_all(put(members, entries[0].0, entries[0].1), entries.drop_first())
    }
}

/// The value that a tree settles to: in every object the members are stored
/// one after the other, so that of a key that occurs twice the last value stays.
pub open spec fn settled(w: Json) -> Json
    decreases w, 0nat,
{
    match w {
        Json::Array(items) => Json::Array(settled_first(items, items.len())),
        Json::Object(members) => Json::Object(
            put_all(Seq::empty(), settled_first_members(members, members.len())),
        ),
        _ => w,
    }
}

/// The first `n` items, each settled.
pub open spec fn settled_first(items: Seq<Json>, n: nat) -> Seq<Json>
    decreases items, n,
{
    if n == 0 || n > items.len() {
        Seq::empty()
    } else {
        settled_first(items, (n - 1) as nat).push(settled(items[n - 1]))
    }
}

/// The first `n` members, each with its value settled.
pub open spec fn settled_first_members(members: Seq<(Seq<char>, Json)>, n: nat) -> Seq<
    (Seq<char>, Json),
>
    decreases members, n,
{
    if n == 0 || n > members.len() {
        Seq::empty()
    } else {
        settled_first_members(members, (n - 1) as nat).push(
            (members[n - 1].0, settled(members[n - 1].1)),
        )
    }
}

/// The items, each settled.
pub open spec fn settled_items(items: Seq<Json>) -> Seq<Json> {
    Seq::new(items.len(), |k: int| settled(items[k]))
}

/// The members, each with its value settled.
pub open spec fn settled_members(members: Seq<(Seq<char>, Json)>) -> Seq<(Seq<char>, Json)> {
    Seq::new(members.len(), |k: int| (members[k].0, settled(members[k].1)))
}

/// The first `n` settled items or members are the beginning of all of them.
pub proof fn lemma_settled_first(items: Seq<Json>, members: Seq<(Seq<char>, Json)>, n: nat)
    ensures
        n <= items.len() ==> settled_first(items, n) == settled_items(items).take(n as int),
        n <= members.len() ==> settled_first_members(members, n) == settled_members(members).take(
            n as int,
        ),
    decreases n,
{
    if n > 0 {
        lemma_settled_first(items, members, (n - 1) as nat);
        if n <= items.len() {
            assert(settled_first(items, n) =~= settled_items(items).take(n as int));
        }
        if n <= members.len() {
            assert(settled_first_members(members, n) =~= settled_members(members).take(n as int));
        }
    } else {
        assert(settled_first(items, n) =~= settled_items(items).take(n as int));
        assert(settled_first_members(members, n) =~= settled_members(members).take(n as int));
    }
}

/// An array settles to its settled items, an object to its settled members stored in order.
pub proof fn lemma_settled_containers(items: Seq<Json>, members: Seq<(Seq<char>, Json)>)
    ensures
        settled(Json::Array(items)) == Json::Array(settled_items(items)),
        settled(Json::Object(members)) == Json::Object(
            put_all(Seq::empty(), settled_members(members)),
        ),
{
    lemma_settled_first(items, members, items.len());
    lemma_settled_first(items, members, members.len());
    assert(settled_items(items).take(items.len() as int) =~= settled_items(items));
    assert(settled_members(members).take(members.len() as int) =~= settled_members(members));
}

/// A part of a sequence is its beginning up to an index and the rest from that index.
pub proof fn lemma_subrange_join<T>(s: Seq<T>, i: int, k: int, j: int)
    requires
        0 <= i <= k <= j <= s.len(),
    ensures
        s.subrange(i, j) == s.subrange(i, k) + s.subrange(k, j),
{
    assert(s.subrange(i, j) =~= s.subrange(i, k) + s.subrange(k, j));
}

/// The tokens of items after commas grow at the end by a comma and the tokens of a further item.
pub proof fn lemma_comma_items_push(a: Seq<Json>, x: Json)
    ensures
        comma_items(a.push(x)) == comma_items(a) + seq![TokenView::Comma] + value_tokens(x),
    decreases a.len(),
{
    let ax = a.push(x);
    if a.len() == 0 {
        assert(ax.drop_first() =~= Seq::<Json>::empty());
        assert(comma_items(ax.drop_first()) =~= Seq::<TokenView>::empty());
        assert(comma_items(a) =~= Seq::<TokenView>::empty());
        assert(ax[0] == x);
        assert(comma_items(ax) =~= comma_items(a) + seq![TokenView::Comma] + value_tokens(x));
    } else {
        lemma_comma_items_push(a.drop_first(), x);
        assert(ax.drop_first() =~= a.drop_first().push(x));
        assert(comma_items(ax) =~= comma_items(a) + seq![TokenView::Comma] + value_tokens(x));
    }
}

/// The tokens of members after commas grow at the end by a comma and the tokens of a further member.
pub proof fn lemma_comma_members_push(a: Seq<(Seq<char>, Json)>, x: (Seq<char>, Json))
    ensures
        comma_members(a.push(x)) == comma_members(a) + seq![TokenView::Comma] + one_member(x),
    decreases a.len(),
{
    let ax = a.push(x);
    if a.len() == 0 {
        assert(ax.drop_first() =~= Seq::<(Seq<char>, Json)>::empty());
        assert(comma_members(ax.drop_first()) =~= Seq::<TokenView>::empty());
        assert(comma_members(a) =~= Seq::<TokenView>::empty());
        assert(ax[0] == x);
        assert(comma_members(ax) =~= comma_members(a) + seq![TokenView::Comma] + one_member(x));
    } else {
        lemma_comma_members_push(a.drop_first(), x);
        assert(ax.drop_first() =~= a.drop_first().push(x));
        assert(comma_members(ax) =~= comma_members(a) + seq![TokenView::Comma] + one_member(x));
    }
}

/// The tokens of the first `n` items are those of the first and, each after
/// a comma, those of the others.
pub proof fn lemma_item_tokens_front(items: Seq<Json>, n: nat)
    requires
        1 <= n <= items.len(),
    ensures
        item_tokens(items, n) == value_tokens(items[0]) + comma_items(items.subrange(1, n as int)),
    decreases n,
{
    if n == 1 {
        assert(items.subrange(1, 1) =~= Seq::<Json>::empty());
        assert(item_tokens(items, n) =~= value_tokens(items[0]) + comma_items(
            items.subrange(1, 1),
        ));
    } else {
        lemma_item_tokens_front(items, (n - 1) as nat);
        let a = items.subrange(1, n - 1);
        lemma_comma_items_push(a, items[n - 1]);
        assert(a.push(items[n - 1]) =~= items.subrange(1, n as int));
        assert(item_tokens(items, n) =~= value_tokens(items[0]) + comma_items(
            items.subrange(1, n as int),
        ));
    }
}

/// The tokens of the first `n` members are those of the first and, each
/// after a comma, those of the others.
pub proof fn lemma_member_tokens_front(members: Seq<(Seq<char>, Json)>, n: nat)
    requires
        1 <= n <= members.len(),
    ensures
        member_tokens(members, n) == one_member(members[0]) + comma_members(
            members.subrange(1, n as int),
        ),
    decreases n,
{
    if n == 1 {
        assert(members.subrange(1, 1) =~= Seq::<(Seq<char>, Json)>::empty());
        assert(member_tokens(members, n) =~= one_member(members[0]) + comma_members(
            members.subrange(1, 1),
        ));
    } else {
        lemma_member_tokens_front(members, (n - 1) as nat);
        let a = members.subrange(1, n - 1);
        lemma_comma_members_push(a, members[n - 1]);
        assert(a.push(members[n - 1]) =~= members.subrange(1, n as int));
        assert(member_tokens(members, n) =~= one_member(members[0]) + comma_members(
            members.subrange(1, n as int),
        ));
    }
}

/// The tokens of an array are its brackets around the items to come at its start.
pub proof fn lemma_array_tokens(items: Seq<Json>)
    ensures
        value_tokens(Json::Array(items)) == seq![TokenView::LeftBracket] + items_to_come(
            items,
            false,
        ) + seq![TokenView::RightBracket],
{
    if items.len() > 0 {
        lemma_item_tokens_front(items, items.len());
        assert(items.subrange(1, items.len() as int) =~= items.drop_first());
    }
}

/// The tokens of an object are its braces around the members to come at its start.
pub proof fn lemma_object_tokens(members: Seq<(Seq<char>, Json)>)
    ensures
        value_tokens(Json::Object(members)) == seq![TokenView::LeftBrace] + members_to_come(
            members,
            false,
            false,
        ) + seq![TokenView::RightBrace],
{
    if members.len() > 0 {
        lemma_member_tokens_front(members, members.len());
        assert(members.subrange(1, members.len() as int) =~= members.drop_first());
    }
}

/// The rest of an array that the parser accepts is the tokens of items, as
/// the grammar writes them, and the closing bracket. The items are returned.
#[verifier::rlimit(60)]
pub proof fn lemma_array_accepts(
    tokens: Seq<TokenView>,
    i: int,
    items: Seq<Json>,
    expect_comma: bool,
) -> (more: Seq<Json>)
    requires
        0 <= i,
        parse_array_from(tokens, i, items, expect_comma) is Ok,
    ensures
        ({
            let j = parse_array_from(tokens, i, items, expect_comma)->Ok_0.1;
            &&& i < j <= tokens.len()
            &&& tokens.subrange(i, j) == items_to_come(more, expect_comma) + seq![
                TokenView::RightBracket,
            ]
            &&& parse_array_from(tokens, i, items, expect_comma)->Ok_0.0 == Json::Array(
                items + settled_items(more),
            )
        }),
    decreases tokens.len() - i, 1nat,
{
    lemma_array_ends_after(tokens, i, items, expect_comma);
    let j = parse_array_from(tokens, i, items, expect_comma)->Ok_0.1;
    let token = tokens[i];
    let close = seq![TokenView::RightBracket];
    match token {
        TokenView::RightBracket => {
            let more = Seq::<Json>::empty();
            assert(tokens.subrange(i, j) =~= items_to_come(more, expect_comma) + close);
            assert(items + settled_items(more) =~= items);
            more
        },
        TokenView::Comma => {
            let rest = lemma_array_accepts(tokens, i + 1, items, false);
            assert(rest.len() > 0) by {
                if rest.len() == 0 {
                    assert((items_to_come(rest, false) + close)[0] == TokenView::RightBracket);
                    assert(tokens.subrange(i + 1, j)[0] == tokens[i + 1]);
                }
            }
            assert(tokens.subrange(i, j) =~= seq![TokenView::Comma] + tokens.subrange(i + 1, j));
            assert(tokens.subrange(i, j) =~= items_to_come(rest, true) + close);
            rest
        },
        _ => {
            let first = lemma_item_accepts(tokens, i);
            let k = i + value_tokens(first).len();
            assert(parse_array_from(tokens, i, items, expect_comma) == parse_array_from(
                tokens,
                k,
                items.push(accepted_value(tokens, i)),
                true,
            ));
            let rest = lemma_array_accepts(tokens, k, items.push(accepted_value(tokens, i)), true);
            let more = seq![first] + rest;
            assert(more.drop_first() =~= rest);
            lemma_subrange_join(tokens, i, k, j);
            assert(tokens.subrange(i, j) =~= items_to_come(more, false) + close);
            assert(items.push(settled(first)) + settled_items(rest) =~= items + settled_items(more));
            more
        },
    }
}

/// Whether a value begins at index `i`: with a scalar token or with a container that parses.
pub open spec fn value_begins(tokens: Seq<TokenView>, i: int) -> bool {
    0 <= i < tokens.len() && match tokens[i] {
        TokenView::LeftBracket => parse_array_from(tokens, i + 1, Seq::empty(), false) is Ok,
        TokenView::LeftBrace => parse_object_from(
            tokens,
            i + 1,
            Seq::empty(),
            Seq::empty(),
            false,
            false,
        ) is Ok,
        TokenView::String(_) | TokenView::Number(_) | TokenView::Boolean(_) | TokenView::Null => true,
        _ => false,
    }
}

/// The value that the parser makes of what begins at index `i`.
pub open spec fn accepted_value(tokens: Seq<TokenView>, i: int) -> Json {
    match tokens[i] {
        TokenView::LeftBracket => parse_array_from(tokens, i + 1, Seq::empty(), false)->Ok_0.0,
        TokenView::LeftBrace => parse_object_from(
            tokens,
            i + 1,
            Seq::empty(),
            Seq::empty(),
            false,
            false,
        )->Ok_0.0,
        token => scalar_of(token),
    }
}

/// Index after the value that begins at index `i`.
pub open spec fn accepted_end(tokens: Seq<TokenView>, i: int) -> int {
    match tokens[i] {
        TokenView::LeftBracket => parse_array_from(tokens, i + 1, Seq::empty(), false)->Ok_0.1,
        TokenView::LeftBrace => parse_object_from(
            tokens,
            i + 1,
            Seq::empty(),
            Seq::empty(),
            false,
            false,
        )->Ok_0.1,
        _ => i + 1,
    }
}

/// A value that the parser accepts at index `i` is the tokens of a value
/// tree, as the grammar writes them. The tree is returned.
pub proof fn lemma_item_accepts(tokens: Seq<TokenView>, i: int) -> (w: Json)
    requires
        value_begins(tokens, i),
    ensures
        accepted_end(tokens, i) == i + value_tokens(w).len(),
        i < accepted_end(tokens, i) <= tokens.len(),
        tokens.subrange(i, accepted_end(tokens, i)) == value_tokens(w),
        accepted_value(tokens, i) == settled(w),
    decreases tokens.len() - i, 0nat,
{
    let token = tokens[i];
    match token {
        TokenView::LeftBracket => {
            let inner = lemma_array_accepts(tokens, i + 1, Seq::empty(), false);
            let j = accepted_end(tokens, i);
            lemma_array_tokens(inner);
            assert(tokens.subrange(i, j) =~= seq![token] + tokens.subrange(i + 1, j));
            assert(tokens.subrange(i, j) =~= value_tokens(Json::Array(inner)));
            lemma_settled_containers(inner, Seq::empty());
            assert(Seq::<Json>::empty() + settled_items(inner) =~= settled_items(inner));
            Json::Array(inner)
        },
        TokenView::LeftBrace => {
            let inner = lemma_object_accepts(tokens, i + 1, Seq::empty(), Seq::empty(), false, false);
            let j = accepted_end(tokens, i);
            lemma_object_tokens(inner);
            assert(tokens.subrange(i, j) =~= seq![token] + tokens.subrange(i + 1, j));
            assert(tokens.subrange(i, j) =~= value_tokens(Json::Object(inner)));
            lemma_settled_containers(Seq::empty(), inner);
            Json::Object(inner)
        },
        _ => {
            let w = scalar_of(token);
            assert(tokens.subrange(i, i + 1) =~= value_tokens(w));
            w
        },
    }
}

/// The rest of an object that the parser accepts is the tokens of members,
/// as the grammar writes them, and the closing brace. The members are
/// returned; where a key and its colon were read, the first has that key.
#[verifier::rlimit(60)]
pub proof fn lemma_object_accepts(
    tokens: Seq<TokenView>,
    i: int,
    members: Seq<(Seq<char>, Json)>,
    key: Seq<char>,
    colon_found: bool,
    expect_comma: bool,
) -> (more: Seq<(Seq<char>, Json)>)
    requires
        0 <= i,
        !(colon_found && expect_comma),
        parse_object_from(tokens, i, members, key, colon_found, expect_comma) is Ok,
    ensures
        ({
            let j = parse_object_from(
                tokens,
                i,
                members,
                key,
                colon_found,
                expect_comma,
            )->Ok_0.1;
            &&& i < j <= tokens.len()
            &&& tokens.subrange(i, j) == members_to_come(more, colon_found, expect_comma) + seq![
                TokenView::RightBrace,
            ]
            &&& colon_found ==> more.len() > 0 && more[0].0 == key
            &&& parse_object_from(tokens, i, members, key, colon_found, expect_comma)->Ok_0.0
                == Json::Object(put_all(members, settled_members(more)))
        }),
    decreases tokens.len() - i, 1nat,
{
    lemma_object_ends_after(tokens, i, members, key, colon_found, expect_comma);
    let j = parse_object_from(tokens, i, members, key, colon_found, expect_comma)->Ok_0.1;
    let token = tokens[i];
    let close = seq![TokenView::RightBrace];
    if colon_found {
        let first = lemma_item_accepts(tokens, i);
        let k = i + value_tokens(first).len();
        let stored = put(members, key, accepted_value(tokens, i));
        assert(parse_object_from(tokens, i, members, key, colon_found, expect_comma)
            == parse_object_from(tokens, k, stored, key, false, true));
        let rest = lemma_object_accepts(tokens, k, stored, key, false, true);
        let more = seq![(key, first)] + rest;
        assert(more.drop_first() =~= rest);
        lemma_subrange_join(tokens, i, k, j);
        assert(tokens.subrange(i, j) =~= members_to_come(more, true, false) + close);
        assert(settled_members(more).drop_first() =~= settled_members(rest));
        assert(settled_members(more)[0] == (key, settled(first)));
        more
    } else {
        match token {
            TokenView::RightBrace => {
                let more = Seq::<(Seq<char>, Json)>::empty();
                assert(tokens.subrange(i, j) =~= members_to_come(more, false, expect_comma)
                    + close);
                more
            },
            TokenView::Comma => {
                let rest = lemma_object_accepts(tokens, i + 1, members, key, false, false);
                assert(rest.len() > 0) by {
                    if rest.len() == 0 {
                        assert((members_to_come(rest, false, false) + close)[0]
                            == TokenView::RightBrace);
                        assert(tokens.subrange(i + 1, j)[0] == tokens[i + 1]);
                    }
                }
                assert(tokens.subrange(i, j) =~= seq![TokenView::Comma] + tokens.subrange(
                    i + 1,
                    j,
                ));
                assert(tokens.subrange(i, j) =~= members_to_come(rest, false, true) + close);
                rest
            },
            TokenView::String(s) => {
                let more = lemma_object_accepts(tokens, i + 2, members, s, true, false);
                assert(tokens.subrange(i, j) =~= seq![TokenView::String(s), TokenView::Colon]
                    + tokens.subrange(i + 2, j));
                assert(tokens.subrange(i, j) =~= members_to_come(more, false, false) + close);
                more
            },
            _ => Seq::empty(),
        }
    }
}

/// Tokens that parse as a document are the tokens of a value tree, as the
/// grammar writes them: a scalar; or a bracket, items with a comma between
/// neighbours and the closing bracket; or a brace, members with a comma
/// between neighbours, each a key, a colon and a value, and the closing
/// brace. The tree is returned; it may hold a key twice, and the value that
/// the parser gives is the tree with every object settled, so that of a key
/// that occurs twice the last value stays.
pub proof fn lemma_accepted_tokens_are_a_document(tokens: Seq<TokenView>) -> (w: Json)
    requires
        parse_tokens(tokens) is Ok,
    ensures
        tokens == value_tokens(w),
        parse_tokens(tokens) == Ok::<Json, crate::error::ErrorView>(settled(w)),
{
    assert(value_begins(tokens, 0));
    let w = lemma_item_accepts(tokens, 0);
    assert(tokens.subrange(0, tokens.len() as int) =~= tokens);
    w
}

/// Storing entries whose keys are new and differ from each other appends them.
pub proof fn lemma_put_all_fresh(
    members: Seq<(Seq<char>, Json)>,
    entries: Seq<(Seq<char>, Json)>,
)
    requires
        unique_keys(members + entries),
    ensures
        put_all(members, entries) == members + entries,
    decreases entries.len(),
{
    let all = members + entries;
    if entries.len() == 0 {
        assert(all =~= members);
    } else {
        let first = entries[0];
        lemma_key_index(members, first.0, 0);
        assert(key_index(members, first.0) is None) by {
            if key_index(members, first.0) is Some {
                let k = key_index(members, first.0)->0;
                assert(all[k] == members[k]);
                assert(all[members.len() as int] == first);
            }
        }
        let next = members.push(first);
        assert(next + entries.drop_first() =~= all);
        lemma_put_all_fresh(next, entries.drop_first());
    }
}

/// A well-formed tree settles to itself: where no object holds a key twice,
/// the value that the parser gives for the tokens of a tree is that tree.
pub proof fn lemma_settled_well_formed(w: Json)
    requires
        w.wf(),
    ensures
        settled(w) == w,
    decreases w,
{
    match w {
        Json::Array(items) => {
            lemma_settled_containers(items, Seq::empty());
            assert forall|k: int| 0 <= k < items.len() implies settled(#[trigger] items[k])
                == items[k] by {
                assert(items[k].wf());
                lemma_settled_well_formed(items[k]);
            }
            assert(settled_items(items) =~= items);
        },
        Json::Object(members) => {
            lemma_settled_containers(Seq::empty(), members);
            assert forall|k: int| 0 <= k < members.len() implies settled(
                (#[trigger] members[k]).1,
            ) == members[k].1 by {
                assert(members[k].1.wf());
                lemma_settled_well_formed(members[k].1);
            }
            assert(settled_members(members) =~= members);
            assert(Seq::<(Seq<char>, Json)>::empty() + members =~= members);
            lemma_put_all_fresh(Seq::empty(), members);
        },
        _ => {},
    }
}

} // verus!
