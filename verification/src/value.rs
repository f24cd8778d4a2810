//! The value tree, its accessors and its two serializations.

use vstd::prelude::*;
use vstd::std_specs::cmp::PartialEqSpecImpl;
use vstd::string::StringExecFns;
use crate::number::{is_number_literal, JsonNumber};
use crate::utils::{escape, push_escaped_str};

verus! {

/// Mathematical model of a value: a tree whose arrays are sequences and whose
/// objects are sequences of members, each a key with its value.
pub enum Json {
    Null,
    Boolean(bool),
    Number(Seq<char>),
    String(Seq<char>),
    Array(Seq<Json>),
    Object(Seq<(Seq<char>, Json)>),
}

/// Index of the first member from index `from` on that has the given key.
pub open spec fn key_index_from(members: Seq<(Seq<char>, Json)>, key: Seq<char>, from: int) -> Option<
    int,
>
    decreases members.len() - from,
{
    if from < 0 || from >= members.len() {
        None
    } else if members[from].0 == key {
        Some(from)
    } else {
        key_index_from(members, key, from + 1)
    }
}

/// Index of the first member with the given key.
pub open spec fn key_index(members: Seq<(Seq<char>, Json)>, key: Seq<char>) -> Option<int> {
    key_index_from(members, key, 0)
}

/// The value stored under a key.
pub open spec fn lookup(members: Seq<(Seq<char>, Json)>, key: Seq<char>) -> Option<Json> {
    match key_index(members, key) {
        Some(i) => Some(members[i].1),
        None => None,
    }
}

/// The members after storing `value` under `key`: a member with that key is
/// overwritten where it stands, a new key goes to the end.
pub open spec fn put(members: Seq<(Seq<char>, Json)>, key: Seq<char>, value: Json) -> Seq<
    (Seq<char>, Json),
> {
    match key_index(members, key) {
        Some(i) => members.update(i, (key, value)),
        None => members.push((key, value)),
    }
}

/// No key occurs twice.
pub open spec fn unique_keys(members: Seq<(Seq<char>, Json)>) -> bool {
    forall|i: int, j: int|
        0 <= i < j < members.len() ==> (#[trigger] members[i]).0 != (#[trigger] members[j]).0
}

impl Json {
    /// A value is well formed when every number in it is a numeric literal and
    /// no object in it holds a key twice.
    pub open spec fn wf(self) -> bool
        decreases self,
    {
        match self {
            Json::Number(n) => is_number_literal(n),
            Json::Array(items) => forall|i: int|
                0 <= i < items.len() ==> (#[trigger] items[i]).wf(),
            Json::Object(members) => unique_keys(members) && forall|i: int|
                0 <= i < members.len() ==> (#[trigger] members[i]).1.wf(),
            _ => true,
        }
    }
}


/// Whether two values are the same: scalars of one kind with one content,
/// arrays with the same items in the same order, objects of one size where
/// every key of the first holds the same value in the second.
pub open spec fn same(a: Json, b: Json) -> bool
    decreases a,
{
    match a {
        Json::Null => b is Null,
        Json::Boolean(x) => b == Json::Boolean(x),
        Json::Number(x) => b == Json::Number(x),
        Json::String(x) => b == Json::String(x),
        Json::Array(x) => b is Array && x.len() == b->Array_0.len() && forall|i: int|
            0 <= i < x.len() ==> same(#[trigger] x[i], b->Array_0[i]),
        Json::Object(x) => b is Object && x.len() == b->Object_0.len() && forall|i: int|
            0 <= i < x.len() ==> member_in(#[trigger] x[i], b->Object_0),
    }
}

/// Whether the key of a member holds the same value among `members`.
pub open spec fn member_in(member: (Seq<char>, Json), members: Seq<(Seq<char>, Json)>) -> bool
    decreases member,
{
    match lookup(members, member.0) {
        Some(w) => same(member.1, w),
        None => false,
    }
}

/// A text between double quotes, escaped.
pub open spec fn quoted(s: Seq<char>) -> Seq<char> {
    seq!['"'] + escape(s) + seq!['"']
}

/// The compact text of a value: no spaces but the one after each colon.
pub open spec fn compact(v: Json) -> Seq<char>
    decreases v, 0nat,
{
    match v {
        Json::Null => "null"@,
        Json::Boolean(b) => if b {
            "true"@
        } else {
            "false"@
        },
        Json::Number(n) => n,
        Json::String(s) => quoted(s),
        Json::Array(items) => seq!['['] + compact_items(items, items.len()) + seq![']'],
        Json::Object(members) => seq!['{'] + compact_members(members, members.len()) + seq!['}'],
    }
}

/// The compact texts of the first `n` items, with a comma between neighbours.
pub open spec fn compact_items(items: Seq<Json>, n: nat) -> Seq<char>
    decreases items, n,
{
    if n == 0 || n > items.len() {
        Seq::empty()
    } else if n == 1 {
        compact(items[0])
    } else {
        compact_items(items, (n - 1) as nat) + seq![','] + compact(items[n - 1])
    }
}

/// The compact texts of the first `n` members, each as its quoted key, a
/// colon, a space and its value, with a comma between neighbours.
pub open spec fn compact_members(members: Seq<(Seq<char>, Json)>, n: nat) -> Seq<char>
    decreases members, n,
{
    if n == 0 || n > members.len() {
        Seq::empty()
    } else if n == 1 {
        quoted(members[0].0) + ": "@ + compact(members[0].1)
    } else {
        compact_members(members, (n - 1) as nat) + seq![','] + quoted(members[n - 1].0) + ": "@
            + compact(members[n - 1].1)
    }
}

/// A run of `n` spaces.
pub open spec fn spaces(n: nat) -> Seq<char> {
    Seq::new(n, |i: int| ' ')
}

/// The indented text of a value that stands at nesting depth `depth`, with
/// `indent` spaces for each level: every item or member of a container that
/// is not empty stands on a line of its own.
pub open spec fn pretty(v: Json, depth: nat, indent: nat) -> Seq<char>
    decreases v, 0nat,
{
    match v {
        Json::Array(items) => if items.len() == 0 {
            "[]"@
        } else {
            "[\n"@ + pretty_items(items, items.len(), depth + 1, indent) + "\n"@ + spaces(
                depth * indent,
            ) + "]"@
        },
        Json::Object(members) => if members.len() == 0 {
            "{}"@
        } else {
            "{\n"@ + pretty_members(members, members.len(), depth + 1, indent) + "\n"@ + spaces(
                depth * indent,
            ) + "}"@
        },
        _ => compact(v),
    }
}

/// The first `n` items at depth `depth`, each after its indentation, with a
/// comma and a line break between neighbours.
pub open spec fn pretty_items(items: Seq<Json>, n: nat, depth: nat, indent: nat) -> Seq<char>
    decreases items, n,
{
    if n == 0 || n > items.len() {
        Seq::empty()
    } else if n == 1 {
        spaces(depth * indent) + pretty(items[0], depth, indent)
    } else {
        pretty_items(items, (n - 1) as nat, depth, indent) + ",\n"@ + spaces(depth * indent)
            + pretty(items[n - 1], depth, indent)
    }
}

/// The first `n` members at depth `depth`, each after its indentation, with a
/// comma and a line break between neighbours.
pub open spec fn pretty_members(
    members: Seq<(Seq<char>, Json)>,
    n: nat,
    depth: nat,
    indent: nat,
) -> Seq<char>
    decreases members, n,
{
    if n == 0 || n > members.len() {
        Seq::empty()
    } else if n == 1 {
        spaces(depth * indent) + quoted(members[0].0) + ": "@ + pretty(members[0].1, depth, indent)
    } else {
        pretty_members(members, (n - 1) as nat, depth, indent) + ",\n"@ + spaces(depth * indent)
            + quoted(members[n - 1].0) + ": "@ + pretty(members[n - 1].1, depth, indent)
    }
}

/// The texts of `lines`, with `separator` between neighbours.
pub open spec fn joined(lines: Seq<Seq<char>>, separator: Seq<char>) -> Seq<char>
    decreases lines.len(),
{
    if lines.len() == 0 {
        Seq::empty()
    } else if lines.len() == 1 {
        lines[0]
    } else {
        joined(lines.drop_last(), separator) + separator + lines.last()
    }
}

/// The lines of the items of an array whose items stand at depth `depth`:
/// each is the indentation of that depth and the indented text of the item.
pub open spec fn item_lines(items: Seq<Json>, depth: nat, indent: nat) -> Seq<Seq<char>> {
    Seq::new(items.len(), |i: int| spaces(depth * indent) + pretty(items[i], depth, indent))
}

/// The lines of the members of an object whose members stand at depth
/// `depth`: each is the indentation of that depth, the quoted key, a colon,
/// a space and the indented text of the value.
pub open spec fn member_lines(members: Seq<(Seq<char>, Json)>, depth: nat, indent: nat) -> Seq<
    Seq<char>,
> {
    Seq::new(
        members.len(),
        |i: int|
            spaces(depth * indent) + quoted(members[i].0) + ": "@ + pretty(
                members[i].1,
                depth,
                indent,
            ),
    )
}

/// The indented text of the first `n` items is their lines, joined by a comma and a line break.
pub proof fn lemma_pretty_items_are_lines(items: Seq<Json>, n: nat, depth: nat, indent: nat)
    requires
        n <= items.len(),
    ensures
        pretty_items(items, n, depth, indent) == joined(
            item_lines(items, depth, indent).take(n as int),
            ",\n"@,
        ),
    decreases n,
{
    let lines = item_lines(items, depth, indent);
    if n > 1 {
        lemma_pretty_items_are_lines(items, (n - 1) as nat, depth, indent);
        assert(lines.take(n as int).drop_last() =~= lines.take(n - 1));
    }
}

/// The indented text of the first `n` members is their lines, joined by a comma and a line break.
pub proof fn lemma_pretty_members_are_lines(
    members: Seq<(Seq<char>, Json)>,
    n: nat,
    depth: nat,
    indent: nat,
)
    requires
        n <= members.len(),
    ensures
        pretty_members(members, n, depth, indent) == joined(
            member_lines(members, depth, indent).take(n as int),
            ",\n"@,
        ),
    decreases n,
{
    let lines = member_lines(members, depth, indent);
    if n > 1 {
        lemma_pretty_members_are_lines(members, (n - 1) as nat, depth, indent);
        assert(lines.take(n as int).drop_last() =~= lines.take(n - 1));
        assert(pretty_members(members, n, depth, indent) =~= joined(lines.take(n - 1), ",\n"@)
            + ",\n"@ + lines[n - 1]);
    }
}

/// The shape of the indented text of an array that has items, at whatever
/// depth it stands: the opening bracket and a line break; the items in
/// their order, each on its line after the indentation of the next depth,
/// with a comma and a line break between neighbours; a line break, the
/// indentation of the array's own depth and the closing bracket.
pub proof fn lemma_pretty_array_shape(items: Seq<Json>, depth: nat, indent: nat)
    requires
        items.len() > 0,
    ensures
        pretty(Json::Array(items), depth, indent) == "[\n"@ + joined(
            item_lines(items, depth + 1, indent),
            ",\n"@,
        ) + "\n"@ + spaces(depth * indent) + "]"@,
        forall|i: int|
            0 <= i < items.len() ==> #[trigger] item_lines(items, depth + 1, indent)[i] == spaces(
                (depth + 1) * indent,
            ) + pretty(items[i], depth + 1, indent),
{
    lemma_pretty_items_are_lines(items, items.len(), depth + 1, indent);
    let lines = item_lines(items, depth + 1, indent);
    assert(lines.take(items.len() as int) =~= lines);
}

/// The shape of the indented text of an object that has members, at
/// whatever depth it stands: the opening brace and a line break; the members
/// in their order, each on its line after the indentation of the next depth
/// as its quoted key, a colon, a space and its value, with a comma and a line
/// break between neighbours; a line break, the indentation of the object's
/// own depth and the closing brace.
pub proof fn lemma_pretty_object_shape(members: Seq<(Seq<char>, Json)>, depth: nat, indent: nat)
    requires
        members.len() > 0,
    ensures
        pretty(Json::Object(members), depth, indent) == "{\n"@ + joined(
            member_lines(members, depth + 1, indent),
            ",\n"@,
        ) + "\n"@ + spaces(depth * indent) + "}"@,
        forall|i: int|
            0 <= i < members.len() ==> #[trigger] member_lines(members, depth + 1, indent)[i]
                == spaces((depth + 1) * indent) + quoted(members[i].0) + ": "@ + pretty(
                members[i].1,
                depth + 1,
                indent,
            ),
{
    lemma_pretty_members_are_lines(members, members.len(), depth + 1, indent);
    let lines = member_lines(members, depth + 1, indent);
    assert(lines.take(members.len() as int) =~= lines);
}

/// The members of an object: keys with their values, no key twice, in the
/// order in which the keys were first stored.
#[derive(Debug)]
pub struct JsonObject {
    members: Vec<(String, JsonValue)>,
}

/// A value: one of the six kinds of the data model.
#[derive(Debug)]
pub enum JsonValue {
    /// A text.
    String(String),
    /// A number.
    Number(JsonNumber),
    /// `true` or `false`.
    Boolean(bool),
    /// `null`.
    Null,
    /// An ordered sequence of values.
    Array(Vec<JsonValue>),
    /// A mapping from keys to values.
    Object(JsonObject),
}

impl View for JsonObject {
    type V = Seq<(Seq<char>, Json)>;

    closed spec fn view(&self) -> Seq<(Seq<char>, Json)>
        decreases self,
    {
        Seq::new(
            self.members@.len(),
            |i: int|
                if 0 <= i < self.members@.len() {
                    (self.members@[i].0@, self.members@[i].1@)
                } else {
                    (Seq::empty(), Json::Null)
                },
        )
    }
}

impl View for JsonValue {
    type V = Json;

    open spec fn view(&self) -> Json
        decreases self,
    {
        match self {
            JsonValue::String(s) => Json::String(s@),
            JsonValue::Number(n) => Json::Number(n@),
            JsonValue::Boolean(b) => Json::Boolean(*b),
            JsonValue::Null => Json::Null,
            JsonValue::Array(items) => Json::Array(
                Seq::new(
                    items@.len(),
                    |i: int|
                        if 0 <= i < items@.len() {
                            items@[i]@
                        } else {
                            Json::Null
                        },
                ),
            ),
            JsonValue::Object(object) => Json::Object(object@),
        }
    }
}


/// Storing a value under a key keeps the keys unique and the values well formed.
pub proof fn lemma_put_wf(members: Seq<(Seq<char>, Json)>, key: Seq<char>, value: Json)
    requires
        Json::Object(members).wf(),
        value.wf(),
    ensures
        Json::Object(put(members, key, value)).wf(),
{
    lemma_key_index(members, key, 0);
    let after = put(members, key, value);
    match key_index(members, key) {
        Some(i) => {
            assert forall|a: int, b: int| 0 <= a < b < after.len() implies (#[trigger] after[a]).0 != (
            #[trigger] after[b]).0 by {
                assert(members[a].0 != members[b].0);
            }
            assert forall|a: int| 0 <= a < after.len() implies (#[trigger] after[a]).1.wf() by {
                if a != i {
                    assert(members[a].1.wf());
                }
            }
        },
        None => {
            assert forall|a: int, b: int| 0 <= a < b < after.len() implies (#[trigger] after[a]).0 != (
            #[trigger] after[b]).0 by {
                if b < members.len() {
                    assert(members[a].0 != members[b].0);
                }
            }
            assert forall|a: int| 0 <= a < after.len() implies (#[trigger] after[a]).1.wf() by {
                if a < members.len() {
                    assert(members[a].1.wf());
                }
            }
        },
    }
}

/// After a value was stored under a key, the key holds that value, and every
/// other key holds what it held before.
pub proof fn lemma_put_lookup(
    members: Seq<(Seq<char>, Json)>,
    key: Seq<char>,
    value: Json,
    other: Seq<char>,
)
    ensures
        lookup(put(members, key, value), key) == Some(value),
        other != key ==> lookup(put(members, key, value), other) == lookup(members, other),
{
    let after = put(members, key, value);
    lemma_key_index(members, key, 0);
    lemma_key_index(after, key, 0);
    lemma_key_index(members, other, 0);
    lemma_key_index(after, other, 0);
    match key_index(members, key) {
        Some(i) => {
            assert(after[i].0 == key);
            assert forall|j: int| 0 <= j < i implies after[j].0 != key by {
                assert(after[j] == members[j]);
            }
            if key_index(after, key) is Some {
                let found = key_index(after, key)->0;
                assert(found == i);
            }
            if other != key {
                assert forall|j: int| 0 <= j < members.len() implies (#[trigger] after[j]).0
                    == members[j].0 by {}
                match key_index(members, other) {
                    Some(a) => {
                        assert(after[a].0 == other);
                        let b = key_index(after, other)->0;
                        assert(members[b].0 == other);
                        assert(a == b);
                        assert(a != i);
                    },
                    None => {
                        if key_index(after, other) is Some {
                            let b = key_index(after, other)->0;
                            assert(members[b].0 == other);
                        }
                    },
                }
            }
        },
        None => {
            let n = members.len() as int;
            assert(after[n].0 == key);
            assert forall|j: int| 0 <= j < n implies after[j].0 != key by {
                assert(after[j] == members[j]);
            }
            if key_index(after, key) is Some {
                let found = key_index(after, key)->0;
                assert(found == n);
            }
            if other != key {
                match key_index(members, other) {
                    Some(a) => {
                        assert(after[a] == members[a]);
                        let b = key_index(after, other)->0;
                        if b < n {
                            assert(after[b] == members[b]);
                        }
                        assert(a == b);
                    },
                    None => {
                        if key_index(after, other) is Some {
                            let b = key_index(after, other)->0;
                            if b < n {
                                assert(after[b] == members[b]);
                            }
                        }
                    },
                }
            }
        },
    }
}

/// What [`key_index_from`] finds is the first member with the key at or after `from`.
pub proof fn lemma_key_index(members: Seq<(Seq<char>, Json)>, key: Seq<char>, from: int)
    requires
        0 <= from,
    ensures
        match key_index_from(members, key, from) {
            Some(i) => from <= i < members.len() && members[i].0 == key && forall|j: int|
                from <= j < i ==> members[j].0 != key,
            None => forall|j: int| from <= j < members.len() ==> members[j].0 != key,
        },
    decreases members.len() - from,
{
    if from < members.len() && members[from].0 != key {
        lemma_key_index(members, key, from + 1);
    }
}

impl JsonObject {
    /// An object is well formed when its values are and no key occurs twice.
    pub open spec fn wf(&self) -> bool {
        Json::Object(self@).wf()
    }

    /// An object without members.
    pub fn new() -> (r: Self)
        ensures
            r@ == Seq::<(Seq<char>, Json)>::empty(),
            r.wf(),
    {
        let r = JsonObject { members: Vec::new() };
        assert(r@ =~= Seq::<(Seq<char>, Json)>::empty());
        r
    }

    /// Number of members.
    pub fn len(&self) -> (r: usize)
        ensures
            r == self@.len(),
    {
        self.members.len()
    }

    /// Whether the object has no members.
    pub fn is_empty(&self) -> (r: bool)
        ensures
            r == (self@.len() == 0),
    {
        self.members.len() == 0
    }

    /// The key of the member at index `i`.
    pub fn key_at(&self, i: usize) -> (r: &str)
        requires
            i < self@.len(),
        ensures
            r@ == self@[i as int].0,
    {
        self.members[i].0.as_str()
    }

    /// The value of the member at index `i`.
    pub fn value_at(&self, i: usize) -> (r: &JsonValue)
        requires
            i < self@.len(),
        ensures
            r@ == self@[i as int].1,
    {
        &self.members[i].1
    }

    /// Index of the first member with the given key.
    #[verifier::loop_isolation(false)]
    fn find(&self, key: &String) -> (r: Option<usize>)
        ensures
            match r {
                Some(i) => key_index(self@, key@) == Some(i as int) && i < self@.len(),
                None => key_index(self@, key@) is None,
            },
    {
        let mut i: usize = 0;
        while i < self.members.len()
            invariant
                i <= self.members.len(),
                key_index(self@, key@) == key_index_from(self@, key@, i as int),
            decreases self.members.len() - i,
        {
            if self.members[i].0 == *key {
                return Some(i);
            }
            i += 1;
        }
        None
    }

    /// The value stored under `key`, if there is one.
    pub fn get(&self, key: &str) -> (r: Option<&JsonValue>)
        ensures
            match r {
                Some(v) => lookup(self@, key@) == Some(v@),
                None => lookup(self@, key@) is None,
            },
    {
        let owned = key.to_owned();
        match self.find(&owned) {
            Some(i) => Some(&self.members[i].1),
            None => None,
        }
    }

    /// Stores `value` under `key` and returns the value that was stored under
    /// that key before, if there was one: an existing key keeps its place and
    /// gets the new value, a new key goes to the end.
    pub fn insert(&mut self, key: String, value: JsonValue) -> (r: Option<JsonValue>)
        ensures
            final(self)@ == put(old(self)@, key@, value@),
            lookup(final(self)@, key@) == Some(value@),
            match r {
                Some(v) => lookup(old(self)@, key@) == Some(v@),
                None => lookup(old(self)@, key@) is None,
            },
            old(self).wf() && value@.wf() ==> final(self).wf(),
    {
        proof {
            lemma_put_lookup(old(self)@, key@, value@, key@);
            if old(self).wf() && value@.wf() {
                lemma_put_wf(old(self)@, key@, value@);
            }
        }
        match self.find(&key) {
            Some(i) => {
                self.members.push((key, value));
                let previous = self.members.swap_remove(i);
                assert(final(self)@ =~= put(old(self)@, key@, value@));
                Some(previous.1)
            },
            None => {
                self.members.push((key, value));
                assert(final(self)@ =~= put(old(self)@, key@, value@));
                None
            },
        }
    }
}

/// Two runs of spaces, one after the other, are one run.
pub proof fn lemma_spaces_concat(a: nat, b: nat)
    ensures
        spaces(a) + spaces(b) == spaces(a + b),
{
    assert(spaces(a) + spaces(b) =~= spaces(a + b));
}

impl JsonValue {
    /// A value is well formed when its model is.
    pub open spec fn wf(&self) -> bool {
        self@.wf()
    }

    /// Returns `true` if this value is `null`.
    pub fn is_null(&self) -> (r: bool)
        ensures
            r == (self@ is Null),
    {
        matches!(self, JsonValue::Null)
    }

    /// The text, if this value is a string.
    pub fn as_str(&self) -> (r: Option<&str>)
        ensures
            match self@ {
                Json::String(s) => r is Some && r->0@ == s,
                _ => r is None,
            },
    {
        match self {
            JsonValue::String(s) => Some(s.as_str()),
            _ => None,
        }
    }

    /// The number, if this value is a number.
    pub fn as_number(&self) -> (r: Option<&JsonNumber>)
        ensures
            match self@ {
                Json::Number(n) => r is Some && r->0@ == n,
                _ => r is None,
            },
    {
        match self {
            JsonValue::Number(n) => Some(n),
            _ => None,
        }
    }

    /// The truth value, if this value is a boolean.
    pub fn as_bool(&self) -> (r: Option<bool>)
        ensures
            match self@ {
                Json::Boolean(b) => r == Some(b),
                _ => r is None,
            },
    {
        match self {
            JsonValue::Boolean(b) => Some(*b),
            _ => None,
        }
    }

    /// The items, if this value is an array.
    pub fn as_array(&self) -> (r: Option<&Vec<JsonValue>>)
        ensures
            match self {
                JsonValue::Array(items) => r == Some(items),
                _ => r is None,
            },
    {
        match self {
            JsonValue::Array(a) => Some(a),
            _ => None,
        }
    }

    /// The members, if this value is an object.
    pub fn as_object(&self) -> (r: Option<&JsonObject>)
        ensures
            match self {
                JsonValue::Object(object) => r == Some(object),
                _ => r is None,
            },
    {
        match self {
            JsonValue::Object(o) => Some(o),
            _ => None,
        }
    }

    /// The value stored under `key`: `None` unless this is an object that holds the key.
    pub fn get(&self, key: &str) -> (r: Option<&JsonValue>)
        ensures
            match self@ {
                Json::Object(members) => match r {
                    Some(v) => lookup(members, key@) == Some(v@),
                    None => lookup(members, key@) is None,
                },
                _ => r is None,
            },
    {
        match self {
            JsonValue::Object(o) => o.get(key),
            _ => None,
        }
    }

    /// The item at `index`: `None` unless this is an array with that many items.
    pub fn get_index(&self, index: usize) -> (r: Option<&JsonValue>)
        ensures
            match self@ {
                Json::Array(items) => if index < items.len() {
                    r is Some && r->0@ == items[index as int]
                } else {
                    r is None
                },
                _ => r is None,
            },
    {
        match self {
            JsonValue::Array(a) => {
                if index < a.len() {
                    Some(&a[index])
                } else {
                    None
                }
            },
            _ => None,
        }
    }

    /// The compact text of this value.
    pub fn to_compact_string(&self) -> (r: String)
        ensures
            r@ == compact(self@),
    {
        let mut out = String::new();
        self.write_compact(&mut out);
        assert(out@ =~= compact(self@));
        out
    }

    /// Appends the compact text of this value.
    fn write_compact(&self, out: &mut String)
        ensures
            final(out)@ == old(out)@ + compact(self@),
        decreases self, 1nat,
    {
        match self {
            JsonValue::Null => out.append("null"),
            JsonValue::Boolean(b) => {
                if *b {
                    out.append("true");
                } else {
                    out.append("false");
                }
            },
            JsonValue::Number(n) => out.append(n.literal()),
            JsonValue::String(s) => write_quoted(out, s.as_str()),
            JsonValue::Array(items) => {
                write_items(items, out);
                assert(self@->Array_0 =~= items_view(items@));
            },
            JsonValue::Object(object) => {
                write_members(object, out);
            },
        }
    }

    /// The indented text of this value, with `indent` spaces for each level of
    /// nesting. The indentation is only built for a container that has entries.
    pub fn pretty_print(&self, indent: usize) -> (r: String)
        ensures
            r@ == pretty(self@, 0, indent as nat),
    {
        let has_entries = match self {
            JsonValue::Array(items) => items.len() > 0,
            JsonValue::Object(object) => object.len() > 0,
            _ => false,
        };
        if !has_entries {
            proof {
                reveal_strlit("[]");
                reveal_strlit("{}");
                match self {
                    JsonValue::Array(items) => {
                        assert(self@->Array_0.len() == 0);
                        assert(compact(self@) =~= "[]"@);
                    },
                    JsonValue::Object(object) => {
                        assert(compact(self@) =~= "{}"@);
                    },
                    _ => {},
                }
            }
            return self.to_compact_string();
        }
        let mut unit = String::new();
        let mut i: usize = 0;
        while i < indent
            invariant
                i <= indent,
                unit@ == spaces(i as nat),
            decreases indent - i,
        {
            unit.push(' ');
            i += 1;
            assert(unit@ =~= spaces(i as nat));
        }
        let mut out = String::new();
        assert(""@ =~= spaces(0)) by {
            reveal_strlit("");
        }
        assert(0 * (indent as nat) == 0);
        self.pretty_print_recursive(&mut out, "", unit.as_str(), Ghost(0), Ghost(indent as nat));
        assert(out@ =~= pretty(self@, 0, indent as nat));
        out
    }

    /// Appends the indented text of this value, which stands at depth `depth`:
    /// `pad` is the indentation of that depth and `unit` that of one level.
    fn pretty_print_recursive(
        &self,
        out: &mut String,
        pad: &str,
        unit: &str,
        Ghost(depth): Ghost<nat>,
        Ghost(indent): Ghost<nat>,
    )
        requires
            pad@ == spaces(depth * indent),
            unit@ == spaces(indent),
        ensures
            final(out)@ == old(out)@ + pretty(self@, depth, indent),
        decreases self, 1nat,
    {
        match self {
            JsonValue::Array(items) => {
                assert(self@->Array_0 =~= items_view(items@));
                if items.len() == 0 {
                    out.append("[]");
                } else {
                    write_pretty_items(items, out, pad, unit, Ghost(depth), Ghost(indent));
                }
            },
            JsonValue::Object(object) => {
                assert(object@.len() == object.members@.len());
                if object.members.len() == 0 {
                    out.append("{}");
                } else {
                    write_pretty_members(object, out, pad, unit, Ghost(depth), Ghost(indent));
                }
            },
            _ => {
                self.write_compact(out);
            },
        }
    }
}

/// The indentation one level below `pad`.
fn deeper(pad: &str, unit: &str, Ghost(depth): Ghost<nat>, Ghost(indent): Ghost<nat>) -> (r: String)
    requires
        pad@ == spaces(depth * indent),
        unit@ == spaces(indent),
    ensures
        r@ == spaces((depth + 1) * indent),
{
    let mut inner_pad = pad.to_owned();
    inner_pad.append(unit);
    proof {
        lemma_spaces_concat(depth * indent, indent);
        assert((depth + 1) * indent == depth * indent + indent) by (nonlinear_arith);
    }
    inner_pad
}

/// Appends the indented text of an array that is not empty.
#[verifier::loop_isolation(false)]
fn write_pretty_items(
    items: &Vec<JsonValue>,
    out: &mut String,
    pad: &str,
    unit: &str,
    Ghost(depth): Ghost<nat>,
    Ghost(indent): Ghost<nat>,
)
    requires
        items.len() > 0,
        pad@ == spaces(depth * indent),
        unit@ == spaces(indent),
    ensures
        final(out)@ == old(out)@ + pretty(Json::Array(items_view(items@)), depth, indent),
    decreases items, 0nat,
{
    let inner_pad = deeper(pad, unit, Ghost(depth), Ghost(indent));
    out.append("[\n");
    let ghost model = items_view(items@);
    let ghost start = out@;
    let mut i: usize = 0;
    assert(out@ =~= start + pretty_items(model, 0, depth + 1, indent));
    while i < items.len()
        invariant
            i <= items.len(),
            out@ == start + pretty_items(model, i as nat, depth + 1, indent),
        decreases items.len() - i,
    {
        let ghost done = pretty_items(model, i as nat, depth + 1, indent);
        if i > 0 {
            out.append(",\n");
        }
        out.append(inner_pad.as_str());
        let ghost lead = out@;
        items[i].pretty_print_recursive(out, inner_pad.as_str(), unit, Ghost(depth + 1), Ghost(indent));
        let ghost item = pretty(model[i as int], depth + 1, indent);
        assert(out@ == lead + item);
        i += 1;
        proof {
            if i == 1 {
                assert(done =~= Seq::<char>::empty());
                assert(lead =~= start + inner_pad@);
                assert(out@ =~= start + (inner_pad@ + item));
            } else {
                assert(lead =~= start + done + ",\n"@ + inner_pad@);
                assert(out@ =~= start + (done + ",\n"@ + inner_pad@ + item));
            }
        }
    }
    let ghost body = pretty_items(model, items.len() as nat, depth + 1, indent);
    out.append("\n");
    out.append(pad);
    out.append("]");
    assert(final(out)@ =~= old(out)@ + ("[\n"@ + body + "\n"@ + pad@ + "]"@));
}

/// Appends the indented text of an object that is not empty.
#[verifier::loop_isolation(false)]
fn write_pretty_members(
    object: &JsonObject,
    out: &mut String,
    pad: &str,
    unit: &str,
    Ghost(depth): Ghost<nat>,
    Ghost(indent): Ghost<nat>,
)
    requires
        object@.len() > 0,
        pad@ == spaces(depth * indent),
        unit@ == spaces(indent),
    ensures
        final(out)@ == old(out)@ + pretty(Json::Object(object@), depth, indent),
    decreases object, 0nat,
{
    let inner_pad = deeper(pad, unit, Ghost(depth), Ghost(indent));
    out.append("{\n");
    let ghost model = object@;
    let ghost start = out@;
    let mut i: usize = 0;
    assert(out@ =~= start + pretty_members(model, 0, depth + 1, indent));
    while i < object.members.len()
        invariant
            i <= object.members.len(),
            out@ == start + pretty_members(model, i as nat, depth + 1, indent),
        decreases object.members.len() - i,
    {
        let ghost done = pretty_members(model, i as nat, depth + 1, indent);
        if i > 0 {
            out.append(",\n");
        }
        out.append(inner_pad.as_str());
        write_quoted(out, object.members[i].0.as_str());
        out.append(": ");
        let ghost lead = out@;
        object.members[i].1.pretty_print_recursive(
            out,
            inner_pad.as_str(),
            unit,
            Ghost(depth + 1),
            Ghost(indent),
        );
        let ghost item = pretty(model[i as int].1, depth + 1, indent);
        let ghost key = quoted(model[i as int].0);
        assert(out@ == lead + item);
        i += 1;
        proof {
            if i == 1 {
                assert(done =~= Seq::<char>::empty());
                assert(lead =~= start + inner_pad@ + key + ": "@);
                assert(out@ =~= start + (inner_pad@ + key + ": "@ + item));
            } else {
                assert(lead =~= start + done + ",\n"@ + inner_pad@ + key + ": "@);
                assert(out@ =~= start + (done + ",\n"@ + inner_pad@ + key + ": "@ + item));
            }
        }
    }
    let ghost body = pretty_members(model, object.members.len() as nat, depth + 1, indent);
    out.append("\n");
    out.append(pad);
    out.append("}");
    assert(final(out)@ =~= old(out)@ + ("{\n"@ + body + "\n"@ + pad@ + "}"@));
}

/// The models of a sequence of values.
pub open spec fn items_view(items: Seq<JsonValue>) -> Seq<Json> {
    Seq::new(
        items.len(),
        |i: int|
            if 0 <= i < items.len() {
                items[i]@
            } else {
                Json::Null
            },
    )
}

/// Appends a text between double quotes, escaped.
fn write_quoted(out: &mut String, s: &str)
    ensures
        final(out)@ == old(out)@ + quoted(s@),
{
    out.push('"');
    push_escaped_str(out, s);
    out.push('"');
    assert(final(out)@ =~= old(out)@ + quoted(s@));
}

/// Appends the compact text of an array.
#[verifier::loop_isolation(false)]
fn write_items(items: &Vec<JsonValue>, out: &mut String)
    ensures
        final(out)@ == old(out)@ + compact(Json::Array(items_view(items@))),
    decreases items, 0nat,
{
    out.push('[');
    let ghost model = items_view(items@);
    let ghost start = out@;
    let mut i: usize = 0;
    assert(out@ =~= start + compact_items(model, 0));
    while i < items.len()
        invariant
            i <= items.len(),
            out@ == start + compact_items(model, i as nat),
        decreases items.len() - i,
    {
        if i > 0 {
            out.push(',');
        }
        items[i].write_compact(out);
        i += 1;
        assert(out@ =~= start + compact_items(model, i as nat));
    }
    out.push(']');
    assert(final(out)@ =~= old(out)@ + compact(Json::Array(model)));
}

/// Appends the compact text of an object.
#[verifier::loop_isolation(false)]
fn write_members(object: &JsonObject, out: &mut String)
    ensures
        final(out)@ == old(out)@ + compact(Json::Object(object@)),
    decreases object, 0nat,
{
    out.push('{');
    let ghost model = object@;
    let ghost start = out@;
    let mut i: usize = 0;
    assert(out@ =~= start + compact_members(model, 0));
    while i < object.members.len()
        invariant
            i <= object.members.len(),
            out@ == start + compact_members(model, i as nat),
        decreases object.members.len() - i,
    {
        if i > 0 {
            out.push(',');
        }
        write_quoted(out, object.members[i].0.as_str());
        out.append(": ");
        object.members[i].1.write_compact(out);
        i += 1;
        assert(out@ =~= start + compact_members(model, i as nat));
    }
    out.push('}');
    assert(final(out)@ =~= old(out)@ + compact(Json::Object(model)));
}


impl Clone for JsonValue {
    /// A copy of the whole tree.
    #[verifier::loop_isolation(false)]
    fn clone(&self) -> (r: Self)
        ensures
            r@ == self@,
        decreases self,
    {
        match self {
            JsonValue::String(s) => JsonValue::String(s.clone()),
            JsonValue::Number(n) => JsonValue::Number(n.clone()),
            JsonValue::Boolean(b) => JsonValue::Boolean(*b),
            JsonValue::Null => JsonValue::Null,
            JsonValue::Array(items) => {
                let mut copy: Vec<JsonValue> = Vec::new();
                let mut i: usize = 0;
                while i < items.len()
                    invariant
                        i <= items.len(),
                        copy.len() == i,
                        forall|k: int| 0 <= k < i ==> copy@[k]@ == items@[k]@,
                    decreases items.len() - i,
                {
                    copy.push(items[i].clone());
                    i += 1;
                }
                let r = JsonValue::Array(copy);
                assert(r@->Array_0 =~= self@->Array_0);
                r
            },
            JsonValue::Object(object) => {
                let mut copy: Vec<(String, JsonValue)> = Vec::new();
                let mut i: usize = 0;
                while i < object.members.len()
                    invariant
                        i <= object.members.len(),
                        copy.len() == i,
                        forall|k: int|
                            0 <= k < i ==> copy@[k].0@ == object.members@[k].0@ && copy@[k].1@
                                == object.members@[k].1@,
                    decreases object.members.len() - i,
                {
                    copy.push((object.members[i].0.clone(), object.members[i].1.clone()));
                    i += 1;
                }
                let members = JsonObject { members: copy };
                assert(members@ =~= object@);
                JsonValue::Object(members)
            },
        }
    }
}

impl Clone for JsonObject {
    /// A copy of the members and of the trees under them.
    #[verifier::loop_isolation(false)]
    fn clone(&self) -> (r: Self)
        ensures
            r@ == self@,
    {
        let mut copy: Vec<(String, JsonValue)> = Vec::new();
        let mut i: usize = 0;
        while i < self.members.len()
            invariant
                i <= self.members.len(),
                copy.len() == i,
                forall|k: int|
                    0 <= k < i ==> copy@[k].0@ == self.members@[k].0@ && copy@[k].1@
                        == self.members@[k].1@,
            decreases self.members.len() - i,
        {
            copy.push((self.members[i].0.clone(), self.members[i].1.clone()));
            i += 1;
        }
        let r = JsonObject { members: copy };
        assert(r@ =~= self@);
        r
    }
}

/// A well-formed value is the same as itself.
pub proof fn lemma_same_reflexive(v: Json)
    requires
        v.wf(),
    ensures
        same(v, v),
    decreases v,
{
    match v {
        Json::Array(items) => {
            assert forall|i: int| 0 <= i < items.len() implies same(#[trigger] items[i], items[i]) by {
                assert(items[i].wf());
                lemma_same_reflexive(items[i]);
            }
        },
        Json::Object(members) => {
            assert forall|i: int| 0 <= i < members.len() implies member_in(
                #[trigger] members[i],
                members,
            ) by {
                lemma_key_index(members, members[i].0, 0);
                let found = key_index(members, members[i].0);
                assert(found == Some(i)) by {
                    if found is Some && found->0 != i {
                        let j = found->0;
                        if j < i {
                            assert(members[j].0 != members[i].0);
                        } else {
                            assert(members[i].0 != members[j].0);
                        }
                    }
                }
                assert(members[i].1.wf());
                lemma_same_reflexive(members[i].1);
            }
        },
        _ => {},
    }
}

impl PartialEq for JsonObject {
    /// Two objects are equal when they have as many members and every key of
    /// the one holds an equal value in the other, in whatever order.
    #[verifier::loop_isolation(false)]
    fn eq(&self, other: &Self) -> (r: bool)
        decreases self,
    {
        if self.members.len() != other.members.len() {
            return false;
        }
        let mut i: usize = 0;
        while i < self.members.len()
            invariant
                i <= self.members.len(),
                forall|k: int| 0 <= k < i ==> member_in(#[trigger] self@[k], other@),
            decreases self.members.len() - i,
        {
            assert(self@[i as int] == (self.members@[i as int].0@, self.members@[i as int].1@));
            match other.get(self.members[i].0.as_str()) {
                Some(v) => {
                    if !self.members[i].1.eq(v) {
                        assert(!member_in(self@[i as int], other@));
                        return false;
                    }
                },
                None => {
                    assert(!member_in(self@[i as int], other@));
                    return false;
                },
            }
            i += 1;
        }
        assert(self@.len() == other@.len());
        true
    }
}

impl PartialEqSpecImpl for JsonObject {
    open spec fn obeys_eq_spec() -> bool {
        true
    }

    open spec fn eq_spec(&self, other: &Self) -> bool {
        same(Json::Object(self@), Json::Object(other@))
    }
}

impl PartialEq for JsonValue {
    /// Two values are equal when they are of one kind and hold equal content.
    #[verifier::loop_isolation(false)]
    fn eq(&self, other: &Self) -> (r: bool)
        decreases self,
    {
        match self {
            JsonValue::Null => matches!(other, JsonValue::Null),
            JsonValue::Boolean(x) => match other {
                JsonValue::Boolean(y) => *x == *y,
                _ => false,
            },
            JsonValue::Number(x) => match other {
                JsonValue::Number(y) => x.eq(y),
                _ => false,
            },
            JsonValue::String(x) => match other {
                JsonValue::String(y) => *x == *y,
                _ => false,
            },
            JsonValue::Array(x) => match other {
                JsonValue::Array(y) => {
                    assert(self@->Array_0 =~= items_view(x@));
                    assert(other@->Array_0 =~= items_view(y@));
                    if x.len() != y.len() {
                        return false;
                    }
                    let mut i: usize = 0;
                    while i < x.len()
                        invariant
                            i <= x.len(),
                            x.len() == y.len(),
                            forall|k: int| 0 <= k < i ==> same(#[trigger] x@[k]@, y@[k]@),
                        decreases x.len() - i,
                    {
                        if !x[i].eq(&y[i]) {
                            assert(!same(self@->Array_0[i as int], other@->Array_0[i as int]));
                            return false;
                        }
                        i += 1;
                    }
                    assert forall|k: int| 0 <= k < x.len() implies same(
                        #[trigger] self@->Array_0[k],
                        other@->Array_0[k],
                    ) by {
                        assert(same(x@[k]@, y@[k]@));
                    }
                    true
                },
                _ => false,
            },
            JsonValue::Object(x) => match other {
                JsonValue::Object(y) => x.eq(y),
                _ => false,
            },
        }
    }
}

impl PartialEqSpecImpl for JsonValue {
    open spec fn obeys_eq_spec() -> bool {
        true
    }

    open spec fn eq_spec(&self, other: &Self) -> bool {
        same(self@, other@)
    }
}

} // verus!
