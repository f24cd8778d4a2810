//! Numbers, held as the decimal literal that denotes them.

use vstd::prelude::*;
use vstd::std_specs::cmp::PartialEqSpecImpl;
use crate::text::{chars_of, digit, is_digit};

verus! {

/// Index after the longest run of digits of `s` that starts at `i`.
pub open spec fn digits_end(s: Seq<char>, i: int) -> int
    decreases s.len() - i,
{
    if 0 <= i < s.len() && is_digit(s[i]) {
        digits_end(s, i + 1)
    } else {
        i
    }
}

/// Whether `s` is a numeric literal: an optional minus sign; digits with an
/// optional point among them, at least one digit in all and no bare leading
/// point; then optionally `e` or `E`, an optional sign and at least one digit.
pub open spec fn is_number_literal(s: Seq<char>) -> bool {
    let a: int = if s.len() > 0 && s[0] == '-' {
        1
    } else {
        0
    };
    let b = digits_end(s, a);
    let dot = b < s.len() && s[b] == '.';
    let c = if dot {
        digits_end(s, b + 1)
    } else {
        b
    };
    let mantissa_digits = if dot {
        (b - a) + (c - (b + 1))
    } else {
        b - a
    };
    let d: int = if c + 1 < s.len() && (s[c + 1] == '+' || s[c + 1] == '-') {
        c + 2
    } else {
        c + 1
    };
    &&& s.len() > 0
    &&& (s[0] == '-' || is_digit(s[0]))
    &&& mantissa_digits >= 1
    &&& (c == s.len() || ((s[c] == 'e' || s[c] == 'E') && digits_end(s, d) > d && digits_end(s, d)
        == s.len()))
}

/// The digits that begin at an index end at or after it, within the text.
pub proof fn lemma_digits_end_bounds(s: Seq<char>, i: int)
    requires
        0 <= i <= s.len(),
    ensures
        i <= digits_end(s, i) <= s.len(),
    decreases s.len() - i,
{
    if i < s.len() && is_digit(s[i]) {
        lemma_digits_end_bounds(s, i + 1);
    }
}

/// Skips the digits of `s` from `i` on.
fn skip_digits(s: &Vec<char>, i: usize) -> (j: usize)
    requires
        i <= s.len(),
    ensures
        j == digits_end(s@, i as int),
        i <= j <= s.len(),
{
    let mut j: usize = i;
    while j < s.len() && digit(s[j])
        invariant
            i <= j <= s.len(),
            digits_end(s@, i as int) == digits_end(s@, j as int),
        decreases s.len() - j,
    {
        j += 1;
    }
    j
}

/// Decides [`is_number_literal`].
pub fn number_literal(s: &Vec<char>) -> (r: bool)
    ensures
        r == is_number_literal(s@),
{
    let n = s.len();
    if n == 0 {
        return false;
    }
    if !(s[0] == '-' || digit(s[0])) {
        return false;
    }
    let a: usize = if s[0] == '-' {
        1
    } else {
        0
    };
    let b = skip_digits(s, a);
    let dot = b < n && s[b] == '.';
    let c = if dot {
        skip_digits(s, b + 1)
    } else {
        b
    };
    let mantissa_digits = if dot {
        (b - a) + (c - (b + 1))
    } else {
        b - a
    };
    if mantissa_digits < 1 {
        return false;
    }
    if c == n {
        return true;
    }
    if !(s[c] == 'e' || s[c] == 'E') {
        return false;
    }
    let d: usize = if c + 1 < n && (s[c + 1] == '+' || s[c + 1] == '-') {
        c + 2
    } else {
        c + 1
    };
    let e = skip_digits(s, d);
    e > d && e == n
}

/// A number, held as the literal that denotes it. The digits are never
/// interpreted here: two numbers are the same when their literals are.
#[derive(Debug)]
pub struct JsonNumber {
    literal: String,
}

impl View for JsonNumber {
    type V = Seq<char>;

    closed spec fn view(&self) -> Seq<char> {
        self.literal@
    }
}

impl JsonNumber {
    /// A number is well formed when its text is a numeric literal.
    pub open spec fn wf(&self) -> bool {
        is_number_literal(self@)
    }

    /// The number that `literal` denotes, if it is a numeric literal.
    pub fn new(literal: &str) -> (r: Option<JsonNumber>)
        ensures
            is_number_literal(literal@) ==> r is Some && r->0@ == literal@ && r->0.wf(),
            !is_number_literal(literal@) ==> r is None,
    {
        let chars = chars_of(literal);
        if number_literal(&chars) {
            Some(JsonNumber { literal: literal.to_owned() })
        } else {
            None
        }
    }

    /// Wraps a text that is already known to be a numeric literal.
    pub(crate) fn from_checked(literal: String) -> (r: JsonNumber)
        requires
            is_number_literal(literal@),
        ensures
            r@ == literal@,
            r.wf(),
    {
        JsonNumber { literal }
    }

    /// The literal, as written.
    pub fn literal(&self) -> (r: &str)
        ensures
            r@ == self@,
    {
        self.literal.as_str()
    }
}

impl Clone for JsonNumber {
    /// A copy of the number.
    fn clone(&self) -> (r: Self)
        ensures
            r@ == self@,
    {
        JsonNumber { literal: self.literal.clone() }
    }
}

impl PartialEq for JsonNumber {
    /// Two numbers are equal when their literals are the same text.
    fn eq(&self, other: &Self) -> (r: bool) {
        self.literal == other.literal
    }
}

impl PartialEqSpecImpl for JsonNumber {
    open spec fn obeys_eq_spec() -> bool {
        true
    }

    open spec fn eq_spec(&self, other: &Self) -> bool {
        self@ == other@
    }
}

} // verus!
