//! Escape sequences: decoding while scanning, encoding while serializing.

use vstd::prelude::*;

verus! {

/// The character that a backslash followed by `c` stands for, if `c` is one of
/// the eight simple escape characters.
pub open spec fn resolve_escape(c: char) -> Option<char> {
    if c == 'n' {
        Some('\n')
    } else if c == 't' {
        Some('\t')
    } else if c == 'r' {
        Some('\r')
    } else if c == '\\' {
        Some('\\')
    } else if c == '"' {
        Some('"')
    } else if c == '/' {
        Some('/')
    } else if c == 'b' {
        Some('\u{0008}')
    } else if c == 'f' {
        Some('\u{000C}')
    } else {
        None
    }
}

/// How one character of a string is written between double quotes.
pub open spec fn escape_char(c: char) -> Seq<char> {
    if c == '"' {
        seq!['\\', '"']
    } else if c == '\\' {
        seq!['\\', '\\']
    } else if c == '\n' {
        seq!['\\', 'n']
    } else if c == '\t' {
        seq!['\\', 't']
    } else if c == '\r' {
        seq!['\\', 'r']
    } else if c == '\u{0008}' {
        seq!['\\', 'b']
    } else if c == '\u{000C}' {
        seq!['\\', 'f']
    } else {
        seq![c]
    }
}

/// A text with every character written as [`escape_char`] says.
pub open spec fn escape(s: Seq<char>) -> Seq<char>
    decreases s.len(),
{
    if s.len() == 0 {
        Seq::empty()
    } else {
        escape(s.drop_last()) + escape_char(s.last())
    }
}

/// Decodes the character after a backslash.
pub fn resolve_escape_sequence(char: char) -> (r: Option<char>)
    ensures
        r == resolve_escape(char),
{
    match char {
        'n' => Some('\n'),
        't' => Some('\t'),
        'r' => Some('\r'),
        '\\' => Some('\\'),
        '"' => Some('"'),
        '/' => Some('/'),
        'b' => Some('\u{0008}'),
        'f' => Some('\u{000C}'),
        _ => None,
    }
}

/// Appends the escaped form of one character.
pub fn push_escaped(out: &mut String, c: char)
    ensures
        final(out)@ == old(out)@ + escape_char(c),
{
    match c {
        '"' => {
            out.push('\\');
            out.push('"');
        },
        '\\' => {
            out.push('\\');
            out.push('\\');
        },
        '\n' => {
            out.push('\\');
            out.push('n');
        },
        '\t' => {
            out.push('\\');
            out.push('t');
        },
        '\r' => {
            out.push('\\');
            out.push('r');
        },
        '\u{0008}' => {
            out.push('\\');
            out.push('b');
        },
        '\u{000C}' => {
            out.push('\\');
            out.push('f');
        },
        _ => {
            out.push(c);
        },
    }
    assert(final(out)@ =~= old(out)@ + escape_char(c));
}

/// Appends the escaped form of a text.
pub fn push_escaped_str(out: &mut String, s: &str)
    ensures
        final(out)@ == old(out)@ + escape(s@),
{
    assert(s@.take(0) =~= Seq::<char>::empty());
    for c in it: s.chars()
        invariant
            it.seq() == s@,
            out@ == old(out)@ + escape(s@.take(it.index() as int)),
    {
        let ghost k = it.index() as int;
        assert(s@.take(k + 1).drop_last() =~= s@.take(k));
        push_escaped(out, c);
        assert(out@ =~= old(out)@ + escape(s@.take(k + 1)));
    }
    assert(s@.take(s@.len() as int) =~= s@);
}

/// Escapes a text for writing between double quotes: the quote, the backslash,
/// line feed, tab, carriage return, backspace and form feed get a backslash
/// form, every other character passes through unchanged.
pub fn escape_json_string(s: &str) -> (r: String)
    ensures
        r@ == escape(s@),
{
    let mut result = String::new();
    push_escaped_str(&mut result, s);
    assert(result@ =~= escape(s@));
    result
}

} // verus!
