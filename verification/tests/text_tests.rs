use rust_json_parser::number::number_literal;
use rust_json_parser::text::{
    alphabetic, chars_of, digit, number_char, punctuation, push_decimal, push_range, range_equals,
    whitespace, width_of,
};
use rust_json_parser::utils::{push_escaped, push_escaped_str};

#[test]
fn character_classes_agree_with_the_standard_ones() {
    for code in 0u32..0x300 {
        let c = char::from_u32(code).unwrap();
        assert_eq!(digit(c), c.is_ascii_digit());
        assert_eq!(alphabetic(c), c.is_ascii_alphabetic());
        assert_eq!(punctuation(c), c.is_ascii_punctuation());
        assert_eq!(whitespace(c), matches!(c, ' ' | '\n' | '\t' | '\r'));
        assert_eq!(
            number_char(c),
            c.is_ascii_digit() || matches!(c, '.' | '-' | '+' | 'e' | 'E')
        );
    }
}

#[test]
fn width_is_the_length_of_the_encoding() {
    for c in ['\0', 'a', '\u{7f}', '\u{80}', '\u{7ff}', '\u{800}', '\u{ffff}', '\u{10000}', '\u{10ffff}'] {
        assert_eq!(width_of(c), c.len_utf8());
    }
}

#[test]
fn chars_of_lists_the_characters_in_order() {
    assert_eq!(chars_of(""), Vec::<char>::new());
    assert_eq!(chars_of("a\u{e9}\u{1F600}"), vec!['a', '\u{e9}', '\u{1F600}']);
}

#[test]
fn push_range_appends_a_part() {
    let chars = chars_of("hello");
    let mut out = String::from(">");
    push_range(&mut out, &chars, 1, 4);
    assert_eq!(out, ">ell");
    push_range(&mut out, &chars, 5, 5);
    assert_eq!(out, ">ell");
    push_range(&mut out, &chars, 0, 5);
    assert_eq!(out, ">ellhello");
}

#[test]
fn range_equals_compares_a_part_with_a_word() {
    let chars = chars_of("xtruex");
    assert!(range_equals(&chars, 1, 5, "true"));
    assert!(!range_equals(&chars, 0, 4, "true"));
    assert!(!range_equals(&chars, 1, 4, "true"));
    assert!(!range_equals(&chars, 1, 6, "true"));
    assert!(range_equals(&chars, 2, 2, ""));
}

#[test]
fn push_decimal_writes_the_numeral() {
    for n in [0usize, 7, 9, 10, 11, 99, 100, 1234567890, usize::MAX] {
        let mut out = String::from("n=");
        push_decimal(&mut out, n);
        assert_eq!(out, format!("n={}", n));
    }
}

#[test]
fn push_escaped_appends_to_what_is_there() {
    let mut out = String::from("a");
    push_escaped(&mut out, '"');
    push_escaped(&mut out, 'b');
    push_escaped_str(&mut out, "\\\n");
    assert_eq!(out, "a\\\"b\\\\\\n");
}

#[test]
fn number_literal_decides_the_grammar() {
    assert!(number_literal(&chars_of("-12.5e+3")));
    assert!(number_literal(&chars_of("0")));
    assert!(!number_literal(&chars_of("")));
    assert!(!number_literal(&chars_of("-")));
    assert!(!number_literal(&chars_of("1e")));
    assert!(!number_literal(&chars_of(".5")));
    assert!(!number_literal(&chars_of("1x")));
}
