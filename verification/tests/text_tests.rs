use cyberpunk_utility::text::{
    begins_with, chars_of, find_char, find_from, holds_char, holds_text, leading_length,
    matches_at, split_text, starts_with, string_of, to_decimal, to_hex, trimmed_length, white,
};

fn chars(text: &str) -> Vec<char> {
    text.chars().collect()
}

#[test]
fn characters_are_counted_not_bytes() {
    assert_eq!(chars_of("a\u{e9}\u{4e2d}b"), vec!['a', '\u{e9}', '\u{4e2d}', 'b']);
    assert_eq!(chars_of(""), Vec::<char>::new());
    assert_eq!(string_of(&chars("a\u{e9}\u{4e2d}b"), 1, 3), "\u{e9}\u{4e2d}");
    assert_eq!(string_of(&chars("abc"), 3, 3), "");
    assert_eq!(find_char("a\u{e9}.b.", '.'), Some(2));
    assert_eq!(find_char("abc", '.'), None);
}

#[test]
fn patterns_are_found_at_their_first_place() {
    let hay = chars("a : b : c");
    let pattern = chars(" : ");
    assert!(matches_at(&hay, &pattern, 1));
    assert!(!matches_at(&hay, &pattern, 0));
    assert!(!matches_at(&hay, &pattern, 7));
    assert!(!matches_at(&hay, &pattern, 70));
    assert_eq!(find_from(&hay, &pattern, 0), Some(1));
    assert_eq!(find_from(&hay, &pattern, 2), Some(5));
    assert_eq!(find_from(&hay, &pattern, 6), None);
    assert_eq!(find_from(&chars("ab"), &pattern, 0), None);
    assert_eq!(find_from(&hay, &chars(""), 9), Some(9));
    assert!(begins_with(&hay, "a :"));
    assert!(!begins_with(&hay, " :"));
    assert!(holds_text(&hay, "b : c"));
    assert!(!holds_text(&hay, "c : "));
    assert!(holds_char(&hay, ':'));
    assert!(!holds_char(&hay, '='));
    assert!(starts_with("lang_en.archive", "lang_"));
    assert!(!starts_with("lan", "lang_"));
    assert!(!starts_with("Lang_en", "lang_"));
    assert!(starts_with("abc", ""));
}

#[test]
fn text_is_cut_at_every_separator() {
    assert_eq!(split_text("a, b, c", ", "), vec!["a", "b", "c"]);
    assert_eq!(split_text("abc", ", "), vec!["abc"]);
    assert_eq!(split_text("", ", "), vec![""]);
    assert_eq!(split_text(", a, ", ", "), vec!["", "a", ""]);
    assert_eq!(split_text("a : : b", " : "), vec!["a", ": b"]);
    assert_eq!(split_text("a.b.c", "."), vec!["a", "b", "c"]);
}

#[test]
fn white_space_is_what_unicode_says() {
    for c in [' ', '\t', '\n', '\r', '\u{b}', '\u{c}', '\u{85}', '\u{a0}', '\u{1680}', '\u{2000}', '\u{200a}', '\u{2028}', '\u{2029}', '\u{202f}', '\u{205f}', '\u{3000}'] {
        assert!(white(c));
    }
    for c in ['a', '0', '\u{200b}', '\u{feff}', '\u{8}', '\u{e}'] {
        assert!(!white(c));
    }
    let line = chars(" \ta b \u{a0}\n");
    assert_eq!(trimmed_length(&line, line.len()), 5);
    assert_eq!(trimmed_length(&line, 3), 3);
    assert_eq!(trimmed_length(&chars("  "), 2), 0);
    assert_eq!(leading_length(&line, 0, 5), 2);
    assert_eq!(leading_length(&chars("  "), 0, 2), 2);
}

#[test]
fn numbers_are_written_in_digits() {
    assert_eq!(to_decimal(0), "0");
    assert_eq!(to_decimal(7), "7");
    assert_eq!(to_decimal(10), "10");
    assert_eq!(to_decimal(1234567890), "1234567890");
    assert_eq!(to_decimal(u64::MAX), "18446744073709551615");
    assert_eq!(to_hex(&vec![]), "");
    assert_eq!(to_hex(&vec![0x00, 0x0a, 0x10, 0xff, 0x9c]), "0a10ff9c");
}
