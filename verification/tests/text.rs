use changesets::text::{
    begins_and_ends_trimmed, chars_of, holds_char, is_white_space, same_text, trim, trim_bounds,
};

#[test]
fn white_space_is_what_the_standard_library_calls_whitespace() {
    let mut count = 0;
    for code in 0..=0x10FFFFu32 {
        if let Some(c) = char::from_u32(code) {
            assert_eq!(is_white_space(c), c.is_whitespace(), "U+{:04X}", code);
            if is_white_space(c) {
                count += 1;
            }
        }
    }
    assert_eq!(count, 25);
}

#[test]
fn trim_takes_whitespace_from_both_ends_only() {
    assert_eq!(trim("  a b  "), "a b");
    assert_eq!(trim("\n\t a\u{a0}b \r\n"), "a\u{a0}b");
    assert_eq!(trim("ab"), "ab");
    assert_eq!(trim(""), "");
    assert_eq!(trim(" \n\t"), "");
    assert_eq!(trim("\u{3000}x\u{2009}"), "x");
    assert_eq!(trim("\u{200b}x"), "\u{200b}x");
}

#[test]
fn trim_agrees_with_the_standard_library() {
    for text in ["", " ", "a", " a", "a ", " a ", "\n\na\n b \n\n", "\u{85}\u{e9}\u{1680}", "\u{feff} a"] {
        assert_eq!(trim(text), text.trim(), "{:?}", text);
        assert_eq!(trim(&trim(text)), trim(text));
    }
}

#[test]
fn trim_bounds_are_those_of_the_rest() {
    let chars = chars_of("ab  cd  ");
    assert_eq!(trim_bounds(&chars, 0), (0, 6));
    assert_eq!(trim_bounds(&chars, 2), (4, 6));
    assert_eq!(trim_bounds(&chars, 6), (8, 8));
    assert_eq!(trim_bounds(&chars, 8), (8, 8));
}

#[test]
fn chars_of_gives_the_characters() {
    assert_eq!(chars_of("a\u{e9}\u{1f600}\n"), vec!['a', '\u{e9}', '\u{1f600}', '\n']);
    assert_eq!(chars_of(""), Vec::<char>::new());
}

#[test]
fn same_text_compares_characters() {
    assert!(same_text("major", "major"));
    assert!(same_text("", ""));
    assert!(!same_text("major", "majo"));
    assert!(!same_text("major", "minor"));
}

#[test]
fn holds_char_looks_for_one_character() {
    assert!(holds_char("a\nb", '\n'));
    assert!(holds_char("\u{e9}", '\u{e9}'));
    assert!(!holds_char("ab", '\n'));
    assert!(!holds_char("", 'a'));
}

#[test]
fn begins_and_ends_trimmed_looks_at_both_ends() {
    for text in ["", "a", "a b", "\u{e9}\n\u{e9}"] {
        assert!(begins_and_ends_trimmed(text), "{:?}", text);
        assert_eq!(text.trim(), text);
    }
    for text in [" ", " a", "a ", "a\n", "\ta", "\u{a0}a", "a\u{3000}"] {
        assert!(!begins_and_ends_trimmed(text), "{:?}", text);
        assert_ne!(text.trim(), text);
    }
}
