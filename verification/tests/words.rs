//! Text: trimming, searching, splitting, joining and padding.

use consensus::text::{
    chars_of, contains, is_blank, is_white, join, pad_end, pad_start, render, render_signed, repeat,
    split_lines, starts_with, take_chars, text_of, trim,
};

#[test]
fn trimming_takes_white_space_off_both_ends() {
    for text in ["", " ", "a", " a b ", "\t\r\na\u{a0}", "\u{3000}日本\u{2003}", "\u{200b}x"] {
        assert_eq!(trim(text), text.trim());
        assert_eq!(is_blank(text), text.trim().is_empty());
        assert_eq!(trim(&trim(text)), trim(text));
    }
}

#[test]
fn white_space_is_that_of_unicode() {
    for n in 0..=0x10ffffu32 {
        if let Some(c) = char::from_u32(n) {
            assert_eq!(is_white(c), c.is_whitespace());
        }
    }
}

#[test]
fn lines_end_with_or_without_a_return() {
    for text in ["", "a", "a\n", "a\nb", "a\r\nb\r", "\n\n", "\r\n\r\n", "a\r\r\n", "é\n日"] {
        let expected: Vec<String> = text.lines().map(|l| l.to_string()).collect();
        assert_eq!(split_lines(text), expected);
    }
}

#[test]
fn joined_lines_are_the_text() {
    for text in ["", "a", "a\nb", "a\n\nb"] {
        let list = split_lines(text);
        assert_eq!(join(&list, list.len(), "\n"), text);
    }
    let list = vec!["a".to_string(), "b".to_string(), "c".to_string()];
    assert_eq!(join(&list, 2, ", "), "a, b");
    assert_eq!(join(&list, 0, ", "), "");
}

#[test]
fn parts_are_found_anywhere() {
    assert!(contains("abc", "bc"));
    assert!(contains("abc", ""));
    assert!(contains("", ""));
    assert!(!contains("abc", "ac"));
    assert!(!contains("ab", "abc"));
    assert!(starts_with("abc", "ab"));
    assert!(!starts_with("abc", "b"));
    assert!(!starts_with("a", "ab"));
}

#[test]
fn numbers_are_rendered_in_decimal() {
    for n in [0u64, 9, 10, 1234, u64::MAX] {
        assert_eq!(render(n), n.to_string());
    }
    for n in [0i64, 5, -5, i64::MAX, i64::MIN] {
        assert_eq!(render_signed(n), n.to_string());
    }
}

#[test]
fn padding_counts_characters() {
    assert_eq!(pad_end("é", 3, ' '), "é  ");
    assert_eq!(pad_start("é", 3, '0'), "00é");
    assert_eq!(pad_end("long", 3, ' '), "long");
    assert_eq!(pad_start("long", 3, ' '), "long");
    assert_eq!(repeat('─', 3), "───");
    assert_eq!(take_chars("日本語", 2), "日本");
    assert_eq!(take_chars("日本語", 5), "日本語");
}

#[test]
fn characters_make_up_a_text() {
    let chars = chars_of("añb");
    assert_eq!(chars, vec!['a', 'ñ', 'b']);
    assert_eq!(text_of(&chars, 1, 3), "ñb");
    assert_eq!(text_of(&chars, 2, 2), "");
}
