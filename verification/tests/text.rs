use writerm::text::{
    decimal_string, fit_text, from_chars, is_white_space, is_word_char, measure, repeat_char,
    same_text, split_lines, to_chars, trim_bounds, truncate, Glyph,
};

fn width(text: &str) -> usize {
    measure(text).iter().map(|g| g.width).sum()
}

#[test]
fn truncate_to_display_width_uses_cell_width_not_char_count() {
    let s = "日本語text";
    let truncated = truncate(s, 5);
    assert!(truncated.chars().count() <= 3);
    assert!(width(&truncated) <= 5);
    assert_eq!(truncated, "日本");
}

#[test]
fn truncate_to_display_width_empty_string() {
    assert_eq!(truncate("", 10), "");
}

#[test]
fn truncate_to_display_width_zero_max() {
    assert_eq!(truncate("hello", 0), "");
}

#[test]
fn cut_text_is_the_start_of_the_text() {
    for text in ["日本語text", "e\u{301}t\u{301}e", "👩\u{200d}👧 x", "plain", ""] {
        for width in 0..12 {
            assert!(text.starts_with(&truncate(text, width)), "{text:?} {width}");
        }
    }
}

#[test]
fn ascii_falls_into_its_characters() {
    let glyphs = |text: &str| -> Vec<(String, usize)> {
        measure(text).into_iter().map(|g| (g.text, g.width)).collect()
    };
    let all: String = (0..=127u8).map(char::from).collect();
    for text in [all.as_str(), "a\tb", "\t\t", "x y", "\n\r", "\r\r", "\u{7f}\u{1}~"] {
        let expected: Vec<(String, usize)> =
            text.chars().map(|c| (c.to_string(), 1)).collect();
        assert_eq!(glyphs(text), expected, "{text:?}");
    }
    assert_eq!(glyphs("a\r\nb")[1], ("\r\n".to_string(), 1));
    let mixed: Vec<String> =
        measure("é\tq\u{301}\tab\u{200d}\u{1}\u{301}").into_iter().map(|g| g.text).collect();
    assert_eq!(
        mixed,
        vec!["é", "\t", "q\u{301}", "\t", "a", "b\u{200d}", "\u{1}", "\u{301}"]
    );
}

#[test]
fn cut_text_is_as_long_as_it_can_be() {
    assert_eq!(truncate("hello", 4), "hell");
    assert_eq!(truncate("hello", 5), "hello");
    assert_eq!(truncate("hello", 50), "hello");
    assert_eq!(truncate("e\u{301}a", 1), "e\u{301}");
    let family = "\u{1F468}\u{200D}\u{1F469}\u{200D}\u{1F467}";
    assert_eq!(truncate(&format!("a{family}b"), 2), "a");
    assert_eq!(truncate(&format!("a{family}b"), 3), format!("a{family}"));
    let glyphs = vec![
        Glyph { text: "x".to_string(), width: 2 },
        Glyph { text: "y".to_string(), width: 0 },
        Glyph { text: "z".to_string(), width: 1 },
    ];
    assert_eq!(fit_text(&glyphs, 2), "xy");
    assert_eq!(fit_text(&glyphs, 3), "xyz");
    assert_eq!(fit_text(&glyphs, 1), "");
}

#[test]
fn graphemes_are_measured_together() {
    let glyphs = measure("a日e\u{301}\t");
    let texts: Vec<&str> = glyphs.iter().map(|g| g.text.as_str()).collect();
    let widths: Vec<usize> = glyphs.iter().map(|g| g.width).collect();
    assert_eq!(texts, vec!["a", "日", "e\u{301}", "\t"]);
    assert_eq!(widths[..3], [1, 2, 1]);
}

#[test]
fn white_space_is_that_of_unicode() {
    for code in 0..=0x10ffff_u32 {
        if let Some(c) = char::from_u32(code) {
            assert_eq!(is_white_space(c), c.is_whitespace(), "{code:x}");
        }
    }
}

#[test]
fn words_are_letters_digits_and_underscores() {
    for c in ['a', 'Z', '0', '_', 'é', '日', 'ß', '٣'] {
        assert!(is_word_char(c), "{c}");
    }
    for c in [' ', '-', '\'', '.', '–', '\u{301}'] {
        assert!(!is_word_char(c), "{c}");
    }
}

#[test]
fn numbers_are_written_in_decimal() {
    for n in [0, 9, 10, 42, 100, 9_999, u64::MAX] {
        assert_eq!(decimal_string(n), format!("{n}"));
    }
}

#[test]
fn lines_are_what_newlines_separate() {
    assert_eq!(split_lines(&to_chars("")), vec![(0, 0)]);
    assert_eq!(split_lines(&to_chars("ab\n\nc")), vec![(0, 2), (3, 3), (4, 5)]);
    assert_eq!(split_lines(&to_chars("ab\n")), vec![(0, 2), (3, 3)]);
}

#[test]
fn trimming_is_that_of_std() {
    for text in ["", " ", "a", " a b\t", "\u{3000}x\u{a0}", "x", "\n\n"] {
        let chars = to_chars(text);
        let (from, to) = trim_bounds(&chars, 0, chars.len());
        assert_eq!(from_chars(&chars, from, to), text.trim());
    }
}

#[test]
fn texts_are_built_and_compared_by_character() {
    assert_eq!(repeat_char('é', 3), "ééé");
    assert_eq!(repeat_char('x', 0), "");
    assert!(same_text("né", "né"));
    assert!(!same_text("né", "ne"));
    assert!(!same_text("n", "né"));
    assert_eq!(from_chars(&to_chars("añb"), 1, 3), "ñb");
}
