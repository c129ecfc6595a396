//! Character classes.

use refined_diff::chars::{
    boundary_category, category_boundary, char_code, chars_of, is_space_code, is_whitespace,
    is_word_char, trim_bounds,
};

#[test]
fn white_space_is_that_of_unicode() {
    for code in 0..=0x10ffff {
        if let Some(c) = char::from_u32(code) {
            assert_eq!(is_whitespace(c), c.is_whitespace(), "{:x}", code);
        }
    }
}

#[test]
fn word_characters_are_ascii_letters_and_digits() {
    for code in -1..=0x10ffff {
        let expected = (0..128).contains(&code) && (code as u8).is_ascii_alphanumeric();
        assert_eq!(is_word_char(code), expected, "{:x}", code);
    }
}

#[test]
fn categories_have_their_weights() {
    let cases = [
        ('a', 0, 0),
        ('Z', 1, 0),
        ('7', 2, 0),
        ('.', 4, 2),
        (',', 5, 30),
        (';', 5, 30),
        (' ', 6, 3),
        ('\u{3000}', 6, 3),
        ('\r', 7, 10),
        ('\n', 8, 10),
    ];
    for (c, category, weight) in cases {
        assert_eq!(boundary_category(char_code(c)), category, "{:?}", c);
        assert_eq!(category_boundary(category), weight, "{:?}", c);
    }
    assert_eq!(boundary_category(-1), 3);
    assert_eq!(category_boundary(3), 10);
}

#[test]
fn the_byte_order_mark_is_spacing_and_a_line_feed_is_not() {
    assert!(is_space_code(0xfeff));
    assert!(is_space_code(0x2007));
    assert!(!is_space_code(10));
    assert!(!is_space_code(0x200b));
}

#[test]
fn trimming_agrees_with_that_of_strings() {
    for text in ["", " ", "a", " a ", "\t\u{a0}x y\u{2003}\r\n", "no", "  \n", "\u{200b} z"] {
        let chars = chars_of(text);
        let (start, end) = trim_bounds(&chars);
        let trimmed: String = chars[start..end].iter().collect();
        assert_eq!(trimmed, text.trim());
    }
}
