use sqlx_sqruff_core::text::{
    byte_count, char_index, chars_of, joined, push_decimal, split_lines, text_of, white_space,
    width_of,
};

#[test]
fn white_space_is_that_of_unicode() {
    for c in '\0'..=char::MAX {
        assert_eq!(white_space(c), c.is_whitespace(), "{c:?}");
    }
}

#[test]
fn widths_are_those_of_utf_8() {
    for c in '\0'..=char::MAX {
        assert_eq!(width_of(c), c.len_utf8(), "{c:?}");
    }
    assert_eq!(byte_count("aé€🦀"), 10);
}

#[test]
fn lines_are_those_of_str() {
    for s in ["", "a", "a\n", "\n", "\r\n", "a\r", "a\r\n\rb\n\nc", "a\r\r\nb\r", "\n\n"] {
        let ours: Vec<String> =
            split_lines(&chars_of(s)).iter().map(|l| text_of(l)).collect();
        let std: Vec<&str> = s.lines().collect();
        assert_eq!(ours, std, "{s:?}");
    }
}

#[test]
fn joining_puts_line_feeds_between() {
    assert_eq!(joined(&vec![vec!['a'], vec![], vec!['b']]), "a\n\nb");
    assert_eq!(joined(&vec![]), "");
}

#[test]
fn bytes_find_characters() {
    let chars = chars_of("aé€");
    assert_eq!(char_index(&chars, 0), Some(0));
    assert_eq!(char_index(&chars, 1), Some(1));
    assert_eq!(char_index(&chars, 2), None);
    assert_eq!(char_index(&chars, 3), Some(2));
    assert_eq!(char_index(&chars, 6), Some(3));
    assert_eq!(char_index(&chars, 7), None);
}

#[test]
fn numbers_are_decimal() {
    for n in [0, 7, 10, 409, usize::MAX] {
        let mut out = String::from("n=");
        push_decimal(&mut out, n);
        assert_eq!(out, format!("n={n}"));
    }
}
