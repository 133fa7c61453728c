use sqlx_sqruff_core::literal::{
    block_indent, count_feeds, dedent, framing, leading_ws_len, reindent, unescape, LiteralKind, ParsedLiteral,
};

#[test]
fn parse_raw_no_hash() {
    let p = ParsedLiteral::parse(r##"r"SELECT 1""##).unwrap();
    assert_eq!(p.kind, LiteralKind::Raw { hashes: 0 });
    assert_eq!(p.content, "SELECT 1");
}

#[test]
fn parse_raw_one_hash_multiline() {
    let text = "r#\"\n    SELECT 1\n    \"#";
    let p = ParsedLiteral::parse(text).unwrap();
    assert_eq!(p.kind, LiteralKind::Raw { hashes: 1 });
    assert!(p.is_multiline());
    assert_eq!(p.content, "\n    SELECT 1\n    ");
}

#[test]
fn parse_normal_with_escapes() {
    let p = ParsedLiteral::parse(r#""a\nb""#).unwrap();
    assert_eq!(p.kind, LiteralKind::Normal);
    assert_eq!(p.content, "a\nb");
}

#[test]
fn dedent_strips_common_indent() {
    let c = "\n                SELECT\n                    a\n                FROM t\n                ";
    assert_eq!(dedent(c), "SELECT\n    a\nFROM t\n");
}

#[test]
fn framing_block_style() {
    let c = "\n            SELECT 1\n            ";
    assert_eq!(block_indent(c), "            ");
    assert_eq!(framing(c), ("\n".to_string(), "\n            ".to_string()));
}

#[test]
fn framing_inline_style_keeps_closing_stuck() {
    // `r#"INSERT …\n   VALUES (…)"#`, no leading/trailing newline.
    let c = "INSERT INTO t\n           VALUES (1)";
    assert_eq!(framing(c), (String::new(), String::new()));
}

#[test]
fn reindent_roundtrips() {
    let sql = "SELECT\n    a\nFROM t\n";
    assert_eq!(reindent(sql, "    "), "    SELECT\n        a\n    FROM t");
}

#[test]
fn parse_takes_quotes_inside_raw_strings() {
    let p = ParsedLiteral::parse("r#\"SELECT \"a\"\"#").unwrap();
    assert_eq!(p.kind, LiteralKind::Raw { hashes: 1 });
    assert_eq!(p.content, "SELECT \"a\"");
    assert!(p.is_raw());
    assert!(!p.is_multiline());
}

#[test]
fn parse_rejects_what_is_no_string_literal() {
    for text in ["", "\"", "r", "r#", "r\"", "r#\"a\"", "r##\"a\"#", "a", "1", "b\"a\"", "\"a"] {
        assert!(ParsedLiteral::parse(text).is_none(), "{text}");
    }
    assert_eq!(ParsedLiteral::parse("\"\"").unwrap().content, "");
    assert_eq!(ParsedLiteral::parse("r\"\"").unwrap().content, "");
}

#[test]
fn unescape_knows_every_escape() {
    let p = ParsedLiteral::parse("\"a\\nb\\tc\\rd\\0e\\\"f\\\\g\\qh\"").unwrap();
    assert_eq!(p.kind, LiteralKind::Normal);
    assert_eq!(p.content, "a\nb\tc\rd\0e\"f\\gqh");
    assert!(!p.is_raw());
    assert!(p.is_multiline());
    assert_eq!(unescape(&['a', '\\']), "a\\");
}

#[test]
fn dedent_empties_blank_lines_and_trims() {
    assert_eq!(dedent("\n\n    a\n  \n      b\n   \n"), "a\n\n  b\n");
    assert_eq!(dedent("  SELECT 1  "), "SELECT 1\n");
    assert_eq!(dedent("\n   \n"), "");
    assert_eq!(dedent(""), "");
}

#[test]
fn dedent_takes_carriage_returns_off() {
    assert_eq!(dedent("\n  a\r\n  b\r\n"), "a\nb\n");
}

#[test]
fn dedent_strips_what_the_lines_share() {
    assert_eq!(dedent("\tSELECT\n a"), "\tSELECT\n a\n");
    assert_eq!(dedent(" \tSELECT\n  a"), "\tSELECT\n a\n");
    assert_eq!(dedent("  a\n\u{3000}b"), "  a\n\u{3000}b\n");
    assert_eq!(dedent("\u{3000}\ta\n\u{3000} b"), "\ta\n b\n");
    assert_eq!(leading_ws_len(&['\u{3000}', ' ', 'a', ' ']), 2);
    assert_eq!(leading_ws_len(&['a']), 0);
}

#[test]
fn block_indent_is_what_the_lines_share() {
    assert_eq!(block_indent("\n      a\n    b\n  \n     c"), "    ");
    assert_eq!(block_indent("\n  \n"), "");
    assert_eq!(block_indent("\ta\n b"), "");
    assert_eq!(block_indent("  \ta\n   b\n\n  c"), "  ");
}

#[test]
fn feeds_of_the_source_are_counted() {
    // A line feed written as an escape is none of the source.
    let escaped: Vec<char> = "a\\nb\\nc".chars().collect();
    assert_eq!(count_feeds(&escaped, 2), 0);
    let plain: Vec<char> = "a\nb\\nc\n\\\\nd\n".chars().collect();
    assert_eq!(count_feeds(&plain, 0), 0);
    assert_eq!(count_feeds(&plain, 1), 1);
    assert_eq!(count_feeds(&plain, 2), 1);
    assert_eq!(count_feeds(&plain, 3), 2);
    assert_eq!(count_feeds(&plain, 9), 3);
}

#[test]
fn framing_needs_a_bare_last_line() {
    assert_eq!(framing("\n\na\n\t "), ("\n\n".to_string(), "\n\t ".to_string()));
    assert_eq!(framing("a\n  b "), (String::new(), String::new()));
    assert_eq!(framing("a "), (String::new(), String::new()));
}

#[test]
fn reindent_leaves_blank_lines_empty() {
    assert_eq!(reindent("a\n \nb\n\n\n", "  "), "  a\n\n  b");
    assert_eq!(reindent("", "  "), "");
}
