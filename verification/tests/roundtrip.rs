use sqlx_sqruff_core::engine::{rebuild_literal, rebuild_normal};
use sqlx_sqruff_core::literal::{block_indent, dedent, ParsedLiteral};

fn parse(text: &str) -> ParsedLiteral {
    ParsedLiteral::parse(text).unwrap()
}

/// The literal rebuilt around its own SQL.
fn unchanged(text: &str) -> String {
    let lit = parse(text);
    rebuild_literal(&lit, &dedent(&lit.content))
}

#[test]
fn tidy_literals_come_back_byte_for_byte() {
    for text in [
        "r#\"\n        SELECT\n            a\n\n        FROM t\n    \"#",
        "r\"SELECT 1\"",
        "r##\"\n\n\tSELECT 1\n\t\"##",
        "r#\"INSERT INTO t\n           VALUES (1)\"#",
        "r#\"  SELECT 1\n    FROM t\"#",
    ] {
        assert_eq!(unchanged(text), text);
    }
}

#[test]
fn other_literals_come_back_byte_for_byte_too() {
    for text in [
        // Line feeds before the closing delimiter.
        "r#\"\n    SELECT 1\n\n    \"#",
        // White space at the end.
        "r\"SELECT 1  \"",
        // A blank line that is not empty.
        "r\"a\n  \nb\"",
        // Carriage returns.
        "r\"a\r\nb\"",
        // Indents of different characters.
        "r\"\n a\n\tb\n\"",
        "r\"  \"",
    ] {
        assert_eq!(unchanged(text), text);
    }
    let lit = parse("r#\"\n    SELECT 1\n\n    \"#");
    assert_eq!(rebuild_literal(&lit, "SELECT 1\n"), "r#\"\n    SELECT 1\n\n    \"#");
}

#[test]
fn rebuilt_literals_read_back() {
    let lit = parse("r#\"\n    SELECT 1\n  \"#");
    let text = rebuild_literal(&lit, "SELECT\n    2\n");
    assert_eq!(text, "r#\"\n    SELECT\n        2\n  \"#");
    let back = parse(&text);
    assert_eq!(back.kind, lit.kind);
    assert_eq!(dedent(&back.content), "SELECT\n    2\n");
    assert_eq!(rebuild_literal(&back, "SELECT\n    2\n"), text);
}

#[test]
fn rebuilt_normal_strings_read_back() {
    assert_eq!(rebuild_normal("\n SELECT \"a\\b\"\nFROM t \n"), "\"SELECT \\\"a\\\\b\\\" FROM t\"");
    let text = rebuild_literal(&parse("\"x\""), "SELECT \"a\\b\"\nFROM t\n");
    let back = parse(&text);
    assert_eq!(back.content, "SELECT \"a\\b\" FROM t");
    assert_eq!(dedent(&back.content), "SELECT \"a\\b\" FROM t\n");
    assert_eq!(rebuild_literal(&back, &dedent(&back.content)), text);
    assert_eq!(rebuild_normal(" \n"), "\"\"");
}

#[test]
fn a_second_fix_reads_what_the_first_wrote() {
    let lit = parse("r#\"\n    SELECT 1\n  \"#");
    let clean = "SELECT\n\n    2\nFROM t\n";
    let text = rebuild_literal(&lit, clean);
    assert_eq!(dedent(&parse(&text).content), clean);
    assert_eq!(unchanged(&text), text);
    // SQL that is not clean is read otherwise than it was written, but written back as is.
    for sql in ["  SELECT 2\n", "\nSELECT 2\n", "SELECT 2  \n", "SELECT\r\n2\n", "SELECT 2"] {
        let text = rebuild_literal(&lit, sql);
        assert_ne!(dedent(&parse(&text).content), sql, "{sql:?}");
        assert_eq!(unchanged(&text), text);
    }
    assert_eq!(dedent(&parse(&rebuild_literal(&lit, "")).content), "");
}

#[test]
fn nothing_more_can_be_stripped_of_dedented_sql() {
    let sql = dedent("\n        WITH x\n      AS y\n");
    assert_eq!(sql, "  WITH x\nAS y\n");
    for content in ["\n        WITH x\n      AS y\n", "\ta\n b", "  \ta\n   b", "   a"] {
        let sql = dedent(content);
        assert_eq!(dedent(&sql), sql);
        assert_eq!(block_indent(&sql), "");
    }
}
