use sqlx_sqruff_core::engine::{
    accept_fix, apply_edits, check_extracted, check_file, diagnostics_for, dump_file,
    fix_extracted, fix_file, is_skippable, leading_newlines, ready_to_check, ready_to_fix, splice,
    try_check_file, try_fix_file, Edit,
};
use sqlx_sqruff_core::extract::{extract, QueryLiteral};
use sqlx_sqruff_core::literal::ParsedLiteral;
use sqlx_sqruff_core::sqruff_adapter::{Finding, SqruffEngine};
use sqruff_lib_core::dialects::init::DialectKind;

fn engine() -> SqruffEngine {
    SqruffEngine::from_source("[sqruff]\ndialect = postgres\nrules = CV05,ST01,ST02\n")
        .expect("engine")
}

#[test]
fn check_finds_is_null_misuse() {
    let src = "fn f(){let _=sqlx::query!(r#\"\n    SELECT a FROM t WHERE x = NULL\n    \"#);}";
    let eng = SqruffEngine::from_source("[sqruff]\ndialect = postgres\nrules = CV05\n").unwrap();
    let diags = check_file("f.rs", src, &eng);
    assert!(diags.iter().any(|d| d.code == "CV05"));
}

#[test]
fn fix_is_idempotent() {
    let src = "fn f(){\n    let _=sqlx::query!(r#\"\n        SELECT a FROM t WHERE x = NULL\n    \"#);\n}\n";
    let eng = engine();
    let first = fix_file("f.rs", src, &eng, true).unwrap();
    let fixed = first.new_src.expect("should change");
    assert!(fixed.contains("IS NULL"));
    let second = fix_file("f.rs", &fixed, &eng, true).unwrap();
    assert!(second.new_src.is_none(), "second run must be a no-op");
}

#[test]
fn fix_preserves_placeholders_and_casts() {
    let src = "fn f(){\n    let _=sqlx::query_as!(Row, r#\"\n        SELECT a AS \"a!: T\" FROM t WHERE x = NULL AND y = $1\n    \"#, p);\n}\n";
    let eng = engine();
    let out = fix_file("f.rs", src, &eng, true).unwrap().new_src.unwrap();
    assert!(out.contains("$1"));
    assert!(out.contains("\"a!: T\""));
    assert!(out.contains("IS NULL"));
}

#[test]
fn inline_style_noop_is_byte_identical() {
    // SQL stuck to opening `r#"` and closing `"#` stuck to last line; safe-fix
    // has nothing to change: output must equal input (no added newline).
    let src = "fn f(){\n    sqlx::query!(r#\"INSERT INTO t\n           (a, b)\n           VALUES ($1, $2)\"#, x, y);\n}\n";
    let eng = engine();
    let out = fix_file("f.rs", src, &eng, true).unwrap();
    assert!(out.new_src.is_none(), "no-op fix must not rewrite framing");
}

#[test]
fn skips_set_statements() {
    assert!(is_skippable("SET audit.skip = 'true'\n"));
    assert!(!is_skippable("SELECT 1\n"));
}

#[test]
fn skippable_is_set_and_a_space() {
    assert!(is_skippable("  \n sEt x = 1"));
    assert!(!is_skippable("SET"));
    assert!(!is_skippable("SETTINGS"));
    assert!(!is_skippable("SET\tx"));
    assert!(!is_skippable("SELé"));
    assert!(!is_skippable(""));
}

#[test]
fn dump_gives_the_sql_that_the_linter_gets() {
    let src = "fn f() {\n    query!(r#\"\n        SELECT 1\n          FROM t\n    \"#);\n    query!(\"SET x = 1\");\n}\n";
    assert_eq!(
        dump_file(src),
        [(2, "SELECT 1\n  FROM t\n".to_string()), (6, "SET x = 1\n".to_string())]
    );
}

fn finding(line: usize, col: usize) -> Finding {
    Finding {
        code: "XX01".to_string(),
        line,
        col,
        desc: "No.".to_string(),
        fixable: false,
    }
}

fn query(line: usize, text: &str) -> QueryLiteral {
    QueryLiteral { start_byte: 0, end_byte: text.len(), line, text: text.to_string() }
}

#[test]
fn findings_in_strings_stay_on_their_line() {
    let eng = SqruffEngine::from_source("[sqruff]\ndialect = postgres\nrules = CV05\n").unwrap();
    let src = "fn f(){let _=query!(\"\\nSELECT a FROM t WHERE x = NULL\");}";
    let diags = check_file("f.rs", src, &eng);
    assert!(!diags.is_empty());
    assert!(diags.iter().all(|d| d.line == 1));
    // A string over several lines, with line feeds of both kinds.
    let q = query(7, "\"\n  SELECT\\n  a,\n  b\"");
    let lit = ParsedLiteral::parse(&q.text).unwrap();
    let diags = diagnostics_for("a.rs", &q, &lit, vec![finding(1, 0), finding(2, 0), finding(3, 0), finding(9, 0)]);
    let rows: Vec<usize> = diags.iter().map(|d| d.line).collect();
    assert_eq!(rows, [8, 8, 9, 9]);
}

#[test]
fn findings_are_mapped_to_the_file() {
    let found = vec![finding(1, 0), finding(2, 4), finding(0, 1), finding(1, usize::MAX)];
    let q = query(10, "r\"\n\n   SELECT\n     1\n\"");
    let lit = ParsedLiteral::parse(&q.text).unwrap();
    let diags = diagnostics_for("a.rs", &q, &lit, found);
    let places: Vec<(usize, usize)> = diags.iter().map(|d| (d.line, d.col)).collect();
    assert_eq!(places, [(12, 4), (13, 8), (12, 5), (12, usize::MAX)]);
    assert_eq!(diags[0].render_human(), "a.rs:12:4: XX01 No.");
}

#[test]
fn diagnostics_lead_to_the_character() {
    let src = "fn f() {\n    query!(r#\"\n        SELECT a\n        FROM t WHERE x = NULL\n    \"#);\n}\n";
    let eng = SqruffEngine::from_source("[sqruff]\ndialect = postgres\nrules = CV05\n").unwrap();
    let diags = check_file("f.rs", src, &eng);
    assert_eq!(diags.len(), 1);
    assert_eq!(diags[0].line, 4);
    let queries = extract(src);
    assert_eq!(leading_newlines(&ParsedLiteral::parse(&queries[0].text).unwrap().content), 1);
    let found = eng.lint(&dump_file(src)[0].1);
    let line = src.lines().nth(diags[0].line - 1).unwrap();
    let sql_line = dump_file(src)[0].1.lines().nth(found[0].line - 1).unwrap().to_string();
    assert_eq!(line[diags[0].col - 1..], sql_line[found[0].col..]);
}

#[test]
fn check_reports_nothing_of_blank_and_set() {
    let eng = engine();
    let src = "fn f() {\n    query!(\"  \");\n    query!(\"set x = NULL\");\n}\n";
    assert!(check_file("f.rs", src, &eng).is_empty());
    assert!(fix_file("f.rs", src, &eng, false).unwrap().new_src.is_none());
}

#[test]
fn directives_are_not_handed_to_the_linter() {
    let eng = engine();
    let src = "fn f() {\n    query!(r#\"\n        SELECT 1\n        -- sqlfluff:x\n    \"#);\n}\n";
    assert!(try_check_file("f.rs", src, &eng).is_none());
    assert!(try_fix_file("f.rs", src, &eng, true).is_none());
    assert!(!ready_to_check(&extract(src), DialectKind::Postgres));
    assert!(!ready_to_fix(&extract(src), true, DialectKind::Postgres));
    let clean = "fn f() {\n    query!(r#\"\n        SELECT a FROM t WHERE x = NULL\n    \"#);\n}\n";
    assert_eq!(try_check_file("f.rs", clean, &eng).unwrap().len(), 1);
    assert_eq!(try_fix_file("f.rs", clean, &eng, true).unwrap().unwrap().queries_changed, 1);
}

#[test]
fn sql_behind_a_gap_of_the_grammar_is_not_handed_to_the_linter() {
    let eng = engine();
    assert_eq!(eng.dialect_kind(), DialectKind::Postgres);
    let src = "fn f() {\n    query!(r#\"\n        GRANT MONITOR EXECUTION\n        ON ACCOUNT TO r\n    \"#);\n}\n";
    assert!(try_check_file("f.rs", src, &eng).is_none());
    assert!(try_fix_file("f.rs", src, &eng, true).is_none());
    assert!(!ready_to_check(&extract(src), DialectKind::Postgres));
    assert!(ready_to_check(&extract(src), DialectKind::Ansi));
    let eng = SqruffEngine::from_source("[sqruff]\ndialect = trino\nrules = CV05\n").unwrap();
    assert_eq!(eng.dialect_kind(), DialectKind::Trino);
    let src = "fn f() {\n    query!(\"DROP DATABASE d\");\n}\n";
    assert!(try_check_file("f.rs", src, &eng).is_none());
    assert!(try_fix_file("f.rs", src, &eng, false).is_none());
    // A literal that is not to be fixed does not stand in the way.
    assert!(try_fix_file("f.rs", src, &eng, true).unwrap().unwrap().new_src.is_none());
    let src = "fn f() {\n    query!(\"SELECT a FROM t WHERE x = NULL\");\n}\n";
    assert_eq!(try_check_file("f.rs", src, &eng).unwrap().len(), 1);
}

#[test]
fn check_lints_what_dump_shows() {
    let eng = engine();
    let src = "fn f() {\n    query!(r#\"\n        SELECT a FROM t WHERE x = NULL\n    \"#);\n    query!(\"SET x = NULL\");\n    query!(\"  \");\n    query!(\"SELECT b FROM t WHERE y = NULL AND z = NULL\");\n}\n";
    let shown = dump_file(src);
    assert_eq!(shown.len(), 4);
    let linted: usize = shown
        .iter()
        .filter(|(_, sql)| !sql.trim().is_empty() && !is_skippable(sql))
        .map(|(_, sql)| eng.lint(sql).len())
        .sum();
    assert_eq!(linted, 3);
    assert_eq!(check_file("f.rs", src, &eng).len(), linted);
}

#[test]
fn several_changed_literals_change_the_file() {
    let eng = engine();
    let src = "fn f() {\n    query!(r#\"\n        SELECT a FROM t WHERE x = NULL\n    \"#);\n    query!(r#\"\n        SELECT b FROM t\n        WHERE y = NULL\n    \"#);\n}\n";
    let out = fix_file("f.rs", src, &eng, true).unwrap();
    assert_eq!(out.queries_changed, 2);
    let new = out.new_src.unwrap();
    assert_ne!(new, src);
    assert_eq!(new, src.replace("= NULL", "IS NULL"));
}

#[test]
fn a_fix_that_changes_nothing_keeps_the_layout() {
    let eng = engine();
    for src in [
        "fn f() {\n    query!(r#\"\n    SELECT 1\n\n    \"#);\n}\n",
        "fn f() {\n    query!(r#\"SELECT\n\t1  \"#);\n}\n",
        "fn f() {\n    query!(\" SELECT 1 \");\n}\n",
    ] {
        assert!(fix_file("f.rs", src, &eng, false).unwrap().new_src.is_none(), "{src}");
    }
}

#[test]
fn extracted_queries_are_checked_and_fixed() {
    let eng = engine();
    let src = "fn f() {\n    query!(r#\"\n        SELECT a FROM t WHERE x = NULL\n    \"#);\n}\n";
    let queries = extract(src);
    let diags = check_extracted("f.rs", &queries, &eng);
    assert_eq!((diags.len(), diags[0].line, diags[0].code.as_str()), (1, 3, "CV05"));
    let out = fix_extracted("f.rs", src, &queries, &eng, true).unwrap();
    assert_eq!(out.queries_changed, 1);
    assert_eq!(out.new_src.unwrap(), src.replace("= NULL", "IS NULL"));
}

#[test]
fn only_multiline_raw_strings_are_fixed_by_default() {
    let eng = engine();
    let src = "fn f() {\n    query!(\"SELECT a FROM t WHERE x = NULL\");\n    query!(r\"SELECT a FROM t WHERE x = NULL\");\n    query!(\"SELECT a\\nFROM t WHERE x = NULL\");\n}\n";
    assert!(fix_file("f.rs", src, &eng, true).unwrap().new_src.is_none());
    let out = fix_file("f.rs", src, &eng, false).unwrap();
    assert_eq!(out.queries_changed, 3);
    assert_eq!(
        out.new_src.unwrap(),
        "fn f() {\n    query!(\"SELECT a FROM t WHERE x IS NULL\");\n    query!(r\"SELECT a FROM t WHERE x IS NULL\");\n    query!(\"SELECT a FROM t WHERE x IS NULL\");\n}\n"
    );
}

#[test]
fn a_fix_keeps_the_rest_of_the_file() {
    let eng = engine();
    let src = "// é\nfn f() {\n    query!(r#\"\n        SELECT a FROM t WHERE x = NULL\n    \"#, \"= NULL\");\n    /* 🦀 */ query!(r##\"SELECT b\n        FROM t WHERE y = NULL\"##);\n} // end\n";
    let out = fix_file("f.rs", src, &eng, true).unwrap();
    assert_eq!(out.queries_changed, 2);
    assert_eq!(
        out.new_src.unwrap(),
        "// é\nfn f() {\n    query!(r#\"\n        SELECT a FROM t WHERE x IS NULL\n    \"#, \"= NULL\");\n    /* 🦀 */ query!(r##\"SELECT b\n        FROM t WHERE y IS NULL\"##);\n} // end\n"
    );
}

fn edit(start: usize, end: usize, text: &str) -> Edit {
    Edit { start, end, text: text.to_string() }
}

#[test]
fn splice_puts_every_edit_in_place() {
    let edits = vec![edit(3, 5, "XYZ"), edit(0, 1, ""), edit(7, 8, "é")];
    assert_eq!(splice("aécdefgh", edits), "éXYZeféh");
    assert_eq!(splice("abc", vec![]), "abc");
}

#[test]
fn edits_are_applied_only_if_the_file_still_parses() {
    let src = "fn f() { 1 }";
    let out = apply_edits("f.rs", src, vec![edit(9, 10, "2 + 3")]).unwrap();
    assert_eq!((out.new_src.as_deref(), out.queries_changed), (Some("fn f() { 2 + 3 }"), 1));
    assert_eq!(
        apply_edits("f.rs", src, vec![edit(9, 10, "2 +")]).err(),
        Some("fix produced unparsable Rust in f.rs; discarded".to_string())
    );
    let none = apply_edits("f.rs", src, vec![]).unwrap();
    assert!(none.new_src.is_none() && none.queries_changed == 0);
}

#[test]
fn a_fix_is_accepted_if_it_parses() {
    let out = accept_fix("f.rs", "x".to_string(), 2, true).unwrap();
    assert_eq!((out.new_src.as_deref(), out.queries_changed), (Some("x"), 2));
    assert_eq!(
        accept_fix("f.rs", "x".to_string(), 2, false).err(),
        Some("fix produced unparsable Rust in f.rs; discarded".to_string())
    );
}
