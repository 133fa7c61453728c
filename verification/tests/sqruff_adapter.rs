use sqlx_sqruff_core::config::plain_config;
use sqlx_sqruff_core::sqruff_adapter::{
    findings, mentions_directive, parse_dialect, residual, Finding, SqruffEngine,
};
use sqruff_lib_core::dialects::init::DialectKind;
use sqruff_lib_core::errors::{ErrorStructRule, SQLBaseError};

const CONFIG: &str = "[sqruff]\ndialect = postgres\nrules = CV05,ST01,ST02\n";

#[test]
fn dialects_are_named_in_any_case() {
    let named = [
        ("ansi", DialectKind::Ansi),
        ("athena", DialectKind::Athena),
        ("bigquery", DialectKind::Bigquery),
        ("clickhouse", DialectKind::Clickhouse),
        ("databricks", DialectKind::Databricks),
        ("db2", DialectKind::Db2),
        ("duckdb", DialectKind::Duckdb),
        ("mysql", DialectKind::Mysql),
        ("oracle", DialectKind::Oracle),
        ("postgres", DialectKind::Postgres),
        ("redshift", DialectKind::Redshift),
        ("snowflake", DialectKind::Snowflake),
        ("sparksql", DialectKind::Sparksql),
        ("sqlite", DialectKind::Sqlite),
        ("trino", DialectKind::Trino),
        ("tsql", DialectKind::Tsql),
    ];
    for (name, kind) in named {
        let config = sqruff_lib::core::config::FluffConfig::from_source(CONFIG, None);
        assert!(SqruffEngine::discover(name, config).is_ok(), "{name}");
        assert_eq!(parse_dialect(name), Ok(kind));
        assert_eq!(parse_dialect(&name.to_uppercase()), Ok(kind));
    }
    assert_eq!(parse_dialect("PostgresQL"), Err("unknown dialect 'postgresql'".to_string()));
    assert_eq!(parse_dialect(""), Err("unknown dialect ''".to_string()));
}

fn violation(code: Option<&'static str>, fixable: bool) -> SQLBaseError {
    SQLBaseError {
        fixable,
        line_no: 3,
        line_pos: 7,
        description: "Bad.".to_string(),
        rule: code.map(|code| ErrorStructRule { name: "name", code }),
        source_slice: 0..1,
    }
}

#[test]
fn findings_are_the_violations() {
    let f = Finding::from(&violation(Some("LT01"), true));
    assert_eq!((f.code.as_str(), f.line, f.col, f.desc.as_str(), f.fixable), ("LT01", 3, 6, "Bad.", true));
    let all = findings(&[violation(None, false), violation(Some("CV05"), true)]);
    let codes: Vec<&str> = all.iter().map(|f| f.code.as_str()).collect();
    assert_eq!(codes, ["????", "CV05"]);
}

#[test]
fn residual_findings_are_those_without_a_fix() {
    let all = findings(&[
        violation(Some("A"), true),
        violation(Some("B"), false),
        violation(Some("C"), true),
        violation(Some("D"), false),
    ]);
    let left: Vec<String> = residual(all).into_iter().map(|f| f.code).collect();
    assert_eq!(left, ["B", "D"]);
}

#[test]
fn directives_start_a_line() {
    assert!(mentions_directive("SELECT 1\n-- sqlfluff:dialect:ansi\n"));
    assert!(!mentions_directive("SELECT 1 -- sqlfluff\n"));
    assert!(!mentions_directive("--sqlfluff\n -- sqlfluff\n"));
}

#[test]
fn lint_finds_and_fix_fixes() {
    let eng = SqruffEngine::from_source(CONFIG).unwrap();
    let found = eng.lint("SELECT a FROM t WHERE x = NULL\n");
    assert_eq!(found.len(), 1);
    assert_eq!((found[0].code.as_str(), found[0].line), ("CV05", 1));
    let (fixed, left) = eng.fix("SELECT a FROM t WHERE x = NULL\n");
    assert_eq!(fixed, "SELECT a FROM t WHERE x IS NULL\n");
    assert!(left.iter().all(|f| !f.fixable));
    assert!(eng.lint(&fixed).is_empty());
}

#[test]
fn an_engine_goes_by_its_rules() {
    let eng = SqruffEngine::from_source("[sqruff]\ndialect = postgres\nrules = ST01\n").unwrap();
    assert!(eng.lint("SELECT a FROM t WHERE x = NULL\n").is_empty());
    assert_eq!(eng.fix("SELECT a FROM t WHERE x = NULL\n").0, "SELECT a FROM t WHERE x = NULL\n");
}

#[test]
fn discover_puts_the_dialect_in_place() {
    let ansi = "[sqruff]\ndialect = ansi\nrules = CV05\n";
    let cast = "SELECT a::text AS \"a!: T\" FROM t WHERE x = NULL AND y ->> 'k' = $1\n";
    let config = sqruff_lib::core::config::FluffConfig::from_source(ansi, None);
    let eng = SqruffEngine::discover("Postgres", config).unwrap();
    let codes: Vec<String> = eng.lint(cast).into_iter().map(|f| f.code).collect();
    assert_eq!(codes, ["CV05"]);
    let config = sqruff_lib::core::config::FluffConfig::from_source(ansi, None);
    assert_eq!(
        SqruffEngine::discover("nosql", config).err(),
        Some("unknown dialect 'nosql'".to_string())
    );
}

#[test]
fn columns_count_from_zero() {
    let eng = SqruffEngine::from_source("[sqruff]\ndialect = postgres\nrules = CV05\n").unwrap();
    let found = eng.lint("SELECT a FROM t WHERE x = NULL\n");
    assert_eq!(&"SELECT a FROM t WHERE x = NULL\n"[found[0].col..found[0].col + 1], "=");
    let mut v = violation(None, false);
    v.line_pos = 0;
    assert_eq!(Finding::from(&v).col, 0);
}

#[test]
fn only_plain_configurations_are_read() {
    for text in [
        "",
        CONFIG,
        "# comment\n[sqruff]\ndialect = sqlite\nrules = none\nmax_line_length = 120\ndisable_noqa = True\n",
        "[sqruff]\ndialect = postgres\n[sqruff:indentation]\nindent_unit = tab\ntab_space_size = 2\n",
        "[sqruff]\ndialect = ansi\n\n[sqruff:rules:capitalisation.keywords]\ncapitalisation_policy = upper\nignore_words = select\n",
        "[sqruff]\ndialect = ansi\n[sqruff:rules:convention.not_equal]\npreferred_not_equal_style = ansi\n",
        "[sqlfluff]\ndialect = ansi\n[sqlfluff:indentation]\nindented_joins = true\n",
        "[sqruff]\ndialect = ansi\nverbose = 2\nnocolor = true\nencoding = utf-8\nsql_file_exts = .sql,.sql.j2\nlarge_file_skip_byte_limit = 20000\n",
        "[sqruff]\ndialect = ansi\n[sqruff:rules]\nallow_scalar = false\nsingle_table_references = unqualified\nunquoted_identifiers_policy = aliases\n",
        "[sqruff]\ndialect = ansi\n[sqruff:layout:type:comma]\nspacing_before = any\nspacing_after = single:inline\nline_position = leading\n[sqruff:layout:type:set_operator]\nline_position = alone:strict\n",
    ] {
        assert!(plain_config(text), "{text}");
        let eng = SqruffEngine::try_from_source(text).unwrap().unwrap();
        eng.lint("SELECT a FROM t\n");
    }
    for text in [
        // No INI file.
        "[sqruff",
        "dialect\n",
        // Values of another kind.
        "[sqruff]\ndialect = nosql\n",
        "[sqruff]\nmax_line_length = long\n",
        "[sqruff]\nrules = 7\n",
        "[sqruff:rules:references.qualification]\nforce_enable = perhaps\n",
        "[sqruff:rules:aliasing.table]\naliasing = sometimes\n",
        "[sqruff]\nsql_file_exts = .5\n",
        "[sqruff]\nverbose = much\n",
        "[sqruff:layout:type:comma]\nspacing_before = wide\n",
        "[sqruff:layout:type:comma]\nline_position = below\n",
        // Sections that are not known.
        "[sqruff:layout:type:semicolon]\nspacing_before = touch\n",
        "[sqruff:rules:allow_scalar]\nforce_enable = true\n",
        "[sqruff:templater:placeholder]\nparam_style = colon\n",
        // An option that is not known.
        "[sqruff]\ncolour = red\n",
    ] {
        assert!(!plain_config(text), "{text}");
        assert!(SqruffEngine::try_from_source(text).is_none(), "{text}");
        assert!(SqruffEngine::try_discover("postgres", text).is_none(), "{text}");
    }
    assert!(SqruffEngine::try_discover("postgres", CONFIG).unwrap().is_ok());
    assert_eq!(
        SqruffEngine::try_discover("nosql", CONFIG).unwrap().err(),
        Some("unknown dialect 'nosql'".to_string())
    );
}

#[test]
fn an_unknown_templater_is_refused() {
    let config = "[sqruff]\ndialect = postgres\ntemplater = mustache\n";
    assert!(SqruffEngine::from_source(config).is_err());
    assert!(SqruffEngine::from_source("[sqruff]\ndialect = postgres\ntemplater = raw\n").is_ok());
}
