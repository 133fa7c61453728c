use sqlx_sqruff_core::grammar::takes;
use sqlx_sqruff_core::sqruff_adapter::SqruffEngine;
use sqruff_lib_core::dialects::init::DialectKind;

#[test]
fn words_before_a_gap_are_refused() {
    for (dialect, sql) in [
        (DialectKind::Bigquery, "SELECT 1 FETCH FIRST ROW ONLY"),
        (DialectKind::Bigquery, "CREATE TABLE t (a INT64 REFERENCES u (b))"),
        (DialectKind::Bigquery, "GRANT ALL ON t TO r"),
        (DialectKind::Duckdb, "GRANT MONITOR USAGE ON ACCOUNT TO r"),
        (DialectKind::Oracle, "SELECT f(x) FROM t"),
        (DialectKind::Oracle, "DROP DATABASE LINK l"),
        (DialectKind::Postgres, "GRANT MONITOR EXECUTION ON ACCOUNT TO r"),
        (DialectKind::Postgres, "revoke\n monitor usage on account from r"),
        (DialectKind::Redshift, "EXPLAIN SELECT 1"),
        (DialectKind::Redshift, "CREATE DATABASE d"),
        (DialectKind::Snowflake, "CREATE TABLE t (a INT REFERENCES u (b) MATCH FULL)"),
        (DialectKind::Sqlite, "SELECT sum(a) OVER (ROWS UNBOUNDED PRECEDING) FROM t"),
        (DialectKind::Sqlite, "SELECT 1; WITH a AS (SELECT 1) SELECT * FROM a"),
        (DialectKind::Trino, "DROP DATABASE d"),
        (DialectKind::Trino, "drop table t"),
        (DialectKind::Trino, "INSERT INTO t VALUES (1)"),
    ] {
        assert!(!takes(dialect, sql), "{sql}");
    }
}

#[test]
fn other_sql_is_taken() {
    for (dialect, name, sql) in [
        (DialectKind::Ansi, "ansi", "GRANT MONITOR EXECUTION ON ACCOUNT TO r\n"),
        (DialectKind::Bigquery, "bigquery", "SELECT cast(a AS INT64) FROM t\n"),
        (DialectKind::Oracle, "oracle", "SELECT a FROM t WHERE b = 1\n"),
        (DialectKind::Postgres, "postgres", "GRANT SELECT ON t TO r\n"),
        (DialectKind::Postgres, "postgres", "SELECT monitor FROM t\n"),
        (DialectKind::Postgres, "postgres", "GRANT SELECT ON monitors TO r\n"),
        (DialectKind::Redshift, "redshift", "CREATE TABLE t (a INT)\n"),
        (DialectKind::Snowflake, "snowflake", "CREATE TABLE t (a INT REFERENCES u (b))\n"),
        (DialectKind::Sqlite, "sqlite", "WITH a AS (SELECT 1) SELECT * FROM a\n"),
        (DialectKind::Trino, "trino", "SELECT created, dropped FROM inserts\n"),
    ] {
        assert!(takes(dialect, sql), "{sql}");
        let config = format!("[sqruff]\ndialect = {name}\nrules = CV05\n");
        let eng = SqruffEngine::from_source(&config).unwrap();
        assert_eq!(eng.dialect_kind(), dialect);
        eng.lint(sql);
    }
}

#[test]
fn a_word_counts_by_its_end_and_in_any_place() {
    assert!(!takes(DialectKind::Trino, "SELECT 'drop'"));
    assert!(!takes(DialectKind::Trino, "SELECT 1 -- drop"));
    assert!(!takes(DialectKind::Trino, "SELECT 1drop"));
    assert!(takes(DialectKind::Trino, "SELECT drop_1"));
    assert!(takes(DialectKind::Postgres, "SELECT monitor, grant FROM t"));
    assert!(!takes(DialectKind::Postgres, "SELECT grant, monitor FROM t"));
}

#[test]
fn directives_are_refused_in_every_dialect() {
    for dialect in [DialectKind::Ansi, DialectKind::Postgres, DialectKind::Trino] {
        assert!(!takes(dialect, "SELECT 1\n-- sqlfluff:x"));
        assert!(takes(dialect, "SELECT 1\n-- sql:x"));
    }
}
