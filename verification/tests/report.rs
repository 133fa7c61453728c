use sqlx_sqruff_core::engine::FixOutcome;
use sqlx_sqruff_core::report::{
    describe_fix, dump_source, is_rs, list_source, warn_skip, CheckRun, FileCheck, FileFix, FileList,
    FixRun, OutputFormat,
};
use sqlx_sqruff_core::sqruff_adapter::SqruffEngine;

const BAD: &str = "fn f() {\n    query!(r#\"\n        SELECT a FROM t WHERE x = NULL\n    \"#);\n}\n";
const BROKEN: &str = "query! this is not rust {{{";
const DIRECTIVE: &str = "fn f() { query!(r\"SELECT 1\n-- sqlfluff:x\"); }";
const GAP: &str = "fn f() { query!(r\"GRANT MONITOR USAGE\nON ACCOUNT TO r\"); }";

fn engine() -> SqruffEngine {
    SqruffEngine::from_source("[sqruff]\ndialect = postgres\nrules = CV05\n").unwrap()
}

#[test]
fn rust_files_end_in_rs() {
    assert!(is_rs(Some("rs")));
    assert!(!is_rs(Some("RS")));
    assert!(!is_rs(Some("toml")));
    assert!(!is_rs(None));
}

#[test]
fn a_skip_warning_holds_the_first_line() {
    assert_eq!(
        warn_skip("a.rs", "expected `;`\nmore"),
        "warning: skipping a.rs (unparsable by syn): expected `;`"
    );
    assert_eq!(warn_skip("a.rs", ""), "warning: skipping a.rs (unparsable by syn): parse error");
}

#[test]
fn a_check_counts_findings_and_skips() {
    let eng = engine();
    let mut run = CheckRun::new(OutputFormat::Human);
    assert!(!run.fails());
    assert!(matches!(run.check("ok.rs", "fn f() {}", &eng), Some(FileCheck::Findings(l)) if l.is_empty()));
    match run.check("bad.rs", BAD, &eng) {
        Some(FileCheck::Findings(lines)) => {
            assert_eq!(lines.len(), 1);
            assert!(lines[0].starts_with("bad.rs:3:"), "{}", lines[0]);
            assert!(lines[0].contains(": CV05 "), "{}", lines[0]);
        }
        _ => panic!("no findings"),
    }
    match run.check("broken.rs", BROKEN, &eng) {
        Some(FileCheck::Skipped(w)) => {
            assert!(w.starts_with("warning: skipping broken.rs (unparsable by syn): "), "{w}")
        }
        _ => panic!("not skipped"),
    }
    assert!(run.check("directive.rs", DIRECTIVE, &eng).is_none());
    assert!(run.check("gap.rs", GAP, &eng).is_none());
    assert_eq!((run.findings, run.skipped), (1, 1));
    assert_eq!(run.summary(), "1 finding(s); 1 file(s) skipped (unparsable Rust).");
    assert!(run.fails());
}

#[test]
fn a_check_can_write_json() {
    let mut run = CheckRun::new(OutputFormat::Json);
    match run.check("bad.rs", BAD, &engine()) {
        Some(FileCheck::Findings(lines)) => {
            assert!(lines[0].starts_with("{\"file\":\"bad.rs\",\"line\":3,\"col\":"), "{}", lines[0])
        }
        _ => panic!("no findings"),
    }
}

#[test]
fn counts_stop_at_the_largest() {
    let mut run = CheckRun { format: OutputFormat::Human, findings: usize::MAX, skipped: usize::MAX };
    run.check("bad.rs", BAD, &engine());
    run.check("broken.rs", BROKEN, &engine());
    assert_eq!((run.findings, run.skipped), (usize::MAX, usize::MAX));
}

#[test]
fn a_fix_counts_changes_and_skips() {
    let eng = engine();
    let mut run = FixRun::new(false, true);
    assert!(matches!(run.fix("ok.rs", "fn f() {}", &eng), Some(FileFix::Unchanged)));
    match run.fix("bad.rs", BAD, &eng) {
        Some(FileFix::Changed { new_src, message }) => {
            assert_eq!(new_src, BAD.replace("= NULL", "IS NULL"));
            assert_eq!(message, "fixed 1 query(ies) in bad.rs");
        }
        _ => panic!("not changed"),
    }
    assert!(matches!(run.fix("broken.rs", BROKEN, &eng), Some(FileFix::Skipped(_))));
    assert!(run.fix("directive.rs", DIRECTIVE, &eng).is_none());
    assert!(run.fix("gap.rs", GAP, &eng).is_none());
    assert_eq!((run.changed_files, run.changed_queries, run.skipped), (1, 1, 1));
    assert_eq!(
        run.summary(),
        "1 query(ies) in 1 file(s); 1 file(s) skipped (unparsable Rust)."
    );
    assert!(!run.fails());
}

#[test]
fn a_gate_fails_where_something_would_change() {
    let eng = engine();
    let mut run = FixRun::new(true, true);
    run.fix("ok.rs", "fn f() {}", &eng);
    assert!(!run.fails());
    match run.fix("bad.rs", BAD, &eng) {
        Some(FileFix::Changed { message, .. }) => {
            assert_eq!(message, "would fix 1 query(ies) in bad.rs")
        }
        _ => panic!("not changed"),
    }
    assert!(run.fails());
}

#[test]
fn single_line_literals_are_fixed_on_demand() {
    let eng = engine();
    let src = "fn f() { query!(\"SELECT a FROM t WHERE x = NULL\"); }";
    assert!(matches!(FixRun::new(false, true).fix("a.rs", src, &eng), Some(FileFix::Unchanged)));
    assert!(matches!(FixRun::new(false, false).fix("a.rs", src, &eng), Some(FileFix::Changed { .. })));
}

#[test]
fn a_discarded_fix_is_a_warning() {
    match describe_fix("a.rs", Err("no".to_string()), false) {
        FileFix::Discarded(w) => assert_eq!(w, "warning: no"),
        _ => panic!("not discarded"),
    }
    let none = FixOutcome { new_src: None, queries_changed: 0 };
    assert!(matches!(describe_fix("a.rs", Ok(none), false), FileFix::Unchanged));
}

#[test]
fn lists_and_dumps_say_where() {
    let src = "fn f() {\n    query!(\"SELECT 1\");\n}\n";
    assert_eq!(entries(list_source("a.rs", src)), ["a.rs:2"]);
    assert_eq!(entries(dump_source("a.rs", src)), ["----- a.rs:2 -----\nSELECT 1\n"]);
}

fn entries(list: FileList) -> Vec<String> {
    match list {
        FileList::Entries(entries) => entries,
        FileList::Skipped(warning) => panic!("{warning}"),
    }
}

#[test]
fn lists_and_dumps_warn_of_unparsable_files() {
    for list in [list_source("broken.rs", BROKEN), dump_source("broken.rs", BROKEN)] {
        match list {
            FileList::Skipped(w) => {
                assert!(w.starts_with("warning: skipping broken.rs (unparsable by syn): "), "{w}")
            }
            FileList::Entries(_) => panic!("not skipped"),
        }
    }
    assert!(entries(list_source("a.rs", "this is not rust {{{")).is_empty());
}
