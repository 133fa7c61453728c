//! What the command line says of each file and how a run ends. Reading the files,
//! writing them and printing are left to the caller.
use crate::diagnostic::{diagnostic_views, Diagnostic, DiagnosticView};
use crate::engine::{
    can_check, can_fix, check_extracted, check_may_report, dump_queries, dump_views, dumped,
    fix_extracted, fix_may_end_in, fix_view, ready_to_check, ready_to_fix, saturated, FixOutcome,
    FixView,
};
use crate::extract::{extract_checked, extracted, query_views, QueryView};
use crate::sqruff_adapter::{findings, SqruffEngine};
use crate::syntax::{fits, source_fits};
use crate::text::{chars_of, decimal, lines, push_decimal, rows, spells, split_lines, text_of};
use vstd::prelude::*;

verus! {

/// How diagnostics are written.
#[derive(Debug, Clone, Copy, PartialEq, Eq)]
pub enum OutputFormat {
    Human,
    Json,
}

/// The texts of the strings in `v`.
pub open spec fn texts(v: Seq<String>) -> Seq<Seq<char>> {
    Seq::new(v.len(), |i: int| v[i]@)
}

/// `n` is `a + b`, or the largest `usize` where that is larger still.
pub open spec fn is_sum(n: usize, a: int, b: int) -> bool {
    &&& a + b <= usize::MAX ==> n == a + b
    &&& a + b > usize::MAX ==> n == usize::MAX
}

// ---------------------------------------------------------------------------
// Files
// ---------------------------------------------------------------------------

/// Whether a file with the given extension is a Rust file.
pub fn is_rs(extension: Option<&str>) -> (b: bool)
    ensures
        b == (extension matches Some(e) && e@ == "rs"@),
{
    match extension {
        Some(e) => spells(&chars_of(e), "rs"),
        None => false,
    }
}

/// The warning for a file that does not parse: only the first line of the error.
pub open spec fn skip_warning(path: Seq<char>, err: Seq<char>) -> Seq<char> {
    let first = if lines(err).len() > 0 {
        lines(err)[0]
    } else {
        "parse error"@
    };
    "warning: skipping "@ + path + " (unparsable by syn): "@ + first
}

/// The warning for a file that can't be parsed by `syn`, so that whole-file skips are
/// visible, never silent. `err` is the parse error of [`extract_checked`].
pub fn warn_skip(path: &str, err: &str) -> (warning: String)
    ensures
        warning@ == skip_warning(path@, err@),
{
    let ls = split_lines(chars_of(err).as_slice());
    let mut warning = String::new();
    warning.push_str("warning: skipping ");
    warning.push_str(path);
    warning.push_str(" (unparsable by syn): ");
    assert(rows(ls@).len() == ls@.len());
    if ls.len() > 0 {
        warning.push_str(text_of(ls[0].as_slice()).as_str());
    } else {
        warning.push_str("parse error");
    }
    warning
}

/// `n` followed by `unit`.
fn push_count(out: &mut String, n: usize, unit: &str)
    ensures
        final(out)@ == old(out)@ + decimal(n as nat) + unit@,
{
    push_decimal(out, n);
    out.push_str(unit);
}

// ---------------------------------------------------------------------------
// Check
// ---------------------------------------------------------------------------

/// A diagnostic as a line of output.
pub open spec fn rendered(d: DiagnosticView, format: OutputFormat) -> Seq<char> {
    match format {
        OutputFormat::Human => d.human(),
        OutputFormat::Json => d.json(),
    }
}

/// [`rendered`] of every diagnostic.
pub open spec fn all_rendered(diags: Seq<DiagnosticView>, format: OutputFormat) -> Seq<Seq<char>> {
    Seq::new(diags.len(), |i: int| rendered(diags[i], format))
}

/// The diagnostics as lines of output.
pub fn render_all(diags: &Vec<Diagnostic>, format: OutputFormat) -> (out: Vec<String>)
    ensures
        texts(out@) == all_rendered(diagnostic_views(diags@), format),
{
    let mut out: Vec<String> = Vec::new();
    let count: usize = diags.len();
    for i in 0..count
        invariant
            count == diags.len(),
            texts(out@) == all_rendered(diagnostic_views(diags@), format).take(i as int),
    {
        let ghost before = texts(out@);
        let line = match format {
            OutputFormat::Human => diags[i].render_human(),
            OutputFormat::Json => diags[i].render_json(),
        };
        out.push(line);
        assert(texts(out@) == before.push(line@));
    }
    assert(texts(out@) == all_rendered(diagnostic_views(diags@), format));
    out
}

/// What a check says of one file.
pub enum FileCheck {
    /// The file does not parse: a warning.
    Skipped(String),
    /// A line for each finding.
    Findings(Vec<String>),
}

/// A check of several files: how its findings are written, and what was counted so
/// far. A count stops at the largest `usize`.
pub struct CheckRun {
    pub format: OutputFormat,
    pub findings: usize,
    pub skipped: usize,
}

impl CheckRun {
    /// A check of no file yet.
    pub fn new(format: OutputFormat) -> (run: Self)
        ensures
            run == (CheckRun { format, findings: 0, skipped: 0 }),
    {
        CheckRun { format, findings: 0, skipped: 0 }
    }

    /// The run after a file that was skipped.
    pub open spec fn and_skipped(self) -> Self {
        CheckRun { skipped: saturated(self.skipped + 1) as usize, ..self }
    }

    /// The run after a file with `n` findings.
    pub open spec fn and_found(self, n: nat) -> Self {
        CheckRun { findings: saturated((self.findings + n) as int) as usize, ..self }
    }

    /// Checks the file at `path` with the text `src`. The file is parsed once, and one
    /// that does not parse is skipped. Nothing is said where the file is too long, or where
    /// sqruff cannot take some SQL.
    pub fn check(&mut self, path: &str, src: &str, engine: &SqruffEngine) -> (r: Option<FileCheck>)
        ensures
            !source_fits(src@) ==> r is None && *final(self) == *old(self),
            source_fits(src@) ==> match extracted(src@) {
                Err(m) => {
                    &&& r matches Some(FileCheck::Skipped(warning)) && warning@ == skip_warning(
                        path@,
                        m,
                    )
                    &&& *final(self) == old(self).and_skipped()
                },
                Ok(queries) => if can_check(engine.dialect(), queries) {
                    r matches Some(FileCheck::Findings(out)) && exists|diags: Seq<DiagnosticView>|
                        {
                            &&& #[trigger] check_may_report(engine.config(), path@, queries, diags)
                            &&& texts(out@) == all_rendered(diags, old(self).format)
                            &&& *final(self) == old(self).and_found(diags.len())
                        }
                } else {
                    r is None && *final(self) == *old(self)
                },
            },
            final(self).format == old(self).format,
            final(self).findings >= old(self).findings,
            match r {
                None => *final(self) == *old(self),
                Some(FileCheck::Skipped(_)) => {
                    &&& final(self).findings == old(self).findings
                    &&& is_sum(final(self).skipped, old(self).skipped as int, 1)
                },
                Some(FileCheck::Findings(out)) => {
                    &&& final(self).skipped == old(self).skipped
                    &&& is_sum(final(self).findings, old(self).findings as int, out@.len() as int)
                },
            },
    {
        if !fits(src) {
            return None;
        }
        let queries = match extract_checked(src) {
            Ok(queries) => queries,
            Err(e) => {
                self.skipped = self.skipped.saturating_add(1);
                return Some(FileCheck::Skipped(warn_skip(path, e.as_str())));
            },
        };
        if !ready_to_check(&queries, engine.dialect_kind()) {
            return None;
        }
        let diags = check_extracted(path, &queries, engine);
        let ghost views = diagnostic_views(diags@);
        let out = render_all(&diags, self.format);
        assert(texts(out@).len() == views.len());
        self.findings = self.findings.saturating_add(diags.len());
        assert(check_may_report(engine.config(), path@, query_views(queries@), views));
        assert(*self == old(self).and_found(views.len()));
        Some(FileCheck::Findings(out))
    }

    /// What [`CheckRun::summary`] gives.
    pub open spec fn summed_up(self) -> Seq<char> {
        decimal(self.findings as nat) + " finding(s); "@ + decimal(self.skipped as nat)
            + " file(s) skipped (unparsable Rust)."@
    }

    /// The last line of the run.
    pub fn summary(&self) -> (line: String)
        ensures
            line@ == self.summed_up(),
    {
        let mut line = String::new();
        push_count(&mut line, self.findings, " finding(s); ");
        push_count(&mut line, self.skipped, " file(s) skipped (unparsable Rust).");
        assert(line@ =~= self.summed_up());
        line
    }

    /// The run fails.
    pub open spec fn is_failure(self) -> bool {
        self.findings > 0
    }

    /// Whether the run fails: on any finding.
    pub fn fails(&self) -> (b: bool)
        ensures
            b == self.is_failure(),
            b == (self.findings > 0),
    {
        self.findings > 0
    }
}

// ---------------------------------------------------------------------------
// Fix
// ---------------------------------------------------------------------------

/// What a fix says of one file.
pub enum FileFix {
    /// The file does not parse: a warning.
    Skipped(String),
    /// The fixed file would not parse: a warning.
    Discarded(String),
    /// Nothing to change.
    Unchanged,
    /// The fixed file, and what to say once it is written (or would be).
    Changed { new_src: String, message: String },
}

/// The value of a [`FileFix`].
pub enum FileFixView {
    Skipped(Seq<char>),
    Discarded(Seq<char>),
    Unchanged,
    Changed { new_src: Seq<char>, message: Seq<char> },
}

impl View for FileFix {
    type V = FileFixView;

    open spec fn view(&self) -> FileFixView {
        match *self {
            FileFix::Skipped(warning) => FileFixView::Skipped(warning@),
            FileFix::Discarded(warning) => FileFixView::Discarded(warning@),
            FileFix::Unchanged => FileFixView::Unchanged,
            FileFix::Changed { new_src, message } => FileFixView::Changed {
                new_src: new_src@,
                message: message@,
            },
        }
    }
}

/// What is said of a file of which `n` queries change.
pub open spec fn change_message(path: Seq<char>, n: nat, check_only: bool) -> Seq<char> {
    (if check_only {
        "would fix "@
    } else {
        "fixed "@
    }) + decimal(n) + " query(ies) in "@ + path
}

/// What is said of a file whose fix ended in `r`.
pub open spec fn file_fix_of(
    path: Seq<char>,
    r: Result<FixView, Seq<char>>,
    check_only: bool,
) -> FileFixView {
    match r {
        Err(m) => FileFixView::Discarded("warning: "@ + m),
        Ok(outcome) => match outcome.new_src {
            None => FileFixView::Unchanged,
            Some(new_src) => FileFixView::Changed {
                new_src,
                message: change_message(path, outcome.queries_changed as nat, check_only),
            },
        },
    }
}

/// What is said of a file whose fix ended in `r`.
pub fn describe_fix(path: &str, r: Result<FixOutcome, String>, check_only: bool) -> (out: FileFix)
    ensures
        out@ == file_fix_of(path@, fix_view(r), check_only),
{
    match r {
        Err(m) => {
            let mut warning = String::new();
            warning.push_str("warning: ");
            warning.push_str(m.as_str());
            assert(warning@ =~= "warning: "@ + m@);
            FileFix::Discarded(warning)
        },
        Ok(outcome) => match outcome.new_src {
            None => FileFix::Unchanged,
            Some(new_src) => {
                let mut message = String::new();
                if check_only {
                    message.push_str("would fix ");
                } else {
                    message.push_str("fixed ");
                }
                push_count(&mut message, outcome.queries_changed, " query(ies) in ");
                message.push_str(path);
                assert(message@ =~= change_message(
                    path@,
                    outcome.queries_changed as nat,
                    check_only,
                ));
                FileFix::Changed { new_src, message }
            },
        },
    }
}

/// A fix of several files: what it may do, and what was counted so far. A count stops
/// at the largest `usize`.
pub struct FixRun {
    /// Nothing is written; the run fails if something would be.
    pub check_only: bool,
    /// Only raw strings over several lines are fixed.
    pub only_multiline_raw: bool,
    pub changed_files: usize,
    pub changed_queries: usize,
    pub skipped: usize,
}

impl FixRun {
    /// A fix of no file yet.
    pub fn new(check_only: bool, only_multiline_raw: bool) -> (run: Self)
        ensures
            run == (FixRun {
                check_only,
                only_multiline_raw,
                changed_files: 0,
                changed_queries: 0,
                skipped: 0,
            }),
    {
        FixRun { check_only, only_multiline_raw, changed_files: 0, changed_queries: 0, skipped: 0 }
    }

    /// The run after a file that was skipped.
    pub open spec fn and_skipped(self) -> Self {
        FixRun { skipped: saturated(self.skipped + 1) as usize, ..self }
    }

    /// The run after a file whose fix ended in `r`.
    pub open spec fn and_fixed(self, r: Result<FixView, Seq<char>>) -> Self {
        match r {
            Ok(outcome) => if outcome.new_src is Some {
                FixRun {
                    changed_files: saturated(self.changed_files + 1) as usize,
                    changed_queries: saturated(
                        self.changed_queries + outcome.queries_changed,
                    ) as usize,
                    ..self
                }
            } else {
                self
            },
            Err(_) => self,
        }
    }

    /// Fixes the file at `path` with the text `src`. The file is parsed once, and one
    /// that does not parse is skipped. Nothing is said where the file is too long, or where
    /// sqruff cannot take some SQL.
    pub fn fix(&mut self, path: &str, src: &str, engine: &SqruffEngine) -> (r: Option<FileFix>)
        ensures
            !source_fits(src@) ==> r is None && *final(self) == *old(self),
            source_fits(src@) ==> match extracted(src@) {
                Err(m) => {
                    &&& r matches Some(out) && out@ == FileFixView::Skipped(skip_warning(path@, m))
                    &&& *final(self) == old(self).and_skipped()
                },
                Ok(queries) => if can_fix(
                    engine.dialect(),
                    queries,
                    old(self).only_multiline_raw,
                ) {
                    r matches Some(out) && exists|end: Result<FixView, Seq<char>>|
                        {
                            &&& #[trigger] fix_may_end_in(
                                engine.config(),
                                path@,
                                src@,
                                queries,
                                old(self).only_multiline_raw,
                                end,
                            )
                            &&& out@ == file_fix_of(path@, end, old(self).check_only)
                            &&& *final(self) == old(self).and_fixed(end)
                        }
                } else {
                    r is None && *final(self) == *old(self)
                },
            },
            final(self).check_only == old(self).check_only,
            final(self).only_multiline_raw == old(self).only_multiline_raw,
            final(self).changed_queries >= old(self).changed_queries,
            match r {
                Some(FileFix::Skipped(_)) => {
                    &&& final(self).changed_files == old(self).changed_files
                    &&& final(self).changed_queries == old(self).changed_queries
                    &&& is_sum(final(self).skipped, old(self).skipped as int, 1)
                },
                Some(FileFix::Changed { .. }) => {
                    &&& final(self).skipped == old(self).skipped
                    &&& is_sum(final(self).changed_files, old(self).changed_files as int, 1)
                },
                _ => *final(self) == *old(self),
            },
    {
        if !fits(src) {
            return None;
        }
        let queries = match extract_checked(src) {
            Ok(queries) => queries,
            Err(e) => {
                self.skipped = self.skipped.saturating_add(1);
                return Some(FileFix::Skipped(warn_skip(path, e.as_str())));
            },
        };
        if !ready_to_fix(&queries, self.only_multiline_raw, engine.dialect_kind()) {
            return None;
        }
        let r = fix_extracted(path, src, &queries, engine, self.only_multiline_raw);
        let ghost end = fix_view(r);
        if let Ok(outcome) = &r {
            if outcome.new_src.is_some() {
                self.changed_files = self.changed_files.saturating_add(1);
                self.changed_queries = self.changed_queries.saturating_add(outcome.queries_changed);
            }
        }
        assert(*self == old(self).and_fixed(end));
        Some(describe_fix(path, r, self.check_only))
    }

    /// What [`FixRun::summary`] gives.
    pub open spec fn summed_up(self) -> Seq<char> {
        decimal(self.changed_queries as nat) + " query(ies) in "@ + decimal(
            self.changed_files as nat,
        ) + " file(s); "@ + decimal(self.skipped as nat) + " file(s) skipped (unparsable Rust)."@
    }

    /// The last line of the run.
    pub fn summary(&self) -> (line: String)
        ensures
            line@ == self.summed_up(),
    {
        let mut line = String::new();
        push_count(&mut line, self.changed_queries, " query(ies) in ");
        push_count(&mut line, self.changed_files, " file(s); ");
        push_count(&mut line, self.skipped, " file(s) skipped (unparsable Rust).");
        assert(line@ =~= self.summed_up());
        line
    }

    /// The run fails.
    pub open spec fn is_failure(self) -> bool {
        self.check_only && self.changed_files > 0
    }

    /// Whether the run fails: where nothing was to be written, and something would have
    /// been.
    pub fn fails(&self) -> (b: bool)
        ensures
            b == self.is_failure(),
            b == (self.check_only && self.changed_files > 0),
    {
        self.check_only && self.changed_files > 0
    }
}

// ---------------------------------------------------------------------------
// List and dump
// ---------------------------------------------------------------------------

/// A place in a file.
pub open spec fn place(path: Seq<char>, line: int) -> Seq<char> {
    path + ":"@ + decimal(line as nat)
}

/// A place for every query.
pub open spec fn places(path: Seq<char>, queries: Seq<QueryView>) -> Seq<Seq<char>> {
    Seq::new(queries.len(), |i: int| place(path, queries[i].line))
}

/// Appends a place in a file.
fn push_place(out: &mut String, path: &str, line: usize)
    ensures
        final(out)@ == old(out)@ + place(path@, line as int),
{
    let ghost before = out@;
    out.push_str(path);
    out.push_str(":");
    push_decimal(out, line);
    assert(out@ =~= before + place(path@, line as int));
}

/// What a listing says of one file.
pub enum FileList {
    /// The file does not parse: a warning.
    Skipped(String),
    /// An entry for each query.
    Entries(Vec<String>),
}

/// The value of a [`FileList`].
pub enum FileListView {
    Skipped(Seq<char>),
    Entries(Seq<Seq<char>>),
}

impl View for FileList {
    type V = FileListView;

    open spec fn view(&self) -> FileListView {
        match *self {
            FileList::Skipped(warning) => FileListView::Skipped(warning@),
            FileList::Entries(entries) => FileListView::Entries(texts(entries@)),
        }
    }
}

/// Debug: where each extracted query is. A file that does not parse is skipped with a
/// warning.
pub fn list_source(path: &str, src: &str) -> (out: FileList)
    requires
        source_fits(src@),
    ensures
        out@ == match extracted(src@) {
            Ok(queries) => FileListView::Entries(places(path@, queries)),
            Err(m) => FileListView::Skipped(skip_warning(path@, m)),
        },
{
    let queries = match extract_checked(src) {
        Ok(queries) => queries,
        Err(e) => return FileList::Skipped(warn_skip(path, e.as_str())),
    };
    let mut out: Vec<String> = Vec::new();
    let count: usize = queries.len();
    for i in 0..count
        invariant
            count == queries.len(),
            texts(out@) == places(path@, query_views(queries@)).take(i as int),
    {
        let ghost before = texts(out@);
        let mut line = String::new();
        push_place(&mut line, path, queries[i].line);
        assert(line@ =~= place(path@, queries[i as int].line as int));
        out.push(line);
        assert(texts(out@) == before.push(line@));
    }
    assert(texts(out@) == places(path@, query_views(queries@)));
    FileList::Entries(out)
}

/// A query's SQL under a line that says where it is.
pub open spec fn dump_entry(path: Seq<char>, entry: (int, Seq<char>)) -> Seq<char> {
    "----- "@ + place(path, entry.0) + " -----\n"@ + entry.1
}

/// [`dump_entry`] of every query.
pub open spec fn dump_entries(path: Seq<char>, dump: Seq<(int, Seq<char>)>) -> Seq<Seq<char>> {
    Seq::new(dump.len(), |i: int| dump_entry(path, dump[i]))
}

/// Debug: each query's dedented SQL as the linter sees it. A file that does not parse is
/// skipped with a warning.
pub fn dump_source(path: &str, src: &str) -> (out: FileList)
    requires
        source_fits(src@),
    ensures
        out@ == match extracted(src@) {
            Ok(queries) => FileListView::Entries(dump_entries(path@, dumped(queries))),
            Err(m) => FileListView::Skipped(skip_warning(path@, m)),
        },
{
    let queries = match extract_checked(src) {
        Ok(queries) => queries,
        Err(e) => return FileList::Skipped(warn_skip(path, e.as_str())),
    };
    let dump = dump_queries(&queries);
    let mut out: Vec<String> = Vec::new();
    let count: usize = dump.len();
    for i in 0..count
        invariant
            count == dump.len(),
            texts(out@) == dump_entries(path@, dump_views(dump@)).take(i as int),
    {
        let ghost before = texts(out@);
        let mut entry = String::new();
        entry.push_str("----- ");
        push_place(&mut entry, path, dump[i].0);
        entry.push_str(" -----\n");
        entry.push_str(dump[i].1.as_str());
        assert(entry@ =~= dump_entry(path@, dump_views(dump@)[i as int]));
        out.push(entry);
        assert(texts(out@) == before.push(entry@));
    }
    assert(texts(out@) == dump_entries(path@, dump_views(dump@)));
    FileList::Entries(out)
}

} // verus!
