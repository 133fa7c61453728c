//! Per-file orchestration: check (lint to diagnostics) and fix (fix and write back).
use crate::diagnostic::{diagnostic_views, Diagnostic, DiagnosticView};
use crate::extract::{
    apart, are_apart, are_placed, extract, extracted_or_none, is_part_of, query_views, QueryLiteral,
    QueryView,
};
use crate::grammar::{is_taken, takes};
use crate::literal::{
    block_indent, common_indent, count_feeds, dedent, dedented, framing, hashes, leading_frame,
    parsed_literal, raw_literal, reindent, reindented, source_feeds, trailing_frame, LiteralKind,
    ParsedLiteral,
};
use crate::sqruff_adapter::{
    finding_views, fix_may_give, lint_may_find, lowered, Finding, FindingView,
    LinterConfig, SqruffEngine,
};
use crate::syntax::{fits, parsed_source, read_macros, source_fits};
use crate::text::{
    blank, byte_len, char_at_byte, char_index, chars_of, is_blank, lemma_byte_len_prefix,
    lemma_run_len, lemma_starts_at, lines, newline, newline_run, push_all, run_len, same_chars,
    starts_at, subvec, text_of, trim_end, trim_start, trimmed_len, white, white_run,
};
use sqruff_lib_core::dialects::init::DialectKind;
use vstd::prelude::*;
use vstd::slice::slice_subrange;

verus! {

// ---------------------------------------------------------------------------
// What is linted
// ---------------------------------------------------------------------------

/// Being a `SET` statement, in upper or lower case.
pub open spec fn is_set_statement(sql: Seq<char>) -> bool {
    let t = trim_start(sql);
    t.len() >= 4 && lowered(t.take(4)) == "set "@
}

/// The SQL of a literal's content as the linter gets it: nothing where there is no
/// SQL, or only a `SET` statement.
pub open spec fn lintable_sql(content: Seq<char>) -> Option<Seq<char>> {
    let sql = dedented(content);
    if is_blank(sql) || is_set_statement(sql) {
        None
    } else {
        Some(sql)
    }
}

/// The SQL of a query as the linter gets it.
pub open spec fn sql_of(q: QueryView) -> Option<Seq<char>> {
    match parsed_literal(q.text) {
        Some((_, content)) => lintable_sql(content),
        None => None,
    }
}

/// `SET custom.guc = …` config statements are not queries.
pub fn is_skippable(sql: &str) -> (b: bool)
    ensures
        b == is_set_statement(sql@),
{
    let chars = chars_of(sql);
    let k: usize = white_run(chars.as_slice());
    proof {
        lemma_run_len(chars@, white());
        reveal_strlit("set ");
    }
    let t = slice_subrange(chars.as_slice(), k, chars.len());
    assert(t@ == trim_start(sql@));
    if t.len() < 4 {
        return false;
    }
    let b = (t[0] == 's' || t[0] == 'S') && (t[1] == 'e' || t[1] == 'E') && (t[2] == 't' || t[2]
        == 'T') && t[3] == ' ';
    proof {
        let low = lowered(t@.take(4));
        assert(low.len() == 4);
        if b {
            assert(low =~= "set "@);
        } else if low == "set "@ {
            assert(low[0] == 's' && low[1] == 'e' && low[2] == 't' && low[3] == ' ');
            assert(false);
        }
    }
    b
}

/// Debug: each query's `(line, dedented_sql)` as the linter sees it.
pub fn dump_file(src: &str) -> (out: Vec<(usize, String)>)
    requires
        source_fits(src@),
    ensures
        dump_views(out@) == dumped(extracted_or_none(src@)),
{
    let queries = extract(src);
    dump_queries(&queries)
}

/// Each of `queries`, `(line, dedented_sql)`.
pub fn dump_queries(queries: &Vec<QueryLiteral>) -> (out: Vec<(usize, String)>)
    ensures
        dump_views(out@) == dumped(query_views(queries@)),
{
    let mut out: Vec<(usize, String)> = Vec::new();
    let count: usize = queries.len();
    assert(query_views(queries@).take(0) == Seq::<QueryView>::empty());
    assert(dump_views(out@) == Seq::<(int, Seq<char>)>::empty());
    for i in 0..count
        invariant
            count == queries.len(),
            dump_views(out@) == dumped(query_views(queries@).take(i as int)),
    {
        let ghost upto = query_views(queries@).take(i + 1);
        let ghost before = dump_views(out@);
        proof {
            assert(upto.drop_last() == query_views(queries@).take(i as int));
            assert(upto.last() == queries[i as int]@);
        }
        if let Some(lit) = ParsedLiteral::parse(queries[i].text.as_str()) {
            let sql = dedent(lit.content.as_str());
            let entry = (queries[i].line, sql);
            out.push(entry);
            assert(dump_views(out@) == before.push((entry.0 as int, entry.1@)));
        }
    }
    assert(query_views(queries@).take(count as int) == query_views(queries@));
    out
}

/// The values of a dump.
pub open spec fn dump_views(dump: Seq<(usize, String)>) -> Seq<(int, Seq<char>)> {
    Seq::new(dump.len(), |i: int| (dump[i].0 as int, dump[i].1@))
}

/// What [`dump_file`] gives for the given queries.
pub open spec fn dumped(queries: Seq<QueryView>) -> Seq<(int, Seq<char>)>
    decreases queries.len(),
{
    if queries.len() == 0 {
        Seq::empty()
    } else {
        let before = dumped(queries.drop_last());
        match parsed_literal(queries.last().text) {
            Some((_, content)) => before.push((queries.last().line, dedented(content))),
            None => before,
        }
    }
}

// ---------------------------------------------------------------------------
// Check
// ---------------------------------------------------------------------------

/// `n`, or the largest `usize` where it is larger still.
pub open spec fn saturated(n: int) -> int {
    if n <= usize::MAX {
        n
    } else {
        usize::MAX as int
    }
}

/// Where the finding `f` in the SQL of the query lies in the Rust file. The SQL's first
/// line is the content's first line that is not empty; each line feed of the content
/// that is one of the source leads to the next line. The SQL's first column is the one
/// after the common indent.
pub open spec fn diagnostic_of(
    path: Seq<char>,
    q: QueryView,
    content: Seq<char>,
    f: FindingView,
) -> DiagnosticView {
    DiagnosticView {
        file: path,
        line: saturated((q.line + source_feeds(q.text, content_row(content, f))) as int),
        col: saturated((f.col + common_indent(lines(content)).len() + 1) as int),
        code: f.code,
        message: f.desc,
    }
}

/// How many lines of the content come before the one of the finding: those before the
/// SQL, and those of the SQL.
pub open spec fn content_row(content: Seq<char>, f: FindingView) -> nat {
    (run_len(content, newline()) + if f.line > 0 {
        f.line - 1
    } else {
        0
    }) as nat
}

/// [`diagnostic_of`] of every finding.
pub open spec fn diagnostics_of(
    path: Seq<char>,
    q: QueryView,
    content: Seq<char>,
    found: Seq<FindingView>,
) -> Seq<DiagnosticView> {
    Seq::new(found.len(), |i: int| diagnostic_of(path, q, content, found[i]))
}

/// The diagnostics of one query, where `found` is what linting it gave.
pub open spec fn query_diagnostics(
    path: Seq<char>,
    q: QueryView,
    found: Seq<FindingView>,
) -> Seq<DiagnosticView> {
    match (parsed_literal(q.text), sql_of(q)) {
        (Some((_, content)), Some(_)) => diagnostics_of(path, q, content, found),
        _ => Seq::empty(),
    }
}

/// The diagnostics of the given queries, in their order, where `found[i]` is what
/// linting the `i`-th gave.
pub open spec fn all_diagnostics(
    path: Seq<char>,
    queries: Seq<QueryView>,
    found: Seq<Seq<FindingView>>,
) -> Seq<DiagnosticView>
    decreases queries.len(),
{
    if queries.len() == 0 {
        Seq::empty()
    } else {
        all_diagnostics(path, queries.drop_last(), found.drop_last()) + query_diagnostics(
            path,
            queries.last(),
            found.last(),
        )
    }
}

/// `found[i]` may be what linting the `i`-th query gives, for every query that is
/// linted.
pub open spec fn lints_may_find(
    config: LinterConfig,
    queries: Seq<QueryView>,
    found: Seq<Seq<FindingView>>,
) -> bool {
    &&& found.len() == queries.len()
    &&& forall|i: int|
        0 <= i < queries.len() ==> (sql_of(#[trigger] queries[i]) matches Some(sql)
            ==> lint_may_find(config, sql, found[i]))
}

/// Checking the given queries may report `diags`: each query is linted, and the
/// diagnostics are those of the findings.
pub open spec fn check_may_report(
    config: LinterConfig,
    path: Seq<char>,
    queries: Seq<QueryView>,
    diags: Seq<DiagnosticView>,
) -> bool {
    exists|found: Seq<Seq<FindingView>>| #[trigger]
        lints_may_find(config, queries, found) && diags == all_diagnostics(path, queries, found)
}

/// sqruff can take all the SQL that the linter gets.
pub open spec fn can_check(dialect: DialectKind, queries: Seq<QueryView>) -> bool {
    forall|i: int|
        0 <= i < queries.len() ==> (sql_of(#[trigger] queries[i]) matches Some(sql) ==> is_taken(
            dialect,
            sql,
        ))
}

/// The literal of `q` and its SQL as the linter gets it.
fn lint_input(q: &QueryLiteral) -> (r: Option<(ParsedLiteral, String)>)
    ensures
        match sql_of(q@) {
            Some(sql) => r matches Some((lit, s)) && s@ == sql && parsed_literal(q@.text) == Some(
                lit.parts(),
            ),
            None => r is None,
        },
{
    match ParsedLiteral::parse(q.text.as_str()) {
        Some(lit) => {
            let sql = dedent(lit.content.as_str());
            if blank(chars_of(sql.as_str()).as_slice()) || is_skippable(sql.as_str()) {
                None
            } else {
                Some((lit, sql))
            }
        },
        None => None,
    }
}

/// Whether sqruff can take all the SQL of `queries` that the linter gets.
pub fn ready_to_check(queries: &Vec<QueryLiteral>, dialect: DialectKind) -> (b: bool)
    ensures
        b == can_check(dialect, query_views(queries@)),
{
    let count: usize = queries.len();
    for i in 0..count
        invariant
            count == queries.len(),
            forall|j: int|
                0 <= j < i ==> (sql_of(#[trigger] query_views(queries@)[j]) matches Some(sql)
                    ==> is_taken(dialect, sql)),
    {
        assert(query_views(queries@)[i as int] == queries[i as int]@);
        if let Some((_, sql)) = lint_input(&queries[i]) {
            if !takes(dialect, sql.as_str()) {
                return false;
            }
        }
    }
    true
}

/// The number of line feeds at the start of `content`.
pub fn leading_newlines(content: &str) -> (n: usize)
    ensures
        n == run_len(content@, newline()),
{
    let chars = chars_of(content);
    newline_run(chars.as_slice())
}

/// How many line feeds stand in the source text of `q` before its content holds `j`.
fn feeds_of(q: &QueryLiteral, lit: &ParsedLiteral, j: u128) -> (n: u128)
    requires
        parsed_literal(q@.text) == Some(lit.parts()),
    ensures
        n == source_feeds(q@.text, j as nat),
        n <= j || n <= usize::MAX,
{
    match lit.kind {
        LiteralKind::Raw { .. } => j,
        LiteralKind::Normal => {
            let chars = chars_of(q.text.as_str());
            let n: usize = count_feeds(slice_subrange(chars.as_slice(), 1, chars.len() - 1), j);
            n as u128
        },
    }
}

/// `n`, or the largest `usize` where it is larger still.
fn clamp(n: u128) -> (r: usize)
    ensures
        r == saturated(n as int),
{
    if n <= usize::MAX as u128 {
        n as usize
    } else {
        usize::MAX
    }
}

/// Maps findings in the SQL of a query to places in the Rust file. `lit` is the query's
/// literal taken apart. A place that a `usize` cannot hold is given as the largest one.
pub fn diagnostics_for(
    path: &str,
    q: &QueryLiteral,
    lit: &ParsedLiteral,
    found: Vec<Finding>,
) -> (diags: Vec<Diagnostic>)
    requires
        parsed_literal(q@.text) == Some(lit.parts()),
    ensures
        diagnostic_views(diags@) == diagnostics_of(
            path@,
            q@,
            lit.content@,
            finding_views(found@),
        ),
{
    let lead: usize = leading_newlines(lit.content.as_str());
    let indent = chars_of(block_indent(lit.content.as_str()).as_str());
    let indent_len: usize = indent.len();
    let ghost all = finding_views(found@);
    let ghost content = lit.content@;
    let mut diags: Vec<Diagnostic> = Vec::new();
    for f in it: found.into_iter()
        invariant
            it.seq() == found@,
            all == finding_views(found@),
            content == lit.content@,
            parsed_literal(q@.text) == Some(lit.parts()),
            lead == run_len(content, newline()),
            indent_len == common_indent(lines(content)).len(),
            diagnostic_views(diags@) == diagnostics_of(path@, q@, content, all).take(
                it.index() as int,
            ),
    {
        let ghost before = diagnostic_views(diags@);
        let ghost view = f@;
        // SQL line N is line N - 1 after the first that is not empty.
        let row: u128 = lead as u128 + f.line.saturating_sub(1) as u128;
        let down: u128 = feeds_of(q, lit, row);
        let d = Diagnostic {
            file: text_of(chars_of(path).as_slice()),
            line: clamp(q.line as u128 + down),
            // The common indent is missing from the SQL's columns, which count from 0.
            col: f.col.saturating_add(indent_len).saturating_add(1),
            code: f.code,
            message: f.desc,
        };
        assert(row == content_row(content, view));
        assert(d@ == diagnostic_of(path@, q@, content, view));
        diags.push(d);
        assert(diagnostic_views(diags@) == before.push(d@));
    }
    assert(diagnostic_views(diags@) == diagnostics_of(path@, q@, content, all));
    diags
}

/// Lints every inline query in `src`; maps findings to `.rs` locations.
pub fn check_file(path: &str, src: &str, engine: &SqruffEngine) -> (diags: Vec<Diagnostic>)
    requires
        source_fits(src@),
        can_check(engine.dialect(), extracted_or_none(src@)),
    ensures
        check_may_report(
            engine.config(),
            path@,
            extracted_or_none(src@),
            diagnostic_views(diags@),
        ),
{
    let queries = extract(src);
    check_extracted(path, &queries, engine)
}

/// [`check_file`] on any source: nothing where it is too long, or where sqruff cannot take
/// some SQL.
pub fn try_check_file(path: &str, src: &str, engine: &SqruffEngine) -> (r: Option<Vec<Diagnostic>>)
    ensures
        r is Some <==> source_fits(src@) && can_check(engine.dialect(), extracted_or_none(src@)),
        r matches Some(diags) ==> check_may_report(
            engine.config(),
            path@,
            extracted_or_none(src@),
            diagnostic_views(diags@),
        ),
{
    if !fits(src) {
        return None;
    }
    let queries = extract(src);
    if ready_to_check(&queries, engine.dialect_kind()) {
        Some(check_file(path, src, engine))
    } else {
        None
    }
}

/// Lints every one of `queries`; maps findings to `.rs` locations.
pub fn check_extracted(path: &str, queries: &Vec<QueryLiteral>, engine: &SqruffEngine) -> (diags:
    Vec<Diagnostic>)
    requires
        can_check(engine.dialect(), query_views(queries@)),
    ensures
        check_may_report(
            engine.config(),
            path@,
            query_views(queries@),
            diagnostic_views(diags@),
        ),
{
    let mut diags: Vec<Diagnostic> = Vec::new();
    let ghost views = query_views(queries@);
    let ghost mut found: Seq<Seq<FindingView>> = Seq::empty();
    let count: usize = queries.len();
    proof {
        assert(views.take(0) == Seq::<QueryView>::empty());
        assert(diagnostic_views(diags@) == Seq::<DiagnosticView>::empty());
    }
    for i in 0..count
        invariant
            count == queries.len(),
            views == query_views(queries@),
            can_check(engine.dialect(), views),
            lints_may_find(engine.config(), views.take(i as int), found),
            diagnostic_views(diags@) == all_diagnostics(path@, views.take(i as int), found),
    {
        let ghost upto = views.take(i + 1);
        let ghost before = diagnostic_views(diags@);
        let ghost found_before = found;
        let ghost mut found_here: Seq<FindingView> = Seq::empty();
        assert(views[i as int] == queries[i as int]@);
        let q = &queries[i];
        if let Some((lit, sql)) = lint_input(q) {
            let fs = engine.lint(sql.as_str());
            proof {
                found_here = finding_views(fs@);
            }
            let mut more = diagnostics_for(path, q, &lit, fs);
            let ghost more_views = diagnostic_views(more@);
            diags.append(&mut more);
            assert(diagnostic_views(diags@) == before + more_views);
        }
        proof {
            found = found_before.push(found_here);
            assert(upto.drop_last() == views.take(i as int));
            assert(upto.last() == queries[i as int]@);
            assert(found.drop_last() == found_before);
            assert forall|j: int| 0 <= j < upto.len() implies (sql_of(#[trigger] upto[j]) matches Some(
                sql,
            ) ==> lint_may_find(engine.config(), sql, found[j])) by {
                if j < i {
                    assert(upto[j] == views.take(i as int)[j]);
                    assert(found[j] == found_before[j]);
                }
            }
            assert(diagnostic_views(diags@) == before + query_diagnostics(
                path@,
                q@,
                found_here,
            ));
        }
    }
    assert(views.take(count as int) == views);
    diags
}

// ---------------------------------------------------------------------------
// Rebuilding a literal
// ---------------------------------------------------------------------------

/// Fixed SQL between the framing of `content`, behind its indent.
pub open spec fn framed(content: Seq<char>, fixed: Seq<char>) -> Seq<char> {
    leading_frame(content) + reindented(fixed, common_indent(lines(content))) + trailing_frame(
        content,
    )
}

/// The content of a raw literal after a fix: unchanged where the SQL is.
pub open spec fn written(content: Seq<char>, fixed: Seq<char>) -> Seq<char> {
    if fixed == dedented(content) {
        content
    } else {
        framed(content, fixed)
    }
}

/// `s` without white space at its ends, and with spaces for its line feeds.
pub open spec fn one_line(s: Seq<char>) -> Seq<char> {
    let t = trim_end(trim_start(s));
    Seq::new(
        t.len(),
        |i: int|
            if t[i] == '\n' {
                ' '
            } else {
                t[i]
            },
    )
}

/// `s` with a backslash before every backslash and quote.
pub open spec fn escaped(s: Seq<char>) -> Seq<char>
    decreases s.len(),
{
    if s.len() == 0 {
        Seq::empty()
    } else if s.last() == '\\' || s.last() == '"' {
        escaped(s.drop_last()) + seq!['\\', s.last()]
    } else {
        escaped(s.drop_last()) + seq![s.last()]
    }
}

/// The string literal that holds fixed SQL on one line.
pub open spec fn normal_literal(fixed: Seq<char>) -> Seq<char> {
    seq!['"'] + escaped(one_line(fixed)) + seq!['"']
}

/// What [`rebuild_literal`] gives.
pub open spec fn rebuilt(kind: LiteralKind, content: Seq<char>, fixed: Seq<char>) -> Seq<char> {
    match kind {
        LiteralKind::Raw { hashes } => raw_literal(hashes as nat, written(content, fixed)),
        LiteralKind::Normal => normal_literal(fixed),
    }
}

/// Reassembles a literal around fixed SQL: a raw string with its framing
/// preserved, a normal string on one line. A raw string whose SQL is not changed comes
/// back byte for byte.
pub fn rebuild_literal(lit: &ParsedLiteral, fixed: &str) -> (text: String)
    ensures
        text@ == rebuilt(lit.kind, lit.content@, fixed@),
{
    match lit.kind {
        LiteralKind::Raw { hashes } => {
            let content = written_content(lit.content.as_str(), fixed);
            let mut text = String::new();
            text.push('r');
            push_hashes(&mut text, hashes);
            text.push('"');
            text.push_str(content.as_str());
            text.push('"');
            push_hashes(&mut text, hashes);
            assert(text@ =~= raw_literal(hashes as nat, content@));
            text
        },
        LiteralKind::Normal => rebuild_normal(fixed),
    }
}

/// The content of a raw literal after a fix.
fn written_content(content: &str, fixed: &str) -> (out: String)
    ensures
        out@ == written(content@, fixed@),
{
    if same_text(fixed, dedent(content).as_str()) {
        return text_of(chars_of(content).as_slice());
    }
    let indent = block_indent(content);
    let body = reindent(fixed, indent.as_str());
    // Preserve the framing verbatim, so that the closing `"#` stays where the author put
    // it (stuck, or on its own line).
    let (leading, trailing) = framing(content);
    let mut out = String::new();
    out.push_str(leading.as_str());
    out.push_str(body.as_str());
    out.push_str(trailing.as_str());
    assert(out@ =~= framed(content@, fixed@));
    out
}

/// Whether two texts are equal.
fn same_text(a: &str, b: &str) -> (same: bool)
    ensures
        same == (a@ == b@),
{
    same_chars(chars_of(a).as_slice(), chars_of(b).as_slice())
}

/// Appends `n` times `#`.
fn push_hashes(text: &mut String, n: usize)
    ensures
        final(text)@ == old(text)@ + hashes(n as nat),
{
    let ghost before = text@;
    for i in 0..n
        invariant
            text@ == before + hashes(i as nat),
    {
        text.push('#');
        assert(hashes(i as nat).push('#') == hashes((i + 1) as nat));
    }
}

/// A single-line normal string: escaped minimally, kept on one line.
pub fn rebuild_normal(fixed: &str) -> (text: String)
    ensures
        text@ == normal_literal(fixed@),
{
    let chars = chars_of(fixed);
    let k: usize = white_run(chars.as_slice());
    proof {
        lemma_run_len(chars@, white());
    }
    let rest = slice_subrange(chars.as_slice(), k, chars.len());
    assert(rest@ == trim_start(fixed@));
    let end: usize = trimmed_len(rest);
    let body = slice_subrange(rest, 0, end);
    assert(body@ == trim_end(rest@));
    let ghost line = one_line(fixed@);
    let mut text = String::new();
    text.push('"');
    for i in 0..body.len()
        invariant
            line == one_line(fixed@),
            body@ == trim_end(trim_start(fixed@)),
            text@ == seq!['"'] + escaped(line.take(i as int)),
    {
        let ghost before = text@;
        let c = if body[i] == '\n' {
            ' '
        } else {
            body[i]
        };
        assert(line.take(i + 1).drop_last() == line.take(i as int));
        assert(line.take(i + 1).last() == c);
        if c == '\\' || c == '"' {
            text.push('\\');
        }
        text.push(c);
        assert(text@ == seq!['"'] + escaped(line.take(i + 1)));
    }
    assert(line.take(line.len() as int) == line);
    text.push('"');
    text
}

// ---------------------------------------------------------------------------
// Fix
// ---------------------------------------------------------------------------

/// What a fix made of a file. `new_src` is `None` if nothing changed.
pub struct FixOutcome {
    pub new_src: Option<String>,
    pub queries_changed: usize,
}

/// The value of a [`FixOutcome`].
pub struct FixView {
    pub new_src: Option<Seq<char>>,
    pub queries_changed: int,
}

/// The value of what [`fix_file`] returns.
pub open spec fn fix_view(r: Result<FixOutcome, String>) -> Result<FixView, Seq<char>> {
    match r {
        Ok(outcome) => Ok(
            FixView {
                new_src: match outcome.new_src {
                    Some(s) => Some(s@),
                    None => None,
                },
                queries_changed: outcome.queries_changed as int,
            },
        ),
        Err(m) => Err(m@),
    }
}

/// A new text for the bytes from `start` up to `end`.
pub struct Edit {
    pub start: usize,
    pub end: usize,
    pub text: String,
}

/// The value of an [`Edit`].
pub struct EditView {
    pub start: int,
    pub end: int,
    pub text: Seq<char>,
}

impl View for Edit {
    type V = EditView;

    open spec fn view(&self) -> EditView {
        EditView { start: self.start as int, end: self.end as int, text: self.text@ }
    }
}

/// The values of the edits in `edits`.
pub open spec fn edit_views(edits: Seq<Edit>) -> Seq<EditView> {
    Seq::new(edits.len(), |i: int| edits[i]@)
}

/// The SQL of a query as the fixer gets it: nothing where only raw strings over
/// several lines are to be fixed, and the query is none.
pub open spec fn fix_input_of(q: QueryView, only_multiline_raw: bool) -> Option<Seq<char>> {
    match parsed_literal(q.text) {
        Some((kind, content)) => if only_multiline_raw && !(kind is Raw && content.contains('\n')) {
            None
        } else {
            lintable_sql(content)
        },
        None => None,
    }
}

/// The edit that puts the fixed SQL of a query in place: nothing where the SQL or the
/// literal stays as it is.
pub open spec fn edit_of(q: QueryView, only_multiline_raw: bool, fixed: Seq<char>) -> Option<
    EditView,
> {
    match (parsed_literal(q.text), fix_input_of(q, only_multiline_raw)) {
        (Some((kind, content)), Some(_)) => {
            let text = rebuilt(kind, content, fixed);
            if fixed != dedented(content) && text != q.text {
                Some(EditView { start: q.start_byte, end: q.end_byte, text })
            } else {
                None
            }
        },
        _ => None,
    }
}

/// The edits for the given queries, in their order, where `fixed[i]` is the fixed
/// SQL of the `i`-th.
pub open spec fn edits_of(
    queries: Seq<QueryView>,
    only_multiline_raw: bool,
    fixed: Seq<Seq<char>>,
) -> Seq<EditView>
    decreases queries.len(),
{
    if queries.len() == 0 {
        Seq::empty()
    } else {
        let before = edits_of(queries.drop_last(), only_multiline_raw, fixed.drop_last());
        match edit_of(queries.last(), only_multiline_raw, fixed.last()) {
            Some(e) => before.push(e),
            None => before,
        }
    }
}

/// `fixed` may be what fixing the query gives, if it is fixed.
pub open spec fn query_fix_may_give(
    config: LinterConfig,
    q: QueryView,
    only_multiline_raw: bool,
    fixed: Seq<char>,
) -> bool {
    fix_input_of(q, only_multiline_raw) matches Some(sql) ==> exists|residual: Seq<FindingView>|
        fix_may_give(config, sql, fixed, residual)
}

/// `fixed[i]` may be what fixing the `i`-th query gives, for every query that is
/// fixed.
pub open spec fn fixes_may_give(
    config: LinterConfig,
    queries: Seq<QueryView>,
    only_multiline_raw: bool,
    fixed: Seq<Seq<char>>,
) -> bool {
    &&& fixed.len() == queries.len()
    &&& forall|i: int|
        0 <= i < queries.len() ==> #[trigger] query_fix_may_give(
            config,
            queries[i],
            only_multiline_raw,
            fixed[i],
        )
}

/// The index of the edit that starts last.
pub open spec fn rightmost(edits: Seq<EditView>) -> int
    decreases edits.len(),
{
    if edits.len() <= 1 {
        0
    } else {
        let r = rightmost(edits.drop_last());
        if edits.last().start > edits[r].start {
            edits.len() - 1
        } else {
            r
        }
    }
}

/// `src` with the edits in place: what comes before the last of them with the
/// others in place, its text, and what comes after it.
pub open spec fn spliced(src: Seq<char>, edits: Seq<EditView>) -> Seq<char>
    decreases edits.len(),
{
    let k = rightmost(edits);
    if edits.len() == 0 || !(0 <= k < edits.len()) {
        src
    } else {
        let e = edits[k];
        let a = char_at_byte(src, e.start).unwrap();
        let b = char_at_byte(src, e.end).unwrap();
        spliced(src.take(a), edits.remove(k)) + e.text + src.skip(b)
    }
}

/// The message for a fix that is not written.
pub open spec fn unparsable_fix(path: Seq<char>) -> Seq<char> {
    "fix produced unparsable Rust in "@ + path + "; discarded"@
}

/// The text is not too long to be read, and is Rust.
pub open spec fn parses(src: Seq<char>) -> bool {
    source_fits(src) && parsed_source(src) is Ok
}

/// What comes of the given edits: nothing new without any, and never a text that
/// does not parse.
pub open spec fn applied(path: Seq<char>, src: Seq<char>, edits: Seq<EditView>) -> Result<
    FixView,
    Seq<char>,
> {
    if edits.len() == 0 {
        Ok(FixView { new_src: None, queries_changed: 0 })
    } else if !parses(spliced(src, edits)) {
        Err(unparsable_fix(path))
    } else {
        Ok(
            FixView {
                new_src: Some(spliced(src, edits)),
                queries_changed: edits.len() as int,
            },
        )
    }
}

/// Fixing the given queries of `src` may end in `r`: each query is fixed, and the
/// literals that change are put in place.
pub open spec fn fix_may_end_in(
    config: LinterConfig,
    path: Seq<char>,
    src: Seq<char>,
    queries: Seq<QueryView>,
    only_multiline_raw: bool,
    r: Result<FixView, Seq<char>>,
) -> bool {
    exists|fixed: Seq<Seq<char>>| #[trigger]
        fixes_may_give(config, queries, only_multiline_raw, fixed) && r == applied(
            path,
            src,
            edits_of(queries, only_multiline_raw, fixed),
        )
}

/// sqruff can take all the SQL that the fixer gets.
pub open spec fn can_fix(
    dialect: DialectKind,
    queries: Seq<QueryView>,
    only_multiline_raw: bool,
) -> bool {
    forall|i: int|
        0 <= i < queries.len() ==> (fix_input_of(
            #[trigger] queries[i],
            only_multiline_raw,
        ) matches Some(sql) ==> is_taken(dialect, sql))
}

/// The edit is for a part of `src` that is not empty.
pub open spec fn edit_fits(src: Seq<char>, e: EditView) -> bool {
    &&& e.start < e.end
    &&& char_at_byte(src, e.start) is Some
    &&& char_at_byte(src, e.end) is Some
}

/// The two edits share no byte.
pub open spec fn clear_of(e: EditView, f: EditView) -> bool {
    e.end <= f.start || f.end <= e.start
}

/// The edits are for different parts of `src`, none of them empty.
pub open spec fn edits_fit(src: Seq<char>, edits: Seq<EditView>) -> bool {
    &&& forall|i: int| 0 <= i < edits.len() ==> edit_fits(src, #[trigger] edits[i])
    &&& forall|i: int, j: int|
        0 <= i < j < edits.len() ==> #[trigger] clear_of(edits[i], edits[j])
}

/// No edit starts after the one that [`rightmost`] picks.
pub proof fn lemma_rightmost(edits: Seq<EditView>)
    requires
        edits.len() > 0,
    ensures
        0 <= rightmost(edits) < edits.len(),
        forall|i: int|
            0 <= i < edits.len() ==> (#[trigger] edits[i]).start <= edits[rightmost(edits)].start,
    decreases edits.len(),
{
    if edits.len() > 1 {
        let init = edits.drop_last();
        lemma_rightmost(init);
        assert forall|i: int| 0 <= i < edits.len() implies (#[trigger] edits[i]).start
            <= edits[rightmost(edits)].start by {
            if i < init.len() {
                assert(edits[i] == init[i]);
            }
        }
    }
}

/// A prefix has the same characters at the same bytes.
pub proof fn lemma_prefix_bytes(s: Seq<char>, a: int, n: int)
    requires
        0 <= a <= s.len(),
        char_at_byte(s, n) is Some,
        n <= byte_len(s.take(a)),
    ensures
        char_at_byte(s.take(a), n) == char_at_byte(s, n),
        char_at_byte(s, n).unwrap() <= a,
{
    let c = char_at_byte(s, n).unwrap();
    assert(starts_at(s, c, n));
    if a < c {
        lemma_byte_len_prefix(s, a, c);
    }
    assert(s.take(a).take(c) == s.take(c));
    lemma_starts_at(s.take(a), c, n);
}

/// The edits before the rightmost one fit what comes before it.
pub proof fn lemma_rest_fits(src: Seq<char>, edits: Seq<EditView>)
    requires
        edits_fit(src, edits),
        edits.len() > 0,
    ensures
        ({
            let k = rightmost(edits);
            let a = char_at_byte(src, edits[k].start);
            let b = char_at_byte(src, edits[k].end);
            &&& 0 <= k < edits.len()
            &&& a is Some
            &&& b is Some
            &&& 0 <= a.unwrap() <= b.unwrap() <= src.len()
            &&& edits_fit(src.take(a.unwrap()), edits.remove(k))
        }),
{
    lemma_rightmost(edits);
    let k = rightmost(edits);
    let e = edits[k];
    let a = char_at_byte(src, e.start).unwrap();
    let b = char_at_byte(src, e.end).unwrap();
    assert(starts_at(src, a, e.start));
    assert(starts_at(src, b, e.end));
    if b < a {
        lemma_byte_len_prefix(src, b, a);
    }
    let rest = edits.remove(k);
    let head = src.take(a);
    assert forall|i: int| 0 <= i < rest.len() implies edit_fits(head, #[trigger] rest[i]) by {
        let j = if i < k {
            i
        } else {
            i + 1
        };
        assert(rest[i] == edits[j]);
        let f = edits[j];
        assert(edit_fits(src, f));
        assert(f.start <= e.start);
        if j < k {
            assert(clear_of(edits[j], edits[k]));
        } else {
            assert(clear_of(edits[k], edits[j]));
        }
        lemma_prefix_bytes(src, a, f.start);
        lemma_prefix_bytes(src, a, f.end);
    }
    assert forall|i: int, j: int| 0 <= i < j < rest.len() implies #[trigger] clear_of(
        rest[i],
        rest[j],
    ) by {
        let i2 = if i < k {
            i
        } else {
            i + 1
        };
        let j2 = if j < k {
            j
        } else {
            j + 1
        };
        assert(clear_of(edits[i2], edits[j2]));
    }
}

/// The index of the edit that starts last.
fn last_edit(edits: &Vec<Edit>) -> (k: usize)
    requires
        edits@.len() > 0,
    ensures
        k == rightmost(edit_views(edits@)),
        k < edits@.len(),
{
    let mut k: usize = 0;
    let count: usize = edits.len();
    for i in 1..count
        invariant
            count == edits.len(),
            i >= 1,
            k < i,
            k == rightmost(edit_views(edits@).take(i as int)),
    {
        let ghost upto = edit_views(edits@).take(i + 1);
        proof {
            assert(upto.drop_last() == edit_views(edits@).take(i as int));
            assert(upto.last() == edits[i as int]@);
            assert(upto[k as int] == edits[k as int]@);
        }
        if edits[i].start > edits[k].start {
            k = i;
        }
    }
    assert(edit_views(edits@).take(count as int) == edit_views(edits@));
    k
}

/// Takes the last edit out of `edits` and puts it in place in `head`: returns how
/// much of `head` comes before it, and what comes from there on.
fn splice_last(head: &[char], edits: &mut Vec<Edit>) -> (r: (usize, Vec<char>))
    requires
        old(edits)@.len() > 0,
        edits_fit(head@, edit_views(old(edits)@)),
    ensures
        r.0 <= head@.len(),
        final(edits)@.len() == old(edits)@.len() - 1,
        edits_fit(head@.take(r.0 as int), edit_views(final(edits)@)),
        spliced(head@, edit_views(old(edits)@)) == spliced(
            head@.take(r.0 as int),
            edit_views(final(edits)@),
        ) + r.1@,
{
    let ghost views = edit_views(edits@);
    proof {
        lemma_rest_fits(head@, views);
    }
    let k: usize = last_edit(edits);
    let e = edits.remove(k);
    assert(e@ == views[k as int]);
    assert(edit_views(edits@) =~= views.remove(k as int));
    let (a, b) = match (char_index(head, e.start), char_index(head, e.end)) {
        (Some(a), Some(b)) => (a, b),
        _ => (0, 0),
    };
    let mut text = chars_of(e.text.as_str());
    let mut gap = subvec(head, b, head.len());
    text.append(&mut gap);
    proof {
        assert(head@.subrange(b as int, head@.len() as int) == head@.skip(b as int));
        let first = spliced(head@.take(a as int), views.remove(k as int));
        assert(first + e@.text + head@.skip(b as int) =~= first + (e@.text + head@.skip(b as int)));
    }
    (a, text)
}

/// `src` with the edits in place.
pub fn splice(src: &str, edits: Vec<Edit>) -> (out: String)
    requires
        edits_fit(src@, edit_views(edits@)),
    ensures
        out@ == spliced(src@, edit_views(edits@)),
{
    let chars = chars_of(src);
    let ghost goal = spliced(src@, edit_views(edits@));
    let mut edits = edits;
    let mut upto: usize = chars.len();
    let mut tail: Vec<char> = Vec::new();
    proof {
        assert(src@.take(upto as int) == src@);
        assert(goal + tail@ == goal);
    }
    while edits.len() > 0
        invariant
            chars@ == src@,
            upto <= chars.len(),
            edits_fit(src@.take(upto as int), edit_views(edits@)),
            goal == spliced(src@.take(upto as int), edit_views(edits@)) + tail@,
        decreases edits.len(),
    {
        let head = slice_subrange(chars.as_slice(), 0, upto);
        assert(head@ == src@.take(upto as int));
        let ghost before = tail@;
        let (a, mut piece) = splice_last(head, &mut edits);
        let ghost first = spliced(head@.take(a as int), edit_views(edits@));
        let ghost middle = piece@;
        piece.append(&mut tail);
        tail = piece;
        proof {
            assert(head@.take(a as int) == src@.take(a as int));
            assert(first + middle + before =~= first + (middle + before));
        }
        upto = a;
    }
    let mut out = String::new();
    push_all(&mut out, slice_subrange(chars.as_slice(), 0, upto));
    push_all(&mut out, tail.as_slice());
    assert(chars@.subrange(0, upto as int) == src@.take(upto as int));
    out
}

/// The outcome of a fix that gave `new_src`: discarded unless it `parses`.
pub fn accept_fix(path: &str, new_src: String, changed: usize, parses: bool) -> (r: Result<
    FixOutcome,
    String,
>)
    ensures
        fix_view(r) == if parses {
            Ok::<FixView, Seq<char>>(
                FixView { new_src: Some(new_src@), queries_changed: changed as int },
            )
        } else {
            Err(unparsable_fix(path@))
        },
{
    if parses {
        Ok(FixOutcome { new_src: Some(new_src), queries_changed: changed })
    } else {
        let mut message = String::new();
        message.push_str("fix produced unparsable Rust in ");
        message.push_str(path);
        message.push_str("; discarded");
        assert(message@ == unparsable_fix(path@));
        Err(message)
    }
}

/// Puts `edits` in place, and checks that the file still parses.
pub fn apply_edits(path: &str, src: &str, edits: Vec<Edit>) -> (r: Result<FixOutcome, String>)
    requires
        edits_fit(src@, edit_views(edits@)),
    ensures
        fix_view(r) == applied(path@, src@, edit_views(edits@)),
{
    let changed: usize = edits.len();
    if changed == 0 {
        return Ok(FixOutcome { new_src: None, queries_changed: 0 });
    }
    let new_src = splice(src, edits);
    // Never emit a file that no longer parses.
    let parses = fits(new_src.as_str()) && match read_macros(new_src.as_str()) {
        Ok(_) => true,
        Err(_) => false,
    };
    accept_fix(path, new_src, changed, parses)
}

/// The literal of `q` and its SQL as the fixer gets it.
fn fix_input(q: &QueryLiteral, only_multiline_raw: bool) -> (r: Option<(ParsedLiteral, String)>)
    ensures
        match fix_input_of(q@, only_multiline_raw) {
            Some(sql) => r matches Some((lit, s)) && s@ == sql && parsed_literal(q@.text) == Some(
                lit.parts(),
            ),
            None => r is None,
        },
{
    match lint_input(q) {
        Some((lit, sql)) => {
            if only_multiline_raw && !(lit.is_raw() && lit.is_multiline()) {
                None
            } else {
                Some((lit, sql))
            }
        },
        None => None,
    }
}

/// Whether sqruff can take the SQL of all `queries` that are fixed.
pub fn ready_to_fix(
    queries: &Vec<QueryLiteral>,
    only_multiline_raw: bool,
    dialect: DialectKind,
) -> (b: bool)
    ensures
        b == can_fix(dialect, query_views(queries@), only_multiline_raw),
{
    let count: usize = queries.len();
    for i in 0..count
        invariant
            count == queries.len(),
            forall|j: int|
                0 <= j < i ==> (fix_input_of(
                    #[trigger] query_views(queries@)[j],
                    only_multiline_raw,
                ) matches Some(sql) ==> is_taken(dialect, sql)),
    {
        assert(query_views(queries@)[i as int] == queries[i as int]@);
        if let Some((_, sql)) = fix_input(&queries[i], only_multiline_raw) {
            if !takes(dialect, sql.as_str()) {
                return false;
            }
        }
    }
    true
}

/// The edit that puts the fixed SQL of `q` in place. `lit` is the literal of `q`, and
/// `sql` its SQL.
fn edit_for(q: &QueryLiteral, lit: &ParsedLiteral, sql: &str, fixed: &str) -> (e: Option<Edit>)
    requires
        parsed_literal(q@.text) == Some(lit.parts()),
        sql@ == dedented(lit.content@),
    ensures
        match e {
            Some(e) => fixed@ != sql@ && e@.text != q@.text && e@ == (EditView {
                start: q@.start_byte,
                end: q@.end_byte,
                text: rebuilt(lit.kind, lit.content@, fixed@),
            }),
            None => fixed@ == sql@ || rebuilt(lit.kind, lit.content@, fixed@) == q@.text,
        },
{
    if same_text(fixed, sql) {
        return None;
    }
    let text = rebuild_literal(lit, fixed);
    if same_text(text.as_str(), q.text.as_str()) {
        None
    } else {
        Some(Edit { start: q.start_byte, end: q.end_byte, text })
    }
}

/// One more query that is fixed, and the edit for it.
proof fn lemma_one_more_fix(
    config: LinterConfig,
    queries: Seq<QueryView>,
    i: int,
    only_multiline_raw: bool,
    fixed: Seq<Seq<char>>,
    here: Seq<char>,
)
    requires
        0 <= i < queries.len(),
        fixes_may_give(config, queries.take(i), only_multiline_raw, fixed),
        query_fix_may_give(config, queries[i], only_multiline_raw, here),
    ensures
        fixes_may_give(config, queries.take(i + 1), only_multiline_raw, fixed.push(here)),
        edits_of(queries.take(i + 1), only_multiline_raw, fixed.push(here)) == match edit_of(
            queries[i],
            only_multiline_raw,
            here,
        ) {
            Some(e) => edits_of(queries.take(i), only_multiline_raw, fixed).push(e),
            None => edits_of(queries.take(i), only_multiline_raw, fixed),
        },
{
    let upto = queries.take(i + 1);
    let all = fixed.push(here);
    assert(upto.drop_last() =~= queries.take(i));
    assert(upto.last() == queries[i]);
    assert(all.drop_last() =~= fixed);
    assert forall|j: int| 0 <= j < upto.len() implies #[trigger] query_fix_may_give(
        config,
        upto[j],
        only_multiline_raw,
        all[j],
    ) by {
        if j < i {
            assert(query_fix_may_give(config, queries.take(i)[j], only_multiline_raw, fixed[j]));
        }
    }
}

/// Fixes every one of `queries` (only raw strings over several lines, if
/// `only_multiline_raw`) and splices them back. Returns `None` for `new_src` if
/// nothing changed; never returns a `.rs` that fails to re-parse.
pub fn fix_extracted(
    path: &str,
    src: &str,
    queries: &Vec<QueryLiteral>,
    engine: &SqruffEngine,
    only_multiline_raw: bool,
) -> (r: Result<FixOutcome, String>)
    requires
        are_placed(src@, query_views(queries@)),
        can_fix(engine.dialect(), query_views(queries@), only_multiline_raw),
    ensures
        fix_may_end_in(
            engine.config(),
            path@,
            src@,
            query_views(queries@),
            only_multiline_raw,
            fix_view(r),
        ),
{
    let ghost views = query_views(queries@);
    let ghost mut fixed: Seq<Seq<char>> = Seq::empty();
    let mut edits: Vec<Edit> = Vec::new();
    let count: usize = queries.len();
    proof {
        assert(views.take(0) == Seq::<QueryView>::empty());
        assert(edit_views(edits@) == Seq::<EditView>::empty());
    }
    for i in 0..count
        invariant
            count == queries.len(),
            views == query_views(queries@),
            can_fix(engine.dialect(), views, only_multiline_raw),
            fixes_may_give(engine.config(), views.take(i as int), only_multiline_raw, fixed),
            edit_views(edits@) == edits_of(views.take(i as int), only_multiline_raw, fixed),
    {
        let ghost before = edit_views(edits@);
        let ghost fixed_before = fixed;
        let ghost mut fixed_here: Seq<char> = Seq::empty();
        assert(views[i as int] == queries[i as int]@);
        let q = &queries[i];
        if let Some((lit, sql)) = fix_input(q, only_multiline_raw) {
            let (text, left) = engine.fix(sql.as_str());
            proof {
                fixed_here = text@;
                assert(fix_may_give(engine.config(), sql@, text@, finding_views(left@)));
            }
            if let Some(e) = edit_for(q, &lit, sql.as_str(), text.as_str()) {
                edits.push(e);
                assert(edit_views(edits@) == before.push(e@));
            }
        }
        proof {
            fixed = fixed_before.push(fixed_here);
            assert(query_fix_may_give(engine.config(), q@, only_multiline_raw, fixed_here));
            lemma_one_more_fix(
                engine.config(),
                views,
                i as int,
                only_multiline_raw,
                fixed_before,
                fixed_here,
            );
        }
    }
    proof {
        assert(views.take(count as int) == views);
        lemma_edits_fit(src@, views, only_multiline_raw, fixed);
    }
    apply_edits(path, src, edits)
}

/// An edit of a query replaces the query.
proof fn lemma_edit_fits(src: Seq<char>, q: QueryView, only_multiline_raw: bool, fixed: Seq<char>)
    requires
        is_part_of(q, src),
    ensures
        edit_of(q, only_multiline_raw, fixed) matches Some(e) ==> {
            &&& e.start == q.start_byte
            &&& e.end == q.end_byte
            &&& edit_fits(src, e)
        },
{
    if edit_of(q, only_multiline_raw, fixed) is Some {
        let a = char_at_byte(src, q.start_byte).unwrap();
        let b = char_at_byte(src, q.end_byte).unwrap();
        assert(starts_at(src, a, q.start_byte));
        assert(starts_at(src, b, q.end_byte));
        assert(q.text.len() > 0);
        lemma_byte_len_prefix(src, a, b);
    }
}

/// Edits of different parts of the source are for different parts of it.
pub proof fn lemma_edits_fit(
    src: Seq<char>,
    queries: Seq<QueryView>,
    only_multiline_raw: bool,
    fixed: Seq<Seq<char>>,
)
    requires
        forall|i: int| 0 <= i < queries.len() ==> is_part_of(#[trigger] queries[i], src),
        are_apart(queries),
    ensures
        edits_fit(src, edits_of(queries, only_multiline_raw, fixed)),
        forall|k: int|
            0 <= k < edits_of(queries, only_multiline_raw, fixed).len() ==> is_edit_in(
                #[trigger] edits_of(queries, only_multiline_raw, fixed)[k],
                queries,
            ),
    decreases queries.len(),
{
    if queries.len() > 0 {
        let init = queries.drop_last();
        let q = queries.last();
        assert forall|i: int| 0 <= i < init.len() implies is_part_of(#[trigger] init[i], src) by {
            assert(init[i] == queries[i]);
        }
        assert(are_apart(init)) by {
            assert forall|i: int, j: int| 0 <= i < j < init.len() implies #[trigger] apart(
                init[i],
                init[j],
            ) by {
                assert(apart(queries[i], queries[j]));
            }
        }
        lemma_edits_fit(src, init, only_multiline_raw, fixed.drop_last());
        assert(q == queries[queries.len() - 1]);
        lemma_edit_fits(src, q, only_multiline_raw, fixed.last());
        let before = edits_of(init, only_multiline_raw, fixed.drop_last());
        let all = edits_of(queries, only_multiline_raw, fixed);
        assert forall|k: int| 0 <= k < all.len() implies is_edit_in(#[trigger] all[k], queries) by {
            if k < before.len() {
                assert(all[k] == before[k]);
                let i = choose|i: int| replaces(all[k], init, i);
                assert(replaces(all[k], queries, i));
            } else {
                assert(replaces(all[k], queries, queries.len() - 1));
            }
        }
        assert forall|i: int, j: int| 0 <= i < j < all.len() implies #[trigger] clear_of(
            all[i],
            all[j],
        ) by {
            assert(all[i] == before[i]);
            if j < before.len() {
                assert(clear_of(before[i], before[j]));
            } else {
                assert(is_edit_in(before[i], init));
                let a = choose|a: int| replaces(before[i], init, a);
                assert(apart(queries[a], q));
            }
        }
        assert forall|k: int| 0 <= k < all.len() implies edit_fits(src, #[trigger] all[k]) by {
            if k < before.len() {
                assert(all[k] == before[k]);
            }
        }
    }
}

/// The edit `e` replaces the `i`-th query.
pub open spec fn replaces(e: EditView, queries: Seq<QueryView>, i: int) -> bool {
    0 <= i < queries.len() && e.start == queries[i].start_byte && e.end == queries[i].end_byte
}

/// The edit `e` replaces one of the queries.
pub open spec fn is_edit_in(e: EditView, queries: Seq<QueryView>) -> bool {
    exists|i: int| replaces(e, queries, i)
}

/// Fixes every (multi-line raw, unless `only_multiline_raw` is off) inline query
/// and splices back. Returns `None` for `new_src` if nothing changed; never returns
/// a `.rs` that fails to re-parse.
pub fn fix_file(path: &str, src: &str, engine: &SqruffEngine, only_multiline_raw: bool) -> (r:
    Result<FixOutcome, String>)
    requires
        source_fits(src@),
        can_fix(engine.dialect(), extracted_or_none(src@), only_multiline_raw),
    ensures
        fix_may_end_in(
            engine.config(),
            path@,
            src@,
            extracted_or_none(src@),
            only_multiline_raw,
            fix_view(r),
        ),
{
    let queries = extract(src);
    fix_extracted(path, src, &queries, engine, only_multiline_raw)
}

/// [`fix_file`] on any source: nothing where it is too long, or where sqruff cannot take
/// some SQL.
pub fn try_fix_file(path: &str, src: &str, engine: &SqruffEngine, only_multiline_raw: bool) -> (r:
    Option<Result<FixOutcome, String>>)
    ensures
        r is Some <==> source_fits(src@) && can_fix(
            engine.dialect(),
            extracted_or_none(src@),
            only_multiline_raw,
        ),
        r matches Some(fix) ==> fix_may_end_in(
            engine.config(),
            path@,
            src@,
            extracted_or_none(src@),
            only_multiline_raw,
            fix_view(fix),
        ),
{
    if !fits(src) {
        return None;
    }
    let queries = extract(src);
    if ready_to_fix(&queries, only_multiline_raw, engine.dialect_kind()) {
        Some(fix_file(path, src, engine, only_multiline_raw))
    } else {
        None
    }
}

} // verus!
