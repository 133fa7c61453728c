//! The operations as their callers see them: what holds of any result that a call gives,
//! told of the arguments and the result alone.
use crate::blocks::{
    are_feeds, are_fixed_lines, are_sql_lines, behind, block, hold_lines, is_frame_end, is_indent,
    lemma_block, lemma_block_is_dedented, lemma_block_is_rewritten, lemma_frame_end,
    lemma_lines_are_dedented, lemma_reindented_lines, start_at_margin,
};
use crate::checking::{
    finding_count, is_lint_of, is_reported, lemma_check_reports_every_finding,
    lemma_place_of_finding, lemma_residual_of_one, lemma_residuals_add_up, tell_of_run, tells_of,
};
use crate::diagnostic::{
    diagnostic_views, json_body, json_decoded, json_quoted, json_str, lemma_json_round_trip,
    Diagnostic, DiagnosticView,
};
use crate::engine::{
    can_check, can_fix, check_extracted, check_file, check_may_report, diagnostics_for, dump_file, dump_views, dumped,
    fix_extracted, fix_file, fix_input_of, fix_may_end_in, fix_view, is_skippable, leading_newlines, rebuild_literal, rebuild_normal,
    sql_of, try_check_file, try_fix_file, FixOutcome, FixView,
};
use crate::extract::{
    are_placed, extract, extract_checked, is_part_of, is_query_macro, lemma_part_bytes,
    query_views, sql_literals, QueryLiteral, QueryView,
};
use crate::extraction::{
    has_query_at, is_check_part, is_query_at, is_result_part, lemma_every_call_is_extracted,
    lemma_every_variant_is_looked_at, lemma_file_without_mention_has_no_query,
    lemma_no_mention_is_missed, lemma_no_other_macro_is_looked_at, lies_in,
};
use crate::fixing::{
    change_count, holds_changes, is_answer, is_rust, lemma_fix_writes_every_change,
};
use crate::grammar::is_taken;
use crate::literal::{
    block_indent, dedent, dedented, framing, parsed_literal, raw_literal, reindent, unescape,
    LiteralKind, ParsedLiteral,
};
use crate::report::{
    all_rendered, describe_fix, file_fix_of, is_rs, is_sum, list_source, places, render_all, texts,
    warn_skip, CheckRun, FileCheck, FileFix, FileList, FixRun, OutputFormat,
};
use crate::roundtrip::{
    lemma_escape_reads, lemma_raw_literal_reads_back, lemma_string_without_escapes,
};
use crate::sqruff_adapter::{
    finding_views, findings, lint_may_return, lowered, outcome_findings, parse_dialect, residual,
    unfixable, Finding, FindingView, LintOutcome, LinterConfig, SqruffEngine,
};
use crate::substance::{
    lemma_fix_writes_all_sql, lemma_linter_gets_all_sql, lemma_set_statements,
    lemma_string_reads_back, solid, starts_with_set,
};
use crate::syntax::{parsed_source, LiteralView, MacroView};
use crate::text::{decimal, is_blank, is_white_space, join_lines, lemma_run_len, newline};
use crate::wording::{
    lemma_change_is_told, lemma_dump_of_one, lemma_dumps_add_up, lemma_every_query_is_listed,
    lemma_human_line, lemma_json_object, lemma_one_line_for_each_finding, lemma_skip_is_told,
    member,
};
use sqruff_lib_core::dialects::init::DialectKind;
use sqruff_lib_core::errors::SQLBaseError;
use vstd::prelude::*;
use vstd::utf8::encode_utf8;

verus! {

// ---------------------------------------------------------------------------
// Extraction
// ---------------------------------------------------------------------------

/// A file parted at a mention of `query`.
proof fn lemma_parted(src: Seq<char>, j: int)
    requires
        has_query_at(src, j),
    ensures
        src == src.take(j) + seq!['q', 'u', 'e', 'r', 'y'] + src.skip(j + 5),
{
    assert(src =~= src.take(j) + seq!['q', 'u', 'e', 'r', 'y'] + src.skip(j + 5));
}

/// [`extract`] finds every call: where `query` stands in the file at any index `j`, and the
/// file is Rust, it gives a query for each SQL literal of each of its macro calls.
pub proof fn lemma_extract_finds_every_call(
    src: &str,
    queries: Vec<QueryLiteral>,
    j: int,
    macros: Seq<MacroView>,
    i: int,
    l: LiteralView,
) -> (k: int)
    requires
        call_ensures(extract, (src,), queries),
        has_query_at(src@, j),
        parsed_source(src@) == Ok::<Seq<MacroView>, Seq<char>>(macros),
        0 <= i < macros.len(),
        sql_literals(macros[i]).contains(l),
        forall|n: int|
            0 <= n < sql_literals(macros[i]).len() ==> lies_in(
                src@,
                #[trigger] sql_literals(macros[i])[n],
            ),
    ensures
        0 <= k < queries@.len(),
        is_query_at(src@, l, queries@[k]@),
{
    lemma_parted(src@, j);
    let k = lemma_every_call_is_extracted(src@.take(j), src@.skip(j + 5), macros, i, l);
    assert(query_views(queries@)[k] == queries@[k]@);
    k
}

/// Each query that [`extract`] gives is the part of the file that its bytes say, and starts
/// on the line that it tells.
pub proof fn lemma_extract_is_exact(src: &str, queries: Vec<QueryLiteral>, k: int)
    requires
        call_ensures(extract, (src,), queries),
        0 <= k < queries@.len(),
    ensures
        queries@[k].start_byte <= queries@[k].end_byte <= encode_utf8(src@).len(),
        encode_utf8(src@).subrange(queries@[k].start_byte as int, queries@[k].end_byte as int)
            == encode_utf8(queries@[k].text@),
{
    assert(query_views(queries@)[k] == queries@[k]@);
    assert(is_part_of(queries@[k]@, src@));
    lemma_part_bytes(queries@[k]@, src@);
}

/// [`extract_checked`] gives the error of a file that mentions `query` and does not parse,
/// and otherwise the queries that [`extract`] gives.
pub proof fn lemma_extract_checked_tells_errors(
    src: &str,
    r: Result<Vec<QueryLiteral>, String>,
    queries: Vec<QueryLiteral>,
)
    requires
        call_ensures(extract_checked, (src,), r),
        call_ensures(extract, (src,), queries),
    ensures
        (exists|j: int| has_query_at(src@, j)) && parsed_source(src@) is Err ==> (r matches Err(m)
            && Err::<Seq<MacroView>, Seq<char>>(m@) == parsed_source(src@) && queries@.len() == 0),
        (forall|j: int| !has_query_at(src@, j)) ==> r is Ok && queries@.len() == 0,
        parsed_source(src@) is Ok ==> r is Ok,
        r matches Ok(v) ==> query_views(v@) == query_views(queries@),
{
    if exists|j: int| has_query_at(src@, j) {
        let j = choose|j: int| has_query_at(src@, j);
        lemma_parted(src@, j);
        lemma_no_mention_is_missed(src@.take(j), src@.skip(j + 5));
    } else {
        lemma_file_without_mention_has_no_query(src@);
    }
    assert(query_views(queries@).len() == queries@.len());
}

/// [`is_query_macro`] tells the three macros and their unchecked variants.
pub proof fn lemma_is_query_macro(name: &str, b: bool)
    requires
        call_ensures(is_query_macro, (name,), b),
    ensures
        b <==> exists|result: Seq<char>, check: Seq<char>|
            is_result_part(result) && is_check_part(check) && name@ == #[trigger] ("query"@ + result
                + check),
{
    if b {
        let parts = lemma_no_other_macro_is_looked_at(name@);
        assert(name@ == "query"@ + parts.0 + parts.1);
    }
    if exists|result: Seq<char>, check: Seq<char>|
        is_result_part(result) && is_check_part(check) && name@ == #[trigger] ("query"@ + result
            + check) {
        let (result, check) = choose|result: Seq<char>, check: Seq<char>|
            is_result_part(result) && is_check_part(check) && name@ == #[trigger] ("query"@ + result
                + check);
        lemma_every_variant_is_looked_at(result, check);
    }
}

// ---------------------------------------------------------------------------
// Literals
// ---------------------------------------------------------------------------

/// [`ParsedLiteral::parse`] takes a raw string apart, whatever it holds, and a string
/// without backslashes.
pub proof fn lemma_parse_takes_apart(
    text: &str,
    lit: Option<ParsedLiteral>,
    hashes: usize,
    content: Seq<char>,
)
    requires
        call_ensures(ParsedLiteral::parse, (text,), lit),
    ensures
        text@ == raw_literal(hashes as nat, content) ==> (lit matches Some(l) && l.kind == (
        LiteralKind::Raw { hashes }) && l.content@ == content),
        text@ == seq!['"'] + content + seq!['"'] && (forall|i: int|
            0 <= i < content.len() ==> #[trigger] content[i] != '\\') ==> (lit matches Some(l)
            && l.kind is Normal && l.content@ == content),
{
    if text@ == raw_literal(hashes as nat, content) {
        lemma_raw_literal_reads_back(hashes, content);
    }
    if text@ == seq!['"'] + content + seq!['"'] && (forall|i: int|
        0 <= i < content.len() ==> #[trigger] content[i] != '\\') {
        lemma_string_without_escapes(content);
    }
}

/// [`dedent`] gives the lines of SQL without what is around them, and loses no character
/// that is not white space.
pub proof fn lemma_dedent_gives_lines(
    content: &str,
    sql: String,
    lead: Seq<char>,
    ys: Seq<Seq<char>>,
    ls: Seq<Seq<char>>,
    indent: Seq<char>,
    end: Seq<char>,
)
    requires
        call_ensures(dedent, (content,), sql),
    ensures
        solid(sql@) == solid(content@),
        content@ == lead + join_lines(ys) + end && are_feeds(lead) && are_sql_lines(ls)
            && start_at_margin(ls) && is_indent(indent) && hold_lines(ys, ls, indent) && is_blank(
            end,
        ) ==> sql@ == join_lines(ls).push('\n'),
{
    lemma_linter_gets_all_sql(content@);
    if content@ == lead + join_lines(ys) + end && are_feeds(lead) && are_sql_lines(ls)
        && start_at_margin(ls) && is_indent(indent) && hold_lines(ys, ls, indent) && is_blank(
        end,
    ) {
        lemma_lines_are_dedented(lead, ys, ls, indent, end);
    }
}

/// What [`rebuild_literal`] writes, [`ParsedLiteral::parse`] reads with every character of
/// the fixed SQL that is not white space.
pub proof fn lemma_rebuilt_literal_is_read(
    lit: &ParsedLiteral,
    fixed: &str,
    text: String,
    written: &str,
    read: Option<ParsedLiteral>,
)
    requires
        call_ensures(rebuild_literal, (lit, fixed), text),
        written@ == text@,
        call_ensures(ParsedLiteral::parse, (written,), read),
    ensures
        read matches Some(l) && l.kind == lit.kind && solid(l.content@) == solid(fixed@),
{
    lemma_fix_writes_all_sql(lit.kind, lit.content@, fixed@);
}

/// [`rebuild_literal`] puts the lines that a fixer gave in the place of the old ones.
pub proof fn lemma_rebuilt_block(
    lit: &ParsedLiteral,
    fixed: &str,
    text: String,
    hashes: usize,
    lead: Seq<char>,
    ls: Seq<Seq<char>>,
    indent: Seq<char>,
    end: Seq<char>,
    new: Seq<Seq<char>>,
)
    requires
        call_ensures(rebuild_literal, (lit, fixed), text),
        lit.kind == (LiteralKind::Raw { hashes }),
        lit.content@ == block(lead, ls, indent, end),
        fixed@ == join_lines(new).push('\n'),
        are_feeds(lead),
        are_sql_lines(ls),
        start_at_margin(ls),
        is_indent(indent),
        is_frame_end(end),
        are_fixed_lines(new),
    ensures
        text@ == raw_literal(hashes as nat, block(lead, new, indent, end)),
{
    lemma_block_is_rewritten(hashes, lead, ls, indent, end, new);
}

/// What [`rebuild_normal`] writes, [`ParsedLiteral::parse`] reads as the fixed SQL without
/// the white space around it, character for character, with a space for each line feed.
pub proof fn lemma_rebuilt_string_is_read(
    fixed: &str,
    text: String,
    written: &str,
    read: Option<ParsedLiteral>,
    before: Seq<char>,
    t: Seq<char>,
    after: Seq<char>,
)
    requires
        call_ensures(rebuild_normal, (fixed,), text),
        written@ == text@,
        call_ensures(ParsedLiteral::parse, (written,), read),
        fixed@ == before + t + after,
        is_blank(before),
        is_blank(after),
        t.len() > 0 ==> !is_white_space(t[0]) && !is_white_space(t.last()),
    ensures
        read matches Some(l) && l.kind is Normal && l.content@.len() == t.len() && forall|i: int|
            0 <= i < t.len() ==> #[trigger] l.content@[i] == if t[i] == '\n' {
                ' '
            } else {
                t[i]
            },
{
    lemma_string_reads_back(Seq::empty(), before, t, after);
}

/// What [`framing`], [`block_indent`] and [`leading_newlines`] tell of a block of SQL: what is
/// before and behind its lines.
pub proof fn lemma_parts_of_block(
    content: &str,
    frame: (String, String),
    margin: String,
    n: usize,
    lead: Seq<char>,
    ls: Seq<Seq<char>>,
    indent: Seq<char>,
    end: Seq<char>,
)
    requires
        call_ensures(framing, (content,), frame),
        call_ensures(block_indent, (content,), margin),
        call_ensures(leading_newlines, (content,), n),
        content@ == block(lead, ls, indent, end),
        are_feeds(lead),
        are_sql_lines(ls),
        start_at_margin(ls),
        is_indent(indent),
        is_frame_end(end),
    ensures
        frame.0@ == lead,
        frame.1@ == end,
        margin@ == indent,
        n == lead.len(),
{
    assert(is_blank(end)) by {
        assert forall|i: int| 0 <= i < end.len() implies is_white_space(#[trigger] end[i]) by {
            if i > 0 {
                assert(end[i] == ' ' || end[i] == '\t');
            }
        }
    }
    lemma_block(lead, ls, indent, end);
    lemma_block_is_dedented(lead, ls, indent, end);
    lemma_frame_end(lead + join_lines(behind(ls, indent)), end);
    lemma_run_len(content@, newline());
}

/// [`reindent`] puts every line behind the indent, but for blank ones, which become empty.
pub proof fn lemma_reindent_gives_lines(
    sql: &str,
    indent: &str,
    out: String,
    new: Seq<Seq<char>>,
)
    requires
        call_ensures(reindent, (sql, indent), out),
        sql@ == join_lines(new).push('\n'),
        are_fixed_lines(new),
        is_indent(indent@),
    ensures
        out@ == join_lines(behind(new, indent@)),
{
    lemma_reindented_lines(new, indent@);
}

/// [`unescape`] reads an escape as the character that it stands for.
pub proof fn lemma_unescape_reads(
    s: &[char],
    out: String,
    rest: &[char],
    read: String,
    before: Seq<char>,
    c: char,
)
    requires
        call_ensures(unescape, (s,), out),
        call_ensures(unescape, (rest,), read),
        s@ == before + seq!['\\', c] + rest@,
        forall|i: int| 0 <= i < before.len() ==> #[trigger] before[i] != '\\',
    ensures
        out@ == before + seq![
            match c {
                'n' => '\n',
                't' => '\t',
                'r' => '\r',
                '0' => '\0',
                _ => c,
            },
        ] + read@,
{
    lemma_escape_reads(before, c, rest@);
}

// ---------------------------------------------------------------------------
// Check
// ---------------------------------------------------------------------------

/// [`is_skippable`] tells a `SET` statement by its first word and the space behind it.
pub proof fn lemma_is_skippable(sql: &str, b: bool, space: Seq<char>, t: Seq<char>)
    requires
        call_ensures(is_skippable, (sql,), b),
        sql@ == space + t,
        is_blank(space),
        t.len() > 0 ==> !is_white_space(t[0]),
    ensures
        b <==> starts_with_set(t),
{
    lemma_set_statements(space, t);
}

/// The linter answers each of the queries that are linted, the diagnostics report every
/// finding of its answers, and there are no others.
pub open spec fn reports_all(
    config: LinterConfig,
    path: Seq<char>,
    queries: Seq<QueryView>,
    found: Seq<Seq<FindingView>>,
    diags: Seq<Diagnostic>,
) -> bool {
    &&& found.len() == queries.len()
    &&& forall|i: int|
        0 <= i < queries.len() ==> (sql_of(#[trigger] queries[i]) matches Some(sql) ==> is_lint_of(
            config,
            sql,
            found[i],
        ))
    &&& forall|i: int, j: int|
        0 <= i < queries.len() && sql_of(queries[i]) is Some && 0 <= j < found[i].len()
            ==> is_reported(diagnostic_views(diags), path, #[trigger] found[i][j])
    &&& diags.len() == finding_count(queries, found)
}

/// [`check_file`] reports every finding in the queries that [`extract`] finds in the file.
pub proof fn lemma_check_file_reports_all(
    path: &str,
    src: &str,
    engine: &SqruffEngine,
    diags: Vec<Diagnostic>,
    queries: Vec<QueryLiteral>,
) -> (found: Seq<Seq<FindingView>>)
    requires
        call_ensures(check_file, (path, src, engine), diags),
        call_ensures(extract, (src,), queries),
    ensures
        reports_all(engine.config(), path@, query_views(queries@), found, diags@),
{
    let found = lemma_check_reports_every_finding(
        engine.config(),
        path@,
        query_views(queries@),
        diagnostic_views(diags@),
    );
    assert(diagnostic_views(diags@).len() == diags@.len());
    found
}

/// [`check_extracted`] reports every finding in the queries that it is given.
pub proof fn lemma_check_extracted_reports_all(
    path: &str,
    queries: &Vec<QueryLiteral>,
    engine: &SqruffEngine,
    diags: Vec<Diagnostic>,
) -> (found: Seq<Seq<FindingView>>)
    requires
        call_ensures(check_extracted, (path, queries, engine), diags),
    ensures
        reports_all(engine.config(), path@, query_views(queries@), found, diags@),
{
    let found = lemma_check_reports_every_finding(
        engine.config(),
        path@,
        query_views(queries@),
        diagnostic_views(diags@),
    );
    assert(diagnostic_views(diags@).len() == diags@.len());
    found
}

/// [`try_check_file`] does what [`check_file`] does, wherever it does anything.
pub proof fn lemma_try_check_file_reports_all(
    path: &str,
    src: &str,
    engine: &SqruffEngine,
    diags: Vec<Diagnostic>,
    queries: Vec<QueryLiteral>,
) -> (found: Seq<Seq<FindingView>>)
    requires
        call_ensures(try_check_file, (path, src, engine), Some(diags)),
        call_ensures(extract, (src,), queries),
    ensures
        reports_all(engine.config(), path@, query_views(queries@), found, diags@),
{
    let found = lemma_check_reports_every_finding(
        engine.config(),
        path@,
        query_views(queries@),
        diagnostic_views(diags@),
    );
    assert(diagnostic_views(diags@).len() == diags@.len());
    found
}

/// [`try_check_file`] gives nothing just where the file has 2^30 characters or more, or
/// sqruff cannot take the SQL of a query that [`extract`] finds.
pub proof fn lemma_try_check_file_answers(
    path: &str,
    src: &str,
    engine: &SqruffEngine,
    r: Option<Vec<Diagnostic>>,
    queries: Vec<QueryLiteral>,
)
    requires
        call_ensures(try_check_file, (path, src, engine), r),
        call_ensures(extract, (src,), queries),
    ensures
        r is Some <==> src@.len() < 0x4000_0000 && forall|i: int|
            0 <= i < queries@.len() ==> (sql_of(#[trigger] queries@[i]@) matches Some(sql)
                ==> is_taken(engine.dialect(), sql)),
{
    let views = query_views(queries@);
    assert forall|i: int| 0 <= i < queries@.len() implies views[i] == (#[trigger] queries@[i])@ by {}
    if forall|i: int|
        0 <= i < queries@.len() ==> (sql_of(#[trigger] queries@[i]@) matches Some(sql) ==> is_taken(
            engine.dialect(),
            sql,
        )) {
        assert forall|i: int| 0 <= i < views.len() implies (sql_of(
            #[trigger] views[i],
        ) matches Some(sql) ==> is_taken(engine.dialect(), sql)) by {
            assert(views[i] == queries@[i]@);
        }
    }
    if can_check(engine.dialect(), views) {
        assert forall|i: int| 0 <= i < queries@.len() implies (sql_of(
            #[trigger] queries@[i]@,
        ) matches Some(sql) ==> is_taken(engine.dialect(), sql)) by {
            assert(views[i] == queries@[i]@);
        }
    }
}

/// [`diagnostics_for`] reports each finding once and in their order, and those in a block of
/// SQL where they stand in the file.
pub proof fn lemma_diagnostics_for_places(
    path: &str,
    q: &QueryLiteral,
    lit: &ParsedLiteral,
    found: Vec<Finding>,
    diags: Vec<Diagnostic>,
    j: int,
    hashes: usize,
    lead: Seq<char>,
    ls: Seq<Seq<char>>,
    indent: Seq<char>,
    end: Seq<char>,
)
    requires
        call_ensures(diagnostics_for, (path, q, lit, found), diags),
        0 <= j < found@.len(),
        lit.content@ == block(lead, ls, indent, end),
        q.text@ == raw_literal(hashes as nat, block(lead, ls, indent, end)),
        are_feeds(lead),
        are_sql_lines(ls),
        start_at_margin(ls),
        is_indent(indent),
        is_blank(end),
        found@[j].line > 0,
        q.line + lead.len() + found@[j].line <= usize::MAX,
        found@[j].col + indent.len() + 1 <= usize::MAX,
    ensures
        diags@.len() == found@.len(),
        diags@[j].line == q.line + lead.len() + found@[j].line - 1,
        diags@[j].col == found@[j].col + indent.len() + 1,
        diags@[j].file@ == path@,
        diags@[j].code@ == found@[j].code@,
        diags@[j].message@ == found@[j].desc@,
{
    assert(diagnostic_views(diags@).len() == finding_views(found@).len());
    assert(diagnostic_views(diags@)[j] == diags@[j]@);
    assert(finding_views(found@)[j] == found@[j]@);
    lemma_place_of_finding(path@, q@, hashes, lead, ls, indent, end, found@[j]@);
}

/// [`findings`] tells of each violation, in their order.
pub proof fn lemma_findings_tell_all(violations: &[SQLBaseError], out: Vec<Finding>, j: int)
    requires
        call_ensures(findings, (violations,), out),
        0 <= j < violations@.len(),
    ensures
        out@.len() == violations@.len(),
        tells_of(out@[j]@, violations@[j]),
{
    assert(finding_views(out@).len() == violations@.len());
    assert(finding_views(out@)[j] == out@[j]@);
}

/// [`residual`] keeps a finding just where it is not marked as fixable.
pub proof fn lemma_residual_keeps(all: Vec<Finding>, out: Vec<Finding>, j: int)
    requires
        call_ensures(residual, (all,), out),
        0 <= j < all@.len(),
    ensures
        !all@[j].fixable ==> exists|k: int| 0 <= k < out@.len() && #[trigger] out@[k]@ == all@[j]@,
        all@[j].fixable ==> forall|k: int|
            0 <= k < out@.len() ==> #[trigger] out@[k]@ != all@[j]@,
{
    let views = finding_views(all@);
    let kept = finding_views(out@);
    assert(kept.len() == out@.len());
    assert(views[j] == all@[j]@);
    if !all@[j].fixable {
        let k = lemma_unfixable_is_left(views, j);
        assert(kept[k] == out@[k]@);
    } else {
        lemma_residual_is_unfixable(views);
        assert forall|k: int| 0 <= k < out@.len() implies #[trigger] out@[k]@ != all@[j]@ by {
            assert(kept[k] == out@[k]@);
        }
    }
}

/// What is not fixable is left over after a fix.
proof fn lemma_unfixable_is_left(all: Seq<FindingView>, j: int) -> (k: int)
    requires
        0 <= j < all.len(),
        !all[j].fixable,
    ensures
        0 <= k < unfixable(all).len(),
        unfixable(all)[k] == all[j],
{
    let f = all[j];
    let a = all.take(j);
    let b = all.skip(j + 1);
    lemma_residuals_add_up(a, seq![f]);
    lemma_residuals_add_up(a + seq![f], b);
    lemma_residual_of_one(f);
    assert(all =~= a + seq![f] + b);
    unfixable(a).len() as int
}

/// What is left over after a fix is not fixable.
proof fn lemma_residual_is_unfixable(all: Seq<FindingView>)
    ensures
        forall|k: int| 0 <= k < unfixable(all).len() ==> !(#[trigger] unfixable(all)[k]).fixable,
    decreases all.len(),
{
    if all.len() > 0 {
        lemma_residual_is_unfixable(all.drop_last());
        lemma_residuals_add_up(all.drop_last(), seq![all.last()]);
        lemma_residual_of_one(all.last());
        assert(all =~= all.drop_last() + seq![all.last()]);
        let before = unfixable(all.drop_last());
        assert forall|k: int| 0 <= k < unfixable(all).len() implies !(#[trigger] unfixable(
            all,
        )[k]).fixable by {
            if k < before.len() {
                assert(unfixable(all)[k] == before[k]);
            }
        }
    }
}

/// [`parse_dialect`] does not tell upper from lower case.
pub proof fn lemma_dialects_in_any_case(
    a: &str,
    ra: Result<DialectKind, String>,
    b: &str,
    rb: Result<DialectKind, String>,
)
    requires
        call_ensures(parse_dialect, (a,), ra),
        call_ensures(parse_dialect, (b,), rb),
        lowered(a@) == lowered(b@),
    ensures
        match (ra, rb) {
            (Ok(x), Ok(y)) => x == y,
            (Err(m), Err(n)) => m@ == n@ && m@ == "unknown dialect '"@ + lowered(a@) + "'"@,
            _ => false,
        },
{
}

/// [`SqruffEngine::discover`] makes an engine for the dialect that was named, whatever the
/// configuration says of it.
pub proof fn lemma_discover_goes_by_the_name(
    dialect: &str,
    config: LinterConfig,
    engine: SqruffEngine,
    r: Result<DialectKind, String>,
)
    requires
        call_ensures(SqruffEngine::discover, (dialect, config), Ok(engine)),
        call_ensures(parse_dialect, (dialect,), r),
    ensures
        r == Ok::<DialectKind, String>(engine.dialect()),
{
}

/// A run of [`SqruffEngine::lint`] tells of all violations that sqruff found.
pub proof fn lemma_lint_tells_all(engine: &SqruffEngine, sql: &str, found: Vec<Finding>)
    requires
        call_ensures(SqruffEngine::lint, (engine, sql), found),
    ensures
        is_lint_of(engine.config(), sql@, finding_views(found@)),
{
    let outcome = choose|outcome: LintOutcome| #[trigger]
        lint_may_return(engine.config(), sql@, false, outcome) && finding_views(found@)
            == outcome_findings(outcome);
    assert(tell_of_run(finding_views(found@), outcome));
}

/// A run of [`SqruffEngine::fix`] gives the text that sqruff fixed.
pub proof fn lemma_fix_gives_answer(engine: &SqruffEngine, sql: &str, r: (String, Vec<Finding>))
    requires
        call_ensures(SqruffEngine::fix, (engine, sql), r),
    ensures
        is_answer(engine.config(), sql@, r.0@),
{
}

// ---------------------------------------------------------------------------
// Fix
// ---------------------------------------------------------------------------

/// The fixer answers each of the queries that are fixed, and the outcome is what these
/// answers make of the file: nothing new where no query changes, and otherwise a text with
/// the new literal of every query that changes, or a message where that is no Rust.
pub open spec fn writes_all(
    config: LinterConfig,
    path: Seq<char>,
    src: Seq<char>,
    queries: Seq<QueryView>,
    only_multiline_raw: bool,
    fixed: Seq<Seq<char>>,
    text: Seq<char>,
    r: Result<FixOutcome, String>,
) -> bool {
    let n = change_count(queries, only_multiline_raw, fixed);
    &&& fixed.len() == queries.len()
    &&& forall|i: int|
        0 <= i < queries.len() ==> (fix_input_of(
            #[trigger] queries[i],
            only_multiline_raw,
        ) matches Some(sql) ==> is_answer(config, sql, fixed[i]))
    &&& holds_changes(text, queries, only_multiline_raw, fixed)
    &&& n == 0 ==> (r matches Ok(out) && out.new_src is None && out.queries_changed == 0)
    &&& n > 0 && is_rust(text) ==> (r matches Ok(out) && (out.new_src matches Some(new) && new@
        == text) && out.queries_changed == n)
    &&& n > 0 && !is_rust(text) ==> (r matches Err(m) && m@ == "fix produced unparsable Rust in "@
        + path + "; discarded"@)
}

/// [`fix_file`] writes every change in the queries that [`extract`] finds in the file.
pub proof fn lemma_fix_file_writes_all(
    path: &str,
    src: &str,
    engine: &SqruffEngine,
    only_multiline_raw: bool,
    r: Result<FixOutcome, String>,
    queries: Vec<QueryLiteral>,
) -> (answer: (Seq<Seq<char>>, Seq<char>))
    requires
        call_ensures(fix_file, (path, src, engine, only_multiline_raw), r),
        call_ensures(extract, (src,), queries),
    ensures
        writes_all(
            engine.config(),
            path@,
            src@,
            query_views(queries@),
            only_multiline_raw,
            answer.0,
            answer.1,
            r,
        ),
{
    lemma_fix_writes_every_change(
        engine.config(),
        path@,
        src@,
        query_views(queries@),
        only_multiline_raw,
        fix_view(r),
    )
}

/// [`try_fix_file`] does what [`fix_file`] does, wherever it does anything.
pub proof fn lemma_try_fix_file_writes_all(
    path: &str,
    src: &str,
    engine: &SqruffEngine,
    only_multiline_raw: bool,
    r: Result<FixOutcome, String>,
    queries: Vec<QueryLiteral>,
) -> (answer: (Seq<Seq<char>>, Seq<char>))
    requires
        call_ensures(try_fix_file, (path, src, engine, only_multiline_raw), Some(r)),
        call_ensures(extract, (src,), queries),
    ensures
        writes_all(
            engine.config(),
            path@,
            src@,
            query_views(queries@),
            only_multiline_raw,
            answer.0,
            answer.1,
            r,
        ),
{
    lemma_fix_writes_every_change(
        engine.config(),
        path@,
        src@,
        query_views(queries@),
        only_multiline_raw,
        fix_view(r),
    )
}

/// [`try_fix_file`] gives nothing just where the file has 2^30 characters or more, or sqruff
/// cannot take the SQL of a query that [`extract`] finds and that is to be fixed.
pub proof fn lemma_try_fix_file_answers(
    path: &str,
    src: &str,
    engine: &SqruffEngine,
    only_multiline_raw: bool,
    r: Option<Result<FixOutcome, String>>,
    queries: Vec<QueryLiteral>,
)
    requires
        call_ensures(try_fix_file, (path, src, engine, only_multiline_raw), r),
        call_ensures(extract, (src,), queries),
    ensures
        r is Some <==> src@.len() < 0x4000_0000 && forall|i: int|
            0 <= i < queries@.len() ==> (fix_input_of(
                #[trigger] queries@[i]@,
                only_multiline_raw,
            ) matches Some(sql) ==> is_taken(engine.dialect(), sql)),
{
    let views = query_views(queries@);
    if forall|i: int|
        0 <= i < queries@.len() ==> (fix_input_of(
            #[trigger] queries@[i]@,
            only_multiline_raw,
        ) matches Some(sql) ==> is_taken(engine.dialect(), sql)) {
        assert forall|i: int| 0 <= i < views.len() implies (fix_input_of(
            #[trigger] views[i],
            only_multiline_raw,
        ) matches Some(sql) ==> is_taken(engine.dialect(), sql)) by {
            assert(views[i] == queries@[i]@);
        }
    }
    if can_fix(engine.dialect(), views, only_multiline_raw) {
        assert forall|i: int| 0 <= i < queries@.len() implies (fix_input_of(
            #[trigger] queries@[i]@,
            only_multiline_raw,
        ) matches Some(sql) ==> is_taken(engine.dialect(), sql)) by {
            assert(views[i] == queries@[i]@);
        }
    }
}

/// [`fix_extracted`] writes every change in the queries that it is given.
pub proof fn lemma_fix_extracted_writes_all(
    path: &str,
    src: &str,
    queries: &Vec<QueryLiteral>,
    engine: &SqruffEngine,
    only_multiline_raw: bool,
    r: Result<FixOutcome, String>,
) -> (answer: (Seq<Seq<char>>, Seq<char>))
    requires
        are_placed(src@, query_views(queries@)),
        call_ensures(fix_extracted, (path, src, queries, engine, only_multiline_raw), r),
    ensures
        writes_all(
            engine.config(),
            path@,
            src@,
            query_views(queries@),
            only_multiline_raw,
            answer.0,
            answer.1,
            r,
        ),
{
    lemma_fix_writes_every_change(
        engine.config(),
        path@,
        src@,
        query_views(queries@),
        only_multiline_raw,
        fix_view(r),
    )
}

// ---------------------------------------------------------------------------
// Reports
// ---------------------------------------------------------------------------

/// [`Diagnostic::render_human`] writes `path:line:col: CODE message`.
pub proof fn lemma_render_human(d: &Diagnostic, out: String)
    requires
        call_ensures(Diagnostic::render_human, (d,), out),
    ensures
        out@ == d.file@ + ":"@ + decimal(d.line as nat) + ":"@ + decimal(d.col as nat) + ": "@
            + d.code@ + " "@ + d.message@,
{
    lemma_human_line(d@);
}

/// [`Diagnostic::render_json`] writes an object with the five parts of the finding.
pub proof fn lemma_render_json(d: &Diagnostic, out: String)
    requires
        call_ensures(Diagnostic::render_json, (d,), out),
    ensures
        out@ == seq!['{'] + member("file"@, json_quoted(d.file@)) + seq![','] + member(
            "line"@,
            decimal(d.line as nat),
        ) + seq![','] + member("col"@, decimal(d.col as nat)) + seq![','] + member(
            "code"@,
            json_quoted(d.code@),
        ) + seq![','] + member("message"@, json_quoted(d.message@)) + seq!['}'],
{
    lemma_json_object(d@);
}

/// What [`json_str`] writes stands between quotes, and a JSON reader gets back the text.
pub proof fn lemma_json_str_reads_back(s: &str, out: String)
    requires
        call_ensures(json_str, (s,), out),
    ensures
        out@.len() >= 2,
        out@[0] == '"',
        out@.last() == '"',
        json_decoded(out@.subrange(1, out@.len() - 1)) == Some(s@),
{
    lemma_json_round_trip(s@);
    assert(out@.subrange(1, out@.len() - 1) =~= json_body(s@));
}

/// [`render_all`] writes a line for every finding, in their order.
pub proof fn lemma_render_all(
    diags: &Vec<Diagnostic>,
    format: OutputFormat,
    out: Vec<String>,
    i: int,
)
    requires
        call_ensures(render_all, (diags, format), out),
        0 <= i < diags@.len(),
    ensures
        out@.len() == diags@.len(),
        out@[i]@ == match format {
            OutputFormat::Human => diags@[i]@.human(),
            OutputFormat::Json => diags@[i]@.json(),
        },
{
    let views = diagnostic_views(diags@);
    assert(texts(out@).len() == out@.len());
    assert(texts(out@)[i] == out@[i]@);
    assert(views[i] == diags@[i]@);
    lemma_one_line_for_each_finding(views, i);
}

/// [`is_rs`] tells a Rust file by its extension.
pub proof fn lemma_is_rs(extension: Option<&str>, b: bool)
    requires
        call_ensures(is_rs, (extension,), b),
    ensures
        b <==> (extension matches Some(e) && e@ == seq!['r', 's']),
{
    reveal_strlit("rs");
    assert("rs"@ =~= seq!['r', 's']);
}

/// [`warn_skip`] names the file and gives the first line of the error.
pub proof fn lemma_warn_skip(
    path: &str,
    err: &str,
    warning: String,
    first: Seq<char>,
    rest: Seq<char>,
)
    requires
        call_ensures(warn_skip, (path, err), warning),
        err@ == first || err@ == first + seq!['\n'] + rest,
        forall|i: int| 0 <= i < first.len() ==> #[trigger] first[i] != '\n',
        first.len() > 0,
        first.last() != '\r',
    ensures
        warning@ == "warning: skipping "@ + path@ + " (unparsable by syn): "@ + first,
{
    lemma_skip_is_told(path@, first, rest);
}

/// [`describe_fix`] hands on the new text of a file that changed, and tells how many of its
/// queries did.
pub proof fn lemma_describe_fix(
    path: &str,
    outcome: FixOutcome,
    check_only: bool,
    out: FileFix,
)
    requires
        call_ensures(describe_fix, (path, Ok(outcome), check_only), out),
    ensures
        match outcome.new_src {
            Some(text) => out matches FileFix::Changed { new_src, message } && new_src@ == text@
                && message@ == (if check_only {
                "would fix "@
            } else {
                "fixed "@
            }) + decimal(outcome.queries_changed as nat) + " query(ies) in "@ + path@,
            None => out is Unchanged,
        },
{
    lemma_change_is_told(path@, outcome.queries_changed as nat);
}

/// The dump of queries that are string literals has an entry for each.
proof fn lemma_dump_of_literals(queries: Seq<QueryView>)
    requires
        forall|i: int| 0 <= i < queries.len() ==> parsed_literal((#[trigger] queries[i]).text) is Some,
    ensures
        dumped(queries).len() == queries.len(),
        forall|i: int|
            0 <= i < queries.len() ==> (#[trigger] dumped(queries)[i]).0 == queries[i].line
                && dumped(queries)[i].1 == dedented(parsed_literal(queries[i].text).unwrap().1),
    decreases queries.len(),
{
    if queries.len() > 0 {
        let init = queries.drop_last();
        let last = queries.len() - 1;
        assert forall|i: int| 0 <= i < init.len() implies parsed_literal(
            (#[trigger] init[i]).text,
        ) is Some by {
            assert(init[i] == queries[i]);
        }
        lemma_dump_of_literals(init);
        lemma_dumps_add_up(init, seq![queries.last()]);
        lemma_dump_of_one(Seq::empty(), queries.last());
        assert(queries =~= init + seq![queries.last()]);
        assert(parsed_literal(queries[last].text) is Some);
        assert forall|i: int| 0 <= i < queries.len() implies (#[trigger] dumped(queries)[i]).0
            == queries[i].line && dumped(queries)[i].1 == dedented(
            parsed_literal(queries[i].text).unwrap().1,
        ) by {
            if i < last {
                assert(dumped(queries)[i] == dumped(init)[i]);
                assert(init[i] == queries[i]);
            }
        }
    }
}

/// [`dump_file`] shows each query that [`extract`] finds, blank ones and `SET` statements
/// too: its line, and all of its characters that are not white space.
pub proof fn lemma_dump_file_shows_all(
    src: &str,
    out: Vec<(usize, String)>,
    queries: Vec<QueryLiteral>,
    i: int,
)
    requires
        call_ensures(dump_file, (src,), out),
        call_ensures(extract, (src,), queries),
        forall|k: int|
            0 <= k < queries@.len() ==> parsed_literal((#[trigger] queries@[k]).text@) is Some,
        0 <= i < queries@.len(),
    ensures
        out@.len() == queries@.len(),
        out@[i].0 == queries@[i].line,
        solid(out@[i].1@) == solid(parsed_literal(queries@[i].text@).unwrap().1),
{
    let views = query_views(queries@);
    assert forall|k: int| 0 <= k < views.len() implies parsed_literal(
        (#[trigger] views[k]).text,
    ) is Some by {
        assert(views[k] == queries@[k]@);
    }
    lemma_dump_of_literals(views);
    assert(dump_views(out@).len() == out@.len());
    assert(dump_views(out@)[i] == (out@[i].0 as int, out@[i].1@));
    assert(views[i] == queries@[i]@);
    lemma_linter_gets_all_sql(parsed_literal(queries@[i].text@).unwrap().1);
}

/// [`list_source`] has an entry `path:line` for each query that [`extract_checked`] finds,
/// and a warning in their place where the file does not parse.
pub proof fn lemma_list_source_shows_all(
    path: &str,
    src: &str,
    out: FileList,
    r: Result<Vec<QueryLiteral>, String>,
)
    requires
        call_ensures(list_source, (path, src), out),
        call_ensures(extract_checked, (src,), r),
    ensures
        match r {
            Ok(queries) => out matches FileList::Entries(entries) && entries@.len()
                == queries@.len() && forall|i: int|
                0 <= i < entries@.len() ==> (#[trigger] entries@[i])@ == path@ + ":"@ + decimal(
                    queries@[i].line as nat,
                ),
            Err(_) => out is Skipped,
        },
{
    if let Ok(queries) = r {
        let views = query_views(queries@);
        if let FileList::Entries(entries) = out {
            assert(texts(entries@) == places(path@, views));
            assert(texts(entries@).len() == entries@.len());
            assert forall|i: int| 0 <= i < entries@.len() implies (#[trigger] entries@[i])@
                == path@ + ":"@ + decimal(queries@[i].line as nat) by {
                assert(texts(entries@)[i] == entries@[i]@);
                lemma_every_query_is_listed(path@, views, i);
                assert(views[i] == queries@[i]@);
            }
        }
    }
}

/// [`CheckRun::check`] adds the findings of a file to those that the run has counted, none
/// where the file has none, and nothing else; a file that does not parse is counted as
/// skipped, and one that is not checked is not counted.
pub proof fn lemma_check_adds_findings(
    run: &mut CheckRun,
    path: &str,
    src: &str,
    engine: &SqruffEngine,
    r: Option<FileCheck>,
)
    requires
        call_ensures(CheckRun::check, (run, path, src, engine), r),
    ensures
        final(run).format == old(run).format,
        match r {
            Some(FileCheck::Findings(out)) => is_sum(
                final(run).findings,
                old(run).findings as int,
                out@.len() as int,
            ) && final(run).skipped == old(run).skipped,
            Some(FileCheck::Skipped(_)) => is_sum(final(run).skipped, old(run).skipped as int, 1)
                && final(run).findings == old(run).findings,
            None => *final(run) == *old(run),
        },
{
}

/// A finding of one file is still counted after the next: a run that would fail after the
/// first fails after the second, whatever that is.
pub proof fn lemma_next_check_forgets_nothing(
    run: &mut CheckRun,
    path: &str,
    src: &str,
    engine: &SqruffEngine,
    r: Option<FileCheck>,
    before: bool,
    after: bool,
)
    requires
        call_ensures(CheckRun::fails, (old(run),), before),
        call_ensures(CheckRun::check, (run, path, src, engine), r),
        call_ensures(CheckRun::fails, (final(run),), after),
    ensures
        final(run).findings >= old(run).findings,
        after <==> before || (r matches Some(FileCheck::Findings(out)) && out@.len() > 0),
{
}

/// [`CheckRun::check`] says of a file what there is to say: a line for every finding in the
/// queries that [`extract_checked`] finds, or a warning where the file does not parse.
pub proof fn lemma_check_says_all(
    run: &mut CheckRun,
    path: &str,
    src: &str,
    engine: &SqruffEngine,
    r: Option<FileCheck>,
    e: Result<Vec<QueryLiteral>, String>,
) -> (found: Seq<Seq<FindingView>>)
    requires
        call_ensures(CheckRun::check, (run, path, src, engine), r),
        call_ensures(extract_checked, (src,), e),
        src@.len() < 0x4000_0000,
    ensures
        e is Err ==> r matches Some(FileCheck::Skipped(_)),
        e matches Ok(queries) ==> (r matches Some(FileCheck::Findings(out)) && found.len()
            == queries@.len() && out@.len() == finding_count(query_views(queries@), found)
            && forall|i: int|
            0 <= i < queries@.len() ==> (sql_of(#[trigger] queries@[i]@) matches Some(sql)
                ==> is_lint_of(engine.config(), sql, found[i]))) || (r is None && exists|i: int|
            0 <= i < queries@.len() && (sql_of(#[trigger] queries@[i]@) matches Some(sql)
                && !is_taken(engine.dialect(), sql))),
{
    match e {
        Ok(queries) => {
            let views = query_views(queries@);
            if can_check(engine.dialect(), views) {
                if let Some(FileCheck::Findings(out)) = r {
                    let diags = choose|diags: Seq<DiagnosticView>|
                        {
                            &&& #[trigger] check_may_report(engine.config(), path@, views, diags)
                            &&& texts(out@) == all_rendered(diags, old(run).format)
                        };
                    let found = lemma_check_reports_every_finding(
                        engine.config(),
                        path@,
                        views,
                        diags,
                    );
                    assert(texts(out@).len() == out@.len());
                    lemma_rendered_len(diags, old(run).format);
                    assert forall|i: int| 0 <= i < queries@.len() implies (sql_of(
                        #[trigger] queries@[i]@,
                    ) matches Some(sql) ==> is_lint_of(engine.config(), sql, found[i])) by {
                        assert(views[i] == queries@[i]@);
                    }
                    found
                } else {
                    Seq::empty()
                }
            } else {
                let i = choose|i: int|
                    0 <= i < views.len() && (sql_of(#[trigger] views[i]) matches Some(sql)
                        && !is_taken(engine.dialect(), sql));
                assert(views[i] == queries@[i]@);
                Seq::empty()
            }
        },
        Err(_) => Seq::empty(),
    }
}

/// There is a line for every diagnostic.
proof fn lemma_rendered_len(diags: Seq<DiagnosticView>, format: OutputFormat)
    ensures
        all_rendered(diags, format).len() == diags.len(),
{
    if diags.len() > 0 {
        lemma_one_line_for_each_finding(diags, 0);
    }
}

/// [`FixRun::fix`] counts a file that changed, and the queries that changed in it; one that
/// does not parse is counted as skipped, and no other is counted.
pub proof fn lemma_fix_adds_changes(
    run: &mut FixRun,
    path: &str,
    src: &str,
    engine: &SqruffEngine,
    r: Option<FileFix>,
)
    requires
        call_ensures(FixRun::fix, (run, path, src, engine), r),
    ensures
        final(run).check_only == old(run).check_only,
        final(run).only_multiline_raw == old(run).only_multiline_raw,
        match r {
            Some(FileFix::Changed { .. }) => is_sum(
                final(run).changed_files,
                old(run).changed_files as int,
                1,
            ) && final(run).changed_queries >= old(run).changed_queries && final(run).skipped
                == old(run).skipped,
            Some(FileFix::Skipped(_)) => is_sum(final(run).skipped, old(run).skipped as int, 1)
                && final(run).changed_files == old(run).changed_files
                && final(run).changed_queries == old(run).changed_queries,
            _ => *final(run) == *old(run),
        },
{
}

/// A change in one file is still counted after the next.
pub proof fn lemma_next_fix_forgets_nothing(
    run: &mut FixRun,
    path: &str,
    src: &str,
    engine: &SqruffEngine,
    r: Option<FileFix>,
    before: bool,
    after: bool,
)
    requires
        call_ensures(FixRun::fails, (old(run),), before),
        call_ensures(FixRun::fix, (run, path, src, engine), r),
        call_ensures(FixRun::fails, (final(run),), after),
    ensures
        after <==> before || (old(run).check_only && r matches Some(FileFix::Changed { .. })),
{
}

/// What is said of a file with the given queries, and what the run has counted before and
/// after it: the text of a file whose queries changed, all of them, and how many they are;
/// nothing where none changed; and nothing counted where the new text is no Rust.
pub open spec fn hands_out(
    before: FixRun,
    after: FixRun,
    queries: Seq<QueryView>,
    r: FileFix,
    fixed: Seq<Seq<char>>,
    text: Seq<char>,
) -> bool {
    let n = change_count(queries, before.only_multiline_raw, fixed);
    &&& holds_changes(text, queries, before.only_multiline_raw, fixed)
    &&& n == 0 ==> r is Unchanged && after == before
    &&& n > 0 && is_rust(text) ==> (r matches FileFix::Changed { new_src, .. } && new_src@ == text)
        && is_sum(after.changed_queries, before.changed_queries as int, n as int)
    &&& n > 0 && !is_rust(text) ==> r is Discarded && after == before
}

/// [`FixRun::fix`] hands out every change in the queries that [`extract_checked`] finds, and
/// counts them.
pub proof fn lemma_fix_hands_out_all(
    run: &mut FixRun,
    path: &str,
    src: &str,
    engine: &SqruffEngine,
    r: FileFix,
    queries: Vec<QueryLiteral>,
)
    requires
        call_ensures(FixRun::fix, (run, path, src, engine), Some(r)),
        call_ensures(extract_checked, (src,), Ok(queries)),
        src@.len() < 0x4000_0000,
    ensures
        exists|fixed: Seq<Seq<char>>, text: Seq<char>|
            hands_out(*old(run), *final(run), query_views(queries@), r, fixed, text),
{
    let views = query_views(queries@);
    let omr = old(run).only_multiline_raw;
    let end = choose|end: Result<FixView, Seq<char>>|
        {
            &&& #[trigger] fix_may_end_in(engine.config(), path@, src@, views, omr, end)
            &&& r@ == file_fix_of(path@, end, old(run).check_only)
            &&& *final(run) == old(run).and_fixed(end)
        };
    let (fixed, text) = lemma_fix_writes_every_change(
        engine.config(),
        path@,
        src@,
        views,
        omr,
        end,
    );
    assert(hands_out(*old(run), *final(run), views, r, fixed, text));
}

/// A check fails on any finding, and a fix that is to write nothing on any changed file.
pub proof fn lemma_fails(check: &CheckRun, b: bool, fix: &FixRun, c: bool)
    requires
        call_ensures(CheckRun::fails, (check,), b),
        call_ensures(FixRun::fails, (fix,), c),
    ensures
        b <==> check.findings != 0,
        c <==> fix.check_only && fix.changed_files != 0,
{
}

/// The last line of a run starts with what it counted.
pub proof fn lemma_summary(check: &CheckRun, line: String, fix: &FixRun, last: String)
    requires
        call_ensures(CheckRun::summary, (check,), line),
        call_ensures(FixRun::summary, (fix,), last),
    ensures
        line@ == decimal(check.findings as nat) + " finding(s); "@ + decimal(check.skipped as nat)
            + " file(s) skipped (unparsable Rust)."@,
        last@ == decimal(fix.changed_queries as nat) + " query(ies) in "@ + decimal(
            fix.changed_files as nat,
        ) + " file(s); "@ + decimal(fix.skipped as nat) + " file(s) skipped (unparsable Rust)."@,
{
}

} // verus!
