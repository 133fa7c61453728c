//! What a check does: it lints every query, and reports every finding, each once, with the
//! words of the linter and the place in the file.
use crate::blocks::{
    are_feeds, are_sql_lines, block, is_indent, lemma_block, lemma_block_is_dedented,
    start_at_margin,
};
use crate::diagnostic::DiagnosticView;
use crate::engine::{
    all_diagnostics, can_check, check_may_report, content_row, diagnostic_of, lints_may_find,
    query_diagnostics, sql_of,
};
use crate::extract::{lemma_count_newlines_zero, QueryView};
use crate::grammar::is_taken;
use crate::literal::{
    indent_of, leading_frame, parsed_literal, raw_literal, shared_indent, LiteralKind,
};
use crate::location::lemma_diagnostic_of_string_is_on_literal;
use crate::roundtrip::{lemma_raw_literal_reads_back, lemma_string_without_escapes};
use crate::sqruff_adapter::{
    lint_may_find, lint_may_return, linted_violations, outcome_findings, unfixable, FindingView,
    LintOutcome, LinterConfig,
};
use crate::text::{
    is_blank, is_white_space, lemma_run_len, lemma_run_len_is, lines, newline, not_newline, run_len,
    white,
};
use sqruff_lib_core::dialects::init::DialectKind;
use sqruff_lib_core::errors::SQLBaseError;
use vstd::prelude::*;

verus! {

// ---------------------------------------------------------------------------
// Findings
// ---------------------------------------------------------------------------

/// `f` tells of the violation `e`: with the code of its rule, its description, its line,
/// and its column counted from 0.
pub open spec fn tells_of(f: FindingView, e: SQLBaseError) -> bool {
    &&& f.code == match e.rule {
        Some(rule) => rule.code@,
        None => "????"@,
    }
    &&& f.desc == e.description@
    &&& f.line == e.line_no
    &&& e.line_pos > 0 ==> f.col + 1 == e.line_pos
    &&& e.line_pos == 0 ==> f.col == 0
    &&& f.fixable == e.fixable
}

/// The findings of a run of the linter tell of its violations, one for one and in their
/// order; a run that failed gives none.
pub open spec fn tell_of_run(found: Seq<FindingView>, outcome: LintOutcome) -> bool {
    match outcome {
        Ok(linted) => {
            &&& found.len() == linted_violations(linted).len()
            &&& forall|j: int|
                0 <= j < found.len() ==> tells_of(
                    #[trigger] found[j],
                    linted_violations(linted)[j],
                )
        },
        Err(_) => found.len() == 0,
    }
}

/// The findings that are left over after a fix, of two lists: those of the first and then
/// those of the second.
pub proof fn lemma_residuals_add_up(a: Seq<FindingView>, b: Seq<FindingView>)
    ensures
        unfixable(a + b) == unfixable(a) + unfixable(b),
    decreases b.len(),
{
    if b.len() == 0 {
        assert(a + b =~= a);
        assert(unfixable(a) + unfixable(b) =~= unfixable(a));
    } else {
        lemma_residuals_add_up(a, b.drop_last());
        assert((a + b).drop_last() =~= a + b.drop_last());
        assert((a + b).last() == b.last());
        assert(unfixable(a + b) =~= unfixable(a) + unfixable(b));
    }
}

/// A finding is left over after a fix just where it is not marked as fixable.
pub proof fn lemma_residual_of_one(f: FindingView)
    ensures
        unfixable(seq![f]) == if f.fixable {
            Seq::<FindingView>::empty()
        } else {
            seq![f]
        },
{
    assert(seq![f].drop_last() =~= Seq::<FindingView>::empty());
    assert(unfixable(Seq::empty()) =~= Seq::<FindingView>::empty());
    assert(Seq::<FindingView>::empty().push(f) =~= seq![f]);
}

// ---------------------------------------------------------------------------
// Readiness
// ---------------------------------------------------------------------------

/// Two lists of queries can be checked just where each can be.
pub proof fn lemma_readiness_adds_up(dialect: DialectKind, a: Seq<QueryView>, b: Seq<QueryView>)
    ensures
        can_check(dialect, a + b) <==> can_check(dialect, a) && can_check(dialect, b),
{
    let all = a + b;
    if can_check(dialect, all) {
        assert forall|i: int| 0 <= i < a.len() implies (sql_of(#[trigger] a[i]) matches Some(sql)
            ==> is_taken(dialect, sql)) by {
            assert(all[i] == a[i]);
        }
        assert forall|i: int| 0 <= i < b.len() implies (sql_of(#[trigger] b[i]) matches Some(sql)
            ==> is_taken(dialect, sql)) by {
            assert(all[a.len() + i] == b[i]);
        }
    }
}

/// A query can be checked just where it is not linted, or sqruff can take its SQL.
pub proof fn lemma_readiness_of_one(dialect: DialectKind, q: QueryView)
    ensures
        can_check(dialect, Seq::empty()),
        can_check(dialect, seq![q]) <==> match sql_of(q) {
            Some(sql) => is_taken(dialect, sql),
            None => true,
        },
{
    assert(seq![q][0] == q);
}

// ---------------------------------------------------------------------------
// Diagnostics
// ---------------------------------------------------------------------------

/// The diagnostics of two lists of queries are those of the first and then those of the
/// second: no query has a say in what is reported of another.
pub proof fn lemma_diagnostics_add_up(
    path: Seq<char>,
    a: Seq<QueryView>,
    b: Seq<QueryView>,
    fa: Seq<Seq<FindingView>>,
    fb: Seq<Seq<FindingView>>,
)
    requires
        fa.len() == a.len(),
        fb.len() == b.len(),
    ensures
        all_diagnostics(path, a + b, fa + fb) == all_diagnostics(path, a, fa) + all_diagnostics(
            path,
            b,
            fb,
        ),
    decreases b.len(),
{
    if b.len() == 0 {
        assert(a + b =~= a);
        assert(fa + fb =~= fa);
        assert(all_diagnostics(path, a, fa) + all_diagnostics(path, b, fb) =~= all_diagnostics(
            path,
            a,
            fa,
        ));
    } else {
        lemma_diagnostics_add_up(path, a, b.drop_last(), fa, fb.drop_last());
        assert((a + b).drop_last() =~= a + b.drop_last());
        assert((fa + fb).drop_last() =~= fa + fb.drop_last());
        assert((a + b).last() == b.last());
        assert((fa + fb).last() == fb.last());
        assert(all_diagnostics(path, a + b, fa + fb) =~= all_diagnostics(path, a, fa)
            + all_diagnostics(path, b, fb));
    }
}

/// `d` reports the finding `f` in the file at `path`, in the words of the linter.
pub open spec fn reports(d: DiagnosticView, path: Seq<char>, f: FindingView) -> bool {
    d.file == path && d.code == f.code && d.message == f.desc
}

/// One of the diagnostics reports the finding.
pub open spec fn is_reported(diags: Seq<DiagnosticView>, path: Seq<char>, f: FindingView) -> bool {
    exists|k: int| 0 <= k < diags.len() && reports(#[trigger] diags[k], path, f)
}

/// Every finding in the SQL of a query that is linted is reported, one diagnostic for each
/// and in their order; of a query that is not linted nothing is.
pub proof fn lemma_diagnostics_of_one(path: Seq<char>, q: QueryView, found: Seq<FindingView>)
    ensures
        ({
            let diags = all_diagnostics(path, seq![q], seq![found]);
            &&& sql_of(q) is Some ==> diags.len() == found.len() && forall|j: int|
                0 <= j < found.len() ==> reports(#[trigger] diags[j], path, found[j])
            &&& sql_of(q) is None ==> diags.len() == 0
        }),
{
    assert(seq![q].drop_last() =~= Seq::<QueryView>::empty());
    assert(seq![found].drop_last() =~= Seq::<Seq<FindingView>>::empty());
    assert(all_diagnostics(path, Seq::empty(), Seq::empty()) =~= Seq::<DiagnosticView>::empty());
    assert(all_diagnostics(path, seq![q], seq![found]) =~= query_diagnostics(path, q, found));
}

/// Every finding in the SQL of every query that is linted is reported.
pub proof fn lemma_every_finding_is_reported(
    path: Seq<char>,
    queries: Seq<QueryView>,
    found: Seq<Seq<FindingView>>,
    i: int,
    j: int,
) -> (k: int)
    requires
        found.len() == queries.len(),
        0 <= i < queries.len(),
        sql_of(queries[i]) is Some,
        0 <= j < found[i].len(),
    ensures
        0 <= k < all_diagnostics(path, queries, found).len(),
        reports(all_diagnostics(path, queries, found)[k], path, found[i][j]),
{
    let one = seq![queries[i]];
    let f = seq![found[i]];
    let first = all_diagnostics(path, queries.take(i), found.take(i));
    lemma_diagnostics_of_one(path, queries[i], found[i]);
    lemma_diagnostics_add_up(path, queries.take(i), one, found.take(i), f);
    lemma_diagnostics_add_up(
        path,
        queries.take(i) + one,
        queries.skip(i + 1),
        found.take(i) + f,
        found.skip(i + 1),
    );
    assert(queries =~= queries.take(i) + one + queries.skip(i + 1));
    assert(found =~= found.take(i) + f + found.skip(i + 1));
    let k = first.len() + j;
    assert(all_diagnostics(path, queries, found)[k] == all_diagnostics(path, one, f)[j]);
    k
}

/// How many findings there are in the SQL of the queries that are linted.
pub open spec fn finding_count(queries: Seq<QueryView>, found: Seq<Seq<FindingView>>) -> nat
    decreases queries.len(),
{
    if queries.len() == 0 {
        0
    } else {
        (if sql_of(queries[0]) is Some {
            found[0].len()
        } else {
            0
        }) + finding_count(queries.skip(1), found.skip(1))
    }
}

/// There are as many diagnostics as findings.
pub proof fn lemma_one_diagnostic_for_each_finding(
    path: Seq<char>,
    queries: Seq<QueryView>,
    found: Seq<Seq<FindingView>>,
)
    requires
        found.len() == queries.len(),
    ensures
        all_diagnostics(path, queries, found).len() == finding_count(queries, found),
    decreases queries.len(),
{
    if queries.len() > 0 {
        let one = seq![queries[0]];
        let f = seq![found[0]];
        lemma_one_diagnostic_for_each_finding(path, queries.skip(1), found.skip(1));
        lemma_diagnostics_of_one(path, queries[0], found[0]);
        lemma_diagnostics_add_up(path, one, queries.skip(1), f, found.skip(1));
        assert(queries =~= one + queries.skip(1));
        assert(found =~= f + found.skip(1));
    }
}

/// `found` is what a run of the linter on `sql` gave.
pub open spec fn is_lint_of(config: LinterConfig, sql: Seq<char>, found: Seq<FindingView>) -> bool {
    exists|outcome: LintOutcome| #[trigger]
        lint_may_return(config, sql, false, outcome) && tell_of_run(found, outcome)
}

/// A check reports all that the linter finds. There is an answer of the linter for every
/// query that has SQL to lint, such that each finding is reported, and there are as many
/// diagnostics as findings.
pub proof fn lemma_check_reports_every_finding(
    config: LinterConfig,
    path: Seq<char>,
    queries: Seq<QueryView>,
    diags: Seq<DiagnosticView>,
) -> (found: Seq<Seq<FindingView>>)
    requires
        check_may_report(config, path, queries, diags),
    ensures
        found.len() == queries.len(),
        forall|i: int|
            0 <= i < queries.len() ==> (sql_of(#[trigger] queries[i]) matches Some(sql)
                ==> is_lint_of(config, sql, found[i])),
        forall|i: int, j: int|
            0 <= i < queries.len() && sql_of(queries[i]) is Some && 0 <= j < found[i].len()
                ==> is_reported(diags, path, #[trigger] found[i][j]),
        diags.len() == finding_count(queries, found),
{
    let found = choose|found: Seq<Seq<FindingView>>| #[trigger]
        lints_may_find(config, queries, found) && diags == all_diagnostics(path, queries, found);
    assert forall|i: int| 0 <= i < queries.len() implies (sql_of(
        #[trigger] queries[i],
    ) matches Some(sql) ==> is_lint_of(config, sql, found[i])) by {
        if let Some(sql) = sql_of(queries[i]) {
            assert(lint_may_find(config, sql, found[i]));
            let outcome = choose|outcome: LintOutcome|
                #[trigger] lint_may_return(config, sql, false, outcome) && found[i]
                    == outcome_findings(outcome);
            assert(tell_of_run(found[i], outcome));
        }
    }
    assert forall|i: int, j: int|
        0 <= i < queries.len() && sql_of(queries[i]) is Some && 0 <= j
            < found[i].len() implies is_reported(diags, path, #[trigger] found[i][j]) by {
        let k = lemma_every_finding_is_reported(path, queries, found, i, j);
        assert(reports(diags[k], path, found[i][j]));
    }
    lemma_one_diagnostic_for_each_finding(path, queries, found);
    found
}

/// Where a finding in a block of SQL is reported: as many lines below the one where the
/// literal starts as there are line feeds before the SQL and lines of SQL before the
/// finding, and as many columns to the right as the indent is wide.
pub proof fn lemma_place_of_finding(
    path: Seq<char>,
    q: QueryView,
    hashes: usize,
    lead: Seq<char>,
    ls: Seq<Seq<char>>,
    indent: Seq<char>,
    end: Seq<char>,
    f: FindingView,
)
    requires
        are_feeds(lead),
        are_sql_lines(ls),
        start_at_margin(ls),
        is_indent(indent),
        is_blank(end),
        q.text == raw_literal(hashes as nat, block(lead, ls, indent, end)),
        f.line > 0,
        q.line + lead.len() + f.line <= usize::MAX,
        f.col + indent.len() + 1 <= usize::MAX,
    ensures
        ({
            let d = diagnostic_of(path, q, block(lead, ls, indent, end), f);
            &&& d.line == q.line + lead.len() + f.line - 1
            &&& d.col == f.col + indent.len() + 1
            &&& reports(d, path, f)
        }),
{
    let content = block(lead, ls, indent, end);
    lemma_raw_literal_reads_back(hashes, content);
    lemma_block_is_dedented(lead, ls, indent, end);
    lemma_block(lead, ls, indent, end);
    assert(leading_frame(content) == lead);
    lemma_run_len(content, newline());
    assert(run_len(content, newline()) == lead.len());
    assert(content_row(content, f) == lead.len() + f.line - 1);
}

/// A finding without a line is reported where one on the first line of the SQL is.
pub proof fn lemma_place_without_line(
    path: Seq<char>,
    q: QueryView,
    content: Seq<char>,
    f: FindingView,
)
    requires
        f.line == 0,
    ensures
        diagnostic_of(path, q, content, f) == diagnostic_of(
            path,
            q,
            content,
            FindingView { line: 1, ..f },
        ),
{
}

/// Where a finding in a string on one line is reported: on that line, and as many columns to
/// the right of the string's content as there is white space before the SQL.
pub proof fn lemma_place_in_string(
    path: Seq<char>,
    q: QueryView,
    space: Seq<char>,
    t: Seq<char>,
    f: FindingView,
)
    requires
        q.text == seq!['"'] + space + t + seq!['"'],
        is_blank(space),
        t.len() > 0,
        !is_white_space(t[0]),
        forall|i: int| 0 <= i < q.text.len() ==> #[trigger] q.text[i] != '\\' && q.text[i] != '\n',
        0 <= q.line <= usize::MAX,
        f.col + space.len() + 1 <= usize::MAX,
    ensures
        parsed_literal(q.text) == Some((LiteralKind::Normal, space + t)),
        ({
            let d = diagnostic_of(path, q, space + t, f);
            &&& d.line == q.line
            &&& d.col == f.col + space.len() + 1
            &&& reports(d, path, f)
        }),
{
    let content = space + t;
    assert(q.text =~= seq!['"'] + content + seq!['"']);
    assert forall|i: int| 0 <= i < content.len() implies #[trigger] content[i] != '\\' by {
        assert(content[i] == q.text[i + 1]);
    }
    lemma_string_without_escapes(content);
    lemma_diagnostic_of_string_is_on_literal(path, q, content, f);
    lemma_count_newlines_zero(q.text);
    assert forall|i: int| 0 <= i < content.len() implies not_newline()(#[trigger] content[i]) by {
        assert(content[i] == q.text[i + 1]);
    }
    lemma_run_len_is(content, not_newline(), content.len());
    assert(lines(content) =~= seq![content]);
    assert(content[space.len() as int] == t[0]);
    lemma_run_len_is(content, white(), space.len());
    assert(!is_blank(content));
    assert(seq![content].drop_last() =~= Seq::<Seq<char>>::empty());
    assert(shared_indent(Seq::empty()) is None);
    assert(indent_of(content) =~= space);
    assert(shared_indent(lines(content)) == Some(space));
}

} // verus!
