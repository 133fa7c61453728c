//! What is said: each finding in a line that can be read back, each query of a listing in
//! one entry, and each count in decimal.
use crate::diagnostic::{json_quoted, DiagnosticView};
use crate::engine::{dumped, unparsable_fix, FixView};
use crate::extract::QueryView;
use crate::literal::{dedented, parsed_literal};
use crate::report::{
    all_rendered, change_message, dump_entries, file_fix_of, places, skip_warning, CheckRun,
    FileFixView, FixRun, OutputFormat,
};
use crate::text::{decimal, lemma_run_len_is, lines, not_newline, strip_cr};
use vstd::prelude::*;

verus! {

// ---------------------------------------------------------------------------
// Numbers
// ---------------------------------------------------------------------------

/// Being a decimal digit.
pub open spec fn is_decimal_digit(c: char) -> bool {
    '0' <= c <= '9'
}

/// The number that digits stand for.
pub open spec fn number_of(s: Seq<char>) -> int
    decreases s.len(),
{
    if s.len() == 0 {
        0
    } else {
        number_of(s.drop_last()) * 10 + (s.last() as int - '0' as int)
    }
}

/// A number in decimal reads back as the number: it is made of digits, and starts with a
/// zero only where it is that zero.
pub proof fn lemma_decimal_reads_back(n: nat)
    ensures
        decimal(n).len() > 0,
        forall|i: int| 0 <= i < decimal(n).len() ==> is_decimal_digit(#[trigger] decimal(n)[i]),
        number_of(decimal(n)) == n,
        decimal(n)[0] == '0' ==> n == 0 && decimal(n).len() == 1,
    decreases n,
{
    let s = decimal(n);
    if n < 10 {
        assert(s.drop_last() =~= Seq::<char>::empty());
        assert(number_of(s.drop_last()) == 0);
    } else {
        let m = n / 10;
        lemma_decimal_reads_back(m);
        assert(s.drop_last() =~= decimal(m));
        assert(s[0] == decimal(m)[0]);
        assert forall|i: int| 0 <= i < s.len() implies is_decimal_digit(#[trigger] s[i]) by {
            if i < decimal(m).len() {
                assert(s[i] == decimal(m)[i]);
            }
        }
    }
}

// ---------------------------------------------------------------------------
// Findings
// ---------------------------------------------------------------------------

/// A finding for a human is `path:line:col: CODE message`.
pub proof fn lemma_human_line(d: DiagnosticView)
    ensures
        d.human() == d.file + ":"@ + decimal(d.line as nat) + ":"@ + decimal(d.col as nat) + ": "@
            + d.code + " "@ + d.message,
{
    reveal_strlit(":");
    reveal_strlit(": ");
    reveal_strlit(" ");
    assert(":"@ =~= seq![':']);
    assert(": "@ =~= seq![':', ' ']);
    assert(" "@ =~= seq![' ']);
}

/// A member of a JSON object.
pub open spec fn member(name: Seq<char>, value: Seq<char>) -> Seq<char> {
    seq!['"'] + name + seq!['"', ':'] + value
}

/// A finding for a machine is a JSON object with its five parts: the texts quoted, and the
/// numbers in decimal. (What is quoted reads back as it was, and the object is one line.)
pub proof fn lemma_json_object(d: DiagnosticView)
    ensures
        d.json() == seq!['{'] + member("file"@, json_quoted(d.file)) + seq![','] + member(
            "line"@,
            decimal(d.line as nat),
        ) + seq![','] + member("col"@, decimal(d.col as nat)) + seq![','] + member(
            "code"@,
            json_quoted(d.code),
        ) + seq![','] + member("message"@, json_quoted(d.message)) + seq!['}'],
{
    reveal_strlit("file");
    reveal_strlit("line");
    reveal_strlit("col");
    reveal_strlit("code");
    reveal_strlit("message");
    reveal_strlit("{\"file\":");
    reveal_strlit(",\"line\":");
    reveal_strlit(",\"col\":");
    reveal_strlit(",\"code\":");
    reveal_strlit(",\"message\":");
    reveal_strlit("}");
    let quote = seq!['"'];
    let colon = seq!['"', ':'];
    assert("{\"file\":"@ =~= seq!['{'] + (quote + "file"@ + colon));
    assert(",\"line\":"@ =~= seq![','] + (quote + "line"@ + colon));
    assert(",\"col\":"@ =~= seq![','] + (quote + "col"@ + colon));
    assert(",\"code\":"@ =~= seq![','] + (quote + "code"@ + colon));
    assert(",\"message\":"@ =~= seq![','] + (quote + "message"@ + colon));
    assert("}"@ =~= seq!['}']);
    let goal = seq!['{'] + member("file"@, json_quoted(d.file)) + seq![','] + member(
        "line"@,
        decimal(d.line as nat),
    ) + seq![','] + member("col"@, decimal(d.col as nat)) + seq![','] + member(
        "code"@,
        json_quoted(d.code),
    ) + seq![','] + member("message"@, json_quoted(d.message)) + seq!['}'];
    assert(d.json() =~= goal);
}

/// There is a line for every finding, in their order, in the format that was asked for.
pub proof fn lemma_one_line_for_each_finding(diags: Seq<DiagnosticView>, i: int)
    requires
        0 <= i < diags.len(),
    ensures
        all_rendered(diags, OutputFormat::Human).len() == diags.len(),
        all_rendered(diags, OutputFormat::Json).len() == diags.len(),
        all_rendered(diags, OutputFormat::Human)[i] == diags[i].human(),
        all_rendered(diags, OutputFormat::Json)[i] == diags[i].json(),
{
}

// ---------------------------------------------------------------------------
// Files
// ---------------------------------------------------------------------------

/// A file that does not parse is named in a warning with the first line of the error.
pub proof fn lemma_skip_is_told(path: Seq<char>, first: Seq<char>, rest: Seq<char>)
    requires
        forall|i: int| 0 <= i < first.len() ==> #[trigger] first[i] != '\n',
        first.len() > 0,
        first.last() != '\r',
    ensures
        skip_warning(path, first) == "warning: skipping "@ + path + " (unparsable by syn): "@
            + first,
        skip_warning(path, first + seq!['\n'] + rest) == "warning: skipping "@ + path
            + " (unparsable by syn): "@ + first,
{
    assert forall|i: int| 0 <= i < first.len() implies not_newline()(#[trigger] first[i]) by {}
    lemma_run_len_is(first, not_newline(), first.len());
    assert(lines(first) =~= seq![first]);
    let err = first + seq!['\n'] + rest;
    assert forall|i: int| 0 <= i < first.len() implies not_newline()(#[trigger] err[i]) by {
        assert(err[i] == first[i]);
    }
    assert(err[first.len() as int] == '\n');
    lemma_run_len_is(err, not_newline(), first.len());
    assert(err.take(first.len() as int) =~= first);
    assert(strip_cr(first) == first);
    assert(lines(err)[0] == first);
}

/// An error without a line is told as a parse error.
pub proof fn lemma_skip_without_error_is_told(path: Seq<char>)
    ensures
        skip_warning(path, Seq::empty()) == "warning: skipping "@ + path
            + " (unparsable by syn): "@ + "parse error"@,
{
}

/// A fix that is not written is told with the name of the file.
pub proof fn lemma_discarded_fix_is_told(path: Seq<char>)
    ensures
        unparsable_fix(path) == "fix produced unparsable Rust in "@ + path + "; discarded"@,
{
}

/// What is said of a file whose fix is over: a file that changed comes with its new text,
/// one that did not is left alone, and one whose fix would not parse is not written.
pub proof fn lemma_end_is_told(
    path: Seq<char>,
    new_src: Seq<char>,
    n: nat,
    message: Seq<char>,
    check_only: bool,
)
    ensures
        file_fix_of(
            path,
            Ok::<FixView, Seq<char>>(
                FixView { new_src: Some(new_src), queries_changed: n as int },
            ),
            check_only,
        ) == (FileFixView::Changed { new_src, message: change_message(path, n, check_only) }),
        file_fix_of(
            path,
            Ok::<FixView, Seq<char>>(FixView { new_src: None, queries_changed: n as int }),
            check_only,
        ) is Unchanged,
        file_fix_of(path, Err::<FixView, Seq<char>>(message), check_only)
            == FileFixView::Discarded("warning: "@ + message),
{
}

/// The message for a changed file tells how many of its queries changed, and whether they
/// were written.
pub proof fn lemma_change_is_told(path: Seq<char>, n: nat)
    ensures
        change_message(path, n, true) == "would fix "@ + decimal(n) + " query(ies) in "@ + path,
        change_message(path, n, false) == "fixed "@ + decimal(n) + " query(ies) in "@ + path,
{
}

/// The last line of a check tells its counts, and so does that of a fix.
pub proof fn lemma_counts_are_told(check: CheckRun, fix: FixRun)
    ensures
        check.summed_up() == decimal(check.findings as nat) + " finding(s); "@ + decimal(
            check.skipped as nat,
        ) + " file(s) skipped (unparsable Rust)."@,
        fix.summed_up() == decimal(fix.changed_queries as nat) + " query(ies) in "@ + decimal(
            fix.changed_files as nat,
        ) + " file(s); "@ + decimal(fix.skipped as nat) + " file(s) skipped (unparsable Rust)."@,
{
}

// ---------------------------------------------------------------------------
// Listings
// ---------------------------------------------------------------------------

/// A list has an entry for every query, in their order: `path:line`.
pub proof fn lemma_every_query_is_listed(path: Seq<char>, queries: Seq<QueryView>, i: int)
    requires
        0 <= i < queries.len(),
    ensures
        places(path, queries).len() == queries.len(),
        places(path, queries)[i] == path + ":"@ + decimal(queries[i].line as nat),
{
}

/// A dump of two lists of queries is that of the first and then that of the second.
pub proof fn lemma_dumps_add_up(a: Seq<QueryView>, b: Seq<QueryView>)
    ensures
        dumped(a + b) == dumped(a) + dumped(b),
    decreases b.len(),
{
    if b.len() == 0 {
        assert(a + b =~= a);
        assert(dumped(a) + dumped(b) =~= dumped(a));
    } else {
        lemma_dumps_add_up(a, b.drop_last());
        assert((a + b).drop_last() =~= a + b.drop_last());
        assert((a + b).last() == b.last());
        assert(dumped(a + b) =~= dumped(a) + dumped(b));
    }
}

/// The dump of a query is its line and the SQL in its literal, blank or not; what is no
/// string literal is left out.
pub proof fn lemma_dump_of_one(path: Seq<char>, q: QueryView)
    ensures
        dumped(seq![q]) == match parsed_literal(q.text) {
            Some((_, content)) => seq![(q.line, dedented(content))],
            None => Seq::<(int, Seq<char>)>::empty(),
        },
        parsed_literal(q.text) matches Some((_, content)) ==> dump_entries(
            path,
            dumped(seq![q]),
        ) == seq![
            "----- "@ + path + ":"@ + decimal(q.line as nat) + " -----\n"@ + dedented(content),
        ],
{
    assert(seq![q].drop_last() =~= Seq::<QueryView>::empty());
    assert(dumped(Seq::empty()) =~= Seq::<(int, Seq<char>)>::empty());
    if let Some((_, content)) = parsed_literal(q.text) {
        assert(dumped(seq![q]) =~= seq![(q.line, dedented(content))]);
        let entry = "----- "@ + path + ":"@ + decimal(q.line as nat) + " -----\n"@ + dedented(
            content,
        );
        assert("----- "@ + (path + ":"@ + decimal(q.line as nat)) + " -----\n"@ + dedented(content)
            =~= entry);
        assert(dump_entries(path, dumped(seq![q])) =~= seq![entry]);
    }
}

} // verus!
