//! How runs over several files count: what a run says at its end is the sum of what it said
//! of its files, and whether it fails rests on that sum.
use crate::engine::FixView;
use crate::report::{is_sum, CheckRun, FixRun};
use vstd::prelude::*;

verus! {

// ---------------------------------------------------------------------------
// Checks
// ---------------------------------------------------------------------------

/// A check after the given files: `Some(n)` is one with `n` findings, and `None` one that
/// was skipped.
pub open spec fn after_checks(run: CheckRun, files: Seq<Option<nat>>) -> CheckRun
    decreases files.len(),
{
    if files.len() == 0 {
        run
    } else {
        let before = after_checks(run, files.drop_last());
        match files.last() {
            Some(n) => before.and_found(n),
            None => before.and_skipped(),
        }
    }
}

/// The findings of the given files, together.
pub open spec fn total_findings(files: Seq<Option<nat>>) -> nat
    decreases files.len(),
{
    if files.len() == 0 {
        0
    } else {
        (match files[0] {
            Some(n) => n,
            None => 0,
        }) + total_findings(files.skip(1))
    }
}

/// How many of the files were skipped.
pub open spec fn total_skipped(files: Seq<Option<nat>>) -> nat
    decreases files.len(),
{
    if files.len() == 0 {
        0
    } else {
        (if files[0] is None {
            1nat
        } else {
            0nat
        }) + total_skipped(files.skip(1))
    }
}

/// One file more adds to the sums what it holds.
proof fn lemma_one_check_more(files: Seq<Option<nat>>)
    requires
        files.len() > 0,
    ensures
        total_findings(files) == total_findings(files.drop_last()) + match files.last() {
            Some(n) => n,
            None => 0,
        },
        total_skipped(files) == total_skipped(files.drop_last()) + if files.last() is None {
            1nat
        } else {
            0nat
        },
    decreases files.len(),
{
    if files.len() == 1 {
        assert(files.skip(1) =~= Seq::<Option<nat>>::empty());
        assert(files.drop_last() =~= Seq::<Option<nat>>::empty());
    } else {
        lemma_one_check_more(files.skip(1));
        assert(files.skip(1).drop_last() =~= files.drop_last().skip(1));
        assert(files.drop_last()[0] == files[0]);
    }
}

/// A run counts up: after a file with `n` findings there are `n` more, none where `n` is 0,
/// and after one that was skipped there are as many as before. Neither changes anything
/// else, and no count ever falls.
pub proof fn lemma_check_counts_up(run: CheckRun, n: nat)
    ensures
        is_sum(run.and_found(n).findings, run.findings as int, n as int),
        run.and_found(n).findings >= run.findings,
        run.and_found(0) == run,
        run.and_found(n).skipped == run.skipped,
        run.and_found(n).format == run.format,
        is_sum(run.and_skipped().skipped, run.skipped as int, 1),
        run.and_skipped().findings == run.findings,
        run.and_skipped().format == run.format,
{
}

/// What a check counts over its files is the sum of their findings and the number of those
/// that were skipped, up to the largest `usize`.
pub proof fn lemma_check_sums_up(run: CheckRun, files: Seq<Option<nat>>)
    ensures
        is_sum(
            after_checks(run, files).findings,
            run.findings as int,
            total_findings(files) as int,
        ),
        is_sum(after_checks(run, files).skipped, run.skipped as int, total_skipped(files) as int),
        after_checks(run, files).format == run.format,
    decreases files.len(),
{
    if files.len() > 0 {
        lemma_check_sums_up(run, files.drop_last());
        lemma_one_check_more(files);
        let before = after_checks(run, files.drop_last());
        match files.last() {
            Some(n) => lemma_check_counts_up(before, n),
            None => lemma_check_counts_up(before, 0),
        }
    }
}

/// A check that started with no finding fails just where some file had one: a finding is
/// never forgotten, whatever files come after it.
pub proof fn lemma_check_forgets_no_finding(run: CheckRun, files: Seq<Option<nat>>)
    requires
        run.findings == 0,
    ensures
        after_checks(run, files).is_failure() <==> exists|i: int|
            0 <= i < files.len() && (#[trigger] files[i] matches Some(n) && n > 0),
    decreases files.len(),
{
    if files.len() > 0 {
        let init = files.drop_last();
        lemma_check_forgets_no_finding(run, init);
        let before = after_checks(run, init);
        match files.last() {
            Some(n) => lemma_check_counts_up(before, n),
            None => lemma_check_counts_up(before, 0),
        }
        if exists|i: int| 0 <= i < init.len() && (#[trigger] init[i] matches Some(n) && n > 0) {
            let i = choose|i: int|
                0 <= i < init.len() && (#[trigger] init[i] matches Some(n) && n > 0);
            assert(files[i] == init[i]);
        }
        if before.findings == 0 && (files.last() matches Some(n) && n > 0) {
            assert(files[files.len() - 1] matches Some(n) && n > 0);
        }
        if exists|i: int| 0 <= i < files.len() && (#[trigger] files[i] matches Some(n) && n > 0) {
            let i = choose|i: int|
                0 <= i < files.len() && (#[trigger] files[i] matches Some(n) && n > 0);
            if i < init.len() {
                assert(init[i] == files[i]);
            }
        }
    }
}

// ---------------------------------------------------------------------------
// Fixes
// ---------------------------------------------------------------------------

/// How the fix of one file ended: `None` where the file was skipped.
pub type FileEnd = Option<Result<FixView, Seq<char>>>;

/// The file is changed.
pub open spec fn is_changed(end: FileEnd) -> bool {
    end matches Some(Ok(outcome)) && outcome.new_src is Some
}

/// How many of its queries change.
pub open spec fn changed_in(end: FileEnd) -> int {
    match end {
        Some(Ok(outcome)) => if outcome.new_src is Some {
            outcome.queries_changed
        } else {
            0
        },
        _ => 0,
    }
}

/// A fix after files that ended so.
pub open spec fn after_fixes(run: FixRun, files: Seq<FileEnd>) -> FixRun
    decreases files.len(),
{
    if files.len() == 0 {
        run
    } else {
        let before = after_fixes(run, files.drop_last());
        match files.last() {
            Some(end) => before.and_fixed(end),
            None => before.and_skipped(),
        }
    }
}

/// How many of the files are changed.
pub open spec fn total_changed(files: Seq<FileEnd>) -> nat
    decreases files.len(),
{
    if files.len() == 0 {
        0
    } else {
        (if is_changed(files[0]) {
            1nat
        } else {
            0nat
        }) + total_changed(files.skip(1))
    }
}

/// How many queries change in the files, together.
pub open spec fn total_queries(files: Seq<FileEnd>) -> int
    decreases files.len(),
{
    if files.len() == 0 {
        0
    } else {
        changed_in(files[0]) + total_queries(files.skip(1))
    }
}

/// How many of the files were skipped.
pub open spec fn total_passed_over(files: Seq<FileEnd>) -> nat
    decreases files.len(),
{
    if files.len() == 0 {
        0
    } else {
        (if files[0] is None {
            1nat
        } else {
            0nat
        }) + total_passed_over(files.skip(1))
    }
}

/// One file more adds to the sums what it holds.
proof fn lemma_one_fix_more(files: Seq<FileEnd>)
    requires
        files.len() > 0,
    ensures
        total_changed(files) == total_changed(files.drop_last()) + if is_changed(files.last()) {
            1nat
        } else {
            0nat
        },
        total_queries(files) == total_queries(files.drop_last()) + changed_in(files.last()),
        total_passed_over(files) == total_passed_over(files.drop_last())
            + if files.last() is None {
            1nat
        } else {
            0nat
        },
    decreases files.len(),
{
    if files.len() == 1 {
        assert(files.skip(1) =~= Seq::<FileEnd>::empty());
        assert(files.drop_last() =~= Seq::<FileEnd>::empty());
    } else {
        lemma_one_fix_more(files.skip(1));
        assert(files.skip(1).drop_last() =~= files.drop_last().skip(1));
        assert(files.drop_last()[0] == files[0]);
    }
}

/// What a fix counts over its files is how many of them changed, how many queries changed
/// in these, and how many files were skipped, up to the largest `usize`. A file whose fix
/// was discarded counts for nothing, and what the run was asked to do stays as it is.
pub proof fn lemma_fix_sums_up(run: FixRun, files: Seq<FileEnd>)
    requires
        forall|i: int| 0 <= i < files.len() ==> changed_in(#[trigger] files[i]) >= 0,
    ensures
        total_queries(files) >= 0,
        is_sum(
            after_fixes(run, files).changed_files,
            run.changed_files as int,
            total_changed(files) as int,
        ),
        is_sum(
            after_fixes(run, files).changed_queries,
            run.changed_queries as int,
            total_queries(files),
        ),
        is_sum(after_fixes(run, files).skipped, run.skipped as int, total_passed_over(files) as int),
        after_fixes(run, files).check_only == run.check_only,
        after_fixes(run, files).only_multiline_raw == run.only_multiline_raw,
    decreases files.len(),
{
    if files.len() > 0 {
        let init = files.drop_last();
        assert forall|i: int| 0 <= i < init.len() implies changed_in(#[trigger] init[i]) >= 0 by {
            assert(init[i] == files[i]);
        }
        lemma_fix_sums_up(run, init);
        lemma_one_fix_more(files);
        assert(changed_in(files[files.len() - 1]) >= 0);
    }
}

/// A fix that is to write nothing, and started with no changed file, fails just where some
/// file changed: no change goes unnoticed, whatever files come after it. A fix that writes
/// never fails.
pub proof fn lemma_fix_forgets_no_change(run: FixRun, files: Seq<FileEnd>)
    requires
        run.changed_files == 0,
    ensures
        after_fixes(run, files).is_failure() <==> run.check_only && exists|i: int|
            0 <= i < files.len() && is_changed(#[trigger] files[i]),
        after_fixes(run, files).check_only == run.check_only,
        after_fixes(run, files).changed_files > 0 <==> exists|i: int|
            0 <= i < files.len() && is_changed(#[trigger] files[i]),
    decreases files.len(),
{
    if files.len() > 0 {
        let init = files.drop_last();
        lemma_fix_forgets_no_change(run, init);
        if exists|i: int| 0 <= i < init.len() && is_changed(#[trigger] init[i]) {
            let i = choose|i: int| 0 <= i < init.len() && is_changed(#[trigger] init[i]);
            assert(files[i] == init[i]);
        }
        if is_changed(files.last()) {
            assert(is_changed(files[files.len() - 1]));
        }
        if exists|i: int| 0 <= i < files.len() && is_changed(#[trigger] files[i]) {
            let i = choose|i: int| 0 <= i < files.len() && is_changed(#[trigger] files[i]);
            if i < init.len() {
                assert(init[i] == files[i]);
            }
        }
    }
}

} // verus!
