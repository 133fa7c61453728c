//! What a fix does: it fixes every query that it is asked to, and writes every one that
//! changed, each in its place, and nothing else.
use crate::engine::{
    applied, can_fix, edit_of, edits_of, fix_input_of, fix_may_end_in, fixes_may_give,
    lemma_edits_fit, lemma_rightmost, query_fix_may_give, rebuilt, rightmost, spliced, sql_of,
    unparsable_fix, EditView, FixView,
};
use crate::extract::{are_placed, QueryView};
use crate::grammar::is_taken;
use crate::literal::{dedented, parsed_literal, LiteralKind};
use crate::splicing::{edit_from, lemma_every_edit_is_in_place, moved, stands_at};
use crate::sqruff_adapter::{
    fix_may_give, lint_may_return, linted_text, outcome_findings, outcome_text, unfixable,
    FindingView, LintOutcome, LinterConfig,
};
use crate::syntax::{parsed_source, source_fits};
use crate::text::char_at_byte;
use sqruff_lib_core::dialects::init::DialectKind;
use vstd::prelude::*;

verus! {

// ---------------------------------------------------------------------------
// What is fixed
// ---------------------------------------------------------------------------

/// With all literals the fixer gets just what the linter gets. By default it gets of that
/// what stands in raw strings over several lines, and nothing of the rest.
pub proof fn lemma_what_is_fixed(q: QueryView, kind: LiteralKind, content: Seq<char>)
    requires
        parsed_literal(q.text) == Some((kind, content)),
    ensures
        fix_input_of(q, false) == sql_of(q),
        kind is Raw && (exists|i: int| 0 <= i < content.len() && #[trigger] content[i] == '\n')
            ==> fix_input_of(q, true) == sql_of(q),
        kind is Normal || (forall|i: int| 0 <= i < content.len() ==> #[trigger] content[i] != '\n')
            ==> fix_input_of(q, true) is None,
{
    if exists|i: int| 0 <= i < content.len() && #[trigger] content[i] == '\n' {
        assert(content.contains('\n'));
    }
}

/// A fix can be tried on two lists of queries just where it can be on each.
pub proof fn lemma_readiness_adds_up(
    dialect: DialectKind,
    a: Seq<QueryView>,
    b: Seq<QueryView>,
    only_multiline_raw: bool,
)
    ensures
        can_fix(dialect, a + b, only_multiline_raw) <==> can_fix(dialect, a, only_multiline_raw)
            && can_fix(dialect, b, only_multiline_raw),
{
    let all = a + b;
    if can_fix(dialect, all, only_multiline_raw) {
        assert forall|i: int| 0 <= i < a.len() implies (fix_input_of(
            #[trigger] a[i],
            only_multiline_raw,
        ) matches Some(sql) ==> is_taken(dialect, sql)) by {
            assert(all[i] == a[i]);
        }
        assert forall|i: int| 0 <= i < b.len() implies (fix_input_of(
            #[trigger] b[i],
            only_multiline_raw,
        ) matches Some(sql) ==> is_taken(dialect, sql)) by {
            assert(all[a.len() + i] == b[i]);
        }
    }
}

/// A fix can be tried on a query just where the query is not fixed, or sqruff can take its
/// SQL.
pub proof fn lemma_readiness_of_one(dialect: DialectKind, q: QueryView, only_multiline_raw: bool)
    ensures
        can_fix(dialect, Seq::empty(), only_multiline_raw),
        can_fix(dialect, seq![q], only_multiline_raw) <==> match fix_input_of(
            q,
            only_multiline_raw,
        ) {
            Some(sql) => is_taken(dialect, sql),
            None => true,
        },
{
    assert(seq![q][0] == q);
}

/// The literal of `q` with the SQL that the fixer gave.
pub open spec fn new_literal(q: QueryView, fixed: Seq<char>) -> Seq<char> {
    match parsed_literal(q.text) {
        Some((kind, content)) => rebuilt(kind, content, fixed),
        None => q.text,
    }
}

/// The query is fixed, its SQL changed, and with it the literal.
pub open spec fn changes(q: QueryView, only_multiline_raw: bool, fixed: Seq<char>) -> bool {
    &&& fix_input_of(q, only_multiline_raw) matches Some(sql) && fixed != sql
    &&& new_literal(q, fixed) != q.text
}

/// The edit that puts the new literal in the place of the old one.
pub open spec fn replacement(q: QueryView, fixed: Seq<char>) -> EditView {
    EditView { start: q.start_byte, end: q.end_byte, text: new_literal(q, fixed) }
}

/// The edits for two lists of queries are those for the first and then those for the
/// second: no query has a say in what becomes of another.
pub proof fn lemma_edits_add_up(
    a: Seq<QueryView>,
    b: Seq<QueryView>,
    only_multiline_raw: bool,
    fa: Seq<Seq<char>>,
    fb: Seq<Seq<char>>,
)
    requires
        fa.len() == a.len(),
        fb.len() == b.len(),
    ensures
        edits_of(a + b, only_multiline_raw, fa + fb) == edits_of(a, only_multiline_raw, fa)
            + edits_of(b, only_multiline_raw, fb),
    decreases b.len(),
{
    if b.len() == 0 {
        assert(a + b =~= a);
        assert(fa + fb =~= fa);
        assert(edits_of(a, only_multiline_raw, fa) + edits_of(b, only_multiline_raw, fb)
            =~= edits_of(a, only_multiline_raw, fa));
    } else {
        lemma_edits_add_up(a, b.drop_last(), only_multiline_raw, fa, fb.drop_last());
        assert((a + b).drop_last() =~= a + b.drop_last());
        assert((fa + fb).drop_last() =~= fa + fb.drop_last());
        assert((a + b).last() == b.last());
        assert((fa + fb).last() == fb.last());
        assert(edits_of(a + b, only_multiline_raw, fa + fb) =~= edits_of(a, only_multiline_raw, fa)
            + edits_of(b, only_multiline_raw, fb));
    }
}

/// One query is edited just where it changes, and the edit puts the new literal in the
/// place of the old one.
pub proof fn lemma_edit_of_one(q: QueryView, only_multiline_raw: bool, fixed: Seq<char>)
    ensures
        edits_of(seq![q], only_multiline_raw, seq![fixed]) == if changes(
            q,
            only_multiline_raw,
            fixed,
        ) {
            seq![replacement(q, fixed)]
        } else {
            Seq::<EditView>::empty()
        },
{
    assert(seq![q].drop_last() =~= Seq::<QueryView>::empty());
    assert(seq![fixed].drop_last() =~= Seq::<Seq<char>>::empty());
    assert(edits_of(Seq::empty(), only_multiline_raw, Seq::empty()) =~= Seq::<EditView>::empty());
    if let Some((kind, content)) = parsed_literal(q.text) {
        if let Some(sql) = fix_input_of(q, only_multiline_raw) {
            assert(sql == dedented(content));
        }
    }
    assert(edits_of(seq![q], only_multiline_raw, seq![fixed]) =~= match edit_of(
        q,
        only_multiline_raw,
        fixed,
    ) {
        Some(e) => seq![e],
        None => Seq::<EditView>::empty(),
    });
}

/// Every query that changes is edited, however many there are and whatever the change is:
/// one of the edits puts its new literal in the place of the old one.
pub proof fn lemma_every_changed_query_is_edited(
    queries: Seq<QueryView>,
    only_multiline_raw: bool,
    fixed: Seq<Seq<char>>,
    i: int,
) -> (k: int)
    requires
        fixed.len() == queries.len(),
        0 <= i < queries.len(),
        changes(queries[i], only_multiline_raw, fixed[i]),
    ensures
        0 <= k < edits_of(queries, only_multiline_raw, fixed).len(),
        edits_of(queries, only_multiline_raw, fixed)[k] == replacement(queries[i], fixed[i]),
{
    let one = seq![queries[i]];
    let f = seq![fixed[i]];
    let first = edits_of(queries.take(i), only_multiline_raw, fixed.take(i));
    lemma_edit_of_one(queries[i], only_multiline_raw, fixed[i]);
    lemma_edits_add_up(queries.take(i), one, only_multiline_raw, fixed.take(i), f);
    lemma_edits_add_up(
        queries.take(i) + one,
        queries.skip(i + 1),
        only_multiline_raw,
        fixed.take(i) + f,
        fixed.skip(i + 1),
    );
    assert(queries =~= queries.take(i) + one + queries.skip(i + 1));
    assert(fixed =~= fixed.take(i) + f + fixed.skip(i + 1));
    first.len() as int
}

/// There are no other edits: each puts the new literal of a query that changes in its
/// place.
pub proof fn lemma_every_edit_is_of_a_changed_query(
    queries: Seq<QueryView>,
    only_multiline_raw: bool,
    fixed: Seq<Seq<char>>,
    k: int,
) -> (i: int)
    requires
        fixed.len() == queries.len(),
        0 <= k < edits_of(queries, only_multiline_raw, fixed).len(),
    ensures
        0 <= i < queries.len(),
        changes(queries[i], only_multiline_raw, fixed[i]),
        edits_of(queries, only_multiline_raw, fixed)[k] == replacement(queries[i], fixed[i]),
    decreases queries.len(),
{
    let init = queries.drop_last();
    let f = fixed.drop_last();
    let n = queries.len() - 1;
    let before = edits_of(init, only_multiline_raw, f);
    lemma_edit_of_one(queries.last(), only_multiline_raw, fixed.last());
    lemma_edits_add_up(init, seq![queries.last()], only_multiline_raw, f, seq![fixed.last()]);
    assert(queries =~= init + seq![queries.last()]);
    assert(fixed =~= f + seq![fixed.last()]);
    if k < before.len() {
        let i = lemma_every_edit_is_of_a_changed_query(init, only_multiline_raw, f, k);
        assert(init[i] == queries[i]);
        assert(f[i] == fixed[i]);
        i
    } else {
        n
    }
}

/// How many queries change.
pub open spec fn change_count(
    queries: Seq<QueryView>,
    only_multiline_raw: bool,
    fixed: Seq<Seq<char>>,
) -> nat
    decreases queries.len(),
{
    if queries.len() == 0 {
        0
    } else {
        (if changes(queries[0], only_multiline_raw, fixed[0]) {
            1nat
        } else {
            0nat
        }) + change_count(queries.skip(1), only_multiline_raw, fixed.skip(1))
    }
}

/// There are as many edits as queries that change.
pub proof fn lemma_one_edit_for_each_change(
    queries: Seq<QueryView>,
    only_multiline_raw: bool,
    fixed: Seq<Seq<char>>,
)
    requires
        fixed.len() == queries.len(),
    ensures
        edits_of(queries, only_multiline_raw, fixed).len() == change_count(
            queries,
            only_multiline_raw,
            fixed,
        ),
    decreases queries.len(),
{
    if queries.len() > 0 {
        let one = seq![queries[0]];
        let f = seq![fixed[0]];
        lemma_one_edit_for_each_change(queries.skip(1), only_multiline_raw, fixed.skip(1));
        lemma_edit_of_one(queries[0], only_multiline_raw, fixed[0]);
        lemma_edits_add_up(one, queries.skip(1), only_multiline_raw, f, fixed.skip(1));
        assert(queries =~= one + queries.skip(1));
        assert(fixed =~= f + fixed.skip(1));
    }
}

// ---------------------------------------------------------------------------
// What is written
// ---------------------------------------------------------------------------

/// An edit that starts after all others leaves what they make of the text before it, puts
/// its own text behind that, and then what it does not replace.
pub proof fn lemma_last_edit_is_spliced(src: Seq<char>, edits: Seq<EditView>, e: EditView)
    requires
        forall|i: int| 0 <= i < edits.len() ==> (#[trigger] edits[i]).start < e.start,
    ensures
        spliced(src, edits.push(e)) == spliced(
            src.take(char_at_byte(src, e.start).unwrap()),
            edits,
        ) + e.text + src.skip(char_at_byte(src, e.end).unwrap()),
        spliced(src, Seq::empty()) == src,
{
    let all = edits.push(e);
    lemma_rightmost(all);
    let k = rightmost(all);
    if k < edits.len() {
        assert(all[k] == edits[k]);
        assert(all[edits.len() as int].start <= all[k].start);
    }
    assert(all.remove(k) =~= edits);
}

/// `text` holds the new literal of every query that changes.
pub open spec fn holds_changes(
    text: Seq<char>,
    queries: Seq<QueryView>,
    only_multiline_raw: bool,
    fixed: Seq<Seq<char>>,
) -> bool {
    forall|i: int|
        0 <= i < queries.len() && changes(#[trigger] queries[i], only_multiline_raw, fixed[i])
            ==> exists|at: int| #[trigger] stands_at(text, new_literal(queries[i], fixed[i]), at)
}

/// `fixed` is an answer of the fixer to `sql`: the text of a run of sqruff that was asked
/// to fix it, or `sql` itself where the run failed.
pub open spec fn is_answer(config: LinterConfig, sql: Seq<char>, fixed: Seq<char>) -> bool {
    exists|outcome: LintOutcome| #[trigger]
        lint_may_return(config, sql, true, outcome) && fixed == match outcome {
            Ok(linted) => linted_text(linted),
            Err(_) => sql,
        }
}

/// A text that can be read, and parses.
pub open spec fn is_rust(text: Seq<char>) -> bool {
    source_fits(text) && parsed_source(text) is Ok
}

/// A fix writes all that changed. There is an answer of the fixer for every query, such
/// that the outcome is this: nothing new where no query changes; and otherwise a text with
/// the new literal of every query that changes, and how many they are, or, where that text
/// is no Rust, a message in its place. No change is dropped.
pub proof fn lemma_fix_writes_every_change(
    config: LinterConfig,
    path: Seq<char>,
    src: Seq<char>,
    queries: Seq<QueryView>,
    only_multiline_raw: bool,
    r: Result<FixView, Seq<char>>,
) -> (answer: (Seq<Seq<char>>, Seq<char>))
    requires
        are_placed(src, queries),
        fix_may_end_in(config, path, src, queries, only_multiline_raw, r),
    ensures
        answer.0.len() == queries.len(),
        forall|i: int|
            0 <= i < queries.len() ==> (fix_input_of(
                #[trigger] queries[i],
                only_multiline_raw,
            ) matches Some(sql) ==> is_answer(config, sql, answer.0[i])),
        ({
            let (fixed, text) = answer;
            let n = change_count(queries, only_multiline_raw, fixed);
            &&& holds_changes(text, queries, only_multiline_raw, fixed)
            &&& n == 0 ==> text == src && r == Ok::<FixView, Seq<char>>(
                FixView { new_src: None, queries_changed: 0 },
            )
            &&& n > 0 && is_rust(text) ==> r == Ok::<FixView, Seq<char>>(
                FixView { new_src: Some(text), queries_changed: n as int },
            )
            &&& n > 0 && !is_rust(text) ==> r == Err::<FixView, Seq<char>>(unparsable_fix(path))
        }),
{
    let fixed = choose|fixed: Seq<Seq<char>>| #[trigger]
        fixes_may_give(config, queries, only_multiline_raw, fixed) && r == applied(
            path,
            src,
            edits_of(queries, only_multiline_raw, fixed),
        );
    let edits = edits_of(queries, only_multiline_raw, fixed);
    let text = spliced(src, edits);
    assert forall|i: int| 0 <= i < queries.len() implies (fix_input_of(
        #[trigger] queries[i],
        only_multiline_raw,
    ) matches Some(sql) ==> is_answer(config, sql, fixed[i])) by {
        assert(query_fix_may_give(config, queries[i], only_multiline_raw, fixed[i]));
        if let Some(sql) = fix_input_of(queries[i], only_multiline_raw) {
            let residual = choose|residual: Seq<FindingView>|
                fix_may_give(config, sql, fixed[i], residual);
            let outcome = choose|outcome: LintOutcome| #[trigger]
                lint_may_return(config, sql, true, outcome) && fixed[i] == outcome_text(
                    outcome,
                    sql,
                ) && residual == unfixable(outcome_findings(outcome));
            assert(lint_may_return(config, sql, true, outcome));
        }
    }
    lemma_one_edit_for_each_change(queries, only_multiline_raw, fixed);
    lemma_edits_fit(src, queries, only_multiline_raw, fixed);
    assert(holds_changes(text, queries, only_multiline_raw, fixed)) by {
        assert forall|i: int|
            0 <= i < queries.len() && changes(
                #[trigger] queries[i],
                only_multiline_raw,
                fixed[i],
            ) implies exists|at: int| #[trigger]
            stands_at(text, new_literal(queries[i], fixed[i]), at) by {
            let k = lemma_every_changed_query_is_edited(queries, only_multiline_raw, fixed, i);
            lemma_every_edit_is_in_place(src, edits, k);
            let at = edit_from(src, edits[k]) + moved(src, edits, edit_from(src, edits[k]));
            assert(stands_at(text, new_literal(queries[i], fixed[i]), at));
        }
    }
    (fixed, text)
}

} // verus!
