//! What is accepted: SQL without the words that lead to a gap of a grammar, dialects in
//! upper and lower case, and configurations made of sections that are accepted each.
use crate::config::{
    is_letter, is_plain_config, is_plain_line, is_setting, is_setting_line, is_skipped,
    is_text_value, not_equals, opened, section_after, trimmed, Section,
};
use crate::grammar::{
    ends_word, holds, holds_both, holds_later, is_taken, is_word_char, reaches_gap,
};
use crate::sqruff_adapter::{dialect_named, has_directive, is_directive, lowered};
use crate::substance::lemma_first_of_lines;
use crate::text::{
    is_white_space, lemma_run_len, lemma_run_len_is, lemma_tail_run_len, lemma_tail_run_len_is,
    lines, not_newline, run_len, strip_cr, trim_end, trim_start, white,
};
use sqruff_lib_core::dialects::init::DialectKind;
use vstd::prelude::*;

verus! {

// ---------------------------------------------------------------------------
// Letters
// ---------------------------------------------------------------------------

/// The letter in lower case, for each of the 26 letters; other characters stay.
pub proof fn lemma_lowered(s: Seq<char>, i: int)
    requires
        0 <= i < s.len(),
    ensures
        lowered(s).len() == s.len(),
        'A' <= s[i] <= 'Z' ==> lowered(s)[i] as int == s[i] as int + ('a' as int - 'A' as int),
        !('A' <= s[i] <= 'Z') ==> lowered(s)[i] == s[i],
{
}

/// Text in lower case has no capital left.
pub proof fn lemma_lowered_twice(s: Seq<char>)
    ensures
        lowered(lowered(s)) == lowered(s),
{
    assert(lowered(lowered(s)) =~= lowered(s));
}

// ---------------------------------------------------------------------------
// SQL
// ---------------------------------------------------------------------------

/// `word` stands nowhere in `sql`, in upper or lower case, not even inside another word.
pub open spec fn lacks(sql: Seq<char>, word: Seq<char>) -> bool {
    forall|at: int|
        0 <= at && at + word.len() <= sql.len() ==> #[trigger] lowered(sql).subrange(
            at,
            at + word.len(),
        ) != word
}

/// No line of `sql` starts with `-- sqlfluff`.
pub open spec fn has_no_directive(sql: Seq<char>) -> bool {
    forall|i: int|
        0 <= i < lines(sql).len() ==> !"-- sqlfluff"@.is_prefix_of(#[trigger] lines(sql)[i])
}

/// What is lacking is not held.
proof fn lemma_lacks(sql: Seq<char>, word: Seq<char>)
    requires
        lacks(sql, word),
    ensures
        !holds(lowered(sql), word),
        forall|w: Seq<char>| !(#[trigger] holds_both(lowered(sql), w, word)),
        forall|w: Seq<char>| !(#[trigger] holds_both(lowered(sql), word, w)),
        !holds_later(lowered(sql), word),
{
    let text = lowered(sql);
    assert forall|at: int| !(#[trigger] ends_word(text, word, at)) by {
        if ends_word(text, word, at) {
            assert(text.subrange(at, at + word.len()) == word);
        }
    }
}

/// In the dialects whose grammar has no gap that can be reached all SQL is taken, but for
/// directives.
pub proof fn lemma_closed_dialects_take_all(dialect: DialectKind, sql: Seq<char>)
    requires
        has_no_directive(sql),
        dialect is Ansi || dialect is Athena || dialect is Clickhouse || dialect is Databricks
            || dialect is Db2 || dialect is Mysql || dialect is Sparksql || dialect is Tsql,
    ensures
        is_taken(dialect, sql),
{
    lemma_no_directive(sql);
}

/// Without lines that are directives there is no directive.
proof fn lemma_no_directive(sql: Seq<char>)
    requires
        has_no_directive(sql),
    ensures
        !has_directive(sql),
{
    if has_directive(sql) {
        let i = choose|i: int|
            0 <= i < lines(sql).len() && is_directive(#[trigger] lines(sql)[i]);
        assert("-- sqlfluff"@.is_prefix_of(lines(sql)[i]));
    }
}

/// In postgres all SQL is taken that does not mention `monitor`, and so in duckdb.
pub proof fn lemma_postgres_takes(sql: Seq<char>)
    requires
        has_no_directive(sql),
        lacks(sql, "monitor"@),
    ensures
        is_taken(DialectKind::Postgres, sql),
        is_taken(DialectKind::Duckdb, sql),
{
    lemma_no_directive(sql);
    lemma_lacks(sql, "monitor"@);
}

/// In bigquery all SQL is taken that mentions neither `fetch` nor `references`, and neither
/// makes nor grants anything.
pub proof fn lemma_bigquery_takes(sql: Seq<char>)
    requires
        has_no_directive(sql),
        lacks(sql, "fetch"@),
        lacks(sql, "references"@),
        lacks(sql, "create"@),
        lacks(sql, "grant"@),
        lacks(sql, "revoke"@),
    ensures
        is_taken(DialectKind::Bigquery, sql),
{
    lemma_no_directive(sql);
    lemma_lacks(sql, "fetch"@);
    lemma_lacks(sql, "references"@);
    lemma_lacks(sql, "create"@);
    lemma_lacks(sql, "grant"@);
    lemma_lacks(sql, "revoke"@);
}

/// In snowflake all SQL is taken that does not mention `references` or the collation of a
/// database, and makes neither casts nor triggers.
pub proof fn lemma_snowflake_takes(sql: Seq<char>)
    requires
        has_no_directive(sql),
        lacks(sql, "references"@),
        lacks(sql, "default_ddl_collation"@),
        lacks(sql, "create"@) || (lacks(sql, "cast"@) && lacks(sql, "trigger"@)),
    ensures
        is_taken(DialectKind::Snowflake, sql),
{
    lemma_no_directive(sql);
    lemma_lacks(sql, "references"@);
    lemma_lacks(sql, "default_ddl_collation"@);
    if lacks(sql, "create"@) {
        lemma_lacks(sql, "create"@);
    } else {
        lemma_lacks(sql, "cast"@);
        lemma_lacks(sql, "trigger"@);
    }
}

/// In redshift all SQL is taken that explains and analyses nothing, and makes and alters
/// nothing.
pub proof fn lemma_redshift_takes(sql: Seq<char>)
    requires
        has_no_directive(sql),
        lacks(sql, "explain"@),
        lacks(sql, "analyse"@),
        lacks(sql, "analyze"@),
        lacks(sql, "create"@),
        lacks(sql, "alter"@),
    ensures
        is_taken(DialectKind::Redshift, sql),
{
    lemma_no_directive(sql);
    lemma_lacks(sql, "explain"@);
    lemma_lacks(sql, "analyse"@);
    lemma_lacks(sql, "analyze"@);
    lemma_lacks(sql, "create"@);
    lemma_lacks(sql, "alter"@);
}

/// In sqlite all SQL is taken that mentions neither `with` nor `match`, and has no frames
/// of rows or ranges.
pub proof fn lemma_sqlite_takes(sql: Seq<char>)
    requires
        has_no_directive(sql),
        lacks(sql, "with"@),
        lacks(sql, "match"@),
        lacks(sql, "rows"@),
        lacks(sql, "range"@),
    ensures
        is_taken(DialectKind::Sqlite, sql),
{
    lemma_no_directive(sql);
    lemma_lacks(sql, "with"@);
    lemma_lacks(sql, "match"@);
    lemma_lacks(sql, "rows"@);
    lemma_lacks(sql, "range"@);
}

/// In trino all SQL is taken that changes nothing but rows, inserts none, and does not
/// mention `schema`.
pub proof fn lemma_trino_takes(sql: Seq<char>)
    requires
        has_no_directive(sql),
        lacks(sql, "alter"@),
        lacks(sql, "drop"@),
        lacks(sql, "create"@),
        lacks(sql, "grant"@),
        lacks(sql, "revoke"@),
        lacks(sql, "insert"@),
        lacks(sql, "schema"@),
    ensures
        is_taken(DialectKind::Trino, sql),
{
    lemma_no_directive(sql);
    lemma_lacks(sql, "alter"@);
    lemma_lacks(sql, "drop"@);
    lemma_lacks(sql, "create"@);
    lemma_lacks(sql, "grant"@);
    lemma_lacks(sql, "revoke"@);
    lemma_lacks(sql, "insert"@);
    lemma_lacks(sql, "schema"@);
}

/// In oracle all SQL is taken that has no brackets, grants, alters and loops over nothing,
/// and mentions none of the other words before a gap.
pub proof fn lemma_oracle_takes(sql: Seq<char>)
    requires
        has_no_directive(sql),
        lacks(sql, "forall"@),
        lacks(sql, "parallel_enable"@),
        lacks(sql, "sharing"@),
        lacks(sql, "grant"@),
        lacks(sql, "revoke"@),
        lacks(sql, "link"@),
        lacks(sql, "alter"@),
        lacks(sql, "reuse"@),
        lacks(sql, "user"@),
        lacks(sql, "for"@),
        forall|i: int| 0 <= i < sql.len() ==> #[trigger] sql[i] != '(',
    ensures
        is_taken(DialectKind::Oracle, sql),
{
    lemma_no_directive(sql);
    lemma_lacks(sql, "forall"@);
    lemma_lacks(sql, "parallel_enable"@);
    lemma_lacks(sql, "sharing"@);
    lemma_lacks(sql, "grant"@);
    lemma_lacks(sql, "revoke"@);
    lemma_lacks(sql, "link"@);
    lemma_lacks(sql, "alter"@);
    lemma_lacks(sql, "reuse"@);
    lemma_lacks(sql, "user"@);
    lemma_lacks(sql, "for"@);
    let text = lowered(sql);
    if text.contains('(') {
        let i = choose|i: int| 0 <= i < text.len() && text[i] == '(';
        assert(sql[i] != '(');
    }
}

/// A line that starts with `-- sqlfluff` is not handed over, in any dialect.
pub proof fn lemma_directives_are_refused(dialect: DialectKind, sql: Seq<char>, i: int)
    requires
        0 <= i < lines(sql).len(),
        "-- sqlfluff"@.is_prefix_of(lines(sql)[i]),
    ensures
        !is_taken(dialect, sql),
{
    assert(is_directive(lines(sql)[i]));
}

/// A word stays one with other text before it, and behind it where that starts with no part
/// of a word.
proof fn lemma_word_in_longer(before: Seq<char>, text: Seq<char>, after: Seq<char>)
    requires
        after.len() > 0 ==> !is_word_char(after[0]),
    ensures
        forall|word: Seq<char>, at: int| #[trigger]
            ends_word(text, word, at) ==> ends_word(before + text + after, word, before.len() + at),
{
    let all = before + text + after;
    assert forall|word: Seq<char>, at: int| #[trigger] ends_word(text, word, at) implies ends_word(
        all,
        word,
        before.len() + at,
    ) by {
        let end = at + word.len();
        let n = before.len() as int;
        assert(all.subrange(n + at, n + end) =~= text.subrange(at, end));
        if end < text.len() {
            assert(all[n + end] == text[end]);
        } else if after.len() > 0 {
            assert(all[n + end] == after[0]);
        }
    }
}

/// What a text holds, a longer one holds.
proof fn lemma_held_in_longer(before: Seq<char>, text: Seq<char>, after: Seq<char>)
    requires
        after.len() > 0 ==> !is_word_char(after[0]),
    ensures
        forall|w: Seq<char>| #[trigger] holds(text, w) ==> holds(before + text + after, w),
        forall|w: Seq<char>, v: Seq<char>| #[trigger]
            holds_both(text, w, v) ==> holds_both(before + text + after, w, v),
        forall|w: Seq<char>| #[trigger]
            holds_later(text, w) ==> holds_later(before + text + after, w),
        text.contains('(') ==> (before + text + after).contains('('),
{
    let all = before + text + after;
    let n = before.len() as int;
    lemma_word_in_longer(before, text, after);
    assert forall|w: Seq<char>| #[trigger] holds(text, w) implies holds(all, w) by {
        let at = choose|at: int| ends_word(text, w, at);
        assert(ends_word(all, w, n + at));
    }
    assert forall|w: Seq<char>, v: Seq<char>| #[trigger] holds_both(text, w, v) implies holds_both(
        all,
        w,
        v,
    ) by {
        let (i, j) = choose|i: int, j: int| #[trigger]
            ends_word(text, w, i) && #[trigger] ends_word(text, v, j) && i + w.len() <= j;
        assert(ends_word(all, w, n + i));
        assert(ends_word(all, v, n + j));
    }
    assert forall|w: Seq<char>| #[trigger] holds_later(text, w) implies holds_later(all, w) by {
        let (i, j) = choose|i: int, j: int|
            0 <= i < j && is_word_char(#[trigger] text[i]) && #[trigger] ends_word(text, w, j);
        assert(all[n + i] == text[i]);
        assert(ends_word(all, w, n + j));
    }
    if text.contains('(') {
        let i = choose|i: int| 0 <= i < text.len() && text[i] == '(';
        assert(all[n + i] == '(');
    }
}

/// SQL that leads to a gap does so wherever it stands: with anything before it, and with
/// anything behind it that does not go on with its last word.
pub proof fn lemma_gap_is_reached_from_anywhere(
    dialect: DialectKind,
    before: Seq<char>,
    sql: Seq<char>,
    after: Seq<char>,
)
    requires
        reaches_gap(dialect, sql),
        after.len() > 0 ==> !is_word_char(lowered(after)[0]),
    ensures
        !is_taken(dialect, before + sql + after),
{
    let all = before + sql + after;
    assert(lowered(all) =~= lowered(before) + lowered(sql) + lowered(after));
    lemma_held_in_longer(lowered(before), lowered(sql), lowered(after));
}

// ---------------------------------------------------------------------------
// Dialects
// ---------------------------------------------------------------------------

/// No two names stand for the same dialect.
pub proof fn lemma_dialects_have_one_name(a: Seq<char>, b: Seq<char>)
    requires
        dialect_named(a) is Some,
        dialect_named(a) == dialect_named(b),
    ensures
        a == b,
{
}

// ---------------------------------------------------------------------------
// Configurations
// ---------------------------------------------------------------------------

/// The lines of a text behind another that ends in a line feed.
proof fn lemma_lines_add(a: Seq<char>, b: Seq<char>)
    requires
        a.len() == 0 || a.last() == '\n',
    ensures
        lines(a + b) == lines(a) + lines(b),
    decreases a.len(),
{
    if a.len() == 0 {
        assert(a + b =~= b);
        assert(lines(a) + lines(b) =~= lines(b));
    } else {
        let all = a + b;
        lemma_run_len(a, not_newline());
        let n = run_len(a, not_newline()) as int;
        if n >= a.len() {
            assert(not_newline()(a[a.len() - 1]));
        }
        assert forall|i: int| 0 <= i < n implies not_newline()(#[trigger] all[i]) by {
            assert(all[i] == a[i]);
        }
        assert(all[n] == a[n]);
        lemma_run_len_is(all, not_newline(), n as nat);
        let rest = a.skip(n + 1);
        if rest.len() > 0 {
            assert(rest.last() == a.last());
        }
        lemma_lines_add(rest, b);
        assert(all.take(n) =~= a.take(n));
        assert(all.skip(n + 1) =~= rest + b);
        let first = seq![strip_cr(a.take(n))];
        assert(first + (lines(rest) + lines(b)) =~= first + lines(rest) + lines(b));
    }
}

/// The lines before a header have no say in the section after it.
proof fn lemma_section_starts_anew(a: Seq<Seq<char>>, b: Seq<Seq<char>>)
    requires
        b.len() > 0,
        opened(b[0]) is Some,
    ensures
        section_after(a + b) == section_after(b),
    decreases b.len(),
{
    assert((a + b).last() == b.last());
    assert((a + b).drop_last() =~= a + b.drop_last());
    if b.len() > 1 {
        assert(b.drop_last()[0] == b[0]);
        lemma_section_starts_anew(a, b.drop_last());
    } else {
        assert(b.last() == b[0]);
    }
}

/// A configuration may be put together from others: each starts with the header of its
/// section.
pub proof fn lemma_configurations_add_up(a: Seq<char>, b: Seq<char>)
    requires
        a.len() == 0 || a.last() == '\n',
        is_plain_config(a),
        is_plain_config(b),
        lines(b).len() > 0 ==> opened(lines(b)[0]) is Some,
    ensures
        is_plain_config(a + b),
{
    let all = lines(a + b);
    let la = lines(a);
    let lb = lines(b);
    lemma_lines_add(a, b);
    assert forall|i: int| 0 <= i < all.len() implies is_plain_line(
        section_after(all.take(i)),
        #[trigger] all[i],
    ) by {
        if i < la.len() {
            assert(all[i] == la[i]);
            assert(all.take(i) =~= la.take(i));
        } else {
            let j = i - la.len();
            assert(all[i] == lb[j]);
            assert(all.take(i) =~= la + lb.take(j));
            if j > 0 {
                assert(lb.take(j)[0] == lb[0]);
                lemma_section_starts_anew(la, lb.take(j));
            } else {
                assert(opened(lb[0]) is Some);
            }
        }
    }
}

/// A comment may stand at the end of any configuration.
pub proof fn lemma_comments_are_accepted(a: Seq<char>, comment: Seq<char>)
    requires
        a.len() == 0 || a.last() == '\n',
        is_plain_config(a),
        forall|i: int| 0 <= i < comment.len() ==> #[trigger] comment[i] != '\n',
        comment.len() > 0,
        comment[0] == '#' || comment[0] == ';',
    ensures
        is_plain_config(a + comment),
{
    lemma_lines_add(a, comment);
    assert forall|i: int| 0 <= i < comment.len() implies not_newline()(#[trigger] comment[i]) by {}
    lemma_run_len_is(comment, not_newline(), comment.len());
    assert(lines(comment) =~= seq![comment]);
    lemma_run_len_is(comment, white(), 0);
    assert(trim_start(comment) =~= comment);
    lemma_tail_run_len(comment, white());
    let t = trim_end(comment);
    assert(t.len() > 0) by {
        if t.len() == 0 {
            assert(white()(comment[0]));
        }
    }
    assert(t[0] == comment[0]);
    assert(trimmed(comment) == t);
    assert(is_skipped(comment));
    let all = lines(a + comment);
    let la = lines(a);
    assert forall|i: int| 0 <= i < all.len() implies is_plain_line(
        section_after(all.take(i)),
        #[trigger] all[i],
    ) by {
        if i < la.len() {
            assert(all[i] == la[i]);
            assert(all.take(i) =~= la.take(i));
        }
    }
}

/// Text without white space at its ends, and without comments in it.
pub open spec fn is_bare(s: Seq<char>) -> bool {
    &&& s.len() > 0
    &&& !is_white_space(s[0])
    &&& !is_white_space(s.last())
    &&& forall|i: int|
        0 <= i < s.len() ==> #[trigger] s[i] != '#' && s[i] != ';' && s[i] != '\n'
}

/// A setting is written `key = value`.
pub open spec fn setting(key: Seq<char>, value: Seq<char>) -> Seq<char> {
    key + seq![' ', '=', ' '] + value
}

/// A line `key = value` is a setting just where its key and its value are.
pub proof fn lemma_setting_line(section: Section, key: Seq<char>, value: Seq<char>)
    requires
        is_bare(key),
        is_bare(value),
        forall|i: int| 0 <= i < key.len() ==> #[trigger] key[i] != '=',
    ensures
        is_setting_line(section, setting(key, value)) <==> is_setting(section, key, value),
{
    let line = setting(key, value);
    let n = key.len() as int + 1;
    assert(line[0] == key[0]);
    assert(line.last() == value.last());
    lemma_run_len_is(line, white(), 0);
    assert(trim_start(line) =~= line);
    lemma_tail_run_len_is(line, white(), 0);
    assert(trimmed(line) =~= line);
    assert forall|i: int| 0 <= i < n implies not_equals()(#[trigger] line[i]) by {
        if i < key.len() {
            assert(line[i] == key[i]);
        }
    }
    assert(line[n] == '=');
    lemma_run_len_is(line, not_equals(), n as nat);
    let left = line.take(n);
    assert(left =~= key + seq![' ']);
    assert(left[n - 1] == ' ');
    assert(left[n - 2] == key.last());
    lemma_tail_run_len_is(left, white(), 1);
    assert(trim_end(left) =~= key);
    let right = line.skip(n + 1);
    assert(right =~= seq![' '] + value);
    assert(right[0] == ' ' && right[1] == value[0]);
    lemma_run_len_is(right, white(), 1);
    assert(trim_start(right) =~= value);
    assert(!line.contains('#') && !line.contains(';')) by {
        assert forall|i: int| 0 <= i < line.len() implies #[trigger] line[i] != '#' && line[i]
            != ';' by {
            if i < key.len() {
                assert(line[i] == key[i]);
            } else if i >= key.len() + 3 {
                assert(line[i] == value[i - key.len() - 3]);
            }
        }
    }
}

/// A setting that is known may follow any configuration that ends in its section.
pub proof fn lemma_settings_are_accepted(
    a: Seq<char>,
    section: Section,
    key: Seq<char>,
    value: Seq<char>,
)
    requires
        is_plain_config(a),
        a.len() == 0 || a.last() == '\n',
        section_after(lines(a)) == section,
        is_bare(key),
        is_bare(value),
        forall|i: int| 0 <= i < key.len() ==> #[trigger] key[i] != '=',
        is_setting(section, key, value),
    ensures
        is_plain_config(a + setting(key, value)),
{
    let line = setting(key, value);
    lemma_setting_line(section, key, value);
    lemma_lines_add(a, line);
    assert forall|i: int| 0 <= i < line.len() implies #[trigger] line[i] != '\n' by {
        if i < key.len() {
            assert(line[i] == key[i]);
        } else if i >= key.len() + 3 {
            assert(line[i] == value[i - key.len() - 3]);
        }
    }
    assert(line.last() == value.last());
    assert(value.last() != '\r') by {
        assert(is_white_space('\r'));
    }
    lemma_first_of_lines(line, Seq::empty());
    let all = lines(a + line);
    let la = lines(a);
    assert forall|i: int| 0 <= i < all.len() implies is_plain_line(
        section_after(all.take(i)),
        #[trigger] all[i],
    ) by {
        assert(all.take(i) =~= la.take(i));
        if i < la.len() {
            assert(all[i] == la[i]);
        } else {
            assert(la.take(i) =~= la);
            assert(all[i] == line);
        }
    }
}

/// Nothing but small letters.
spec fn is_small(s: Seq<char>) -> bool {
    forall|i: int| 0 <= i < s.len() ==> 'a' <= #[trigger] s[i] <= 'z'
}

/// The words that do not stand for text are made of small letters.
proof fn lemma_words_are_small()
    ensures
        is_small("true"@),
        is_small("false"@),
        is_small("none"@),
        is_small("inf"@),
        is_small("infinity"@),
        is_small("nan"@),
{
    reveal_strlit("true");
    reveal_strlit("false");
    reveal_strlit("none");
    reveal_strlit("inf");
    reveal_strlit("infinity");
    reveal_strlit("nan");
}

/// Which dialects, rules and line lengths the section `[sqruff]` takes: every dialect that
/// has a name, every list that starts with a letter and holds a comma or a digit, and every
/// number of up to four digits.
pub proof fn lemma_core_settings(v: Seq<char>, i: int)
    ensures
        dialect_named(v) is Some ==> is_setting(Section::Core, "dialect"@, v),
        v.len() > 0 && is_letter(v[0]) && 0 <= i < v.len() && (v[i] == ',' || '0' <= v[i] <= '9')
            ==> is_setting(Section::Core, "rules"@, v) && is_setting(
            Section::Core,
            "exclude_rules"@,
            v,
        ),
        1 <= v.len() <= 4 && (forall|j: int| 0 <= j < v.len() ==> '0' <= #[trigger] v[j] <= '9')
            ==> is_setting(Section::Core, "max_line_length"@, v),
{
    if v.len() > 0 && is_letter(v[0]) && 0 <= i < v.len() && (v[i] == ',' || '0' <= v[i] <= '9') {
        lemma_words_are_small();
        let low = lowered(v);
        assert(low[i] == v[i]);
        assert(!is_small(low));
        assert(is_text_value(v));
    }
}

/// No setting stands before the first header.
pub proof fn lemma_settings_need_a_section(line: Seq<char>)
    requires
        is_plain_line(Section::Start, line),
    ensures
        is_skipped(line) || opened(line) is Some,
{
}

} // verus!
