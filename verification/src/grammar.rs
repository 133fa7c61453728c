//! Which SQL sqruff's parser can take.
//!
//! The grammar of a dialect refers to its keywords and rules by name, and the parser
//! panics where it comes upon a name that the dialect lacks. The grammars of ansi,
//! athena, clickhouse, databricks, db2, mysql, sparksql and tsql hold no such gap that
//! can be reached. In those of the other dialects each gap lies behind certain words: the
//! parser gets there only where it has read them, in that order. SQL that holds them is
//! not handed over. Words count wherever they stand, in a string or a comment too.
use crate::sqruff_adapter::{has_directive, lowered, mentions_directive, to_lower};
use crate::text::{chars_of, spells, subvec};
use sqruff_lib_core::dialects::init::DialectKind;
use vstd::prelude::*;

verus! {

// ---------------------------------------------------------------------------
// Words
// ---------------------------------------------------------------------------

/// Being part of a word, in lower case.
pub open spec fn is_word_char(c: char) -> bool {
    'a' <= c <= 'z' || '0' <= c <= '9' || c == '_'
}

/// A word of `text` ends in `word`, which starts at the index `at`. (The lexer may cut a
/// number off the start of a word, but it takes a word to its end.)
pub open spec fn ends_word(text: Seq<char>, word: Seq<char>, at: int) -> bool {
    let end = at + word.len();
    &&& 0 <= at
    &&& end <= text.len()
    &&& text.subrange(at, end) == word
    &&& end == text.len() || !is_word_char(text[end])
}

/// `text` holds the word.
pub open spec fn holds(text: Seq<char>, word: Seq<char>) -> bool {
    exists|at: int| #[trigger] ends_word(text, word, at)
}

/// `text` holds the word `first`, and `second` somewhere after it.
pub open spec fn holds_both(text: Seq<char>, first: Seq<char>, second: Seq<char>) -> bool {
    exists|i: int, j: int| #[trigger]
        ends_word(text, first, i) && #[trigger] ends_word(text, second, j) && i + first.len() <= j
}

/// `text` holds the word, and not as its first.
pub open spec fn holds_later(text: Seq<char>, word: Seq<char>) -> bool {
    exists|i: int, j: int|
        0 <= i < j && is_word_char(#[trigger] text[i]) && #[trigger] ends_word(text, word, j)
}

/// The first index from `from` on where a word ends in `word`.
fn find_word(text: &Vec<char>, word: &str, from: usize) -> (at: Option<usize>)
    ensures
        match at {
            Some(i) => from <= i && ends_word(text@, word@, i as int) && forall|j: int|
                from <= j < i ==> !(#[trigger] ends_word(text@, word@, j)),
            None => forall|j: int| from <= j ==> !(#[trigger] ends_word(text@, word@, j)),
        },
{
    let n: usize = chars_of(word).len();
    let mut i: usize = from;
    while i <= text.len() && n <= text.len() - i
        invariant
            from <= i,
            n == word@.len(),
            forall|j: int| from <= j < i ==> !(#[trigger] ends_word(text@, word@, j)),
        decreases text.len() + 1 - i,
    {
        let end: usize = i + n;
        if spells(&subvec(text.as_slice(), i, end), word) && (end == text.len() || !word_char(
            text[end],
        )) {
            return Some(i);
        }
        if i == text.len() {
            assert forall|j: int| from <= j implies !(#[trigger] ends_word(text@, word@, j)) by {}
            return None;
        }
        i += 1;
    }
    None
}

/// Whether `c` is part of a word, in lower case.
fn word_char(c: char) -> (b: bool)
    ensures
        b == is_word_char(c),
{
    ('a' <= c && c <= 'z') || ('0' <= c && c <= '9') || c == '_'
}

/// Whether `text` holds the word.
fn has(text: &Vec<char>, word: &str) -> (b: bool)
    ensures
        b == holds(text@, word@),
{
    find_word(text, word, 0).is_some()
}

/// Whether `text` holds `first`, and `second` after it.
fn has_both(text: &Vec<char>, first: &str, second: &str) -> (b: bool)
    ensures
        b == holds_both(text@, first@, second@),
{
    match find_word(text, first, 0) {
        Some(i) => {
            let n: usize = chars_of(first).len();
            assert(i + n <= text.len());
            find_word(text, second, i + n).is_some()
        },
        None => false,
    }
}

/// Whether `text` holds the word, and not as its first.
fn has_later(text: &Vec<char>, word: &str) -> (b: bool)
    ensures
        b == holds_later(text@, word@),
{
    let mut i: usize = 0;
    while i < text.len() && !word_char(text[i])
        invariant
            i <= text.len(),
            forall|j: int| 0 <= j < i ==> !is_word_char(#[trigger] text@[j]),
        decreases text.len() - i,
    {
        i += 1;
    }
    if i == text.len() {
        assert forall|k: int, j: int| 0 <= k < j && is_word_char(#[trigger] text@[k]) implies !(
        #[trigger] ends_word(text@, word@, j)) by {
            assert(k >= text@.len());
        }
        return false;
    }
    find_word(text, word, i + 1).is_some()
}

// ---------------------------------------------------------------------------
// Gaps
// ---------------------------------------------------------------------------

/// Words before a gap in the grammar of bigquery.
pub open spec fn bigquery_gap(text: Seq<char>) -> bool {
    ||| holds(text, "fetch"@)
    ||| holds(text, "references"@)
    ||| holds_both(text, "create"@, "cast"@)
    ||| holds_both(text, "create"@, "trigger"@)
    ||| holds_both(text, "grant"@, "all"@)
    ||| holds_both(text, "revoke"@, "all"@)
}

/// Whether `text` holds words before a gap in the grammar of bigquery.
fn has_bigquery_gap(text: &Vec<char>) -> (b: bool)
    ensures
        b == bigquery_gap(text@),
{
    has(text, "fetch")
        || has(text, "references")
        || has_both(text, "create", "cast")
        || has_both(text, "create", "trigger")
        || has_both(text, "grant", "all")
        || has_both(text, "revoke", "all")
}

/// Words before a gap in the grammar of oracle. Any bracket may open the
/// arguments of a function, whose grammar has a gap at its start.
pub open spec fn oracle_gap(text: Seq<char>) -> bool {
    ||| holds(text, "forall"@)
    ||| holds(text, "parallel_enable"@)
    ||| holds(text, "sharing"@)
    ||| holds_both(text, "grant"@, "table"@)
    ||| holds_both(text, "revoke"@, "table"@)
    ||| holds_both(text, "database"@, "link"@)
    ||| holds_both(text, "alter"@, "set"@)
    ||| holds_both(text, "compile"@, "reuse"@)
    ||| holds_both(text, "user"@, "no"@)
    ||| holds_both(text, "for"@, "by"@)
    ||| text.contains('(')
}

/// Whether `text` holds words before a gap in the grammar of oracle.
fn has_oracle_gap(text: &Vec<char>) -> (b: bool)
    ensures
        b == oracle_gap(text@),
{
    has(text, "forall")
        || has(text, "parallel_enable")
        || has(text, "sharing")
        || has_both(text, "grant", "table")
        || has_both(text, "revoke", "table")
        || has_both(text, "database", "link")
        || has_both(text, "alter", "set")
        || has_both(text, "compile", "reuse")
        || has_both(text, "user", "no")
        || has_both(text, "for", "by")
        || has_char(text, '(')
}

/// Words before a gap in the grammar of postgres, which duckdb shares.
pub open spec fn postgres_gap(text: Seq<char>) -> bool {
    ||| holds_both(text, "grant"@, "monitor"@)
    ||| holds_both(text, "revoke"@, "monitor"@)
}

/// Whether `text` holds words before a gap in the grammar of postgres, which duckdb shares.
fn has_postgres_gap(text: &Vec<char>) -> (b: bool)
    ensures
        b == postgres_gap(text@),
{
    has_both(text, "grant", "monitor")
        || has_both(text, "revoke", "monitor")
}

/// Words before a gap in the grammar of redshift.
pub open spec fn redshift_gap(text: Seq<char>) -> bool {
    ||| holds(text, "explain"@)
    ||| holds(text, "analyse"@)
    ||| holds(text, "analyze"@)
    ||| holds_both(text, "create"@, "collation"@)
    ||| holds_both(text, "create"@, "database"@)
    ||| holds_both(text, "alter"@, "database"@)
    ||| holds_both(text, "create"@, "policy"@)
    ||| holds_both(text, "create"@, "statistics"@)
}

/// Whether `text` holds words before a gap in the grammar of redshift.
fn has_redshift_gap(text: &Vec<char>) -> (b: bool)
    ensures
        b == redshift_gap(text@),
{
    has(text, "explain")
        || has(text, "analyse")
        || has(text, "analyze")
        || has_both(text, "create", "collation")
        || has_both(text, "create", "database")
        || has_both(text, "alter", "database")
        || has_both(text, "create", "policy")
        || has_both(text, "create", "statistics")
}

/// Words before a gap in the grammar of snowflake.
pub open spec fn snowflake_gap(text: Seq<char>) -> bool {
    ||| holds(text, "default_ddl_collation"@)
    ||| holds_both(text, "create"@, "cast"@)
    ||| holds_both(text, "create"@, "trigger"@)
    ||| holds_both(text, "references"@, "match"@)
    ||| holds_both(text, "references"@, "no"@)
}

/// Whether `text` holds words before a gap in the grammar of snowflake.
fn has_snowflake_gap(text: &Vec<char>) -> (b: bool)
    ensures
        b == snowflake_gap(text@),
{
    has(text, "default_ddl_collation")
        || has_both(text, "create", "cast")
        || has_both(text, "create", "trigger")
        || has_both(text, "references", "match")
        || has_both(text, "references", "no")
}

/// Words before a gap in the grammar of sqlite. A `WITH` after the
/// first word may end a query in a clause that has a gap.
pub open spec fn sqlite_gap(text: Seq<char>) -> bool {
    ||| holds_both(text, "references"@, "match"@)
    ||| holds_both(text, "over"@, "rows"@)
    ||| holds_both(text, "over"@, "range"@)
    ||| holds_both(text, "window"@, "rows"@)
    ||| holds_both(text, "window"@, "range"@)
    ||| holds_later(text, "with"@)
}

/// Whether `text` holds words before a gap in the grammar of sqlite.
fn has_sqlite_gap(text: &Vec<char>) -> (b: bool)
    ensures
        b == sqlite_gap(text@),
{
    has_both(text, "references", "match")
        || has_both(text, "over", "rows")
        || has_both(text, "over", "range")
        || has_both(text, "window", "rows")
        || has_both(text, "window", "range")
        || has_later(text, "with")
}

/// Words before a gap in the grammar of trino.
pub open spec fn trino_gap(text: Seq<char>) -> bool {
    ||| holds(text, "alter"@)
    ||| holds(text, "drop"@)
    ||| holds(text, "create"@)
    ||| holds(text, "grant"@)
    ||| holds(text, "revoke"@)
    ||| holds(text, "insert"@)
    ||| holds_both(text, "no"@, "schema"@)
}

/// Whether `text` holds words before a gap in the grammar of trino.
fn has_trino_gap(text: &Vec<char>) -> (b: bool)
    ensures
        b == trino_gap(text@),
{
    has(text, "alter")
        || has(text, "drop")
        || has(text, "create")
        || has(text, "grant")
        || has(text, "revoke")
        || has(text, "insert")
        || has_both(text, "no", "schema")
}

/// Whether `text` holds the character.
fn has_char(text: &Vec<char>, c: char) -> (b: bool)
    ensures
        b == text@.contains(c),
{
    for i in 0..text.len()
        invariant
            forall|j: int| 0 <= j < i ==> text@[j] != c,
    {
        if text[i] == c {
            assert(text@[i as int] == c);
            return true;
        }
    }
    false
}

/// `sql` holds the words that come before a gap in the grammar of the dialect.
pub open spec fn reaches_gap(dialect: DialectKind, sql: Seq<char>) -> bool {
    let text = lowered(sql);
    match dialect {
        DialectKind::Bigquery => bigquery_gap(text),
        DialectKind::Duckdb => postgres_gap(text),
        DialectKind::Oracle => oracle_gap(text),
        DialectKind::Postgres => postgres_gap(text),
        DialectKind::Redshift => redshift_gap(text),
        DialectKind::Snowflake => snowflake_gap(text),
        DialectKind::Sqlite => sqlite_gap(text),
        DialectKind::Trino => trino_gap(text),
        _ => false,
    }
}

/// SQL that sqruff can take in the given dialect: no line of it is a directive, and it
/// leads the parser to no gap in the dialect's grammar.
pub open spec fn is_taken(dialect: DialectKind, sql: Seq<char>) -> bool {
    !has_directive(sql) && !reaches_gap(dialect, sql)
}

/// Whether sqruff can take `sql` in the given dialect.
pub fn takes(dialect: DialectKind, sql: &str) -> (b: bool)
    ensures
        b == is_taken(dialect, sql@),
{
    if mentions_directive(sql) {
        return false;
    }
    let text = to_lower(sql);
    let gap = match dialect {
        DialectKind::Bigquery => has_bigquery_gap(&text),
        DialectKind::Duckdb => has_postgres_gap(&text),
        DialectKind::Oracle => has_oracle_gap(&text),
        DialectKind::Postgres => has_postgres_gap(&text),
        DialectKind::Redshift => has_redshift_gap(&text),
        DialectKind::Snowflake => has_snowflake_gap(&text),
        DialectKind::Sqlite => has_sqlite_gap(&text),
        DialectKind::Trino => has_trino_gap(&text),
        _ => false,
    };
    !gap
}

} // verus!
