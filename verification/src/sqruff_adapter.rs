//! The only module that touches `sqruff-lib`. Its surface is kept small, so that
//! an upgrade of the sqruff crates touches one file.
//!
//! The tool embeds no rule presets: the rules come from the configuration that an
//! engine is made with. The one value that it injects is the dialect, because
//! sqruff's own default, `ansi`, mis-parses most postgres queries.
use crate::config::{is_plain_config, plain_config};
use crate::grammar::is_taken;
use crate::text::{chars_of, is_prefix, lines, rows, spells, split_lines, text_of};
use sqruff_lib_core::dialects::init::DialectKind;
use sqruff_lib_core::errors::{ErrorStructRule, SQLBaseError, SQLFluffUserError};
use vstd::prelude::*;

verus! {

/// The configuration of a linter.
pub type LinterConfig = sqruff_lib::core::config::FluffConfig;

/// A linter.
pub type SqlLinter = sqruff_lib::core::linter::core::Linter;

/// What a linter made of a text.
pub type LintedSql = sqruff_lib::core::linter::linted_file::LintedFile;

/// What a run of the linter returns.
pub type LintOutcome = Result<LintedSql, SQLFluffUserError>;

// ---------------------------------------------------------------------------
// sqruff
// ---------------------------------------------------------------------------

/// `sqruff_lib`'s configuration.
#[verifier::external_type_specification]
#[verifier::external_body]
pub struct ExFluffConfig(sqruff_lib::core::config::FluffConfig);

/// `sqruff_lib`'s linter.
#[verifier::external_type_specification]
#[verifier::external_body]
pub struct ExLinter(sqruff_lib::core::linter::core::Linter);

/// `sqruff_lib`'s record of a linted text.
#[verifier::external_type_specification]
#[verifier::external_body]
pub struct ExLintedFile(sqruff_lib::core::linter::linted_file::LintedFile);

/// `sqruff_lib_core`'s error for a text that could not be linted.
#[verifier::external_type_specification]
#[verifier::external_body]
pub struct ExSQLFluffUserError(SQLFluffUserError);

/// `sqruff_lib_core`'s violation, a struct of public fields.
#[verifier::external_type_specification]
pub struct ExSQLBaseError(SQLBaseError);

/// `sqruff_lib_core`'s name and code of a rule, a struct of public fields.
#[verifier::external_type_specification]
pub struct ExErrorStructRule(ErrorStructRule);

/// `sqruff_lib_core`'s list of dialects.
#[verifier::external_type_specification]
pub struct ExDialectKind(DialectKind);

/// The configuration that a linter was made with.
pub uninterp spec fn linter_config(linter: SqlLinter) -> LinterConfig;

/// The message with which `Linter::new` refuses a configuration, if it does.
pub uninterp spec fn linter_refusal(config: LinterConfig) -> Option<Seq<char>>;

/// `config` may be what `FluffConfig::from_source` reads from `text`. Where a text
/// sets one value in two places, the order in which its sections are walked, and
/// with it the outcome, is not fixed.
pub uninterp spec fn config_may_come_from(config: LinterConfig, text: Seq<char>) -> bool;

/// A linter with `config` comes to parse any text without a panic, and to lint what it
/// parsed: it can load its rules and read its indentation settings, for no option is of
/// the wrong kind, its templater can take any text, and its dialect has the grammar that
/// it has without options.
pub uninterp spec fn config_loads(config: LinterConfig) -> bool;

/// The dialect of `config`, as `FluffConfig::dialect_kind` tells it.
pub uninterp spec fn config_dialect(config: LinterConfig) -> DialectKind;

/// `config` with its dialect set to `dialect`.
pub uninterp spec fn with_dialect(config: LinterConfig, dialect: DialectKind) -> LinterConfig;

/// `outcome` may be what a linter with this configuration returns for `sql`.
pub uninterp spec fn lint_may_return(
    config: LinterConfig,
    sql: Seq<char>,
    fix: bool,
    outcome: LintOutcome,
) -> bool;

/// The violations that a linted text records.
pub uninterp spec fn linted_violations(linted: LintedSql) -> Seq<SQLBaseError>;

/// The source of a linted text with its fixes applied.
pub uninterp spec fn linted_text(linted: LintedSql) -> Seq<char>;

/// `FluffConfig::from_source` without a path. Claimed of a plain configuration: the
/// outcome is one that the text admits, rules can be loaded from it, and its templater,
/// which has no placeholder pattern, can take any text. Left unsaid:
/// which texts admit which configurations. Other texts are left out: the call panics on
/// a text that is no INI file, on a setting of the wrong kind and on an unknown dialect,
/// and a linter panics on a rule option of the wrong kind once it loads its rules.
#[verifier::external_body]
fn config_from_source(text: &str) -> (config: LinterConfig)
    requires
        is_plain_config(text@),
    ensures
        config_may_come_from(config, text@),
        config_loads(config),
{
    LinterConfig::from_source(text, None)
}

/// `Linter::new` without a formatter, with the templater that the configuration
/// names, and with parse errors among the violations. Claimed: whether the
/// configuration is refused, and with which message, depends on it alone, and the
/// linter goes by it.
#[verifier::external_body]
fn new_linter(config: LinterConfig) -> (r: Result<SqlLinter, String>)
    ensures
        match r {
            Ok(linter) => linter_refusal(config) is None && linter_config(linter) == config,
            Err(message) => linter_refusal(config) == Some(message@),
        },
{
    SqlLinter::new(config, None, None, true)
}

/// `FluffConfig::override_dialect` sets the dialect, and succeeds for every
/// dialect: with its default features sqruff is built with all of them. It leaves the
/// settings alone that rules are loaded from and the templater goes by.
pub assume_specification[ sqruff_lib::core::config::FluffConfig::override_dialect ](
    config: &mut sqruff_lib::core::config::FluffConfig,
    dialect: DialectKind,
) -> (r: Result<(), String>)
    ensures
        r is Ok,
        *final(config) == with_dialect(*old(config), dialect),
        config_dialect(*final(config)) == dialect,
        config_loads(*old(config)) ==> config_loads(*final(config)),
;

/// `FluffConfig::dialect_kind` tells the dialect.
pub assume_specification[ sqruff_lib::core::config::FluffConfig::dialect_kind ](
    config: &sqruff_lib::core::config::FluffConfig,
) -> (kind: DialectKind)
    ensures
        kind == config_dialect(*config),
;

/// `Linter::lint_string` lints one text and, if `fix`, works out fixes for it.
/// Claimed: the outcome is one that the configuration and the text admit. It is not
/// claimed to be the only one, for sqruff's rules walk hash maps. Left out are the texts
/// that are not taken in the dialect: the call panics on a line that starts with
/// `-- sqlfluff`, and where the parser comes to a gap in the dialect's grammar. So is a
/// linter that cannot get to work with its configuration. Of what a rule does, sqruff
/// catches a panic. Left unsaid: which outcomes a text admits. That would be sqruff's
/// grammars and rules.
pub assume_specification[ sqruff_lib::core::linter::core::Linter::lint_string ](
    linter: &sqruff_lib::core::linter::core::Linter,
    sql: &str,
    filename: Option<String>,
    fix: bool,
) -> (outcome: Result<
    sqruff_lib::core::linter::linted_file::LintedFile,
    SQLFluffUserError,
>)
    requires
        filename is None,
        is_taken(config_dialect(linter_config(*linter)), sql@),
        config_loads(linter_config(*linter)),
    ensures
        lint_may_return(linter_config(*linter), sql@, fix, outcome),
;

/// `LintedFile::violations` lists the recorded violations.
pub assume_specification[ sqruff_lib::core::linter::linted_file::LintedFile::violations ](
    linted: &sqruff_lib::core::linter::linted_file::LintedFile,
) -> (violations: &[SQLBaseError])
    ensures
        violations@ == linted_violations(*linted),
;

/// `LintedFile::fix_string` gives the source with the recorded fixes applied.
pub assume_specification[ sqruff_lib::core::linter::linted_file::LintedFile::fix_string ](
    linted: sqruff_lib::core::linter::linted_file::LintedFile,
) -> (text: String)
    ensures
        text@ == linted_text(linted),
;

/// `SQLBaseError::rule_code` is the code of the rule, or `????` without one.
pub assume_specification[ SQLBaseError::rule_code ](e: &SQLBaseError) -> (code: &'static str)
    ensures
        code@ == (match e.rule {
            Some(rule) => rule.code@,
            None => "????"@,
        }),
;

/// `SQLBaseError::desc` is the description.
pub assume_specification[ SQLBaseError::desc ](e: &SQLBaseError) -> (text: &str)
    ensures
        text@ == e.description@,
;

// ---------------------------------------------------------------------------
// Findings
// ---------------------------------------------------------------------------

/// A single lint finding, 1-based line / 0-based col within the dedented SQL. Columns
/// count bytes.
#[derive(Debug, Clone)]
pub struct Finding {
    pub code: String,
    pub line: usize,
    pub col: usize,
    pub desc: String,
    pub fixable: bool,
}

/// The value of a [`Finding`].
pub struct FindingView {
    pub code: Seq<char>,
    pub line: nat,
    pub col: nat,
    pub desc: Seq<char>,
    pub fixable: bool,
}

impl View for Finding {
    type V = FindingView;

    open spec fn view(&self) -> FindingView {
        FindingView {
            code: self.code@,
            line: self.line as nat,
            col: self.col as nat,
            desc: self.desc@,
            fixable: self.fixable,
        }
    }
}

/// The values of the findings in `findings`.
pub open spec fn finding_views(findings: Seq<Finding>) -> Seq<FindingView> {
    Seq::new(findings.len(), |i: int| findings[i]@)
}

/// The finding that a violation is. sqruff counts columns from 1, and those of a
/// violation without a place are 0.
pub open spec fn finding_of(e: SQLBaseError) -> FindingView {
    FindingView {
        code: match e.rule {
            Some(rule) => rule.code@,
            None => "????"@,
        },
        line: e.line_no as nat,
        col: if e.line_pos > 0 {
            (e.line_pos - 1) as nat
        } else {
            0
        },
        desc: e.description@,
        fixable: e.fixable,
    }
}

/// The findings that violations are.
pub open spec fn findings_of(violations: Seq<SQLBaseError>) -> Seq<FindingView> {
    Seq::new(violations.len(), |i: int| finding_of(violations[i]))
}

/// The findings that are not marked as fixable, in their order.
pub open spec fn unfixable(findings: Seq<FindingView>) -> Seq<FindingView>
    decreases findings.len(),
{
    if findings.len() == 0 {
        Seq::empty()
    } else if findings.last().fixable {
        unfixable(findings.drop_last())
    } else {
        unfixable(findings.drop_last()).push(findings.last())
    }
}

/// The findings of a run of the linter: none where it failed.
pub open spec fn outcome_findings(outcome: LintOutcome) -> Seq<FindingView> {
    match outcome {
        Ok(linted) => findings_of(linted_violations(linted)),
        Err(_) => Seq::empty(),
    }
}

/// The SQL after a run of the linter on `sql`: unchanged where it failed.
pub open spec fn outcome_text(outcome: LintOutcome, sql: Seq<char>) -> Seq<char> {
    match outcome {
        Ok(linted) => linted_text(linted),
        Err(_) => sql,
    }
}

/// Linting `sql` may give `findings`.
pub open spec fn lint_may_find(
    config: LinterConfig,
    sql: Seq<char>,
    findings: Seq<FindingView>,
) -> bool {
    exists|outcome: LintOutcome|
        #[trigger] lint_may_return(config, sql, false, outcome) && findings == outcome_findings(
            outcome,
        )
}

/// Fixing `sql` may give `fixed`, with `residual` left over.
pub open spec fn fix_may_give(
    config: LinterConfig,
    sql: Seq<char>,
    fixed: Seq<char>,
    residual: Seq<FindingView>,
) -> bool {
    exists|outcome: LintOutcome|
        #[trigger] lint_may_return(config, sql, true, outcome) && fixed == outcome_text(
            outcome,
            sql,
        ) && residual == unfixable(outcome_findings(outcome))
}

impl From<&SQLBaseError> for Finding {
    /// The finding that `e` is.
    fn from(e: &SQLBaseError) -> (finding: Self)
        ensures
            finding@ == finding_of(*e),
    {
        Finding {
            code: text_of(chars_of(e.rule_code()).as_slice()),
            line: e.line_no,
            col: e.line_pos.saturating_sub(1),
            desc: text_of(chars_of(e.desc()).as_slice()),
            fixable: e.fixable,
        }
    }
}

impl vstd::std_specs::convert::FromSpecImpl<&SQLBaseError> for Finding {
    open spec fn obeys_from_spec() -> bool {
        false
    }

    open spec fn from_spec(e: &SQLBaseError) -> Self {
        choose|finding: Finding| finding@ == finding_of(*e)
    }
}

/// The findings that `violations` are.
pub fn findings(violations: &[SQLBaseError]) -> (out: Vec<Finding>)
    ensures
        finding_views(out@) == findings_of(violations@),
{
    let mut out: Vec<Finding> = Vec::new();
    for i in 0..violations.len()
        invariant
            finding_views(out@) == findings_of(violations@).take(i as int),
    {
        let ghost before = finding_views(out@);
        let finding = Finding::from(&violations[i]);
        out.push(finding);
        assert(finding_views(out@) == before.push(finding@));
    }
    assert(findings_of(violations@).take(violations@.len() as int) == findings_of(violations@));
    out
}

/// The findings among `findings` that are not marked as fixable.
pub fn residual(findings: Vec<Finding>) -> (out: Vec<Finding>)
    ensures
        finding_views(out@) == unfixable(finding_views(findings@)),
{
    let mut out: Vec<Finding> = Vec::new();
    let ghost all = finding_views(findings@);
    assert(finding_views(out@) == Seq::<FindingView>::empty());
    for f in it: findings.into_iter()
        invariant
            it.seq() == findings@,
            all == finding_views(findings@),
            finding_views(out@) == unfixable(all.take(it.index() as int)),
    {
        proof {
            let i = it.index() as int;
            assert(all.take(i + 1).drop_last() == all.take(i));
            assert(all.take(i + 1).last() == f@);
        }
        let ghost before = finding_views(out@);
        if !f.fixable {
            out.push(f);
            assert(finding_views(out@) == before.push(f@));
        }
    }
    assert(all.take(all.len() as int) == all);
    out
}

// ---------------------------------------------------------------------------
// Directives
// ---------------------------------------------------------------------------

/// Starting as an in-file configuration directive does.
pub open spec fn is_directive(line: Seq<char>) -> bool {
    "-- sqlfluff"@.is_prefix_of(line)
}

/// Some line of `sql` is a directive.
pub open spec fn has_directive(sql: Seq<char>) -> bool {
    exists|i: int| 0 <= i < lines(sql).len() && is_directive(#[trigger] lines(sql)[i])
}

/// Whether some line of `sql` starts with `-- sqlfluff`. The linter does not take
/// such a text.
pub fn mentions_directive(sql: &str) -> (b: bool)
    ensures
        b == has_directive(sql@),
{
    let chars = chars_of(sql);
    let ls = split_lines(chars.as_slice());
    let start = chars_of("-- sqlfluff");
    let count: usize = ls.len();
    for i in 0..count
        invariant
            count == ls.len(),
            rows(ls@) == lines(sql@),
            start@ == "-- sqlfluff"@,
            forall|j: int| 0 <= j < i ==> !is_directive(#[trigger] lines(sql@)[j]),
    {
        assert(lines(sql@)[i as int] == ls[i as int]@);
        if is_prefix(start.as_slice(), ls[i].as_slice()) {
            return true;
        }
    }
    assert(lines(sql@).len() == count);
    false
}

// ---------------------------------------------------------------------------
// Dialects
// ---------------------------------------------------------------------------

/// `c` in lower case, if it is an ASCII letter.
pub open spec fn ascii_lower(c: char) -> char {
    if 'A' <= c <= 'Z' {
        (c as u32 + 32) as char
    } else {
        c
    }
}

/// [`ascii_lower`] of every character.
pub open spec fn lowered(s: Seq<char>) -> Seq<char> {
    Seq::new(s.len(), |i: int| ascii_lower(s[i]))
}

/// The dialect of the given lower-case name.
pub open spec fn dialect_named(name: Seq<char>) -> Option<DialectKind> {
    if name == "ansi"@ {
        Some(DialectKind::Ansi)
    } else if name == "athena"@ {
        Some(DialectKind::Athena)
    } else if name == "bigquery"@ {
        Some(DialectKind::Bigquery)
    } else if name == "clickhouse"@ {
        Some(DialectKind::Clickhouse)
    } else if name == "databricks"@ {
        Some(DialectKind::Databricks)
    } else if name == "db2"@ {
        Some(DialectKind::Db2)
    } else if name == "duckdb"@ {
        Some(DialectKind::Duckdb)
    } else if name == "mysql"@ {
        Some(DialectKind::Mysql)
    } else if name == "oracle"@ {
        Some(DialectKind::Oracle)
    } else if name == "postgres"@ {
        Some(DialectKind::Postgres)
    } else if name == "redshift"@ {
        Some(DialectKind::Redshift)
    } else if name == "snowflake"@ {
        Some(DialectKind::Snowflake)
    } else if name == "sparksql"@ {
        Some(DialectKind::Sparksql)
    } else if name == "sqlite"@ {
        Some(DialectKind::Sqlite)
    } else if name == "trino"@ {
        Some(DialectKind::Trino)
    } else if name == "tsql"@ {
        Some(DialectKind::Tsql)
    } else {
        None
    }
}

/// The message for a dialect that is not known.
pub open spec fn unknown_dialect(name: Seq<char>) -> Seq<char> {
    "unknown dialect '"@ + name + "'"@
}

/// `s` with its ASCII letters in lower case.
pub(crate) fn to_lower(s: &str) -> (out: Vec<char>)
    ensures
        out@ == lowered(s@),
{
    let chars = chars_of(s);
    let mut out: Vec<char> = Vec::new();
    for i in 0..chars.len()
        invariant
            chars@ == s@,
            out@ == lowered(s@).take(i as int),
    {
        let c = chars[i];
        if 'A' <= c && c <= 'Z' {
            out.push((c as u8 + 32) as char);
        } else {
            out.push(c);
        }
    }
    out
}

/// The dialect of the given lower-case name.
pub(crate) fn dialect_of(name: &Vec<char>) -> (kind: Option<DialectKind>)
    ensures
        kind == dialect_named(name@),
{
    if spells(name, "ansi") {
        Some(DialectKind::Ansi)
    } else if spells(name, "athena") {
        Some(DialectKind::Athena)
    } else if spells(name, "bigquery") {
        Some(DialectKind::Bigquery)
    } else if spells(name, "clickhouse") {
        Some(DialectKind::Clickhouse)
    } else if spells(name, "databricks") {
        Some(DialectKind::Databricks)
    } else if spells(name, "db2") {
        Some(DialectKind::Db2)
    } else if spells(name, "duckdb") {
        Some(DialectKind::Duckdb)
    } else if spells(name, "mysql") {
        Some(DialectKind::Mysql)
    } else if spells(name, "oracle") {
        Some(DialectKind::Oracle)
    } else if spells(name, "postgres") {
        Some(DialectKind::Postgres)
    } else if spells(name, "redshift") {
        Some(DialectKind::Redshift)
    } else if spells(name, "snowflake") {
        Some(DialectKind::Snowflake)
    } else if spells(name, "sparksql") {
        Some(DialectKind::Sparksql)
    } else if spells(name, "sqlite") {
        Some(DialectKind::Sqlite)
    } else if spells(name, "trino") {
        Some(DialectKind::Trino)
    } else if spells(name, "tsql") {
        Some(DialectKind::Tsql)
    } else {
        None
    }
}

/// The dialect that `s` names, in upper or lower case.
pub fn parse_dialect(s: &str) -> (r: Result<DialectKind, String>)
    ensures
        match dialect_named(lowered(s@)) {
            Some(kind) => r == Ok::<DialectKind, String>(kind),
            None => r matches Err(m) && m@ == unknown_dialect(lowered(s@)),
        },
{
    let name = to_lower(s);
    match dialect_of(&name) {
        Some(kind) => Ok(kind),
        None => {
            let mut message = String::new();
            message.push_str("unknown dialect '");
            message.push_str(text_of(name.as_slice()).as_str());
            message.push_str("'");
            assert(message@ == unknown_dialect(name@));
            Err(message)
        },
    }
}

// ---------------------------------------------------------------------------
// The engine
// ---------------------------------------------------------------------------

/// A linter and fixer for SQL.
pub struct SqruffEngine {
    linter: SqlLinter,
    kind: DialectKind,
}

/// `r` is the engine with configuration `config`, or the message with which that
/// configuration is refused.
pub open spec fn engine_for(r: Result<SqruffEngine, String>, config: LinterConfig) -> bool {
    match linter_refusal(config) {
        None => r matches Ok(engine) && engine.config() == config,
        Some(message) => r matches Err(m) && m@ == message,
    }
}

impl SqruffEngine {
    /// The configuration that the engine goes by.
    pub closed spec fn config(&self) -> LinterConfig {
        linter_config(self.linter)
    }

    /// The dialect that the engine goes by.
    pub open spec fn dialect(&self) -> DialectKind {
        config_dialect(self.config())
    }

    /// The linter can get to work, and its dialect is known.
    #[verifier::type_invariant]
    spec fn is_ready(self) -> bool {
        config_loads(linter_config(self.linter)) && self.kind == config_dialect(
            linter_config(self.linter),
        )
    }

    /// The dialect that the engine goes by.
    pub fn dialect_kind(&self) -> (kind: DialectKind)
        ensures
            kind == self.dialect(),
    {
        proof {
            use_type_invariant(self);
        }
        self.kind
    }

    /// Production path: an engine with the configuration that was discovered for the
    /// project, and with `dialect` (default `postgres`) in place of its dialect. The
    /// configuration must be one from which rules can be loaded.
    pub fn discover(dialect: &str, config: LinterConfig) -> (r: Result<Self, String>)
        requires
            config_loads(config),
        ensures
            match dialect_named(lowered(dialect@)) {
                Some(kind) => engine_for(r, with_dialect(config, kind)),
                None => r matches Err(m) && m@ == unknown_dialect(lowered(dialect@)),
            },
            r matches Ok(engine) ==> dialect_named(lowered(dialect@)) == Some(engine.dialect()),
    {
        let kind = match parse_dialect(dialect) {
            Ok(kind) => kind,
            Err(m) => return Err(m),
        };
        let mut config = config;
        match config.override_dialect(kind) {
            Ok(()) => Self::with_config(config),
            Err(m) => Err(m),
        }
    }

    /// [`SqruffEngine::discover`] with the configuration that a text gives: nothing where
    /// the text is no plain configuration.
    pub fn try_discover(dialect: &str, config_src: &str) -> (r: Option<Result<Self, String>>)
        ensures
            r is Some <==> is_plain_config(config_src@),
            r matches Some(engine) ==> match dialect_named(lowered(dialect@)) {
                Some(kind) => exists|config: LinterConfig| #[trigger]
                    config_may_come_from(config, config_src@) && engine_for(
                        engine,
                        with_dialect(config, kind),
                    ),
                None => engine matches Err(m) && m@ == unknown_dialect(lowered(dialect@)),
            },
    {
        if !plain_config(config_src) {
            return None;
        }
        let config = config_from_source(config_src);
        let ghost read = config;
        let r = Self::discover(dialect, config);
        proof {
            if let Some(kind) = dialect_named(lowered(dialect@)) {
                assert(config_may_come_from(read, config_src@) && engine_for(
                    r,
                    with_dialect(read, kind),
                ));
            }
        }
        Some(r)
    }

    /// Builds from an explicit config string (tests, or callers that hold their
    /// own `.sqruff` text). The string must set `dialect`, and be a plain configuration.
    pub fn from_source(config_src: &str) -> (r: Result<Self, String>)
        requires
            is_plain_config(config_src@),
        ensures
            exists|config: LinterConfig| #[trigger]
                config_may_come_from(config, config_src@) && engine_for(r, config),
    {
        let config = config_from_source(config_src);
        let ghost read = config;
        let r = Self::with_config(config);
        assert(config_may_come_from(read, config_src@) && engine_for(r, read));
        r
    }

    /// [`SqruffEngine::from_source`] on any text: nothing where it is no plain
    /// configuration.
    pub fn try_from_source(config_src: &str) -> (r: Option<Result<Self, String>>)
        ensures
            r is Some <==> is_plain_config(config_src@),
            r matches Some(engine) ==> exists|config: LinterConfig| #[trigger]
                config_may_come_from(config, config_src@) && engine_for(engine, config),
    {
        if plain_config(config_src) {
            Some(Self::from_source(config_src))
        } else {
            None
        }
    }

    /// The engine with the given configuration.
    pub fn with_config(config: LinterConfig) -> (r: Result<Self, String>)
        requires
            config_loads(config),
        ensures
            engine_for(r, config),
    {
        let kind = config.dialect_kind();
        match new_linter(config) {
            Ok(linter) => Ok(SqruffEngine { linter, kind }),
            Err(m) => Err(m),
        }
    }

    /// Lints only.
    pub fn lint(&self, sql: &str) -> (found: Vec<Finding>)
        requires
            is_taken(self.dialect(), sql@),
        ensures
            lint_may_find(self.config(), sql@, finding_views(found@)),
    {
        proof {
            use_type_invariant(self);
        }
        let outcome = self.linter.lint_string(sql, None, false);
        let ghost o = outcome;
        let found = match outcome {
            Ok(linted) => findings(linted.violations()),
            Err(_) => Vec::new(),
        };
        assert(finding_views(found@) == outcome_findings(o));
        found
    }

    /// Fixes; returns `(fixed_sql, residual_unfixable_findings)`.
    pub fn fix(&self, sql: &str) -> (r: (String, Vec<Finding>))
        requires
            is_taken(self.dialect(), sql@),
        ensures
            fix_may_give(self.config(), sql@, r.0@, finding_views(r.1@)),
    {
        proof {
            use_type_invariant(self);
        }
        let outcome = self.linter.lint_string(sql, None, true);
        let ghost o = outcome;
        match outcome {
            Ok(linted) => {
                let left = residual(findings(linted.violations()));
                let text = linted.fix_string();
                assert(lint_may_return(self.config(), sql@, true, o));
                (text, left)
            },
            Err(_) => {
                let left: Vec<Finding> = Vec::new();
                assert(finding_views(left@) == unfixable(outcome_findings(o)));
                assert(lint_may_return(self.config(), sql@, true, o));
                (text_of(chars_of(sql).as_slice()), left)
            },
        }
    }
}

} // verus!
