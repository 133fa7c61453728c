//! A Rust string-literal token taken apart into its delimiters and the SQL
//! between them, and the dedent and re-indent steps on the way to the linter and
//! back.
use crate::text::{
    blank, chars_of, hash, hash_run, is_blank, join_lines, joined, lemma_run_len,
    lemma_tail_run_len, lemma_tail_run_len_is, lines, newline, newline_run, not_newline, rows,
    run_len, skip_newlines, split_lines, subvec, tail_run_len, text_of, trim_end, trim_end_newlines,
    trimmed_len, unfed_len, white, white_run,
};
use vstd::prelude::*;
use vstd::slice::slice_subrange;

verus! {

/// How a string literal is delimited.
#[derive(Debug, Clone, PartialEq, Eq)]
pub enum LiteralKind {
    /// `r#"…"#` with `hashes` `#` characters (0 for `r"…"`).
    Raw { hashes: usize },
    /// `"…"` with backslash escapes.
    Normal,
}

/// A string literal taken apart.
#[derive(Debug, Clone, PartialEq, Eq)]
pub struct ParsedLiteral {
    pub kind: LiteralKind,
    /// Inner text. Raw: verbatim. Normal: unescaped.
    pub content: String,
}

// ---------------------------------------------------------------------------
// Literals
// ---------------------------------------------------------------------------

/// `n` times `#`.
pub open spec fn hashes(n: nat) -> Seq<char> {
    Seq::new(n, |i: int| '#')
}

/// The raw string literal with `h` hashes around `content`.
pub open spec fn raw_literal(h: nat, content: Seq<char>) -> Seq<char> {
    seq!['r'] + hashes(h) + seq!['"'] + content + seq!['"'] + hashes(h)
}

/// What stands for `\c` in a string literal.
pub open spec fn escape_meaning(c: char) -> char {
    if c == 'n' {
        '\n'
    } else if c == 't' {
        '\t'
    } else if c == 'r' {
        '\r'
    } else if c == '0' {
        '\0'
    } else {
        c
    }
}

/// `s` with each backslash and the character after it replaced by what they
/// stand for. A backslash at the very end stays.
pub open spec fn unescaped(s: Seq<char>) -> Seq<char>
    decreases s.len(),
{
    if s.len() == 0 {
        Seq::empty()
    } else if s[0] != '\\' {
        seq![s[0]] + unescaped(s.skip(1))
    } else if s.len() == 1 {
        seq!['\\']
    } else {
        seq![escape_meaning(s[1])] + unescaped(s.skip(2))
    }
}

/// How many line feeds stand in `s` before what it stands for holds `j` of them. A line
/// feed that is written as an escape is none of the source.
pub open spec fn feeds_before(s: Seq<char>, j: nat) -> nat
    decreases s.len(),
{
    if j == 0 || s.len() == 0 {
        0
    } else if s[0] == '\n' {
        1 + feeds_before(s.skip(1), (j - 1) as nat)
    } else if s[0] != '\\' {
        feeds_before(s.skip(1), j)
    } else if s.len() == 1 {
        0
    } else if s[1] == '\n' {
        1 + feeds_before(s.skip(2), (j - 1) as nat)
    } else if escape_meaning(s[1]) == '\n' {
        feeds_before(s.skip(2), (j - 1) as nat)
    } else {
        feeds_before(s.skip(2), j)
    }
}

/// How many line feeds stand in the source text of a literal before its content holds
/// `j` of them.
pub open spec fn source_feeds(text: Seq<char>, j: nat) -> nat {
    match parsed_literal(text) {
        Some((LiteralKind::Raw { .. }, _)) => j,
        Some((LiteralKind::Normal, _)) => feeds_before(text.subrange(1, text.len() - 1), j),
        None => 0,
    }
}

/// The kind and the content of the literal that `text` is.
pub open spec fn parsed_literal(text: Seq<char>) -> Option<(LiteralKind, Seq<char>)> {
    if text.len() > 0 && text[0] == 'r' {
        let rest = text.skip(1);
        let h = run_len(rest, hash());
        let closing = seq!['"'] + hashes(h);
        if h < rest.len() && rest[h as int] == '"' && closing.is_suffix_of(
            rest.skip(h as int + 1),
        ) {
            Some(
                (
                    LiteralKind::Raw { hashes: h as usize },
                    rest.subrange(h as int + 1, rest.len() - h - 1),
                ),
            )
        } else {
            None
        }
    } else if text.len() >= 2 && text[0] == '"' && text.last() == '"' {
        Some((LiteralKind::Normal, unescaped(text.subrange(1, text.len() - 1))))
    } else {
        None
    }
}

impl ParsedLiteral {
    /// The kind and the content, as [`parsed_literal`] gives them.
    pub open spec fn parts(self) -> (LiteralKind, Seq<char>) {
        (self.kind, self.content@)
    }

    /// Parses the exact source text of a string literal (e.g. `r#"SELECT 1"#`).
    pub fn parse(text: &str) -> (lit: Option<Self>)
        ensures
            lit is Some <==> parsed_literal(text@) is Some,
            lit matches Some(l) ==> parsed_literal(text@) == Some(l.parts()),
    {
        let chars = chars_of(text);
        let len: usize = chars.len();
        if len > 0 && chars[0] == 'r' {
            let rest = slice_subrange(chars.as_slice(), 1, len);
            assert(rest@ == text@.skip(1));
            let h: usize = hash_run(rest);
            proof {
                lemma_run_len(rest@, hash());
            }
            if h >= rest.len() || rest[h] != '"' {
                return None;
            }
            let tail = slice_subrange(rest, h + 1, rest.len());
            assert(tail@ == rest@.skip(h as int + 1));
            if !closes(tail, h) {
                return None;
            }
            let end: usize = rest.len() - h - 1;
            let content = text_of(slice_subrange(rest, h + 1, end));
            return Some(ParsedLiteral { kind: LiteralKind::Raw { hashes: h }, content });
        }
        if len < 2 || chars[0] != '"' || chars[len - 1] != '"' {
            return None;
        }
        let inner = slice_subrange(chars.as_slice(), 1, len - 1);
        Some(ParsedLiteral { kind: LiteralKind::Normal, content: unescape(inner) })
    }

    /// Whether this is a raw string literal.
    pub fn is_raw(&self) -> (b: bool)
        ensures
            b == (self.kind is Raw),
    {
        match self.kind {
            LiteralKind::Raw { .. } => true,
            LiteralKind::Normal => false,
        }
    }

    /// Whether the content goes over more than one line.
    pub fn is_multiline(&self) -> (b: bool)
        ensures
            b == self.content@.contains('\n'),
    {
        let chars = chars_of(self.content.as_str());
        for i in 0..chars.len()
            invariant
                chars@ == self.content@,
                forall|j: int| 0 <= j < i ==> chars@[j] != '\n',
        {
            if chars[i] == '\n' {
                return true;
            }
        }
        false
    }
}

/// Whether `tail` ends in the closing delimiter of a raw literal with `h` hashes.
fn closes(tail: &[char], h: usize) -> (b: bool)
    ensures
        b == (seq!['"'] + hashes(h as nat)).is_suffix_of(tail@),
{
    let ghost closing = seq!['"'] + hashes(h as nat);
    let len: usize = tail.len();
    if len <= h {
        return false;
    }
    let start: usize = len - h - 1;
    let ghost found = tail@.subrange(start as int, len as int);
    if tail[start] != '"' {
        assert(found[0] != closing[0]);
        return false;
    }
    let mut i: usize = start + 1;
    while i < len
        invariant
            start < i <= len,
            len == tail@.len(),
            start == len - h - 1,
            found == tail@.subrange(start as int, len as int),
            closing == seq!['"'] + hashes(h as nat),
            forall|j: int| start < j < i ==> tail@[j] == '#',
        decreases len - i,
    {
        if tail[i] != '#' {
            assert(found[i - start] != closing[i - start]);
            return false;
        }
        i += 1;
    }
    assert(closing =~= found);
    true
}

/// Minimal Rust string unescape (enough for SQL: `\n \t \r \" \\ \0`).
pub fn unescape(s: &[char]) -> (out: String)
    ensures
        out@ == unescaped(s@),
{
    let mut out = String::new();
    let mut i: usize = 0;
    assert(s@.skip(0) == s@);
    while i < s.len()
        invariant
            i <= s.len(),
            out@ + unescaped(s@.skip(i as int)) == unescaped(s@),
        decreases s.len() - i,
    {
        let ghost before = out@;
        let ghost rest = s@.skip(i as int);
        if s[i] != '\\' {
            out.push(s[i]);
            assert(rest.skip(1) == s@.skip(i + 1));
            assert(before + (seq![rest[0]] + unescaped(rest.skip(1))) == out@ + unescaped(
                rest.skip(1),
            ));
            i += 1;
        } else if i + 1 == s.len() {
            out.push('\\');
            i += 1;
            assert(s@.skip(i as int) == Seq::<char>::empty());
            assert(before + seq!['\\'] == out@ + unescaped(Seq::<char>::empty()));
        } else {
            let c = s[i + 1];
            let meaning = match c {
                'n' => '\n',
                't' => '\t',
                'r' => '\r',
                '0' => '\0',
                other => other,
            };
            out.push(meaning);
            assert(rest.skip(2) == s@.skip(i + 2));
            assert(before + (seq![meaning] + unescaped(rest.skip(2))) == out@ + unescaped(
                rest.skip(2),
            ));
            i += 2;
        }
    }
    assert(s@.skip(i as int) == Seq::<char>::empty());
    assert(out@ + Seq::<char>::empty() == out@);
    out
}

/// How many line feeds stand in `s` before what it stands for holds `j` of them.
pub fn count_feeds(s: &[char], j: u128) -> (n: usize)
    ensures
        n == feeds_before(s@, j as nat),
        n <= s@.len(),
{
    let mut n: usize = 0;
    let mut i: usize = 0;
    let mut left: u128 = j;
    assert(s@.skip(0) =~= s@);
    while i < s.len() && left > 0
        invariant
            i <= s@.len(),
            n <= i,
            n + feeds_before(s@.skip(i as int), left as nat) == feeds_before(s@, j as nat),
        decreases s@.len() - i,
    {
        let ghost rest = s@.skip(i as int);
        proof {
            assert(rest.skip(1) =~= s@.skip(i + 1));
            if i + 1 < s@.len() {
                assert(rest[1] == s@[i + 1]);
                assert(rest.skip(2) =~= s@.skip(i + 2));
            }
        }
        if s[i] == '\n' {
            n += 1;
            left -= 1;
            i += 1;
        } else if s[i] != '\\' {
            i += 1;
        } else if s.len() - i == 1 {
            return n;
        } else {
            if s[i + 1] == '\n' {
                n += 1;
                left -= 1;
            } else if s[i + 1] == 'n' {
                left -= 1;
            }
            i += 2;
        }
    }
    n
}

// ---------------------------------------------------------------------------
// Indentation
// ---------------------------------------------------------------------------

/// The white space at the start of a line.
pub open spec fn indent_of(line: Seq<char>) -> Seq<char> {
    line.take(run_len(line, white()) as int)
}

/// The longest text with which both `a` and `b` start.
pub open spec fn common_start(a: Seq<char>, b: Seq<char>) -> Seq<char>
    decreases a.len(),
{
    if a.len() > 0 && b.len() > 0 && a[0] == b[0] {
        seq![a[0]] + common_start(a.skip(1), b.skip(1))
    } else {
        Seq::empty()
    }
}

/// The longest white space with which all lines start that are not blank; nothing where
/// every line is blank.
pub open spec fn shared_indent(ls: Seq<Seq<char>>) -> Option<Seq<char>>
    decreases ls.len(),
{
    if ls.len() == 0 {
        None
    } else {
        let before = shared_indent(ls.drop_last());
        if is_blank(ls.last()) {
            before
        } else {
            match before {
                Some(i) => Some(common_start(i, indent_of(ls.last()))),
                None => Some(indent_of(ls.last())),
            }
        }
    }
}

/// [`shared_indent`], empty where every line is blank.
pub open spec fn common_indent(ls: Seq<Seq<char>>) -> Seq<char> {
    match shared_indent(ls) {
        Some(i) => i,
        None => Seq::empty(),
    }
}

/// `line` without an indent of `n` characters. A blank line becomes empty.
pub open spec fn dedent_line(line: Seq<char>, n: nat) -> Seq<char> {
    if is_blank(line) {
        Seq::empty()
    } else {
        line.skip(n as int)
    }
}

/// [`dedent_line`] of every line.
pub open spec fn dedent_lines(ls: Seq<Seq<char>>, n: nat) -> Seq<Seq<char>> {
    Seq::new(ls.len(), |i: int| dedent_line(ls[i], n))
}

/// The lines of SQL in a literal's content: without the line feeds before and
/// the white space after them.
pub open spec fn sql_lines(content: Seq<char>) -> Seq<Seq<char>> {
    lines(trim_end(skip_newlines(content)))
}

/// What [`dedent`] gives.
pub open spec fn dedented(content: Seq<char>) -> Seq<char> {
    let ls = sql_lines(content);
    if ls.len() == 0 {
        Seq::empty()
    } else {
        join_lines(dedent_lines(ls, common_indent(ls).len())).push('\n')
    }
}

/// `line` behind `indent`, or nothing where it is blank.
pub open spec fn indent_line(line: Seq<char>, indent: Seq<char>) -> Seq<char> {
    if is_blank(line) {
        Seq::empty()
    } else {
        indent + line
    }
}

/// [`indent_line`] of every line.
pub open spec fn indent_lines(ls: Seq<Seq<char>>, indent: Seq<char>) -> Seq<Seq<char>> {
    Seq::new(ls.len(), |i: int| indent_line(ls[i], indent))
}

/// What [`reindent`] gives.
pub open spec fn reindented(sql: Seq<char>, indent: Seq<char>) -> Seq<char> {
    join_lines(indent_lines(lines(trim_end_newlines(sql)), indent))
}

/// The line feeds right after the opening delimiter.
pub open spec fn leading_frame(content: Seq<char>) -> Seq<char> {
    content.take(run_len(content, newline()) as int)
}

/// Being a space or a tab.
pub open spec fn is_space_or_tab(c: char) -> bool {
    c == ' ' || c == '\t'
}

/// The last line feed and what follows it, where only spaces and tabs do: the
/// closing delimiter then stands on a line of its own. Otherwise nothing.
pub open spec fn trailing_frame(content: Seq<char>) -> Seq<char> {
    let start = content.len() - tail_run_len(content, not_newline()) - 1;
    if start >= 0 && (forall|i: int|
        start < i < content.len() ==> is_space_or_tab(#[trigger] content[i])) {
        content.skip(start)
    } else {
        Seq::empty()
    }
}

/// What [`common_start`] gives: a start of both, and one that no longer start of both
/// exceeds.
pub proof fn lemma_common_start(a: Seq<char>, b: Seq<char>)
    ensures
        common_start(a, b).is_prefix_of(a),
        common_start(a, b).is_prefix_of(b),
        forall|p: Seq<char>|
            #![trigger p.is_prefix_of(common_start(a, b))]
            p.is_prefix_of(a) && p.is_prefix_of(b) ==> p.is_prefix_of(common_start(a, b)),
    decreases a.len(),
{
    let c = common_start(a, b);
    if a.len() > 0 && b.len() > 0 && a[0] == b[0] {
        let rest = common_start(a.skip(1), b.skip(1));
        lemma_common_start(a.skip(1), b.skip(1));
        assert(c =~= a.take(c.len() as int)) by {
            assert forall|i: int| 0 <= i < c.len() implies c[i] == a[i] by {
                if i > 0 {
                    assert(rest[i - 1] == a.skip(1)[i - 1]);
                }
            }
        }
        assert(c =~= b.take(c.len() as int)) by {
            assert forall|i: int| 0 <= i < c.len() implies c[i] == b[i] by {
                if i > 0 {
                    assert(rest[i - 1] == b.skip(1)[i - 1]);
                }
            }
        }
        assert forall|p: Seq<char>|
            #![trigger p.is_prefix_of(c)]
            p.is_prefix_of(a) && p.is_prefix_of(b) implies p.is_prefix_of(c) by {
            if p.len() > 0 {
                let q = p.skip(1);
                assert(q =~= a.skip(1).take(q.len() as int));
                assert(q =~= b.skip(1).take(q.len() as int));
                assert(q.is_prefix_of(rest));
                assert(p =~= c.take(p.len() as int)) by {
                    assert forall|i: int| 0 <= i < p.len() implies p[i] == c[i] by {
                        if i > 0 {
                            assert(q[i - 1] == rest[i - 1]);
                        } else {
                            assert(p[0] == a[0]);
                        }
                    }
                }
            } else {
                assert(p =~= c.take(0));
            }
        }
    } else {
        assert(c =~= a.take(0));
        assert(c =~= b.take(0));
        assert forall|p: Seq<char>|
            #![trigger p.is_prefix_of(c)]
            p.is_prefix_of(a) && p.is_prefix_of(b) implies p.is_prefix_of(c) by {
            if p.len() > 0 {
                assert(p[0] == a[0] && p[0] == b[0]);
            }
            assert(p =~= c.take(0));
        }
    }
}

/// How many characters of white space `line` starts with.
pub fn leading_ws_len(line: &[char]) -> (n: usize)
    ensures
        n <= line@.len(),
        line@.take(n as int) == indent_of(line@),
{
    let n: usize = white_run(line);
    proof {
        lemma_run_len(line@, white());
    }
    n
}

/// How many characters `a` and `b` start with in common.
fn common_len(a: &[char], b: &[char]) -> (n: usize)
    ensures
        n <= a@.len(),
        a@.take(n as int) == common_start(a@, b@),
{
    let mut n: usize = 0;
    proof {
        assert(a@.skip(0) =~= a@);
        assert(b@.skip(0) =~= b@);
        assert(a@.take(0) + common_start(a@, b@) =~= common_start(a@, b@));
    }
    while n < a.len() && n < b.len() && a[n] == b[n]
        invariant
            n <= a@.len(),
            n <= b@.len(),
            a@.take(n as int) + common_start(a@.skip(n as int), b@.skip(n as int)) == common_start(
                a@,
                b@,
            ),
        decreases a@.len() - n,
    {
        proof {
            let x = a@.skip(n as int);
            let y = b@.skip(n as int);
            assert(x.skip(1) =~= a@.skip(n + 1));
            assert(y.skip(1) =~= b@.skip(n + 1));
            assert(a@.take(n as int) + (seq![x[0]] + common_start(x.skip(1), y.skip(1))) =~= a@.take(
                n + 1,
            ) + common_start(x.skip(1), y.skip(1)));
        }
        n += 1;
    }
    assert(a@.take(n as int) + Seq::<char>::empty() =~= a@.take(n as int));
    n
}

/// The indent of a block of lines.
fn find_indent(ls: &Vec<Vec<char>>) -> (indent: Vec<char>)
    ensures
        indent@ == common_indent(rows(ls@)),
{
    let mut best: Vec<char> = Vec::new();
    let mut found = false;
    let count: usize = ls.len();
    for i in 0..count
        invariant
            count == ls.len(),
            found == (shared_indent(rows(ls@).take(i as int)) is Some),
            found ==> shared_indent(rows(ls@).take(i as int)) == Some(best@),
            !found ==> best@ == Seq::<char>::empty(),
    {
        let ghost upto = rows(ls@).take(i + 1);
        proof {
            assert(upto.drop_last() == rows(ls@).take(i as int));
            assert(upto.last() == ls[i as int]@);
        }
        let line = ls[i].as_slice();
        if !blank(line) {
            let k: usize = leading_ws_len(line);
            let own = subvec(line, 0, k);
            assert(own@ =~= indent_of(line@));
            if found {
                let n: usize = common_len(best.as_slice(), own.as_slice());
                best = subvec(best.as_slice(), 0, n);
            } else {
                best = own;
                found = true;
            }
        }
    }
    assert(rows(ls@).take(count as int) == rows(ls@));
    best
}

/// The shared indent is one of every line that is not blank.
proof fn lemma_indent_fits(ls: Seq<Seq<char>>)
    ensures
        forall|i: int|
            0 <= i < ls.len() && !is_blank(#[trigger] ls[i]) ==> common_indent(ls).len()
                <= ls[i].len(),
    decreases ls.len(),
{
    if ls.len() > 0 {
        let init = ls.drop_last();
        lemma_indent_fits(init);
        lemma_run_len(ls.last(), white());
        lemma_common_start(common_indent(init), indent_of(ls.last()));
        assert forall|i: int| 0 <= i < ls.len() && !is_blank(#[trigger] ls[i]) implies common_indent(
            ls,
        ).len() <= ls[i].len() by {
            if i < init.len() {
                assert(ls[i] == init[i]);
                lemma_some_indent(init, i);
            }
        }
    }
}

/// Lines of which one is not blank have an indent.
pub proof fn lemma_some_indent(ls: Seq<Seq<char>>, i: int)
    requires
        0 <= i < ls.len(),
        !is_blank(ls[i]),
    ensures
        shared_indent(ls) is Some,
    decreases ls.len(),
{
    if i < ls.len() - 1 {
        assert(ls.drop_last()[i] == ls[i]);
        lemma_some_indent(ls.drop_last(), i);
    }
}

/// `line` without an indent of `n` characters.
fn dedented_line(line: &[char], n: usize) -> (out: Vec<char>)
    requires
        !is_blank(line@) ==> n <= line@.len(),
    ensures
        out@ == dedent_line(line@, n as nat),
{
    if blank(line) {
        return Vec::new();
    }
    let out = subvec(line, n, line.len());
    assert(out@ =~= line@.skip(n as int));
    out
}

/// Strips leading newlines, trailing white space and the common leading indent,
/// so that the linter sees SQL that starts in the first column.
pub fn dedent(content: &str) -> (sql: String)
    ensures
        sql@ == dedented(content@),
{
    let chars = chars_of(content);
    let k: usize = newline_run(chars.as_slice());
    proof {
        lemma_run_len(chars@, newline());
    }
    let body = slice_subrange(chars.as_slice(), k, chars.len());
    assert(body@ == skip_newlines(content@));
    let end: usize = trimmed_len(body);
    let inner = slice_subrange(body, 0, end);
    assert(inner@ == trim_end(body@));
    let ls = split_lines(inner);
    if ls.len() == 0 {
        assert(rows(ls@).len() == 0);
        return String::new();
    }
    let indent = find_indent(&ls);
    let n: usize = indent.len();
    proof {
        lemma_indent_fits(rows(ls@));
    }
    let mut out: Vec<Vec<char>> = Vec::new();
    let count: usize = ls.len();
    for i in 0..count
        invariant
            count == ls.len(),
            forall|j: int|
                0 <= j < count && !is_blank(#[trigger] rows(ls@)[j]) ==> n <= rows(ls@)[j].len(),
            rows(out@) == dedent_lines(rows(ls@), n as nat).take(i as int),
    {
        assert(rows(ls@)[i as int] == ls[i as int]@);
        let line = dedented_line(ls[i].as_slice(), n);
        let ghost before = rows(out@);
        out.push(line);
        assert(rows(out@) == before.push(line@));
    }
    assert(rows(out@) == dedent_lines(rows(ls@), n as nat));
    let mut sql = joined(&out);
    sql.push('\n');
    sql
}

/// Common leading indent of the body lines (used to re-indent fixed SQL back).
pub fn block_indent(content: &str) -> (indent: String)
    ensures
        indent@ == common_indent(lines(content@)),
{
    let chars = chars_of(content);
    let ls = split_lines(chars.as_slice());
    let indent = find_indent(&ls);
    text_of(indent.as_slice())
}

/// The literal's leading and trailing framing, preserved verbatim so a no-op
/// fix rebuilds byte-for-byte. `leading` is the run of `\n` after the opening
/// delimiter; `trailing` is `\n` and the closing indent when the closing
/// delimiter sits on its own line, or `""` when it is stuck to the last SQL line.
pub fn framing(content: &str) -> (frame: (String, String))
    ensures
        frame.0@ == leading_frame(content@),
        frame.1@ == trailing_frame(content@),
{
    let chars = chars_of(content);
    let k: usize = newline_run(chars.as_slice());
    proof {
        lemma_run_len(chars@, newline());
    }
    let leading = text_of(slice_subrange(chars.as_slice(), 0, k));
    let mut i: usize = chars.len();
    while i > 0 && (chars[i - 1] == ' ' || chars[i - 1] == '\t')
        invariant
            i <= chars.len(),
            forall|j: int| i <= j < chars@.len() ==> is_space_or_tab(#[trigger] chars@[j]),
        decreases i,
    {
        i -= 1;
    }
    if i > 0 && chars[i - 1] == '\n' {
        proof {
            lemma_tail_run_len_is(chars@, not_newline(), (chars@.len() - i) as nat);
        }
        let trailing = text_of(slice_subrange(chars.as_slice(), i - 1, chars.len()));
        assert(trailing@ == chars@.skip(i - 1));
        (leading, trailing)
    } else {
        proof {
            lemma_tail_run_len(chars@, not_newline());
            let start = chars@.len() - tail_run_len(chars@, not_newline()) - 1;
            if start >= 0 {
                assert(chars@[start] == '\n');
                if i > 0 {
                    assert(start < i - 1);
                    assert(!is_space_or_tab(chars@[i - 1]));
                }
            }
        }
        (leading, String::new())
    }
}

/// Prefixes every non-blank line of `sql` with `indent`.
pub fn reindent(sql: &str, indent: &str) -> (out: String)
    ensures
        out@ == reindented(sql@, indent@),
{
    let chars = chars_of(sql);
    let end: usize = unfed_len(chars.as_slice());
    let body = slice_subrange(chars.as_slice(), 0, end);
    assert(body@ == trim_end_newlines(sql@));
    let ls = split_lines(body);
    let prefix = chars_of(indent);
    let mut out: Vec<Vec<char>> = Vec::new();
    let count: usize = ls.len();
    for i in 0..count
        invariant
            count == ls.len(),
            prefix@ == indent@,
            rows(out@) == indent_lines(rows(ls@), indent@).take(i as int),
    {
        let ghost before = rows(out@);
        let mut line: Vec<char> = Vec::new();
        if !blank(ls[i].as_slice()) {
            line = concat(prefix.as_slice(), ls[i].as_slice());
        }
        assert(line@ == indent_line(ls[i as int]@, indent@));
        out.push(line);
        assert(rows(out@) == before.push(line@));
    }
    assert(rows(out@) == indent_lines(rows(ls@), indent@));
    joined(&out)
}

/// `a` followed by `b`.
fn concat(a: &[char], b: &[char]) -> (out: Vec<char>)
    ensures
        out@ == a@ + b@,
{
    let mut out = subvec(a, 0, a.len());
    for i in 0..b.len()
        invariant
            out@ == a@ + b@.take(i as int),
    {
        out.push(b[i]);
    }
    out
}

} // verus!
