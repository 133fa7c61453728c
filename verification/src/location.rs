//! Laws of where a finding is reported: the line and the column of a diagnostic lead
//! to the character of the SQL that the linter pointed at.
use crate::engine::{content_row, diagnostic_of, saturated};
use crate::extract::{
    count_newlines, is_part_of, lemma_count_newlines_add, lemma_count_newlines_zero,
    starts_on_its_line, QueryView,
};
use crate::layout::{
    is_line_with_space, lemma_common_indent, lemma_content_parts, lemma_dedented_line,
    lemma_dedented_pieces, lemma_lines_before_space, lemma_lines_behind_newlines,
    lemma_lines_on_one_line, lemma_one_indent, on_one_line, pieces, sql_body, sql_tail,
};
use crate::literal::{
    common_indent, dedent_line, dedented, escape_meaning, feeds_before, hashes, parsed_literal,
    raw_literal, sql_lines, unescaped, LiteralKind,
};
use crate::roundtrip::lemma_raw_literal_is_its_text;
use crate::sqruff_adapter::FindingView;
use crate::text::{
    byte_len, char_at_byte, is_blank, lemma_byte_len_add, lemma_run_len, lines, newline,
    not_newline, run_len, starts_at, strip_cr,
};
use vstd::prelude::*;

verus! {

/// Line `i` of the SQL that the linter gets is, without the indent, the line of the
/// literal's content that comes that many lines after the line feeds at its start.
pub proof fn lemma_sql_line_is_content_line(content: Seq<char>, i: int)
    requires
        0 <= i < sql_lines(content).len(),
    ensures
        ({
            let at = run_len(content, newline()) + i;
            let indent = common_indent(lines(content));
            &&& at < lines(content).len()
            &&& is_line_with_space(sql_lines(content)[i], lines(content)[at])
            &&& pieces(dedented(content)).len() == sql_lines(content).len() + 1
            &&& pieces(dedented(content))[i] == dedent_line(
                sql_lines(content)[i],
                indent.len(),
            )
        }),
{
    lemma_content_parts(content);
    let s = sql_body(content);
    let w = sql_tail(content);
    assert(s.len() > 0);
    lemma_dedented_pieces(content);
    lemma_one_indent(content);
    lemma_lines_behind_newlines(content);
    lemma_lines_before_space(s, w);
    let ls = lines(s);
    let k = run_len(content, newline()) as int;
    assert(lines(content)[k + i] == lines(s + w)[i]);
    if i < ls.len() - 1 {
        assert(ls[i] == lines(s + w)[i]);
        assert(ls[i].skip(ls[i].len() as int) =~= Seq::<char>::empty());
    }
}

/// The finding `f` is at a character of the SQL, and its place can be held by a `usize`.
pub open spec fn is_at_character(line: int, content: Seq<char>, f: FindingView) -> bool {
    let sql_line = pieces(dedented(content))[f.line - 1];
    &&& 1 <= f.line <= sql_lines(content).len()
    &&& char_at_byte(sql_line, f.col as int) matches Some(k) && k < sql_line.len()
    &&& line + lines(content).len() <= usize::MAX
    &&& f.col + common_indent(lines(content)).len() < usize::MAX
}

/// Which character of its line of the SQL the finding `f` is at.
pub open spec fn sql_column(content: Seq<char>, f: FindingView) -> int {
    char_at_byte(pieces(dedented(content))[f.line - 1], f.col as int).unwrap()
}

/// Which character of its line of the content the finding `f` is at.
pub open spec fn content_column(content: Seq<char>, f: FindingView) -> int {
    common_indent(lines(content)).len() + sql_column(content, f)
}

/// The character of the SQL at which a finding is stands in the line of the content that
/// [`content_row`] tells, behind the indent. The column of the diagnostic counts the
/// characters up to it where none before it in the SQL takes more than one byte, and the
/// bytes up to it where no character of the indent does.
pub proof fn lemma_diagnostic_points_at_finding(
    path: Seq<char>,
    q: QueryView,
    content: Seq<char>,
    f: FindingView,
)
    requires
        is_at_character(q.line, content, f),
    ensures
        ({
            let d = diagnostic_of(path, q, content, f);
            let indent = common_indent(lines(content));
            let line = lines(content)[content_row(content, f) as int];
            let k = content_column(content, f);
            &&& content_row(content, f) < lines(content).len()
            &&& 0 <= k < line.len()
            &&& line[k] == pieces(dedented(content))[f.line - 1][sql_column(content, f)]
            &&& sql_column(content, f) == f.col ==> d.col == k + 1
            &&& byte_len(indent) == indent.len() ==> d.col == byte_len(line.take(k)) + 1
        }),
{
    let i = f.line - 1;
    lemma_sql_line_is_content_line(content, i);
    lemma_one_indent(content);
    let ls = sql_lines(content);
    let l = ls[i];
    let indent = common_indent(ls);
    let line = lines(content)[content_row(content, f) as int];
    let p = pieces(dedented(content))[i];
    let j = sql_column(content, f);
    let k = content_column(content, f);
    assert(starts_at(p, j, f.col as int));
    assert(!is_blank(l));
    lemma_common_indent(ls);
    lemma_dedented_line(l, indent);
    assert(l == indent + p);
    assert(l == line.take(l.len() as int));
    assert(line[k] == l[k]);
    assert(line.take(k) =~= indent + p.take(j));
    lemma_byte_len_add(indent, p.take(j));
}

// ---------------------------------------------------------------------------
// In the file
// ---------------------------------------------------------------------------

/// Where a line of a text starts: after as many line feeds as there are lines before
/// it.
proof fn lemma_line_is_part(s: Seq<char>, r: int) -> (k: int)
    requires
        0 <= r < lines(s).len(),
    ensures
        0 <= k,
        k + lines(s)[r].len() <= s.len(),
        s.subrange(k, k + lines(s)[r].len()) == lines(s)[r],
        count_newlines(s.take(k)) == r,
        r == 0 ==> k == 0,
        r > 0 ==> k > 0 && s[k - 1] == '\n',
    decreases r,
{
    lemma_run_len(s, not_newline());
    let n = run_len(s, not_newline()) as int;
    if r == 0 {
        assert(s.take(0) =~= Seq::<char>::empty());
        if n < s.len() {
            assert(s.subrange(0, strip_cr(s.take(n)).len() as int) =~= strip_cr(s.take(n)));
        } else {
            assert(s.subrange(0, s.len() as int) =~= s);
        }
        0
    } else {
        let rest = s.skip(n + 1);
        assert(lines(s)[r] == lines(rest)[r - 1]);
        let j = lemma_line_is_part(rest, r - 1);
        let k = n + 1 + j;
        let m = lines(s)[r].len();
        assert(s.subrange(k, k + m) =~= rest.subrange(j, j + m));
        let first = s.take(n);
        assert forall|i: int| 0 <= i < first.len() implies first[i] != '\n' by {
            assert(not_newline()(s[i]));
        }
        lemma_count_newlines_zero(first);
        assert(s.take(n + 1).drop_last() =~= first);
        assert(s.take(n + 1).last() == '\n');
        assert(s.take(k) =~= s.take(n + 1) + rest.take(j));
        lemma_count_newlines_add(s.take(n + 1), rest.take(j));
        if r > 1 {
            assert(s[k - 1] == rest[j - 1]);
        }
        k
    }
}

/// Where a line of a text stands in a file that holds the text behind a delimiter: so
/// many lines below the delimiter as there are lines of the text before it.
proof fn lemma_place_in_file(
    src: Seq<char>,
    a: int,
    open: Seq<char>,
    content: Seq<char>,
    row: int,
) -> (start: int)
    requires
        0 <= a,
        a + open.len() + content.len() <= src.len(),
        src.subrange(a, a + open.len() + content.len()) == open + content,
        on_one_line(open),
        0 <= row < lines(content).len(),
    ensures
        0 <= start,
        start + lines(content)[row].len() <= src.len(),
        src.subrange(start, start + lines(content)[row].len()) == lines(content)[row],
        count_newlines(src.take(start)) == count_newlines(src.take(a)) + row,
        row > 0 ==> 0 < start && src[start - 1] == '\n',
{
    let k = lemma_line_is_part(content, row);
    let line = lines(content)[row];
    let here = src.subrange(a, a + open.len() + content.len());
    let at = a + open.len();
    assert forall|i: int| 0 <= i < content.len() implies src[at + i] == #[trigger] content[i] by {
        assert(here[open.len() + i] == (open + content)[open.len() + i]);
    }
    let start = at + k;
    assert(src.subrange(start, start + line.len()) =~= content.subrange(k, k + line.len()));
    assert(src.take(start) =~= src.take(a) + open + content.take(k)) by {
        assert forall|i: int| 0 <= i < open.len() implies src[a + i] == #[trigger] open[i] by {
            assert(here[i] == (open + content)[i]);
        }
    }
    lemma_count_newlines_add(src.take(a) + open, content.take(k));
    lemma_count_newlines_add(src.take(a), open);
    lemma_count_newlines_zero(open);
    if row > 0 {
        assert(src[start - 1] == content[k - 1]);
    }
    start
}

/// The text of a part of the source.
proof fn lemma_text_of_part(q: QueryView, src: Seq<char>)
    requires
        is_part_of(q, src),
    ensures
        ({
            let a = char_at_byte(src, q.start_byte).unwrap();
            &&& 0 <= a
            &&& a + q.text.len() <= src.len()
            &&& forall|n: int| 0 <= n <= q.text.len() ==> src.subrange(a, a + n)
                == #[trigger] q.text.take(n)
        }),
{
    let a = char_at_byte(src, q.start_byte).unwrap();
    let b = char_at_byte(src, q.end_byte).unwrap();
    assert(starts_at(src, a, q.start_byte));
    assert(starts_at(src, b, q.end_byte));
    assert forall|n: int| 0 <= n <= q.text.len() implies src.subrange(a, a + n)
        == #[trigger] q.text.take(n) by {
        assert(src.subrange(a, a + n) =~= q.text.take(n));
    }
}

/// The line of a diagnostic of a raw string is the line of the file on which the line
/// of the SQL stands that the linter pointed at. It starts at `start`, and, on any line
/// after the one where the literal starts, a line of the file starts there too. (As does
/// every query that is extracted, `q` starts on the line that it tells.)
pub proof fn lemma_diagnostic_line_is_file_line(
    path: Seq<char>,
    src: Seq<char>,
    q: QueryView,
    content: Seq<char>,
    f: FindingView,
) -> (start: int)
    requires
        q.text.len() <= usize::MAX,
        is_part_of(q, src),
        parsed_literal(q.text) matches Some((LiteralKind::Raw { .. }, c)) && c == content,
        starts_on_its_line(src, q),
        1 <= f.line <= sql_lines(content).len(),
        q.line + lines(content).len() <= usize::MAX,
    ensures
        ({
            let d = diagnostic_of(path, q, content, f);
            let row = content_row(content, f) as int;
            &&& 0 <= row < lines(content).len()
            &&& 0 <= start
            &&& start + lines(content)[row].len() <= src.len()
            &&& src.subrange(start, start + lines(content)[row].len()) == lines(content)[row]
            &&& is_line_with_space(sql_lines(content)[f.line - 1], lines(content)[row])
            &&& d.line == count_newlines(src.take(start)) + 1
            &&& d.line > q.line ==> 0 < start && src[start - 1] == '\n'
        }),
{
    lemma_sql_line_is_content_line(content, f.line - 1);
    lemma_raw_literal_is_its_text(q.text);
    let h = match parsed_literal(q.text) {
        Some((LiteralKind::Raw { hashes }, _)) => hashes as nat,
        _ => 0,
    };
    let open = seq!['r'] + hashes(h) + seq!['"'];
    let a = char_at_byte(src, q.start_byte).unwrap();
    lemma_text_of_part(q, src);
    assert(src.subrange(a, a + open.len() + content.len()) =~= open + content) by {
        assert(q.text == raw_literal(h, content));
        assert(q.text.take((open.len() + content.len()) as int) =~= open + content);
    }
    lemma_place_in_file(src, a, open, content, content_row(content, f) as int)
}

/// A diagnostic of a raw string leads to the character that the linter pointed at: that
/// character stands at `pos` in the file, on the line of the diagnostic, and, on any
/// line after the one where the literal starts, in its column, counted in characters or
/// in bytes as [`lemma_diagnostic_points_at_finding`] says. (As does every query
/// that is extracted, `q` starts on the line that it tells.)
pub proof fn lemma_diagnostic_leads_to_file(
    path: Seq<char>,
    src: Seq<char>,
    q: QueryView,
    content: Seq<char>,
    f: FindingView,
) -> (pos: int)
    requires
        q.text.len() <= usize::MAX,
        is_part_of(q, src),
        parsed_literal(q.text) matches Some((LiteralKind::Raw { .. }, c)) && c == content,
        starts_on_its_line(src, q),
        is_at_character(q.line, content, f),
    ensures
        ({
            let d = diagnostic_of(path, q, content, f);
            let indent = common_indent(lines(content));
            let start = pos - content_column(content, f);
            &&& 0 <= start <= pos < src.len()
            &&& src[pos] == pieces(dedented(content))[f.line - 1][sql_column(content, f)]
            &&& d.line == count_newlines(src.take(pos)) + 1
            &&& d.line > q.line ==> 0 < start && src[start - 1] == '\n'
            &&& on_one_line(src.subrange(start, pos))
            &&& sql_column(content, f) == f.col ==> d.col == pos - start + 1
            &&& byte_len(indent) == indent.len() ==> d.col == byte_len(src.subrange(start, pos)) + 1
        }),
{
    let k = content_column(content, f);
    lemma_diagnostic_points_at_finding(path, q, content, f);
    let start = lemma_diagnostic_line_is_file_line(path, src, q, content, f);
    let line = lines(content)[content_row(content, f) as int];
    let here = src.subrange(start, start + line.len());
    lemma_lines_on_one_line(content);
    assert(on_one_line(line));
    assert(here[k] == src[start + k]);
    let run = src.subrange(start, start + k);
    assert(run =~= line.take(k)) by {
        assert forall|i: int| 0 <= i < run.len() implies run[i] == line[i] by {
            assert(run[i] == here[i]);
        }
    }
    assert forall|i: int| 0 <= i < run.len() implies #[trigger] run[i] != '\n' by {
        assert(run[i] == line[i]);
    }
    lemma_count_newlines_zero(run);
    lemma_count_newlines_add(src.take(start), run);
    assert(src.take(start + k) =~= src.take(start) + run);
    start + k
}

// ---------------------------------------------------------------------------
// Strings with escapes
// ---------------------------------------------------------------------------

/// Where in the source of an escaped text the line starts that `j` line feeds come before.
proof fn lemma_source_of_line(s: Seq<char>, j: nat) -> (k: int)
    requires
        j <= count_newlines(unescaped(s)),
    ensures
        0 <= k <= s.len(),
        j == 0 ==> k == 0,
        unescaped(s) == unescaped(s.take(k)) + unescaped(s.skip(k)),
        count_newlines(unescaped(s.take(k))) == j,
        j > 0 ==> unescaped(s.take(k)).len() > 0 && unescaped(s.take(k)).last() == '\n',
        count_newlines(s.take(k)) == feeds_before(s, j),
    decreases s.len(),
{
    let none = Seq::<char>::empty();
    if j == 0 {
        assert(s.take(0) =~= none);
        assert(s.skip(0) =~= s);
        assert(none + unescaped(s) =~= unescaped(s));
        0
    } else if s.len() == 1 && s[0] == '\\' {
        lemma_count_newlines_zero(unescaped(s));
        0
    } else {
        let n: int = if s[0] == '\\' {
            2
        } else {
            1
        };
        let c = if s[0] == '\\' {
            escape_meaning(s[1])
        } else {
            s[0]
        };
        let rest = s.skip(n);
        let i = (j - if c == '\n' {
            1int
        } else {
            0
        }) as nat;
        lemma_short_count(seq![c]);
        lemma_count_newlines_add(seq![c], unescaped(rest));
        let m = lemma_source_of_line(rest, i);
        let k = n + m;
        let head = s.take(k);
        assert(head.skip(n) =~= rest.take(m));
        assert(s.skip(k) =~= rest.skip(m));
        assert(unescaped(head) == seq![c] + unescaped(rest.take(m)));
        assert(unescaped(s) =~= unescaped(head) + unescaped(s.skip(k)));
        lemma_count_newlines_add(seq![c], unescaped(rest.take(m)));
        if i == 0 {
            assert(rest.take(0) =~= none);
        }
        assert(head =~= s.take(n) + rest.take(m));
        lemma_count_newlines_add(s.take(n), rest.take(m));
        lemma_short_count(s.take(n));
        k
    }
}

/// A diagnostic of a string with escapes is on the line of the file on which the line of
/// the SQL starts that the linter pointed at. That line of the SQL starts at `at` in the
/// file: what stands between the quote and `at` stands for the lines of the content before
/// it. (As does every query that is extracted, `q` starts on the line that it tells.)
pub proof fn lemma_diagnostic_of_string_is_on_its_line(
    path: Seq<char>,
    src: Seq<char>,
    q: QueryView,
    content: Seq<char>,
    f: FindingView,
) -> (at: int)
    requires
        is_part_of(q, src),
        parsed_literal(q.text) == Some((LiteralKind::Normal, content)),
        starts_on_its_line(src, q),
        1 <= f.line <= sql_lines(content).len(),
    ensures
        ({
            let d = diagnostic_of(path, q, content, f);
            let a = char_at_byte(src, q.start_byte).unwrap();
            let before = unescaped(src.subrange(a + 1, at));
            &&& a < at < a + q.text.len() <= src.len()
            &&& before.is_prefix_of(content)
            &&& count_newlines(before) == content_row(content, f)
            &&& content_row(content, f) > 0 ==> before.last() == '\n'
            &&& d.line == saturated((count_newlines(src.take(at)) + 1) as int)
        }),
{
    let row = content_row(content, f);
    lemma_sql_line_is_content_line(content, f.line - 1);
    let start = lemma_line_is_part(content, row as int);
    assert(content =~= content.take(start) + content.skip(start));
    lemma_count_newlines_add(content.take(start), content.skip(start));
    let s = q.text.subrange(1, q.text.len() - 1);
    let k = lemma_source_of_line(s, row);
    assert(unescaped(s.take(k)) =~= content.take(unescaped(s.take(k)).len() as int));
    let a = char_at_byte(src, q.start_byte).unwrap();
    lemma_text_of_part(q, src);
    let here = src.subrange(a, a + 1 + k);
    assert(here == q.text.take(1 + k));
    let quote = seq!['"'];
    assert(here =~= quote + s.take(k));
    assert(src.subrange(a + 1, a + 1 + k) =~= here.skip(1));
    assert(here.skip(1) =~= s.take(k));
    assert(src.take(a + 1 + k) =~= src.take(a) + quote + s.take(k)) by {
        assert(src.take(a + 1 + k) =~= src.take(a) + here);
    }
    lemma_count_newlines_add(src.take(a) + quote, s.take(k));
    lemma_count_newlines_add(src.take(a), quote);
    lemma_count_newlines_zero(quote);
    a + 1 + k
}

/// A diagnostic of a string with escapes is on a line of the literal, whatever the linter
/// says: on the only one where the literal stands on one line.
pub proof fn lemma_diagnostic_of_string_is_on_literal(
    path: Seq<char>,
    q: QueryView,
    content: Seq<char>,
    f: FindingView,
)
    requires
        parsed_literal(q.text) == Some((LiteralKind::Normal, content)),
        q.line <= usize::MAX,
    ensures
        q.line <= diagnostic_of(path, q, content, f).line <= q.line + count_newlines(q.text),
{
    let s = q.text.subrange(1, q.text.len() - 1);
    lemma_feeds_are_line_feeds(s, content_row(content, f));
    assert(q.text =~= seq!['"'] + s + seq!['"']);
    lemma_count_newlines_add(seq!['"'] + s, seq!['"']);
    lemma_count_newlines_add(seq!['"'], s);
}

/// The counted line feeds are line feeds of the source.
proof fn lemma_feeds_are_line_feeds(s: Seq<char>, j: nat)
    ensures
        feeds_before(s, j) <= count_newlines(s),
    decreases s.len(),
{
    if j > 0 && s.len() > 0 && !(s.len() == 1 && s[0] == '\\') {
        let n: int = if s[0] == '\\' {
            2
        } else {
            1
        };
        assert(s =~= s.take(n) + s.skip(n));
        lemma_count_newlines_add(s.take(n), s.skip(n));
        lemma_short_count(s.take(n));
        lemma_feeds_are_line_feeds(s.skip(n), j);
        lemma_feeds_are_line_feeds(s.skip(n), (j - 1) as nat);
    }
}

/// The line feeds of one or two characters.
proof fn lemma_short_count(s: Seq<char>)
    requires
        1 <= s.len() <= 2,
    ensures
        s.len() == 1 ==> count_newlines(s) == (if s[0] == '\n' {
            1nat
        } else {
            0
        }),
        s.len() == 2 && s[0] != '\n' ==> count_newlines(s) == (if s[1] == '\n' {
            1nat
        } else {
            0
        }),
{
    reveal_with_fuel(count_newlines, 3);
}

} // verus!
