//! Laws of the way from a literal to the linter and back: what is read of what was
//! written, when nothing changes, and that a second fix does nothing.
use crate::diagnostic::DiagnosticView;
use crate::engine::{
    all_diagnostics, dumped, edit_of, escaped, fix_input_of, framed, is_set_statement,
    lints_may_find, normal_literal, one_line, query_diagnostics, rebuilt, sql_of, written,
};
use crate::extract::QueryView;
use crate::layout::{
    all_on_one_line, is_indent_of_all, lemma_common_indent, lemma_content_parts, lemma_dedent_lines,
    lemma_dedented_pieces, lemma_dedented_sql_has_no_indent, lemma_indent_of_indented,
    lemma_join_behind_empty, lemma_join_last, lemma_join_of_pieces, lemma_lines_are_pieces,
    lemma_lines_on_one_line, lemma_parts_of, lemma_pieces_of_join, on_one_line, pieces, sql_body,
    sql_tail, stripped,
};
use crate::literal::{
    common_indent, dedent_line, dedent_lines, dedented, hashes, indent_lines, indent_of,
    leading_frame, lemma_some_indent, parsed_literal, raw_literal, reindented, shared_indent,
    sql_lines, trailing_frame, unescaped, LiteralKind,
};
use crate::sqruff_adapter::{lint_may_find, FindingView, LinterConfig};
use crate::text::{
    hash, is_blank, is_white_space, join_lines, lemma_run_len, lemma_run_len_is, lemma_tail_run_len,
    lemma_tail_run_len_is, lines, newline, not_newline, run_len, skip_newlines, strip_cr,
    tail_run_len, trim_end, trim_end_newlines, trim_start, white,
};
use vstd::prelude::*;

verus! {

// ---------------------------------------------------------------------------
// Literals read back
// ---------------------------------------------------------------------------

/// A raw literal reads back as the content that was put into it.
pub proof fn lemma_raw_literal_reads_back(h: usize, content: Seq<char>)
    ensures
        parsed_literal(raw_literal(h as nat, content)) == Some(
            (LiteralKind::Raw { hashes: h }, content),
        ),
{
    let text = raw_literal(h as nat, content);
    let rest = text.skip(1);
    let tail = content + seq!['"'] + hashes(h as nat);
    assert(rest =~= hashes(h as nat) + seq!['"'] + tail);
    assert forall|i: int| 0 <= i < h implies hash()(#[trigger] rest[i]) by {
        assert(rest[i] == hashes(h as nat)[i]);
    }
    assert(rest[h as int] == '"');
    lemma_run_len_is(rest, hash(), h as nat);
    let closing = seq!['"'] + hashes(h as nat);
    assert(rest.skip(h as int + 1) =~= content + closing);
    assert(closing =~= (content + closing).subrange(
        content.len() as int,
        (content + closing).len() as int,
    ));
    assert(rest.subrange(h as int + 1, rest.len() - h - 1) =~= content);
}

/// What reads as a raw literal is that raw literal.
pub proof fn lemma_raw_literal_is_its_text(text: Seq<char>)
    requires
        text.len() <= usize::MAX,
    ensures
        parsed_literal(text) matches Some((LiteralKind::Raw { hashes }, content)) ==> text
            == raw_literal(hashes as nat, content),
{
    if let Some((LiteralKind::Raw { hashes: n }, content)) = parsed_literal(text) {
        let rest = text.skip(1);
        let h = run_len(rest, hash());
        lemma_run_len(rest, hash());
        assert(n == h);
        let tail = rest.skip(h as int + 1);
        let closing = seq!['"'] + hashes(h);
        assert(tail.subrange(tail.len() - closing.len(), tail.len() as int) =~= closing);
        assert(rest.take(h as int) =~= hashes(h)) by {
            assert forall|i: int| 0 <= i < h implies rest.take(h as int)[i] == '#' by {
                assert(hash()(rest[i]));
            }
        }
        let out = raw_literal(h, content);
        assert(out.len() == text.len());
        assert forall|i: int| 0 <= i < text.len() implies out[i] == text[i] by {
            if i == 0 {
            } else if i <= h {
                assert(rest.take(h as int)[i - 1] == hashes(h)[i - 1]);
            } else if i >= text.len() - closing.len() {
                let j = i - (text.len() - closing.len());
                assert(tail.subrange(tail.len() - closing.len(), tail.len() as int)[j]
                    == closing[j]);
            }
        }
        assert(out =~= text);
    }
}

/// Unescaping undoes escaping.
pub proof fn lemma_unescape_undoes_escape(s: Seq<char>)
    ensures
        unescaped(escaped(s)) == s,
    decreases s.len(),
{
    if s.len() == 0 {
        assert(s =~= Seq::<char>::empty());
    } else {
        lemma_escaped_front(s);
        lemma_unescape_undoes_escape(s.skip(1));
        let c = s[0];
        let tail = escaped(s.skip(1));
        if c == '\\' || c == '"' {
            let out = seq!['\\', c] + tail;
            assert(out.skip(2) =~= tail);
            assert(out[0] == '\\' && out[1] == c);
        } else {
            let out = seq![c] + tail;
            assert(out.skip(1) =~= tail);
            assert(out[0] == c);
        }
        assert(seq![c] + s.skip(1) =~= s);
    }
}

/// Escaping from the front instead of from the end.
pub proof fn lemma_escaped_front(s: Seq<char>)
    requires
        s.len() > 0,
    ensures
        escaped(s) == (if s[0] == '\\' || s[0] == '"' {
            seq!['\\', s[0]]
        } else {
            seq![s[0]]
        }) + escaped(s.skip(1)),
    decreases s.len(),
{
    let head = if s[0] == '\\' || s[0] == '"' {
        seq!['\\', s[0]]
    } else {
        seq![s[0]]
    };
    if s.len() == 1 {
        assert(s.drop_last() =~= Seq::<char>::empty());
        assert(s.skip(1) =~= Seq::<char>::empty());
        assert(escaped(Seq::<char>::empty()) =~= Seq::<char>::empty());
        assert(Seq::<char>::empty() + head =~= head + Seq::<char>::empty());
    } else {
        let init = s.drop_last();
        lemma_escaped_front(init);
        assert(init.skip(1) =~= s.skip(1).drop_last());
        let last = if s.last() == '\\' || s.last() == '"' {
            seq!['\\', s.last()]
        } else {
            seq![s.last()]
        };
        assert(head + escaped(init.skip(1)) + last =~= head + (escaped(init.skip(1)) + last));
    }
}

/// A string literal without backslashes reads as what stands between its quotes.
pub proof fn lemma_string_without_escapes(s: Seq<char>)
    requires
        forall|i: int| 0 <= i < s.len() ==> #[trigger] s[i] != '\\',
    ensures
        unescaped(s) == s,
        parsed_literal(seq!['"'] + s + seq!['"']) == Some((LiteralKind::Normal, s)),
    decreases s.len(),
{
    let text = seq!['"'] + s + seq!['"'];
    assert(text.subrange(1, text.len() - 1) =~= s);
    if s.len() > 0 {
        assert forall|i: int| 0 <= i < s.skip(1).len() implies #[trigger] s.skip(1)[i] != '\\' by {
            assert(s.skip(1)[i] == s[i + 1]);
        }
        lemma_string_without_escapes(s.skip(1));
        assert(s[0] != '\\');
        assert(seq![s[0]] + s.skip(1) =~= s);
    }
}

/// What an escape stands for: a line feed, a tab, a carriage return or a zero character for
/// `n`, `t`, `r` or `0`, and any other character for itself. What is before it and what is
/// behind it are read as they are without it.
pub proof fn lemma_escape_reads(before: Seq<char>, c: char, after: Seq<char>)
    requires
        forall|i: int| 0 <= i < before.len() ==> #[trigger] before[i] != '\\',
    ensures
        unescaped(before + seq!['\\', c] + after) == before + seq![
            match c {
                'n' => '\n',
                't' => '\t',
                'r' => '\r',
                '0' => '\0',
                _ => c,
            },
        ] + unescaped(after),
    decreases before.len(),
{
    let s = before + seq!['\\', c] + after;
    let meaning = match c {
        'n' => '\n',
        't' => '\t',
        'r' => '\r',
        '0' => '\0',
        _ => c,
    };
    if before.len() == 0 {
        assert(s[0] == '\\' && s[1] == c);
        assert(s.skip(2) =~= after);
        assert(before + seq![meaning] + unescaped(after) =~= seq![meaning] + unescaped(after));
    } else {
        let rest = before.skip(1);
        assert forall|i: int| 0 <= i < rest.len() implies #[trigger] rest[i] != '\\' by {
            assert(rest[i] == before[i + 1]);
        }
        lemma_escape_reads(rest, c, after);
        assert(s[0] == before[0]);
        assert(s.skip(1) =~= rest + seq!['\\', c] + after);
        assert(seq![before[0]] + (rest + seq![meaning] + unescaped(after)) =~= before + seq![
            meaning,
        ] + unescaped(after));
    }
}

/// What starts neither as a raw string nor as a string with quotes is no string literal.
pub proof fn lemma_no_string_literal(text: Seq<char>)
    requires
        text.len() < 2 || (text[0] != 'r' && text[0] != '"') || (text[0] == '"' && text.last()
            != '"') || (text[0] == 'r' && text[1] != '"' && text[1] != '#'),
    ensures
        parsed_literal(text) is None,
{
    if text.len() >= 1 && text[0] == 'r' {
        let rest = text.skip(1);
        lemma_run_len(rest, hash());
        if text.len() >= 2 {
            assert(rest[0] == text[1]);
        }
    }
}

/// A rebuilt literal reads back: a raw one as its content, where the SQL is not changed,
/// or its framing around the fixed SQL, and a normal one as the fixed SQL on one line.
pub proof fn lemma_rebuilt_literal_reads_back(
    kind: LiteralKind,
    content: Seq<char>,
    fixed: Seq<char>,
)
    ensures
        parsed_literal(rebuilt(kind, content, fixed)) == Some(
            match kind {
                LiteralKind::Raw { hashes } => (kind, written(content, fixed)),
                LiteralKind::Normal => (kind, one_line(fixed)),
            },
        ),
{
    match kind {
        LiteralKind::Raw { hashes } => {
            lemma_raw_literal_reads_back(hashes, written(content, fixed));
        },
        LiteralKind::Normal => {
            let inner = escaped(one_line(fixed));
            let text = normal_literal(fixed);
            assert(text.subrange(1, text.len() - 1) =~= inner);
            lemma_unescape_undoes_escape(one_line(fixed));
        },
    }
}

// ---------------------------------------------------------------------------
// A fix that changes nothing
// ---------------------------------------------------------------------------

/// SQL that is not changed is not edited, whatever its layout, and a raw literal rebuilt
/// around it is the literal as it was, byte for byte.
pub proof fn lemma_unchanged_query_is_not_edited(
    q: QueryView,
    only_multiline_raw: bool,
    kind: LiteralKind,
    content: Seq<char>,
)
    requires
        q.text.len() <= usize::MAX,
        parsed_literal(q.text) == Some((kind, content)),
    ensures
        edit_of(q, only_multiline_raw, dedented(content)) is None,
        kind is Raw ==> rebuilt(kind, content, dedented(content)) == q.text,
{
    lemma_raw_literal_is_its_text(q.text);
}

// ---------------------------------------------------------------------------
// Fixed SQL read back
// ---------------------------------------------------------------------------

/// How SQL given as lines comes back behind an indent.
pub proof fn lemma_reindented(ds: Seq<Seq<char>>, indent: Seq<char>)
    requires
        ds.len() > 0,
        all_on_one_line(ds),
        ds.last().len() > 0,
        !is_white_space(ds.last().last()),
        on_one_line(indent),
    ensures
        ({
            let ys = indent_lines(stripped(ds), indent);
            let text = reindented(join_lines(ds).push('\n'), indent);
            &&& text == join_lines(ys)
            &&& pieces(text) == ys
            &&& text.len() > 0
            &&& text.last() == ds.last().last()
        }),
{
    let body = join_lines(ds);
    let sql = body.push('\n');
    lemma_join_last(ds);
    lemma_tail_run_len_is(sql, newline(), 1);
    assert(trim_end_newlines(sql) =~= body);
    lemma_pieces_of_join(ds);
    lemma_lines_are_pieces(body);
    let ls = stripped(ds);
    let ys = indent_lines(ls, indent);
    assert(all_on_one_line(ys)) by {
        assert forall|i: int| 0 <= i < ys.len() implies on_one_line(#[trigger] ys[i]) by {
            assert(on_one_line(ds[i]));
            let y = ys[i];
            let l = ls[i];
            assert forall|j: int| 0 <= j < y.len() implies #[trigger] y[j] != '\n' by {
                if j < indent.len() {
                    assert(y[j] == indent[j]);
                } else {
                    assert(y[j] == l[j - indent.len()]);
                    assert(l[j - indent.len()] == ds[i][j - indent.len()]);
                }
            }
        }
    }
    lemma_pieces_of_join(ys);
    let l = ds.last();
    assert(ls.last() == l);
    assert(!is_blank(l)) by {
        assert(!is_white_space(l[l.len() - 1]));
    }
    assert(ys.last() == indent + l);
    assert(ys.last().last() == l.last());
    lemma_join_last(ys);
}

/// A line of fixed SQL: empty, or neither blank nor ended by a carriage return.
pub open spec fn is_clean_line(line: Seq<char>) -> bool {
    line.len() == 0 || (!is_blank(line) && line.last() != '\r')
}

/// SQL as a fixer leaves it: it starts and ends in a line that is not empty, ends
/// in one line feed, its lines start with no white space in common, and it has neither
/// blank lines that are not empty nor carriage returns at the end of a line.
pub open spec fn is_clean_sql(sql: Seq<char>) -> bool {
    let body = sql.drop_last();
    let ps = pieces(body);
    &&& sql.len() > 1
    &&& sql.last() == '\n'
    &&& body[0] != '\n'
    &&& !is_white_space(body.last())
    &&& forall|i: int| 0 <= i < ps.len() ==> is_clean_line(#[trigger] ps[i])
    &&& common_indent(ps).len() == 0
}

/// The trailing frame of any content is white space.
proof fn lemma_trailing_frame_is_blank(content: Seq<char>)
    ensures
        is_blank(trailing_frame(content)),
{
    lemma_tail_run_len(content, not_newline());
    let start = content.len() - tail_run_len(content, not_newline()) - 1;
    let frame = trailing_frame(content);
    if start >= 0 {
        assert(content[start] == '\n');
    }
    assert forall|i: int| 0 <= i < frame.len() implies is_white_space(#[trigger] frame[i]) by {
        assert(frame[i] == content[start + i]);
    }
}

/// The leading frame of any content is line feeds.
proof fn lemma_leading_frame_is_feeds(content: Seq<char>)
    ensures
        forall|i: int|
            0 <= i < leading_frame(content).len() ==> newline()(#[trigger] leading_frame(content)[i]),
{
    lemma_run_len(content, newline());
    let lead = leading_frame(content);
    assert forall|i: int| 0 <= i < lead.len() implies newline()(#[trigger] lead[i]) by {
        assert(lead[i] == content[i]);
    }
}

/// A line behind an indent, without a carriage return at its end.
pub proof fn lemma_stripped_line(l: Seq<char>, indent: Seq<char>)
    requires
        !is_blank(l),
    ensures
        strip_cr(indent + l) == indent + strip_cr(l),
        !is_blank(strip_cr(l)),
        indent.is_prefix_of(strip_cr(indent + l)),
        dedent_line(indent + l, indent.len()) == l,
{
    let t = strip_cr(l);
    assert((indent + l).last() == l.last());
    assert(strip_cr(indent + l) =~= indent + t);
    let i = choose|i: int| 0 <= i < l.len() && !is_white_space(#[trigger] l[i]);
    assert(t[i] == l[i]);
    assert(indent =~= (indent + t).take(indent.len() as int));
    assert((indent + l)[indent.len() + i] == l[i]);
    assert((indent + l).skip(indent.len() as int) =~= l);
}

/// What is read back of clean SQL that was written into a literal is that SQL.
proof fn lemma_clean_sql_reads_back(content: Seq<char>, fixed: Seq<char>)
    requires
        is_clean_sql(fixed),
    ensures
        dedented(framed(content, fixed)) == fixed,
{
    let indent = common_indent(lines(content));
    let f = fixed.drop_last();
    let ps = pieces(f);
    let lead = leading_frame(content);
    let trail = trailing_frame(content);
    lemma_leading_frame_is_feeds(content);
    lemma_trailing_frame_is_blank(content);
    lemma_lines_on_one_line(content);
    lemma_common_indent(lines(content));
    lemma_join_of_pieces(f);
    lemma_lines_are_pieces(f);
    assert(fixed =~= join_lines(ps).push('\n'));
    lemma_reindented(ps, indent);
    assert(stripped(ps) =~= ps) by {
        assert forall|i: int| 0 <= i < ps.len() implies stripped(ps)[i] == #[trigger] ps[i] by {
            assert(is_clean_line(ps[i]));
        }
    }
    let ys = indent_lines(ps, indent);
    let body = reindented(fixed, indent);
    assert(pieces(body) == ys);
    // The body does not start with a line feed.
    assert(body[0] != '\n') by {
        lemma_run_len(f, not_newline());
        assert(ps[0].len() > 0);
        assert(is_clean_line(ps[0]));
        assert(ys[0].len() > 0);
        lemma_join_of_pieces(body);
        assert(on_one_line(ys[0]));
        assert(body[0] == ys[0][0]);
    }
    lemma_parts_of(lead, body, trail);
    lemma_lines_are_pieces(body);
    assert(stripped(ys) =~= ys) by {
        assert forall|i: int| 0 <= i < ys.len() implies stripped(ys)[i] == #[trigger] ys[i] by {
            assert(is_clean_line(ps[i]));
            if ys[i].len() > 0 {
                assert(ys[i].last() == ps[i].last());
            }
        }
    }
    assert(sql_lines(framed(content, fixed)) == ys);
    // The lines have just the indent that was put before them.
    assert(!is_blank(ps[ps.len() - 1])) by {
        assert(is_clean_line(ps[ps.len() - 1]));
    }
    lemma_some_indent(ps, ps.len() - 1);
    lemma_indent_of_indented(ps, indent);
    assert(common_indent(ys) =~= indent);
    assert forall|i: int| 0 <= i < ps.len() implies dedent_line(ys[i], indent.len())
        == #[trigger] ps[i] by {
        assert(is_clean_line(ps[i]));
        if ps[i].len() > 0 {
            lemma_stripped_line(ps[i], indent);
        } else {
            assert(is_blank(ys[i]));
            assert(ps[i] =~= Seq::<char>::empty());
        }
    }
    assert(dedent_lines(ys, indent.len()) =~= ps);
}

/// SQL on one line comes back as it was: it is read as itself and a line feed, and
/// written without that line feed.
proof fn lemma_one_line_comes_back(fixed: Seq<char>)
    ensures
        ({
            let t = one_line(fixed);
            &&& t.len() == 0 ==> dedented(t) == Seq::<char>::empty()
            &&& t.len() > 0 ==> dedented(t) == t.push('\n') && one_line(dedented(t)) == t
        }),
{
    let t = one_line(fixed);
    let a = trim_start(fixed);
    let b = trim_end(a);
    lemma_run_len(fixed, white());
    lemma_tail_run_len(a, white());
    if t.len() > 0 {
        let first = fixed[run_len(fixed, white()) as int];
        assert(b[0] == first);
        assert(!white()(first));
        assert(b.last() == a[b.len() - 1]);
        assert(!white()(b.last()));
        assert(t[0] == b[0]);
        assert(t.last() == b.last());
        assert(on_one_line(t));
        lemma_run_len_is(t, newline(), 0);
        assert(skip_newlines(t) =~= t);
        lemma_tail_run_len_is(t, white(), 0);
        assert(trim_end(t) =~= t);
        assert forall|i: int| 0 <= i < t.len() implies not_newline()(#[trigger] t[i]) by {}
        lemma_run_len_is(t, not_newline(), t.len());
        let ls = lines(t);
        assert(ls == seq![t]);
        lemma_run_len_is(t, white(), 0);
        assert(ls.drop_last() =~= Seq::<Seq<char>>::empty());
        assert(!is_blank(t)) by {
            assert(!is_white_space(t[0]));
        }
        assert(indent_of(t) =~= Seq::<char>::empty());
        assert(shared_indent(ls) == Some(indent_of(t)));
        assert(t.skip(0) =~= t);
        let ds = dedent_lines(ls, 0);
        assert(ds[0] == t);
        assert(join_lines(ds) == t);
        let sql = t.push('\n');
        assert(dedented(t) == sql);
        lemma_run_len_is(sql, white(), 0);
        assert(trim_start(sql) =~= sql);
        lemma_tail_run_len_is(sql, white(), 1);
        assert(trim_end(sql) =~= t);
        assert(one_line(sql) =~= t);
    } else {
        assert(t =~= Seq::<char>::empty());
        assert(skip_newlines(t) =~= t);
        assert(trim_end(t) =~= t);
    }
}

/// A second fix changes nothing. Where the fixer leaves alone what is read of a literal
/// that a fix has written, the literal is left alone. Clean SQL in a raw literal is read
/// as it was written, and SQL in a normal one as it was written on one line: a fixer that
/// leaves its own results alone leaves these alone.
pub proof fn lemma_second_fix_changes_nothing(
    q: QueryView,
    r: QueryView,
    only_multiline_raw: bool,
    fixed: Seq<char>,
)
    requires
        edit_of(q, only_multiline_raw, fixed) matches Some(e) && r.text == e.text,
    ensures
        fix_input_of(r, only_multiline_raw) matches Some(sql) ==> {
            &&& edit_of(r, only_multiline_raw, sql) is None
            &&& match parsed_literal(q.text) {
                Some((LiteralKind::Raw { .. }, _)) => is_clean_sql(fixed) ==> sql == fixed,
                _ => sql == one_line(fixed).push('\n'),
            }
        },
{
    if let Some((kind, content)) = parsed_literal(q.text) {
        lemma_rebuilt_literal_reads_back(kind, content, fixed);
        match kind {
            LiteralKind::Raw { .. } => {
                if is_clean_sql(fixed) {
                    lemma_clean_sql_reads_back(content, fixed);
                }
            },
            LiteralKind::Normal => {
                lemma_one_line_comes_back(fixed);
                if one_line(fixed).len() == 0 {
                    assert(is_blank(dedented(one_line(fixed))));
                }
            },
        }
    }
}

/// What is read of lines between line feeds and white space. The empty ones before the
/// first other are taken for line feeds before the SQL.
proof fn lemma_written_lines(lead: Seq<char>, ys: Seq<Seq<char>>, trail: Seq<char>) -> (z: int)
    requires
        forall|i: int| 0 <= i < lead.len() ==> newline()(#[trigger] lead[i]),
        ys.len() > 0,
        all_on_one_line(ys),
        ys.last().len() > 0,
        !is_white_space(ys.last().last()),
        is_blank(trail),
    ensures
        0 <= z < ys.len(),
        ys[z].len() > 0,
        forall|i: int| 0 <= i < z ==> (#[trigger] ys[i]).len() == 0,
        pieces(sql_body(lead + join_lines(ys) + trail)) == ys.skip(z),
        sql_lines(lead + join_lines(ys) + trail) == stripped(ys.skip(z)),
        sql_tail(lead + join_lines(ys) + trail) == trail,
{
    let z = lemma_join_behind_empty(ys);
    let tail = ys.skip(z);
    let feeds = Seq::new(z as nat, |i: int| '\n');
    let body = join_lines(tail);
    assert(all_on_one_line(tail)) by {
        assert forall|i: int| 0 <= i < tail.len() implies on_one_line(#[trigger] tail[i]) by {
            assert(tail[i] == ys[z + i]);
        }
    }
    lemma_pieces_of_join(tail);
    assert(tail.last() == ys.last());
    lemma_join_last(tail);
    assert(body[0] != '\n') by {
        assert(tail[0] == ys[z]);
        assert(on_one_line(tail[0]));
        assert(body[0] == tail[0][0]);
    }
    assert forall|i: int| 0 <= i < (lead + feeds).len() implies newline()(
        #[trigger] (lead + feeds)[i],
    ) by {
        if i < lead.len() {
            assert((lead + feeds)[i] == lead[i]);
        }
    }
    assert(lead + join_lines(ys) + trail =~= lead + feeds + body + trail);
    lemma_parts_of(lead + feeds, body, trail);
    lemma_lines_are_pieces(body);
    z
}

/// SQL that is read back as it was written is clean, or empty.
proof fn lemma_what_reads_back_is_clean(content: Seq<char>, fixed: Seq<char>)
    requires
        dedented(framed(content, fixed)) == fixed,
        fixed.len() > 0,
    ensures
        is_clean_sql(fixed),
{
    let indent = common_indent(lines(content));
    lemma_lines_on_one_line(content);
    lemma_common_indent(lines(content));
    let new = framed(content, fixed);
    // What is read of the new literal.
    assert(sql_body(new).len() > 0);
    lemma_dedent_lines(new);
    let ls = sql_lines(new);
    let n = common_indent(ls).len();
    let ds = dedent_lines(ls, n);
    let f = fixed.drop_last();
    assert(f =~= join_lines(ds));
    lemma_pieces_of_join(ds);
    lemma_join_last(ds);
    lemma_lines_are_pieces(f);
    // What was written into it.
    lemma_tail_run_len_is(fixed, newline(), 1);
    assert(trim_end_newlines(fixed) =~= f);
    let fl = stripped(ds);
    assert(lines(f) == fl);
    lemma_lines_on_one_line(f);
    let ys = indent_lines(fl, indent);
    assert(all_on_one_line(ys)) by {
        assert forall|i: int| 0 <= i < ys.len() implies on_one_line(#[trigger] ys[i]) by {
            let l = fl[i];
            let y = ys[i];
            assert(on_one_line(l));
            assert forall|j: int| 0 <= j < y.len() implies #[trigger] y[j] != '\n' by {
                if j < indent.len() {
                    assert(y[j] == indent[j]);
                } else {
                    assert(y[j] == l[j - indent.len()]);
                }
            }
        }
    }
    assert(!is_blank(fl.last())) by {
        let l = fl.last();
        assert(!is_white_space(l[l.len() - 1]));
    }
    assert(ys.last() == indent + fl.last());
    let lead = leading_frame(content);
    lemma_leading_frame_is_feeds(content);
    lemma_trailing_frame_is_blank(content);
    let z = lemma_written_lines(lead, ys, trailing_frame(content));
    assert(ls == stripped(ys.skip(z)));
    assert(z == 0);
    assert(ys.skip(0) =~= ys);
    assert(f[0] != '\n') by {
        assert(ys[0].len() > 0);
        assert(ds[0].len() > 0);
        assert(on_one_line(ds[0]));
        assert(f[0] == ds[0][0]);
    }
    // The lines have no indent in common.
    lemma_dedented_sql_has_no_indent(new);
    lemma_dedented_pieces(new);
    let none = Seq::<char>::empty();
    assert(ds.push(none).drop_last() =~= ds);
    assert(shared_indent(ds.push(none)) == shared_indent(ds));
    // The indent that is taken off is at least the one that was put before the lines.
    assert(is_indent_of_all(ls, indent)) by {
        assert forall|i: int| 0 <= i < ls.len() && !is_blank(#[trigger] ls[i]) implies indent.is_prefix_of(
        ls[i]) by {
            if !is_blank(fl[i]) {
                lemma_stripped_line(fl[i], indent);
                assert(indent =~= ys[i].take(indent.len() as int));
            }
        }
    }
    lemma_common_indent(ls);
    lemma_some_indent(ls, ls.len() - 1);
    assert(indent.is_prefix_of(common_indent(ls)));
    assert forall|i: int| 0 <= i < ds.len() implies is_clean_line(#[trigger] ds[i]) by {
        if ds[i].len() > 0 && ds[i].last() == '\r' {
            assert(i < ds.len() - 1);
            let l = fl[i];
            assert(l == ds[i].drop_last());
            assert(ls[i] == strip_cr(ys[i]));
            assert(!is_blank(ls[i]));
            assert(ds[i].len() == ls[i].len() - common_indent(ls).len());
        }
    }
}

/// What is read back of SQL that was written into a literal is that SQL just where it is
/// clean, or empty, or what was read before. Written once more it changes nothing.
pub proof fn lemma_fixed_sql_reads_back(content: Seq<char>, fixed: Seq<char>)
    ensures
        dedented(written(content, fixed)) == fixed <==> fixed == dedented(content) || is_clean_sql(
            fixed,
        ) || fixed.len() == 0,
        dedented(written(content, fixed)) == fixed ==> written(written(content, fixed), fixed)
            == written(content, fixed),
{
    let new = framed(content, fixed);
    if is_clean_sql(fixed) {
        lemma_clean_sql_reads_back(content, fixed);
    } else if fixed.len() > 0 {
        if dedented(new) == fixed {
            lemma_what_reads_back_is_clean(content, fixed);
        }
    } else {
        let lead = leading_frame(content);
        lemma_leading_frame_is_feeds(content);
        lemma_trailing_frame_is_blank(content);
        assert(trim_end_newlines(fixed) =~= fixed);
        assert(indent_lines(Seq::empty(), common_indent(lines(content))) =~= Seq::<
            Seq<char>,
        >::empty());
        assert(new =~= lead + trailing_frame(content));
        assert(is_blank(new)) by {
            assert forall|i: int| 0 <= i < new.len() implies is_white_space(#[trigger] new[i]) by {
                if i < lead.len() {
                    assert(newline()(lead[i]));
                } else {
                    assert(new[i] == trailing_frame(content)[i - lead.len()]);
                }
            }
        }
        lemma_content_parts(new);
        if sql_body(new).len() > 0 {
            let at = leading_frame(new).len() + sql_body(new).len() - 1;
            assert(new[at] == sql_body(new).last());
        }
        assert(sql_body(new) =~= Seq::<char>::empty());
        assert(dedented(new) =~= fixed);
    }
}

/// By default only raw strings over several lines are edited.
pub proof fn lemma_default_edits_multiline_raw_strings(q: QueryView, fixed: Seq<char>)
    requires
        edit_of(q, true, fixed) is Some,
    ensures
        parsed_literal(q.text) matches Some((LiteralKind::Raw { .. }, content)) && content.contains(
            '\n',
        ),
{
}

/// A query without SQL, or with a `SET` statement, is neither reported nor edited.
pub proof fn lemma_set_statements_are_left_alone(
    q: QueryView,
    content: Seq<char>,
    path: Seq<char>,
    found: Seq<FindingView>,
    only_multiline_raw: bool,
    fixed: Seq<char>,
)
    requires
        parsed_literal(q.text) matches Some((_, c)) && c == content,
        is_blank(dedented(content)) || is_set_statement(dedented(content)),
    ensures
        query_diagnostics(path, q, found) == Seq::<DiagnosticView>::empty(),
        edit_of(q, only_multiline_raw, fixed) is None,
{
}

/// The SQL texts that a check hands to the linter, in their order.
pub open spec fn linted(queries: Seq<QueryView>) -> Seq<Seq<char>>
    decreases queries.len(),
{
    if queries.len() == 0 {
        Seq::empty()
    } else {
        match sql_of(queries.last()) {
            Some(sql) => linted(queries.drop_last()).push(sql),
            None => linted(queries.drop_last()),
        }
    }
}

/// The SQL texts of a dump that are neither blank nor a `SET` statement, in their order.
pub open spec fn lintable(dump: Seq<(int, Seq<char>)>) -> Seq<Seq<char>>
    decreases dump.len(),
{
    if dump.len() == 0 {
        Seq::empty()
    } else {
        let sql = dump.last().1;
        if is_blank(sql) || is_set_statement(sql) {
            lintable(dump.drop_last())
        } else {
            lintable(dump.drop_last()).push(sql)
        }
    }
}

/// A dump shows the SQL as the linter sees it: the texts that a check hands over are just
/// those of the dump, each once and in its order, but for blank ones and `SET` statements.
pub proof fn lemma_dump_shows_what_is_linted(queries: Seq<QueryView>)
    ensures
        linted(queries) == lintable(dumped(queries)),
    decreases queries.len(),
{
    if queries.len() > 0 {
        let init = queries.drop_last();
        let q = queries.last();
        lemma_dump_shows_what_is_linted(init);
        if let Some((_, content)) = parsed_literal(q.text) {
            assert(dumped(queries).drop_last() =~= dumped(init));
            assert(dumped(queries).last().1 == dedented(content));
        }
    }
}

/// What a check reports rests on one answer of the linter to each of the texts that it
/// hands over, and on nothing else of the linter.
pub proof fn lemma_check_rests_on_what_is_linted(
    config: LinterConfig,
    queries: Seq<QueryView>,
    found: Seq<Seq<FindingView>>,
) -> (answers: Seq<Seq<FindingView>>)
    requires
        lints_may_find(config, queries, found),
    ensures
        answers.len() == linted(queries).len(),
        forall|k: int|
            0 <= k < answers.len() ==> lint_may_find(
                config,
                #[trigger] linted(queries)[k],
                answers[k],
            ),
        forall|path: Seq<char>, other: Seq<Seq<FindingView>>|
            lints_may_find(config, queries, other) && (forall|i: int|
                0 <= i < queries.len() && sql_of(#[trigger] queries[i]) is Some ==> other[i]
                    == found[i]) ==> #[trigger] all_diagnostics(path, queries, other)
                == all_diagnostics(path, queries, found),
    decreases queries.len(),
{
    if queries.len() == 0 {
        Seq::empty()
    } else {
        let init = queries.drop_last();
        let before = found.drop_last();
        assert(lints_may_find(config, init, before)) by {
            assert forall|i: int| 0 <= i < init.len() implies (sql_of(
                #[trigger] init[i],
            ) matches Some(sql) ==> lint_may_find(config, sql, before[i])) by {
                assert(init[i] == queries[i]);
            }
        }
        let earlier = lemma_check_rests_on_what_is_linted(config, init, before);
        let n = queries.len() - 1;
        assert(queries[n] == queries.last());
        let answers = if sql_of(queries.last()) is Some {
            earlier.push(found.last())
        } else {
            earlier
        };
        assert forall|k: int| 0 <= k < answers.len() implies lint_may_find(
            config,
            #[trigger] linted(queries)[k],
            answers[k],
        ) by {
            if k < earlier.len() {
                assert(linted(queries)[k] == linted(init)[k]);
            }
        }
        assert forall|path: Seq<char>, other: Seq<Seq<FindingView>>|
            lints_may_find(config, queries, other) && (forall|i: int|
                0 <= i < queries.len() && sql_of(#[trigger] queries[i]) is Some ==> other[i]
                    == found[i]) implies #[trigger] all_diagnostics(path, queries, other)
            == all_diagnostics(path, queries, found) by {
            let rest = other.drop_last();
            assert forall|i: int| 0 <= i < init.len() implies (sql_of(
                #[trigger] init[i],
            ) matches Some(sql) ==> lint_may_find(config, sql, rest[i]) && rest[i] == before[i]) by {
                assert(init[i] == queries[i]);
            }
            assert(all_diagnostics(path, init, rest) == all_diagnostics(path, init, before));
        }
        answers
    }
}

} // verus!
