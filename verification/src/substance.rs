//! What no step loses: the characters that are not white space. On the way from a literal
//! to the linter, and from the fixer to a literal, only white space comes and goes, so that
//! all SQL is linted as it was written, and a fix writes all SQL that the fixer gave.
use crate::engine::{
    framed, is_set_statement, lintable_sql, one_line, rebuilt, sql_of, written,
};
use crate::extract::QueryView;
use crate::layout::lemma_common_indent;
use crate::literal::{
    common_indent, dedent_lines, dedented, indent_lines, is_space_or_tab, leading_frame,
    parsed_literal, reindented, sql_lines, trailing_frame, LiteralKind,
};
use crate::roundtrip::lemma_rebuilt_literal_reads_back;
use crate::sqruff_adapter::lowered;
use crate::text::{
    is_blank, is_white_space, join_lines, lemma_run_len, lemma_run_len_is, lemma_tail_run_len,
    lemma_tail_run_len_is, lines, newline, not_newline, run_len, skip_newlines, strip_cr,
    tail_run_len, trim_end, trim_end_newlines, trim_start, white,
};
use vstd::prelude::*;

verus! {

// ---------------------------------------------------------------------------
// White space
// ---------------------------------------------------------------------------

/// Of the ASCII characters, the space and the five controls from tab to carriage return
/// are white space, and no others: no letter, digit or mark.
pub proof fn lemma_ascii_white_space(c: char)
    requires
        (c as u32) < 0x80,
    ensures
        is_white_space(c) <==> c == ' ' || '\t' <= c <= '\r',
        '!' <= c <= '~' ==> !is_white_space(c),
{
}

/// Beyond ASCII, white space is what Unicode says it is: the next line, spaces of various
/// widths, and the separators of lines and paragraphs.
pub proof fn lemma_other_white_space(c: char)
    requires
        (c as u32) >= 0x80,
    ensures
        is_white_space(c) <==> c == '\u{85}' || c == '\u{a0}' || c == '\u{1680}' || '\u{2000}' <= c
            <= '\u{200a}' || c == '\u{2028}' || c == '\u{2029}' || c == '\u{202f}' || c
            == '\u{205f}' || c == '\u{3000}',
{
}

/// The characters of `s` that are not white space, in their order.
pub open spec fn solid(s: Seq<char>) -> Seq<char>
    decreases s.len(),
{
    if s.len() == 0 {
        Seq::empty()
    } else if is_white_space(s.last()) {
        solid(s.drop_last())
    } else {
        solid(s.drop_last()).push(s.last())
    }
}

/// The solid characters of two texts, one after the other.
pub proof fn lemma_solid_add(a: Seq<char>, b: Seq<char>)
    ensures
        solid(a + b) == solid(a) + solid(b),
    decreases b.len(),
{
    if b.len() == 0 {
        assert(a + b =~= a);
        assert(solid(a) + solid(b) =~= solid(a));
    } else {
        lemma_solid_add(a, b.drop_last());
        assert((a + b).drop_last() =~= a + b.drop_last());
        assert((a + b).last() == b.last());
        assert(solid(a + b) =~= solid(a) + solid(b));
    }
}

/// Blank texts, and no others, have no solid characters.
pub proof fn lemma_solid_of_blank(s: Seq<char>)
    ensures
        is_blank(s) <==> solid(s).len() == 0,
    decreases s.len(),
{
    if s.len() > 0 {
        let init = s.drop_last();
        lemma_solid_of_blank(init);
        if is_blank(s) {
            assert forall|i: int| 0 <= i < init.len() implies is_white_space(#[trigger] init[i]) by {
                assert(init[i] == s[i]);
            }
            assert(is_white_space(s[s.len() - 1]));
        }
        if solid(s).len() == 0 {
            assert forall|i: int| 0 <= i < s.len() implies is_white_space(#[trigger] s[i]) by {
                if i < init.len() {
                    assert(s[i] == init[i]);
                }
            }
        }
    }
}

/// A text with blank texts around it.
proof fn lemma_solid_between(a: Seq<char>, b: Seq<char>, c: Seq<char>)
    requires
        is_blank(a),
        is_blank(c),
    ensures
        solid(a + b + c) == solid(b),
{
    lemma_solid_add(a + b, c);
    lemma_solid_add(a, b);
    lemma_solid_of_blank(a);
    lemma_solid_of_blank(c);
    assert(solid(a) =~= Seq::<char>::empty());
    assert(solid(c) =~= Seq::<char>::empty());
    assert(solid(a) + solid(b) + solid(c) =~= solid(b));
}

/// A blank start has no solid characters.
proof fn lemma_solid_from(s: Seq<char>, k: int)
    requires
        0 <= k <= s.len(),
        forall|i: int| 0 <= i < k ==> is_white_space(#[trigger] s[i]),
    ensures
        solid(s.skip(k)) == solid(s),
{
    let none = Seq::<char>::empty();
    assert(s =~= s.take(k) + s.skip(k) + none);
    lemma_solid_between(s.take(k), s.skip(k), none);
}

/// A blank end has no solid characters.
proof fn lemma_solid_upto(s: Seq<char>, n: int)
    requires
        0 <= n <= s.len(),
        forall|i: int| n <= i < s.len() ==> is_white_space(#[trigger] s[i]),
    ensures
        solid(s.take(n)) == solid(s),
{
    let none = Seq::<char>::empty();
    assert(s =~= none + s.take(n) + s.skip(n));
    lemma_solid_between(none, s.take(n), s.skip(n));
}

/// Trimming takes white space off only.
proof fn lemma_solid_of_trimmed(s: Seq<char>)
    ensures
        solid(trim_end(s)) == solid(s),
        solid(trim_start(s)) == solid(s),
        solid(skip_newlines(s)) == solid(s),
        solid(trim_end_newlines(s)) == solid(s),
{
    assert(solid(trim_end(s)) == solid(s)) by {
        lemma_tail_run_len(s, white());
        assert forall|i: int| s.len() - tail_run_len(s, white()) <= i < s.len() implies
            is_white_space(#[trigger] s[i]) by {
            assert(white()(s[i]));
        }
        lemma_solid_upto(s, s.len() - tail_run_len(s, white()));
    }
    assert(solid(trim_end_newlines(s)) == solid(s)) by {
        lemma_tail_run_len(s, newline());
        assert forall|i: int| s.len() - tail_run_len(s, newline()) <= i < s.len() implies
            is_white_space(#[trigger] s[i]) by {
            assert(newline()(s[i]));
        }
        lemma_solid_upto(s, s.len() - tail_run_len(s, newline()));
    }
    assert(solid(trim_start(s)) == solid(s)) by {
        lemma_run_len(s, white());
        assert forall|i: int| 0 <= i < run_len(s, white()) implies is_white_space(
            #[trigger] s[i],
        ) by {
            assert(white()(s[i]));
        }
        lemma_solid_from(s, run_len(s, white()) as int);
    }
    assert(solid(skip_newlines(s)) == solid(s)) by {
        lemma_run_len(s, newline());
        assert forall|i: int| 0 <= i < run_len(s, newline()) implies is_white_space(
            #[trigger] s[i],
        ) by {
            assert(newline()(s[i]));
        }
        lemma_solid_from(s, run_len(s, newline()) as int);
    }
}

// ---------------------------------------------------------------------------
// Lines
// ---------------------------------------------------------------------------

/// A line ends at the first line feed, and a carriage return right before that belongs to
/// neither.
pub proof fn lemma_first_of_lines(line: Seq<char>, rest: Seq<char>)
    requires
        forall|i: int| 0 <= i < line.len() ==> #[trigger] line[i] != '\n',
        line.len() > 0 ==> line.last() != '\r',
    ensures
        lines(line + seq!['\n'] + rest) == seq![line] + lines(rest),
        lines(line + seq!['\r', '\n'] + rest) == seq![line] + lines(rest),
        line.len() > 0 ==> lines(line) == seq![line],
        lines(Seq::empty()) == Seq::<Seq<char>>::empty(),
{
    let a = line + seq!['\n'] + rest;
    assert forall|i: int| 0 <= i < line.len() implies not_newline()(#[trigger] a[i]) by {
        assert(a[i] == line[i]);
    }
    assert(a[line.len() as int] == '\n');
    lemma_run_len_is(a, not_newline(), line.len());
    assert(a.take(line.len() as int) =~= line);
    assert(a.skip(line.len() as int + 1) =~= rest);
    let b = line + seq!['\r', '\n'] + rest;
    let with = line + seq!['\r'];
    assert forall|i: int| 0 <= i < with.len() implies not_newline()(#[trigger] b[i]) by {
        if i < line.len() {
            assert(b[i] == line[i]);
        }
    }
    assert(b[with.len() as int] == '\n');
    lemma_run_len_is(b, not_newline(), with.len());
    assert(b.take(with.len() as int) =~= with);
    assert(with.drop_last() =~= line);
    assert(b.skip(with.len() as int + 1) =~= rest);
    if line.len() > 0 {
        assert forall|i: int| 0 <= i < line.len() implies not_newline()(#[trigger] line[i]) by {}
        lemma_run_len_is(line, not_newline(), line.len());
    }
}

/// Lines with the same solid characters, joined.
proof fn lemma_solid_of_joined(a: Seq<Seq<char>>, b: Seq<Seq<char>>)
    requires
        a.len() == b.len(),
        forall|i: int| 0 <= i < a.len() ==> solid(#[trigger] a[i]) == solid(b[i]),
    ensures
        solid(join_lines(a)) == solid(join_lines(b)),
    decreases a.len(),
{
    if a.len() == 1 {
        assert(solid(a[0]) == solid(b[0]));
    } else if a.len() > 1 {
        assert forall|i: int| 0 <= i < a.skip(1).len() implies solid(#[trigger] a.skip(1)[i])
            == solid(b.skip(1)[i]) by {
            assert(a.skip(1)[i] == a[i + 1]);
            assert(b.skip(1)[i] == b[i + 1]);
        }
        lemma_solid_of_joined(a.skip(1), b.skip(1));
        lemma_solid_add(a[0] + seq!['\n'], join_lines(a.skip(1)));
        lemma_solid_add(b[0] + seq!['\n'], join_lines(b.skip(1)));
        lemma_solid_add(a[0], seq!['\n']);
        lemma_solid_add(b[0], seq!['\n']);
        assert(solid(a[0]) == solid(b[0]));
    }
}

/// A text taken apart into lines and joined again.
proof fn lemma_solid_of_lines(s: Seq<char>)
    ensures
        solid(join_lines(lines(s))) == solid(s),
    decreases s.len(),
{
    lemma_run_len(s, not_newline());
    let n = run_len(s, not_newline()) as int;
    if s.len() == 0 {
    } else if n >= s.len() {
        assert(lines(s) =~= seq![s]);
    } else {
        let first = s.take(n);
        let rest = s.skip(n + 1);
        lemma_solid_of_lines(rest);
        let none = Seq::<char>::empty();
        let l = strip_cr(first);
        if l.len() < first.len() {
            assert(first =~= none + l + seq!['\r']);
            lemma_solid_between(none, l, seq!['\r']);
        }
        assert(solid(l) == solid(first));
        assert(s =~= first + seq!['\n'] + rest);
        lemma_solid_add(first + seq!['\n'], rest);
        assert(first + seq!['\n'] =~= none + first + seq!['\n']);
        lemma_solid_between(none, first, seq!['\n']);
        let all = lines(s);
        assert(all =~= seq![l] + lines(rest));
        assert(all.skip(1) =~= lines(rest));
        if lines(rest).len() == 0 {
            assert(join_lines(all) == l);
            assert(solid(rest) =~= none);
            assert(solid(first) + solid(rest) =~= solid(first));
        } else {
            assert(join_lines(all) == l + seq!['\n'] + join_lines(lines(rest)));
            lemma_solid_add(l + seq!['\n'], join_lines(lines(rest)));
            assert(l + seq!['\n'] =~= none + l + seq!['\n']);
            lemma_solid_between(none, l, seq!['\n']);
        }
    }
}

// ---------------------------------------------------------------------------
// To the linter
// ---------------------------------------------------------------------------

/// The linter gets every character of a literal that is not white space, in its place.
pub proof fn lemma_linter_gets_all_sql(content: Seq<char>)
    ensures
        solid(dedented(content)) == solid(content),
{
    let ls = sql_lines(content);
    let body = trim_end(skip_newlines(content));
    let n = common_indent(ls).len();
    let ds = dedent_lines(ls, n);
    lemma_solid_of_trimmed(content);
    lemma_solid_of_trimmed(skip_newlines(content));
    lemma_solid_of_lines(body);
    lemma_common_indent(ls);
    let indent = common_indent(ls);
    assert forall|i: int| 0 <= i < ds.len() implies solid(#[trigger] ds[i]) == solid(ls[i]) by {
        let l = ls[i];
        lemma_solid_of_blank(l);
        if is_blank(l) {
            assert(solid(l) =~= solid(ds[i]));
        } else {
            assert(indent.is_prefix_of(l));
            assert(l =~= indent + l.skip(n as int) + Seq::<char>::empty());
            lemma_solid_between(indent, l.skip(n as int), Seq::empty());
        }
    }
    lemma_solid_of_joined(ds, ls);
    if ls.len() > 0 {
        let sql = join_lines(ds);
        let none = Seq::<char>::empty();
        assert(sql.push('\n') =~= none + sql + seq!['\n']);
        lemma_solid_between(none, sql, seq!['\n']);
    }
}

/// The letter `c`, in upper or lower case.
pub open spec fn is_letter_of(c: char, lower: char, upper: char) -> bool {
    c == lower || c == upper
}

/// `t` starts with the word `SET` and a space, in upper or lower case.
pub open spec fn starts_with_set(t: Seq<char>) -> bool {
    &&& t.len() >= 4
    &&& is_letter_of(t[0], 's', 'S')
    &&& is_letter_of(t[1], 'e', 'E')
    &&& is_letter_of(t[2], 't', 'T')
    &&& t[3] == ' '
}

/// Just the texts whose first word is `SET`, with a space behind it, are `SET` statements.
pub proof fn lemma_set_statements(space: Seq<char>, t: Seq<char>)
    requires
        is_blank(space),
        t.len() > 0 ==> !is_white_space(t[0]),
    ensures
        is_set_statement(space + t) <==> starts_with_set(t),
{
    let s = space + t;
    lemma_run_len_is(s, white(), space.len());
    assert(trim_start(s) =~= t);
    reveal_strlit("set ");
    if t.len() >= 4 {
        let low = lowered(t.take(4));
        if starts_with_set(t) {
            assert(low =~= "set "@);
        }
        if low == "set "@ {
            assert(low[0] == 's' && low[1] == 'e' && low[2] == 't' && low[3] == ' ');
        }
    }
}

/// SQL is kept from the linter only where there is none, or where its first word is `SET`:
/// otherwise the linter gets it, whatever it is.
pub proof fn lemma_all_other_sql_is_linted(q: QueryView, kind: LiteralKind, content: Seq<char>)
    requires
        parsed_literal(q.text) == Some((kind, content)),
        solid(content).len() > 0,
        !(solid(content).len() >= 3 && is_letter_of(solid(content)[0], 's', 'S') && is_letter_of(
            solid(content)[1],
            'e',
            'E',
        ) && is_letter_of(solid(content)[2], 't', 'T')),
    ensures
        sql_of(q) == Some(dedented(content)),
{
    let sql = dedented(content);
    lemma_linter_gets_all_sql(content);
    lemma_solid_of_blank(sql);
    lemma_run_len(sql, white());
    let k = run_len(sql, white()) as int;
    let t = sql.skip(k);
    assert(sql =~= sql.take(k) + t);
    lemma_set_statements(sql.take(k), t);
    if starts_with_set(t) {
        let word = t.take(3);
        assert(t =~= word + t.skip(3));
        lemma_solid_add(word, t.skip(3));
        lemma_solid_of_trimmed(sql);
        assert(trim_start(sql) == t);
        assert(word =~= seq![t[0], t[1], t[2]]);
        assert(word.drop_last() =~= seq![t[0], t[1]]);
        assert(word.drop_last().drop_last() =~= seq![t[0]]);
        assert(word.drop_last().drop_last().drop_last() =~= Seq::<char>::empty());
        reveal_with_fuel(solid, 4);
        assert(solid(word) =~= word);
        assert(solid(sql)[0] == t[0] && solid(sql)[1] == t[1] && solid(sql)[2] == t[2]);
    }
    assert(lintable_sql(content) == Some(sql));
}

/// The linter gets the SQL of a literal just where its first word is not `SET` with a space
/// behind it.
pub proof fn lemma_what_is_linted(
    q: QueryView,
    kind: LiteralKind,
    content: Seq<char>,
    space: Seq<char>,
    t: Seq<char>,
)
    requires
        parsed_literal(q.text) == Some((kind, content)),
        dedented(content) == space + t,
        is_blank(space),
        t.len() > 0,
        !is_white_space(t[0]),
    ensures
        sql_of(q) == if starts_with_set(t) {
            None::<Seq<char>>
        } else {
            Some(space + t)
        },
{
    lemma_set_statements(space, t);
    assert((space + t)[space.len() as int] == t[0]);
    assert(!is_blank(space + t));
}

/// Blank SQL is kept from the linter.
pub proof fn lemma_blank_sql_is_not_linted(q: QueryView, kind: LiteralKind, content: Seq<char>)
    requires
        parsed_literal(q.text) == Some((kind, content)),
        is_blank(content),
    ensures
        sql_of(q) is None,
{
    lemma_linter_gets_all_sql(content);
    lemma_solid_of_blank(content);
    lemma_solid_of_blank(dedented(content));
}

// ---------------------------------------------------------------------------
// From the fixer
// ---------------------------------------------------------------------------

/// Indenting adds white space only.
proof fn lemma_solid_of_reindented(sql: Seq<char>, indent: Seq<char>)
    requires
        is_blank(indent),
    ensures
        solid(reindented(sql, indent)) == solid(sql),
{
    let ls = lines(trim_end_newlines(sql));
    let all = indent_lines(ls, indent);
    assert forall|i: int| 0 <= i < all.len() implies solid(#[trigger] all[i]) == solid(ls[i]) by {
        let l = ls[i];
        lemma_solid_of_blank(l);
        if is_blank(l) {
            assert(solid(l) =~= solid(all[i]));
        } else {
            assert(indent + l =~= indent + l + Seq::<char>::empty());
            lemma_solid_between(indent, l, Seq::empty());
        }
    }
    lemma_solid_of_joined(all, ls);
    lemma_solid_of_lines(trim_end_newlines(sql));
    lemma_solid_of_trimmed(sql);
}

/// The frame of a literal is white space.
proof fn lemma_frame_is_blank(content: Seq<char>)
    ensures
        is_blank(leading_frame(content)),
        is_blank(trailing_frame(content)),
{
    lemma_run_len(content, newline());
    lemma_tail_run_len(content, not_newline());
    let frame = trailing_frame(content);
    let start = content.len() - tail_run_len(content, not_newline()) - 1;
    assert forall|i: int| 0 <= i < frame.len() implies is_white_space(#[trigger] frame[i]) by {
        assert(frame[i] == content[start + i]);
        if i > 0 {
            assert(is_space_or_tab(content[start + i]));
        }
    }
}

/// One line has the solid characters of many.
proof fn lemma_solid_of_one_line(s: Seq<char>)
    ensures
        solid(one_line(s)) == solid(s),
{
    lemma_solid_of_trimmed(s);
    lemma_solid_of_trimmed(trim_start(s));
    let t = trim_end(trim_start(s));
    lemma_solid_alike(one_line(s), t);
}

/// Texts that differ in white space only, character by character.
proof fn lemma_solid_alike(a: Seq<char>, b: Seq<char>)
    requires
        a.len() == b.len(),
        forall|i: int|
            0 <= i < a.len() ==> #[trigger] a[i] == b[i] || (is_white_space(a[i])
                && is_white_space(b[i])),
    ensures
        solid(a) == solid(b),
    decreases a.len(),
{
    if a.len() > 0 {
        assert forall|i: int| 0 <= i < a.len() - 1 implies #[trigger] a.drop_last()[i]
            == b.drop_last()[i] || (is_white_space(a.drop_last()[i]) && is_white_space(
            b.drop_last()[i],
        )) by {
            assert(a.drop_last()[i] == a[i]);
        }
        lemma_solid_alike(a.drop_last(), b.drop_last());
        assert(a[a.len() - 1] == b[b.len() - 1] || (is_white_space(a[a.len() - 1])
            && is_white_space(b[b.len() - 1])));
    }
}

/// A literal that a fix writes reads back with every character of the fixed SQL that is not
/// white space, in its place: none is lost, added or changed.
pub proof fn lemma_fix_writes_all_sql(kind: LiteralKind, content: Seq<char>, fixed: Seq<char>)
    ensures
        parsed_literal(rebuilt(kind, content, fixed)) matches Some((k, read)) && k == kind && solid(
            read,
        ) == solid(fixed),
{
    lemma_rebuilt_literal_reads_back(kind, content, fixed);
    match kind {
        LiteralKind::Normal => {
            lemma_solid_of_one_line(fixed);
        },
        LiteralKind::Raw { .. } => {
            if fixed == dedented(content) {
                lemma_linter_gets_all_sql(content);
            } else {
                let ls = lines(content);
                let indent = common_indent(ls);
                lemma_common_indent(ls);
                lemma_frame_is_blank(content);
                lemma_solid_of_reindented(fixed, indent);
                lemma_solid_between(
                    leading_frame(content),
                    reindented(fixed, indent),
                    trailing_frame(content),
                );
                assert(written(content, fixed) == framed(content, fixed));
            }
        },
    }
}

/// A string on one line that a fix writes reads back as the fixed SQL without the white
/// space around it, character for character, with a space for each line feed.
pub proof fn lemma_string_reads_back(
    content: Seq<char>,
    before: Seq<char>,
    t: Seq<char>,
    after: Seq<char>,
)
    requires
        is_blank(before),
        is_blank(after),
        t.len() > 0 ==> !is_white_space(t[0]) && !is_white_space(t.last()),
    ensures
        parsed_literal(
            rebuilt(LiteralKind::Normal, content, before + t + after),
        ) matches Some((LiteralKind::Normal, read)) && read.len() == t.len() && forall|i: int|
            0 <= i < t.len() ==> #[trigger] read[i] == if t[i] == '\n' {
                ' '
            } else {
                t[i]
            },
{
    let fixed = before + t + after;
    lemma_rebuilt_literal_reads_back(LiteralKind::Normal, content, fixed);
    if t.len() == 0 {
        lemma_solid_of_one_line(fixed);
        lemma_solid_between(before, t, after);
        lemma_solid_of_trimmed(fixed);
        lemma_solid_of_trimmed(trim_start(fixed));
        let rest = trim_start(fixed);
        lemma_tail_run_len(rest, white());
        lemma_solid_of_blank(rest);
        if tail_run_len(rest, white()) < rest.len() {
            assert(!white()(rest[rest.len() - tail_run_len(rest, white()) - 1]));
        }
        assert(one_line(fixed).len() == 0);
    } else {
        lemma_run_len_is(fixed, white(), before.len());
        let rest = trim_start(fixed);
        assert(rest =~= t + after);
        assert forall|i: int| rest.len() - after.len() <= i < rest.len() implies white()(
            #[trigger] rest[i],
        ) by {
            assert(rest[i] == after[i - t.len()]);
        }
        assert(rest[t.len() - 1] == t.last());
        lemma_tail_run_len_is(rest, white(), after.len());
        assert(trim_end(rest) =~= t);
    }
}

} // verus!
