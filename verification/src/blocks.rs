//! SQL as a block of lines in a raw literal: line feeds before it, an indent before each of
//! its lines, and white space up to the closing delimiter. The linter gets the lines without
//! the indent, and a fix puts other lines in their place.
use crate::engine::{framed, rebuilt, written};
use crate::layout::{
    all_on_one_line, lemma_common_indent, lemma_indent_of_indented, lemma_join_last,
    lemma_lines_are_pieces, lemma_one_indent, lemma_parts_of, lemma_pieces_of_join,
    lemma_same_but_blank, on_one_line, stripped,
};
use crate::literal::{
    common_indent, dedent_line, dedent_lines, dedented, indent_lines, is_space_or_tab,
    leading_frame, lemma_some_indent, raw_literal, reindented, sql_lines, trailing_frame, LiteralKind,
};
use crate::roundtrip::{lemma_reindented, lemma_stripped_line};
use crate::text::{
    is_blank, is_white_space, join_lines, lemma_tail_run_len, lemma_tail_run_len_is, lines, newline,
    not_newline, tail_run_len,
};
use vstd::prelude::*;

verus! {

/// Lines of SQL: the first is not empty, the last does not end in white space, and no line
/// holds a line feed, ends in a carriage return, or is blank without being empty.
pub open spec fn are_sql_lines(ls: Seq<Seq<char>>) -> bool {
    &&& ls.len() > 0
    &&& ls[0].len() > 0
    &&& ls.last().len() > 0
    &&& !is_white_space(ls.last().last())
    &&& forall|i: int|
        0 <= i < ls.len() ==> on_one_line(#[trigger] ls[i]) && (ls[i].len() == 0 || (!is_blank(
            ls[i],
        ) && ls[i].last() != '\r'))
}

/// Some line starts with something else than white space.
pub open spec fn start_at_margin(ls: Seq<Seq<char>>) -> bool {
    exists|i: int| 0 <= i < ls.len() && (#[trigger] ls[i]).len() > 0 && !is_white_space(ls[i][0])
}

/// Every line behind the indent, but for blank ones, which are empty.
pub open spec fn behind(ls: Seq<Seq<char>>, indent: Seq<char>) -> Seq<Seq<char>> {
    Seq::new(
        ls.len(),
        |i: int|
            if is_blank(ls[i]) {
                Seq::empty()
            } else {
                indent + ls[i]
            },
    )
}

/// Lines that a fixer may give: the last does not end in white space, and no line holds a
/// line feed or ends in a carriage return.
pub open spec fn are_fixed_lines(ls: Seq<Seq<char>>) -> bool {
    &&& ls.len() > 0
    &&& ls.last().len() > 0
    &&& !is_white_space(ls.last().last())
    &&& forall|i: int|
        0 <= i < ls.len() ==> on_one_line(#[trigger] ls[i]) && (ls[i].len() == 0 || ls[i].last()
            != '\r')
}

/// The lines `ys` of a file hold the lines `ls` of SQL behind the indent. A line of the
/// file may end in a carriage return, but for the last, and one without SQL may be blank in
/// any way.
pub open spec fn hold_lines(ys: Seq<Seq<char>>, ls: Seq<Seq<char>>, indent: Seq<char>) -> bool {
    &&& ys.len() == ls.len()
    &&& ys.last() == indent + ls.last()
    &&& forall|i: int|
        0 <= i < ls.len() ==> if ls[i].len() == 0 {
            is_blank(#[trigger] ys[i]) && on_one_line(ys[i])
        } else {
            ys[i] == indent + ls[i] || ys[i] == indent + ls[i] + seq!['\r']
        }
}

/// White space on one line.
pub open spec fn is_indent(indent: Seq<char>) -> bool {
    is_blank(indent) && on_one_line(indent)
}

/// Nothing but line feeds.
pub open spec fn are_feeds(s: Seq<char>) -> bool {
    forall|i: int| 0 <= i < s.len() ==> #[trigger] s[i] == '\n'
}

/// What may come between SQL and the closing delimiter: nothing, or a line feed and spaces
/// or tabs.
pub open spec fn is_frame_end(s: Seq<char>) -> bool {
    s.len() > 0 ==> s[0] == '\n' && forall|i: int|
        0 < i < s.len() ==> #[trigger] s[i] == ' ' || s[i] == '\t'
}

/// A literal's content with the given lines of SQL behind the indent.
pub open spec fn block(
    lead: Seq<char>,
    ls: Seq<Seq<char>>,
    indent: Seq<char>,
    end: Seq<char>,
) -> Seq<char> {
    lead + join_lines(behind(ls, indent)) + end
}

/// A block taken apart.
pub proof fn lemma_block(lead: Seq<char>, ls: Seq<Seq<char>>, indent: Seq<char>, end: Seq<char>)
    requires
        are_feeds(lead),
        are_sql_lines(ls),
        is_indent(indent),
        is_blank(end),
    ensures
        ({
            let ys = behind(ls, indent);
            let content = block(lead, ls, indent, end);
            &&& ys == indent_lines(ls, indent)
            &&& leading_frame(content) == lead
            &&& sql_lines(content) == ys
            &&& join_lines(ys).len() > 0
            &&& !is_white_space(join_lines(ys).last())
        }),
{
    let ys = behind(ls, indent);
    let content = block(lead, ls, indent, end);
    assert(ys =~= indent_lines(ls, indent));
    assert forall|i: int| 0 <= i < ls.len() implies (ls[i].len() == 0 <==> is_blank(
        #[trigger] ls[i],
    )) by {
        assert(on_one_line(ls[i]));
    }
    assert(all_on_one_line(ys)) by {
        assert forall|i: int| 0 <= i < ys.len() implies on_one_line(#[trigger] ys[i]) by {
            assert(on_one_line(ls[i]));
            let y = ys[i];
            assert forall|j: int| 0 <= j < y.len() implies #[trigger] y[j] != '\n' by {
                if j < indent.len() {
                    assert(y[j] == indent[j]);
                } else {
                    assert(y[j] == ls[i][j - indent.len()]);
                }
            }
        }
    }
    let body = join_lines(ys);
    let last = ls.len() - 1;
    assert(on_one_line(ls[last]));
    assert(ys.last() == indent + ls.last());
    assert(ys.last().last() == ls.last().last());
    lemma_join_last(ys);
    lemma_pieces_of_join(ys);
    assert(ys[0].len() > 0);
    assert(on_one_line(ys[0]));
    assert(body[0] == ys[0][0]);
    assert forall|i: int| 0 <= i < lead.len() implies newline()(#[trigger] lead[i]) by {}
    lemma_parts_of(lead, body, end);
    assert(body.last() != '\n') by {
        assert(is_white_space('\n'));
    }
    lemma_lines_are_pieces(body);
    assert(stripped(ys) =~= ys) by {
        assert forall|i: int| 0 <= i < ys.len() implies stripped(ys)[i] == #[trigger] ys[i] by {
            assert(on_one_line(ls[i]));
            if ls[i].len() > 0 {
                assert(ys[i].last() == ls[i].last());
            }
        }
    }
}

/// The common indent of lines that start at the margin is nothing, and behind an indent it is
/// that indent.
proof fn lemma_indent_of_block(ls: Seq<Seq<char>>, indent: Seq<char>)
    requires
        are_sql_lines(ls),
        start_at_margin(ls),
        is_indent(indent),
    ensures
        common_indent(indent_lines(ls, indent)) == indent,
{
    let k = choose|k: int|
        0 <= k < ls.len() && (#[trigger] ls[k]).len() > 0 && !is_white_space(ls[k][0]);
    assert(!is_blank(ls[k]));
    lemma_some_indent(ls, k);
    lemma_common_indent(ls);
    let c = common_indent(ls);
    assert(c.is_prefix_of(ls[k]));
    if c.len() > 0 {
        assert(c[0] == ls[k][0]);
        assert(is_white_space(c[0]));
    }
    assert(c =~= Seq::<char>::empty());
    lemma_indent_of_indented(ls, indent);
    assert(indent + c =~= indent);
}

/// The linter gets the lines of SQL without what is before, between and behind them:
/// without the line feeds before them, their indent, carriage returns at their end and the
/// white space up to the closing delimiter, and each ended by a line feed. A blank line
/// becomes empty. What is in a line stays as it is.
pub proof fn lemma_lines_are_dedented(
    lead: Seq<char>,
    ys: Seq<Seq<char>>,
    ls: Seq<Seq<char>>,
    indent: Seq<char>,
    end: Seq<char>,
)
    requires
        are_feeds(lead),
        are_sql_lines(ls),
        start_at_margin(ls),
        is_indent(indent),
        hold_lines(ys, ls, indent),
        is_blank(end),
    ensures
        dedented(lead + join_lines(ys) + end) == join_lines(ls).push('\n'),
        common_indent(lines(lead + join_lines(ys) + end)) == indent,
        leading_frame(lead + join_lines(ys) + end) == lead,
{
    let content = lead + join_lines(ys) + end;
    let body = join_lines(ys);
    let zs = indent_lines(ls, indent);
    let none = Seq::<char>::empty();
    assert forall|i: int| 0 <= i < ls.len() implies (ls[i].len() == 0 <==> is_blank(
        #[trigger] ls[i],
    )) by {
        assert(on_one_line(ls[i]));
    }
    assert(all_on_one_line(ys)) by {
        assert forall|i: int| 0 <= i < ys.len() implies on_one_line(#[trigger] ys[i]) by {
            assert(on_one_line(ls[i]));
            let y = ys[i];
            if ls[i].len() > 0 {
                assert forall|j: int| 0 <= j < y.len() implies #[trigger] y[j] != '\n' by {
                    if j < indent.len() {
                        assert(y[j] == indent[j]);
                    } else if j < indent.len() + ls[i].len() {
                        assert(y[j] == ls[i][j - indent.len()]);
                    }
                }
            }
        }
    }
    assert(ys.last().last() == ls.last().last());
    lemma_join_last(ys);
    lemma_pieces_of_join(ys);
    assert(ls[0].len() > 0);
    assert(ys[0].len() > 0);
    assert(on_one_line(ys[0]));
    assert(body[0] == ys[0][0]);
    assert forall|i: int| 0 <= i < lead.len() implies newline()(#[trigger] lead[i]) by {}
    lemma_parts_of(lead, body, end);
    assert(body.last() != '\n') by {
        assert(is_white_space('\n'));
    }
    lemma_lines_are_pieces(body);
    let ss = stripped(ys);
    assert(sql_lines(content) == ss);
    // Without their carriage returns the lines are the SQL behind the indent, or blank.
    assert forall|i: int| 0 <= i < ss.len() implies #[trigger] ss[i] == zs[i] || (is_blank(ss[i])
        && is_blank(zs[i])) by {
        let y = ys[i];
        assert(on_one_line(ls[i]));
        if ls[i].len() == 0 {
            assert(is_blank(y));
            assert forall|j: int| 0 <= j < ss[i].len() implies is_white_space(
                #[trigger] ss[i][j],
            ) by {
                assert(ss[i][j] == y[j]);
            }
        } else if y == indent + ls[i] {
            assert(y.last() == ls[i].last());
        } else {
            assert(y.drop_last() =~= indent + ls[i]);
        }
    }
    lemma_same_but_blank(ss, zs);
    lemma_indent_of_block(ls, indent);
    lemma_one_indent(content);
    assert(common_indent(ss) == indent);
    assert forall|i: int| 0 <= i < ls.len() implies dedent_line(ss[i], indent.len())
        == #[trigger] ls[i] by {
        if ls[i].len() > 0 {
            lemma_stripped_line(ls[i], indent);
            assert(!is_blank(zs[i]));
            assert(ss[i] == zs[i]);
        } else {
            assert(is_blank(zs[i]));
            assert(is_blank(ss[i]));
            assert(ls[i] =~= none);
        }
    }
    assert(dedent_lines(ss, indent.len()) =~= ls);
}

/// The linter gets the lines of a block without their indent.
pub proof fn lemma_block_is_dedented(
    lead: Seq<char>,
    ls: Seq<Seq<char>>,
    indent: Seq<char>,
    end: Seq<char>,
)
    requires
        are_feeds(lead),
        are_sql_lines(ls),
        start_at_margin(ls),
        is_indent(indent),
        is_blank(end),
    ensures
        dedented(block(lead, ls, indent, end)) == join_lines(ls).push('\n'),
        common_indent(lines(block(lead, ls, indent, end))) == indent,
{
    let ys = behind(ls, indent);
    assert(on_one_line(ls[ls.len() - 1]));
    assert(hold_lines(ys, ls, indent)) by {
        assert forall|i: int| 0 <= i < ls.len() implies if ls[i].len() == 0 {
            is_blank(#[trigger] ys[i]) && on_one_line(ys[i])
        } else {
            ys[i] == indent + ls[i] || ys[i] == indent + ls[i] + seq!['\r']
        } by {
            assert(on_one_line(ls[i]));
        }
    }
    lemma_lines_are_dedented(lead, ys, ls, indent, end);
}

/// Lines that a fixer gave, behind an indent.
pub proof fn lemma_reindented_lines(new: Seq<Seq<char>>, indent: Seq<char>)
    requires
        are_fixed_lines(new),
        is_indent(indent),
    ensures
        reindented(join_lines(new).push('\n'), indent) == join_lines(behind(new, indent)),
{
    assert(all_on_one_line(new)) by {
        assert forall|i: int| 0 <= i < new.len() implies on_one_line(#[trigger] new[i]) by {}
    }
    lemma_reindented(new, indent);
    assert(stripped(new) =~= new) by {
        assert forall|i: int| 0 <= i < new.len() implies stripped(new)[i] == #[trigger] new[i] by {
            assert(on_one_line(new[i]));
        }
    }
    assert(behind(new, indent) =~= indent_lines(new, indent));
}

/// A fix that gives other lines puts them where the old ones were: behind the same indent,
/// and with the same line feeds before and white space behind them. Blank lines become
/// empty.
pub proof fn lemma_block_is_rewritten(
    hashes: usize,
    lead: Seq<char>,
    ls: Seq<Seq<char>>,
    indent: Seq<char>,
    end: Seq<char>,
    new: Seq<Seq<char>>,
)
    requires
        are_feeds(lead),
        are_sql_lines(ls),
        start_at_margin(ls),
        is_indent(indent),
        is_frame_end(end),
        are_fixed_lines(new),
    ensures
        rebuilt(
            LiteralKind::Raw { hashes },
            block(lead, ls, indent, end),
            join_lines(new).push('\n'),
        ) == raw_literal(hashes as nat, block(lead, new, indent, end)),
{
    let content = block(lead, ls, indent, end);
    let fixed = join_lines(new).push('\n');
    assert(is_blank(end)) by {
        assert forall|i: int| 0 <= i < end.len() implies is_white_space(#[trigger] end[i]) by {
            if i > 0 {
                assert(end[i] == ' ' || end[i] == '\t');
            }
        }
    }
    lemma_block(lead, ls, indent, end);
    lemma_block_is_dedented(lead, ls, indent, end);
    if fixed == dedented(content) {
        lemma_same_lines(new, ls);
    } else {
        let body = join_lines(behind(ls, indent));
        lemma_reindented_lines(new, indent);
        lemma_frame_end(lead + body, end);
        assert(framed(content, fixed) == block(lead, new, indent, end));
    }
    assert(written(content, fixed) == block(lead, new, indent, end));
}

/// Spaces and tabs only.
pub open spec fn are_spaces(s: Seq<char>) -> bool {
    forall|i: int| 0 <= i < s.len() ==> #[trigger] s[i] == ' ' || s[i] == '\t'
}

/// Of the white space behind SQL the frame keeps the last line feed and the spaces or tabs
/// behind it; without a line feed it keeps nothing.
pub proof fn lemma_space_behind_sql(s: Seq<char>, space: Seq<char>, spaces: Seq<char>)
    requires
        s.len() > 0,
        !is_white_space(s.last()),
        is_blank(space),
        are_spaces(spaces),
    ensures
        trailing_frame(s + (space + seq!['\n'] + spaces)) == seq!['\n'] + spaces,
        on_one_line(space) ==> trailing_frame(s + space) == Seq::<char>::empty(),
{
    let end = space + seq!['\n'] + spaces;
    let t = s + end;
    let n = spaces.len();
    let start = t.len() - n - 1;
    assert forall|i: int| t.len() - n <= i < t.len() implies not_newline()(#[trigger] t[i]) by {
        assert(t[i] == spaces[i - start - 1]);
    }
    assert(t[start] == '\n');
    lemma_tail_run_len_is(t, not_newline(), n);
    assert forall|i: int| start < i < t.len() implies is_space_or_tab(#[trigger] t[i]) by {
        assert(t[i] == spaces[i - start - 1]);
    }
    assert(t.skip(start) =~= seq!['\n'] + spaces);
    if on_one_line(space) {
        let u = s + space;
        let last = s.len() - 1;
        assert(u[last] == s.last());
        lemma_tail_run_len(u, not_newline());
        let at = u.len() - tail_run_len(u, not_newline()) - 1;
        assert(is_white_space(' ') && is_white_space('\t') && is_white_space('\n'));
        if at >= 0 {
            assert(!not_newline()(u[at]));
            if at > last {
                assert(u[at] == space[at - s.len()]);
            }
            assert(at < last);
            assert(!is_space_or_tab(u[last]));
        }
    }
}

/// A fix that changes lines with white space of any kind behind them keeps of that the last
/// line feed and the spaces or tabs behind it, or nothing where there is no line feed.
pub proof fn lemma_lines_before_space_are_rewritten(
    hashes: usize,
    lead: Seq<char>,
    ls: Seq<Seq<char>>,
    indent: Seq<char>,
    space: Seq<char>,
    spaces: Seq<char>,
    new: Seq<Seq<char>>,
)
    requires
        are_feeds(lead),
        are_sql_lines(ls),
        start_at_margin(ls),
        is_indent(indent),
        is_blank(space),
        are_spaces(spaces),
        are_fixed_lines(new),
        new != ls,
    ensures
        rebuilt(
            LiteralKind::Raw { hashes },
            block(lead, ls, indent, space + seq!['\n'] + spaces),
            join_lines(new).push('\n'),
        ) == raw_literal(hashes as nat, block(lead, new, indent, seq!['\n'] + spaces)),
        on_one_line(space) ==> rebuilt(
            LiteralKind::Raw { hashes },
            block(lead, ls, indent, space),
            join_lines(new).push('\n'),
        ) == raw_literal(hashes as nat, block(lead, new, indent, Seq::empty())),
{
    let fixed = join_lines(new).push('\n');
    let body = join_lines(behind(ls, indent));
    let end = space + seq!['\n'] + spaces;
    assert(is_blank(end)) by {
        assert forall|i: int| 0 <= i < end.len() implies is_white_space(#[trigger] end[i]) by {
            if i < space.len() {
                assert(end[i] == space[i]);
            } else if i > space.len() {
                assert(end[i] == spaces[i - space.len() - 1]);
            }
        }
    }
    lemma_block(lead, ls, indent, end);
    lemma_block(lead, ls, indent, space);
    lemma_block_is_dedented(lead, ls, indent, end);
    lemma_block_is_dedented(lead, ls, indent, space);
    lemma_reindented_lines(new, indent);
    lemma_space_behind_sql(lead + body, space, spaces);
    if fixed == join_lines(ls).push('\n') {
        lemma_same_lines(new, ls);
    }
}

/// Lines that are joined to the same text are the same.
proof fn lemma_same_lines(a: Seq<Seq<char>>, b: Seq<Seq<char>>)
    requires
        are_fixed_lines(a),
        are_sql_lines(b),
        join_lines(a).push('\n') == join_lines(b).push('\n'),
    ensures
        a == b,
{
    assert(join_lines(a) =~= join_lines(a).push('\n').drop_last());
    assert(join_lines(b) =~= join_lines(b).push('\n').drop_last());
    assert(all_on_one_line(a)) by {
        assert forall|i: int| 0 <= i < a.len() implies on_one_line(#[trigger] a[i]) by {}
    }
    assert(all_on_one_line(b)) by {
        assert forall|i: int| 0 <= i < b.len() implies on_one_line(#[trigger] b[i]) by {}
    }
    lemma_pieces_of_join(a);
    lemma_pieces_of_join(b);
}

/// The end of a frame behind a text that does not end in white space.
pub proof fn lemma_frame_end(s: Seq<char>, end: Seq<char>)
    requires
        s.len() > 0,
        !is_white_space(s.last()),
        is_frame_end(end),
    ensures
        trailing_frame(s + end) == end,
{
    let t = s + end;
    if end.len() > 0 {
        let n = (end.len() - 1) as nat;
        assert forall|i: int| t.len() - n <= i < t.len() implies not_newline()(#[trigger] t[i]) by {
            assert(t[i] == end[i - s.len()]);
        }
        assert(t[t.len() - n - 1] == end[0]);
        lemma_tail_run_len_is(t, not_newline(), n);
        assert(t.skip(s.len() as int) =~= end);
        assert forall|i: int| s.len() < i < t.len() implies is_space_or_tab(#[trigger] t[i]) by {
            assert(t[i] == end[i - s.len()]);
        }
    } else {
        assert(t =~= s);
        let start = t.len() - tail_run_len(t, not_newline()) - 1;
        lemma_tail_run_len(t, not_newline());
        assert(t.last() != '\n') by {
            assert(is_white_space('\n'));
        }
        assert(t[t.len() - 1] == s.last());
        if start >= 0 {
            if start == t.len() - 1 {
                assert(not_newline()(t[t.len() - 1]));
            }
            assert(!is_space_or_tab(t[t.len() - 1])) by {
                assert(is_white_space(' ') && is_white_space('\t'));
            }
        }
        assert(trailing_frame(t) =~= end);
    }
}

} // verus!
