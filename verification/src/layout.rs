//! How the lines of a literal's content are laid out: texts taken apart at their line
//! feeds, the indent of a block of lines, and the SQL between framing.
use crate::literal::{
    common_indent, common_start, dedent_line, dedent_lines, dedented, indent_line, indent_lines,
    indent_of, leading_frame, lemma_common_start, lemma_some_indent, shared_indent, sql_lines,
};
use crate::text::{
    is_blank, is_white_space, join_lines, lemma_join_push, lemma_run_len, lemma_run_len_is,
    lemma_tail_run_len, lemma_tail_run_len_is, lines, newline, not_newline, run_len, skip_newlines,
    strip_cr, trim_end, white,
};
use vstd::prelude::*;

verus! {

// ---------------------------------------------------------------------------
// Lines taken apart and put together
// ---------------------------------------------------------------------------

/// Holding no line feed.
pub open spec fn on_one_line(s: Seq<char>) -> bool {
    forall|i: int| 0 <= i < s.len() ==> #[trigger] s[i] != '\n'
}

/// [`on_one_line`] of every one.
pub open spec fn all_on_one_line(ls: Seq<Seq<char>>) -> bool {
    forall|i: int| 0 <= i < ls.len() ==> on_one_line(#[trigger] ls[i])
}

/// The texts between the line feeds of `s`, with their carriage returns.
pub open spec fn pieces(s: Seq<char>) -> Seq<Seq<char>>
    decreases s.len(),
{
    let n = run_len(s, not_newline());
    if n >= s.len() {
        seq![s]
    } else {
        seq![s.take(n as int)] + pieces(s.skip(n as int + 1))
    }
}

/// The given pieces, each but the last without one carriage return at its end.
pub open spec fn stripped(ps: Seq<Seq<char>>) -> Seq<Seq<char>> {
    Seq::new(
        ps.len(),
        |i: int|
            if i < ps.len() - 1 {
                strip_cr(ps[i])
            } else {
                ps[i]
            },
    )
}

/// Joining the pieces of a text gives the text.
pub proof fn lemma_join_of_pieces(s: Seq<char>)
    ensures
        pieces(s).len() >= 1,
        all_on_one_line(pieces(s)),
        join_lines(pieces(s)) == s,
    decreases s.len(),
{
    lemma_run_len(s, not_newline());
    let n = run_len(s, not_newline()) as int;
    if n < s.len() {
        let rest = s.skip(n + 1);
        lemma_join_of_pieces(rest);
        assert(pieces(s).skip(1) =~= pieces(rest));
        assert(s[n] == '\n');
        assert(s.take(n) + seq!['\n'] + rest =~= s);
        assert forall|i: int| 0 <= i < pieces(s).len() implies on_one_line(
            #[trigger] pieces(s)[i],
        ) by {
            if i == 0 {
                assert forall|j: int| 0 <= j < n implies #[trigger] s.take(n)[j] != '\n' by {
                    assert(not_newline()(s[j]));
                }
            } else {
                assert(pieces(s)[i] == pieces(rest)[i - 1]);
            }
        }
    } else {
        assert forall|j: int| 0 <= j < s.len() implies #[trigger] s[j] != '\n' by {
            assert(not_newline()(s[j]));
        }
    }
}

/// Taking joined lines apart gives the lines.
pub proof fn lemma_pieces_of_join(ls: Seq<Seq<char>>)
    requires
        ls.len() >= 1,
        all_on_one_line(ls),
    ensures
        pieces(join_lines(ls)) == ls,
    decreases ls.len(),
{
    let s = join_lines(ls);
    let first = ls[0];
    assert(on_one_line(first));
    if ls.len() == 1 {
        assert forall|j: int| 0 <= j < s.len() implies not_newline()(#[trigger] s[j]) by {
            assert(first[j] != '\n');
        }
        lemma_run_len_is(s, not_newline(), s.len());
        assert(ls =~= seq![s]);
    } else {
        let rest = ls.skip(1);
        assert(all_on_one_line(rest)) by {
            assert forall|i: int| 0 <= i < rest.len() implies on_one_line(#[trigger] rest[i]) by {
                assert(rest[i] == ls[i + 1]);
            }
        }
        lemma_pieces_of_join(rest);
        let n = first.len() as int;
        assert forall|j: int| 0 <= j < n implies not_newline()(#[trigger] s[j]) by {
            assert(s[j] == first[j]);
        }
        assert(s[n] == '\n');
        lemma_run_len_is(s, not_newline(), first.len());
        assert(s.take(n) =~= first);
        assert(s.skip(n + 1) =~= join_lines(rest));
        assert(seq![first] + rest =~= ls);
    }
}

/// The lines of a text that does not end in a line feed are its pieces, but for
/// carriage returns.
pub proof fn lemma_lines_are_pieces(s: Seq<char>)
    requires
        s.len() > 0,
        s.last() != '\n',
    ensures
        lines(s) == stripped(pieces(s)),
        pieces(s).last().len() > 0,
        pieces(s).last().last() == s.last(),
    decreases s.len(),
{
    lemma_run_len(s, not_newline());
    let n = run_len(s, not_newline()) as int;
    lemma_join_of_pieces(s);
    if n < s.len() {
        assert(s[n] == '\n');
        let rest = s.skip(n + 1);
        assert(rest.len() > 0);
        assert(rest.last() == s.last());
        lemma_lines_are_pieces(rest);
        lemma_join_of_pieces(rest);
        assert(pieces(s) =~= seq![s.take(n)] + pieces(rest));
        assert(pieces(s).last() == pieces(rest).last());
        assert(stripped(pieces(s)) =~= seq![strip_cr(s.take(n))] + stripped(pieces(rest)));
    } else {
        assert(stripped(pieces(s)) =~= seq![s]);
    }
}

/// Joined lines end as the last of them does.
pub proof fn lemma_join_last(ls: Seq<Seq<char>>)
    requires
        ls.len() > 0,
        ls.last().len() > 0,
    ensures
        join_lines(ls).len() > 0,
        join_lines(ls).last() == ls.last().last(),
{
    lemma_join_push(ls.drop_last(), ls.last());
    assert(ls.drop_last().push(ls.last()) =~= ls);
}

/// No line of a text holds a line feed.
pub proof fn lemma_lines_on_one_line(s: Seq<char>)
    ensures
        all_on_one_line(lines(s)),
    decreases s.len(),
{
    lemma_run_len(s, not_newline());
    let n = run_len(s, not_newline()) as int;
    let ls = lines(s);
    if s.len() > 0 {
        if n < s.len() {
            lemma_lines_on_one_line(s.skip(n + 1));
        }
        assert forall|i: int| 0 <= i < ls.len() implies on_one_line(#[trigger] ls[i]) by {
            if i > 0 {
                assert(ls[i] == lines(s.skip(n + 1))[i - 1]);
            } else {
                let l = ls[0];
                assert forall|j: int| 0 <= j < l.len() implies #[trigger] l[j] != '\n' by {
                    assert(not_newline()(s[j]));
                }
            }
        }
    }
}

/// Empty lines before others are line feeds before them.
pub proof fn lemma_join_behind_empty(ls: Seq<Seq<char>>) -> (z: int)
    requires
        ls.len() > 0,
        ls.last().len() > 0,
    ensures
        0 <= z < ls.len(),
        ls[z].len() > 0,
        forall|i: int| 0 <= i < z ==> (#[trigger] ls[i]).len() == 0,
        join_lines(ls) == Seq::new(z as nat, |i: int| '\n') + join_lines(ls.skip(z)),
    decreases ls.len(),
{
    if ls[0].len() > 0 {
        assert(ls.skip(0) =~= ls);
        assert(join_lines(ls) =~= Seq::new(0, |i: int| '\n') + join_lines(ls));
        0
    } else {
        let rest = ls.skip(1);
        assert(rest.last() == ls.last());
        let z = lemma_join_behind_empty(rest);
        assert(rest.skip(z) =~= ls.skip(z + 1));
        assert forall|i: int| 0 <= i < z + 1 implies (#[trigger] ls[i]).len() == 0 by {
            if i > 0 {
                assert(ls[i] == rest[i - 1]);
            }
        }
        assert(ls[z + 1] == rest[z]);
        assert(join_lines(ls) =~= Seq::new((z + 1) as nat, |i: int| '\n') + join_lines(
            ls.skip(z + 1),
        ));
        z + 1
    }
}

// ---------------------------------------------------------------------------
// Indents
// ---------------------------------------------------------------------------

/// The start that two indents have in common.
pub open spec fn shared(a: Option<Seq<char>>, b: Option<Seq<char>>) -> Option<Seq<char>> {
    match (a, b) {
        (Some(i), Some(j)) => Some(common_start(i, j)),
        (None, _) => b,
        (_, None) => a,
    }
}

/// A start of a start is a start.
pub proof fn lemma_prefix_of_prefix(a: Seq<char>, b: Seq<char>, c: Seq<char>)
    requires
        a.is_prefix_of(b),
        b.is_prefix_of(c),
    ensures
        a.is_prefix_of(c),
{
    assert(a =~= c.take(a.len() as int)) by {
        assert forall|i: int| 0 <= i < a.len() implies a[i] == c[i] by {
            assert(a[i] == b[i]);
            assert(b[i] == c[i]);
        }
    }
}

/// The order in which common starts are taken does not matter.
proof fn lemma_common_start_of_three(a: Seq<char>, b: Seq<char>, c: Seq<char>)
    ensures
        common_start(common_start(a, b), c) == common_start(a, common_start(b, c)),
{
    let ab = common_start(a, b);
    let bc = common_start(b, c);
    let x = common_start(ab, c);
    let y = common_start(a, bc);
    lemma_common_start(a, b);
    lemma_common_start(b, c);
    lemma_common_start(ab, c);
    lemma_common_start(a, bc);
    lemma_prefix_of_prefix(x, ab, a);
    lemma_prefix_of_prefix(x, ab, b);
    assert(x.is_prefix_of(bc));
    assert(x.is_prefix_of(y));
    lemma_prefix_of_prefix(y, bc, b);
    lemma_prefix_of_prefix(y, bc, c);
    assert(y.is_prefix_of(ab));
    assert(y.is_prefix_of(x));
    assert(x =~= y);
}

/// The indent of two blocks of lines.
pub proof fn lemma_shared_of_two(a: Seq<Seq<char>>, b: Seq<Seq<char>>)
    ensures
        shared_indent(a + b) == shared(shared_indent(a), shared_indent(b)),
    decreases b.len(),
{
    if b.len() == 0 {
        assert(a + b =~= a);
    } else {
        lemma_shared_of_two(a, b.drop_last());
        assert((a + b).drop_last() =~= a + b.drop_last());
        assert((a + b).last() == b.last());
        if let (Some(x), Some(y)) = (shared_indent(a), shared_indent(b.drop_last())) {
            lemma_common_start_of_three(x, y, indent_of(b.last()));
        }
    }
}

/// Blank lines have no indent.
pub proof fn lemma_blank_lines_have_none(ls: Seq<Seq<char>>)
    requires
        forall|i: int| 0 <= i < ls.len() ==> is_blank(#[trigger] ls[i]),
    ensures
        shared_indent(ls) is None,
    decreases ls.len(),
{
    if ls.len() > 0 {
        let init = ls.drop_last();
        assert forall|i: int| 0 <= i < init.len() implies is_blank(#[trigger] init[i]) by {
            assert(init[i] == ls[i]);
        }
        lemma_blank_lines_have_none(init);
        assert(is_blank(ls[ls.len() - 1]));
    }
}

/// The lines of a blank text are blank.
pub proof fn lemma_lines_of_blank(s: Seq<char>)
    requires
        is_blank(s),
    ensures
        forall|i: int| 0 <= i < lines(s).len() ==> is_blank(#[trigger] lines(s)[i]),
    decreases s.len(),
{
    lemma_run_len(s, not_newline());
    let n = run_len(s, not_newline()) as int;
    if s.len() > 0 && n < s.len() {
        let rest = s.skip(n + 1);
        lemma_lines_of_blank(rest);
        assert forall|i: int| 0 <= i < lines(s).len() implies is_blank(#[trigger] lines(s)[i]) by {
            if i > 0 {
                assert(lines(s)[i] == lines(rest)[i - 1]);
            } else {
                let first = lines(s)[0];
                assert forall|j: int| 0 <= j < first.len() implies is_white_space(
                    #[trigger] first[j],
                ) by {
                    assert(first[j] == s[j]);
                }
            }
        }
    }
}

/// White space behind a line that is not blank does not change its indent.
pub proof fn lemma_indent_of_longer(l: Seq<char>, more: Seq<char>)
    requires
        !is_blank(l),
    ensures
        !is_blank(l + more),
        indent_of(l + more) == indent_of(l),
        run_len(l, white()) < l.len(),
{
    lemma_run_len(l, white());
    let r = run_len(l, white());
    if r >= l.len() {
        assert forall|i: int| 0 <= i < l.len() implies is_white_space(#[trigger] l[i]) by {
            assert(white()(l[i]));
        }
    }
    let t = l + more;
    assert forall|i: int| 0 <= i < r implies white()(#[trigger] t[i]) by {
        assert(t[i] == l[i]);
    }
    assert(t[r as int] == l[r as int]);
    lemma_run_len_is(t, white(), r);
    assert(t.take(r as int) =~= l.take(r as int));
}

/// The lines of a text behind line feeds.
pub proof fn lemma_lines_behind_newlines(content: Seq<char>)
    ensures
        lines(content) == Seq::new(
            run_len(content, newline()),
            |i: int| Seq::<char>::empty(),
        ) + lines(skip_newlines(content)),
    decreases content.len(),
{
    let k = run_len(content, newline());
    let empties = Seq::new(k, |i: int| Seq::<char>::empty());
    if content.len() > 0 && content[0] == '\n' {
        let rest = content.skip(1);
        lemma_lines_behind_newlines(rest);
        lemma_run_len(rest, newline());
        assert(skip_newlines(content) =~= skip_newlines(rest));
        lemma_run_len_is(content, not_newline(), 0);
        assert(strip_cr(content.take(0)) =~= Seq::<char>::empty());
        let fewer = Seq::new(run_len(rest, newline()), |i: int| Seq::<char>::empty());
        assert(seq![Seq::<char>::empty()] + (fewer + lines(skip_newlines(rest))) =~= empties
            + lines(skip_newlines(content)));
    } else {
        assert(skip_newlines(content) =~= content);
        assert(empties =~= Seq::<Seq<char>>::empty());
        assert(empties + lines(content) =~= lines(content));
    }
}

/// `longer` is `line` with white space behind it.
pub open spec fn is_line_with_space(line: Seq<char>, longer: Seq<char>) -> bool {
    line.is_prefix_of(longer) && is_blank(longer.skip(line.len() as int))
}

/// `all` are the lines `ls`, the last with white space behind it, and blank lines.
pub open spec fn are_lines_with_space(ls: Seq<Seq<char>>, all: Seq<Seq<char>>) -> bool {
    &&& ls.len() <= all.len()
    &&& forall|i: int| 0 <= i < ls.len() - 1 ==> #[trigger] ls[i] == all[i]
    &&& ls.len() > 0 ==> is_line_with_space(ls.last(), all[ls.len() - 1])
    &&& forall|i: int| ls.len() <= i < all.len() ==> is_blank(#[trigger] all[i])
}

/// The lines of a text with white space behind it.
pub proof fn lemma_lines_before_space(s: Seq<char>, w: Seq<char>)
    requires
        s.len() > 0,
        !is_white_space(s.last()),
        is_blank(w),
    ensures
        lines(s).len() > 0,
        !is_blank(lines(s).last()),
        are_lines_with_space(lines(s), lines(s + w)),
    decreases s.len(),
{
    let all = s + w;
    lemma_run_len(s, not_newline());
    let n = run_len(s, not_newline()) as int;
    if n < s.len() {
        assert(s[n] == '\n');
        let rest = s.skip(n + 1);
        assert(rest.len() > 0);
        assert(rest.last() == s.last());
        lemma_lines_before_space(rest, w);
        assert forall|i: int| 0 <= i < n implies not_newline()(#[trigger] all[i]) by {
            assert(all[i] == s[i]);
        }
        assert(all[n] == s[n]);
        lemma_run_len_is(all, not_newline(), n as nat);
        assert(all.skip(n + 1) =~= rest + w);
        assert(all.take(n) =~= s.take(n));
        let ls = lines(s);
        let more = lines(all);
        assert(ls =~= seq![strip_cr(s.take(n))] + lines(rest));
        assert(more =~= seq![strip_cr(s.take(n))] + lines(rest + w));
        assert(ls.last() == lines(rest).last());
        assert(more[ls.len() - 1] == lines(rest + w)[lines(rest).len() - 1]);
        assert forall|i: int| 0 <= i < ls.len() - 1 implies #[trigger] ls[i] == more[i] by {
            if i > 0 {
                assert(ls[i] == lines(rest)[i - 1]);
            }
        }
        assert forall|i: int| ls.len() <= i < more.len() implies is_blank(#[trigger] more[i]) by {
            assert(more[i] == lines(rest + w)[i - 1]);
        }
    } else {
        assert(lines(s) == seq![s]);
        assert(!is_blank(s)) by {
            assert(!is_white_space(s[s.len() - 1]));
        }
        lemma_run_len(all, not_newline());
        let m = run_len(all, not_newline()) as int;
        if m < s.len() {
            assert(all[m] == s[m]);
            assert(not_newline()(s[m]));
        }
        let more = lines(all);
        if m >= all.len() {
            assert(more == seq![all]);
            assert(all.skip(s.len() as int) =~= w);
            assert(s =~= all.take(s.len() as int));
        } else {
            let rest = all.skip(m + 1);
            assert(is_blank(rest)) by {
                assert forall|i: int| 0 <= i < rest.len() implies is_white_space(
                    #[trigger] rest[i],
                ) by {
                    assert(rest[i] == w[m + 1 + i - s.len()]);
                }
            }
            lemma_lines_of_blank(rest);
            let first = strip_cr(all.take(m));
            assert(more =~= seq![first] + lines(rest));
            assert(s.len() <= first.len()) by {
                if m == s.len() {
                    assert(all.take(m).last() == s.last());
                }
            }
            assert(s =~= first.take(s.len() as int));
            let behind = first.skip(s.len() as int);
            assert forall|i: int| 0 <= i < behind.len() implies is_white_space(
                #[trigger] behind[i],
            ) by {
                assert(behind[i] == w[i]);
            }
            assert forall|i: int| 1 <= i < more.len() implies is_blank(#[trigger] more[i]) by {
                assert(more[i] == lines(rest)[i - 1]);
            }
        }
    }
}

/// White space behind the lines does not change their indent.
pub proof fn lemma_indent_with_space(ls: Seq<Seq<char>>, all: Seq<Seq<char>>)
    requires
        ls.len() > 0,
        !is_blank(ls.last()),
        are_lines_with_space(ls, all),
    ensures
        shared_indent(all) == shared_indent(ls),
{
    let m = ls.len() as int;
    let head = all.take(m);
    let tail = all.skip(m);
    assert(head + tail =~= all);
    lemma_shared_of_two(head, tail);
    assert forall|i: int| 0 <= i < tail.len() implies is_blank(#[trigger] tail[i]) by {
        assert(tail[i] == all[m + i]);
    }
    lemma_blank_lines_have_none(tail);
    assert(head.drop_last() =~= ls.drop_last()) by {
        assert forall|i: int| 0 <= i < m - 1 implies head.drop_last()[i] == ls.drop_last()[i] by {
            assert(ls[i] == all[i]);
        }
    }
    let l = ls.last();
    let longer = all[m - 1];
    assert(head.last() == longer);
    assert(longer =~= l + longer.skip(l.len() as int));
    lemma_indent_of_longer(l, longer.skip(l.len() as int));
}

/// White space with which every line starts that is not blank.
pub open spec fn is_indent_of_all(ls: Seq<Seq<char>>, indent: Seq<char>) -> bool {
    is_blank(indent) && forall|i: int|
        0 <= i < ls.len() && !is_blank(#[trigger] ls[i]) ==> indent.is_prefix_of(ls[i])
}

/// White space with which a line starts is a start of its indent.
proof fn lemma_start_of_indent(l: Seq<char>, p: Seq<char>)
    ensures
        is_blank(p) && p.is_prefix_of(l) ==> p.is_prefix_of(indent_of(l)),
        p.is_prefix_of(indent_of(l)) ==> is_blank(p) && p.is_prefix_of(l),
{
    lemma_run_len(l, white());
    let r = run_len(l, white()) as int;
    let own = indent_of(l);
    if is_blank(p) && p.is_prefix_of(l) {
        if p.len() > r {
            assert(p[r] == l[r]);
            assert(!white()(l[r]));
        }
        assert(p =~= own.take(p.len() as int));
    }
    if p.is_prefix_of(own) {
        assert forall|i: int| 0 <= i < p.len() implies is_white_space(#[trigger] p[i]) by {
            assert(p[i] == own[i]);
            assert(white()(l[i]));
        }
        assert(p =~= l.take(p.len() as int));
    }
}

/// The common indent is white space with which every line starts that is not blank, and
/// the longest: any other is a start of it, unless all lines are blank.
pub proof fn lemma_common_indent(ls: Seq<Seq<char>>)
    ensures
        is_indent_of_all(ls, common_indent(ls)),
        all_on_one_line(ls) ==> on_one_line(common_indent(ls)),
        shared_indent(ls) is Some ==> forall|p: Seq<char>|
            #![trigger p.is_prefix_of(common_indent(ls))]
            is_indent_of_all(ls, p) ==> p.is_prefix_of(common_indent(ls)),
    decreases ls.len(),
{
    if ls.len() > 0 {
        let init = ls.drop_last();
        let l = ls.last();
        lemma_common_indent(init);
        let before = common_indent(init);
        let own = indent_of(l);
        let now = common_indent(ls);
        lemma_start_of_indent(l, own);
        assert(own =~= own.take(own.len() as int));
        lemma_common_start(before, own);
        assert(l == ls[ls.len() - 1]);
        if shared_indent(init) is None {
            lemma_none_is_blank(init);
        }
        assert(is_indent_of_all(ls, now)) by {
            lemma_start_of_indent(l, now);
            if shared_indent(init) is Some && !is_blank(l) {
                assert(now.is_prefix_of(own));
            }
            assert forall|i: int| 0 <= i < ls.len() && !is_blank(#[trigger] ls[i]) implies now.is_prefix_of(
            ls[i]) by {
                if i < init.len() {
                    assert(ls[i] == init[i]);
                    if !is_blank(l) {
                        lemma_prefix_of_prefix(now, before, ls[i]);
                    }
                }
            }
        }
        if all_on_one_line(ls) {
            assert forall|i: int| 0 <= i < init.len() implies on_one_line(#[trigger] init[i]) by {
                assert(init[i] == ls[i]);
            }
            if !is_blank(l) {
                assert forall|i: int| 0 <= i < now.len() implies #[trigger] now[i] != '\n' by {
                    assert(now[i] == l[i]);
                }
            }
        }
        assert forall|p: Seq<char>|
            #![trigger p.is_prefix_of(now)]
            shared_indent(ls) is Some && is_indent_of_all(ls, p) implies p.is_prefix_of(now) by {
            assert(is_indent_of_all(init, p)) by {
                assert forall|i: int| 0 <= i < init.len() && !is_blank(#[trigger] init[i]) implies p.is_prefix_of(
                init[i]) by {
                    assert(init[i] == ls[i]);
                }
            }
            if !is_blank(l) {
                lemma_start_of_indent(l, p);
                assert(p.is_prefix_of(own));
                if shared_indent(init) is Some {
                    assert(p.is_prefix_of(before));
                }
            }
        }
    }
}

/// Lines without an indent are all blank.
proof fn lemma_none_is_blank(ls: Seq<Seq<char>>)
    requires
        shared_indent(ls) is None,
    ensures
        forall|i: int| 0 <= i < ls.len() ==> is_blank(#[trigger] ls[i]),
{
    assert forall|i: int| 0 <= i < ls.len() implies is_blank(#[trigger] ls[i]) by {
        if !is_blank(ls[i]) {
            lemma_some_indent(ls, i);
        }
    }
}

/// Blank lines do not matter for the indent.
pub proof fn lemma_same_but_blank(a: Seq<Seq<char>>, b: Seq<Seq<char>>)
    requires
        a.len() == b.len(),
        forall|i: int|
            0 <= i < a.len() ==> #[trigger] a[i] == b[i] || (is_blank(a[i]) && is_blank(b[i])),
    ensures
        shared_indent(a) == shared_indent(b),
    decreases a.len(),
{
    if a.len() > 0 {
        let x = a.drop_last();
        let y = b.drop_last();
        assert forall|i: int| 0 <= i < x.len() implies #[trigger] x[i] == y[i] || (is_blank(x[i])
            && is_blank(y[i])) by {
            assert(x[i] == a[i]);
        }
        lemma_same_but_blank(x, y);
        assert(a[a.len() - 1] == a.last());
    }
}

/// The indent of a line behind an indent.
pub proof fn lemma_indent_of_line(l: Seq<char>, indent: Seq<char>)
    requires
        is_blank(indent),
        !is_blank(l),
    ensures
        !is_blank(indent + l),
        indent_of(indent + l) == indent + indent_of(l),
{
    let y = indent + l;
    let m = indent.len() as int;
    lemma_indent_of_longer(l, Seq::empty());
    lemma_run_len(l, white());
    let r = run_len(l, white());
    assert forall|i: int| 0 <= i < m + r implies white()(#[trigger] y[i]) by {
        if i < m {
            assert(y[i] == indent[i]);
        } else {
            assert(y[i] == l[i - m]);
        }
    }
    assert(y[m + r] == l[r as int]);
    lemma_run_len_is(y, white(), (m + r) as nat);
    assert(!is_white_space(y[m + r]));
    assert(indent_of(y) =~= indent + indent_of(l));
}

/// An indent before two texts is one before their common start.
proof fn lemma_common_start_behind(indent: Seq<char>, a: Seq<char>, b: Seq<char>)
    ensures
        common_start(indent + a, indent + b) == indent + common_start(a, b),
    decreases indent.len(),
{
    if indent.len() == 0 {
        assert(indent + a =~= a);
        assert(indent + b =~= b);
        assert(indent + common_start(a, b) =~= common_start(a, b));
    } else {
        let rest = indent.skip(1);
        lemma_common_start_behind(rest, a, b);
        assert((indent + a).skip(1) =~= rest + a);
        assert((indent + b).skip(1) =~= rest + b);
        assert(seq![indent[0]] + (rest + common_start(a, b)) =~= indent + common_start(a, b));
    }
}

/// An indent put before every line is put before their common indent.
pub proof fn lemma_indent_of_indented(ls: Seq<Seq<char>>, indent: Seq<char>)
    requires
        is_blank(indent),
    ensures
        shared_indent(indent_lines(ls, indent)) == match shared_indent(ls) {
            Some(i) => Some(indent + i),
            None => None,
        },
    decreases ls.len(),
{
    let ys = indent_lines(ls, indent);
    if ls.len() > 0 {
        let init = ls.drop_last();
        let l = ls.last();
        lemma_indent_of_indented(init, indent);
        assert(ys.drop_last() =~= indent_lines(init, indent));
        assert(ys.last() == indent_line(l, indent));
        if !is_blank(l) {
            lemma_indent_of_line(l, indent);
            if let Some(i) = shared_indent(init) {
                lemma_common_start_behind(indent, i, indent_of(l));
            }
        }
    }
}

// ---------------------------------------------------------------------------
// The parts of a literal's content
// ---------------------------------------------------------------------------

/// The SQL between the line feeds before it and the white space after it.
pub open spec fn sql_body(content: Seq<char>) -> Seq<char> {
    trim_end(skip_newlines(content))
}

/// What comes after the SQL.
pub open spec fn sql_tail(content: Seq<char>) -> Seq<char> {
    skip_newlines(content).skip(sql_body(content).len() as int)
}

/// The content of a literal is made of the line feeds at its start, the SQL and
/// white space.
pub proof fn lemma_content_parts(content: Seq<char>)
    ensures
        content == leading_frame(content) + sql_body(content) + sql_tail(content),
        skip_newlines(content) == sql_body(content) + sql_tail(content),
        is_blank(sql_tail(content)),
        sql_body(content).len() > 0 ==> !is_white_space(sql_body(content).last()),
        sql_body(content).len() > 0 ==> sql_body(content)[0] != '\n',
{
    lemma_run_len(content, newline());
    let body = skip_newlines(content);
    lemma_tail_run_len(body, white());
    let s = sql_body(content);
    let w = sql_tail(content);
    assert(body =~= s + w);
    assert(content =~= leading_frame(content) + s + w);
    assert forall|i: int| 0 <= i < w.len() implies is_white_space(#[trigger] w[i]) by {
        assert(white()(body[s.len() + i]));
    }
    if s.len() > 0 {
        assert(!white()(body[s.len() - 1]));
        assert(s[0] == content[run_len(content, newline()) as int]);
    }
}

/// The parts of a content made of line feeds, SQL and white space.
pub proof fn lemma_parts_of(lead: Seq<char>, body: Seq<char>, tail: Seq<char>)
    requires
        forall|i: int| 0 <= i < lead.len() ==> newline()(#[trigger] lead[i]),
        body.len() > 0,
        body[0] != '\n',
        !is_white_space(body.last()),
        is_blank(tail),
    ensures
        leading_frame(lead + body + tail) == lead,
        sql_body(lead + body + tail) == body,
        sql_tail(lead + body + tail) == tail,
{
    let content = lead + body + tail;
    assert forall|i: int| 0 <= i < lead.len() implies newline()(#[trigger] content[i]) by {
        assert(content[i] == lead[i]);
    }
    assert(content[lead.len() as int] == body[0]);
    lemma_run_len_is(content, newline(), lead.len());
    assert(content.take(lead.len() as int) =~= lead);
    let rest = skip_newlines(content);
    assert(rest =~= body + tail);
    assert forall|i: int| rest.len() - tail.len() <= i < rest.len() implies white()(
        #[trigger] rest[i],
    ) by {
        assert(rest[i] == tail[i - body.len()]);
    }
    assert(rest[rest.len() - tail.len() - 1] == body.last());
    lemma_tail_run_len_is(rest, white(), tail.len());
    assert(trim_end(rest) =~= body);
    assert(rest.skip(body.len() as int) =~= tail);
}

/// The indent by which SQL is written back is the one that was taken off.
pub proof fn lemma_one_indent(content: Seq<char>)
    ensures
        common_indent(lines(content)) == common_indent(sql_lines(content)),
{
    lemma_content_parts(content);
    lemma_lines_behind_newlines(content);
    let s = sql_body(content);
    let w = sql_tail(content);
    let empties = Seq::new(run_len(content, newline()), |i: int| Seq::<char>::empty());
    lemma_blank_lines_have_none(empties);
    lemma_shared_of_two(empties, lines(s + w));
    if s.len() > 0 {
        lemma_lines_before_space(s, w);
        lemma_indent_with_space(lines(s), lines(s + w));
    } else {
        assert(s + w =~= w);
        lemma_lines_of_blank(w);
        lemma_blank_lines_have_none(lines(w));
    }
}

/// Taking the indent off a line that is not blank leaves a line that is not blank.
pub proof fn lemma_dedented_line(l: Seq<char>, indent: Seq<char>)
    requires
        !is_blank(l),
        is_blank(indent),
        indent.is_prefix_of(l),
    ensures
        !is_blank(dedent_line(l, indent.len())),
        dedent_line(l, indent.len()).last() == l.last(),
        l == indent + dedent_line(l, indent.len()),
{
    let d = dedent_line(l, indent.len());
    let i = choose|i: int| 0 <= i < l.len() && !is_white_space(#[trigger] l[i]);
    if i < indent.len() {
        assert(l[i] == indent[i]);
    }
    assert(d[i - indent.len()] == l[i]);
    assert(l =~= indent + d);
}

/// The lines of a literal's SQL, with and without their indent.
pub proof fn lemma_dedent_lines(content: Seq<char>)
    requires
        sql_body(content).len() > 0,
    ensures
        ({
            let ls = sql_lines(content);
            let ds = dedent_lines(ls, common_indent(ls).len());
            &&& ls == stripped(pieces(sql_body(content)))
            &&& ds.len() > 0
            &&& all_on_one_line(ls)
            &&& all_on_one_line(ds)
            &&& forall|i: int| 0 <= i < ds.len() ==> (#[trigger] ds[i]).len() == 0 || !is_blank(ds[i])
            &&& ds.last().len() > 0
            &&& !is_white_space(ds.last().last())
        }),
{
    lemma_content_parts(content);
    let s = sql_body(content);
    let ls = sql_lines(content);
    let n = common_indent(ls).len();
    let ds = dedent_lines(ls, n);
    lemma_join_of_pieces(s);
    lemma_lines_are_pieces(s);
    lemma_lines_on_one_line(s);
    lemma_common_indent(ls);
    assert forall|i: int| 0 <= i < ds.len() implies on_one_line(#[trigger] ds[i]) && (
    ds[i].len() == 0 || !is_blank(ds[i])) by {
        let l = ls[i];
        let d = ds[i];
        assert(on_one_line(l));
        if !is_blank(l) {
            lemma_dedented_line(l, common_indent(ls));
            assert forall|j: int| 0 <= j < d.len() implies #[trigger] d[j] != '\n' by {
                assert(d[j] == l[j + l.len() - d.len()]);
            }
        }
    }
    let l = ls[ls.len() - 1];
    assert(l == pieces(s).last());
    assert(!is_blank(l)) by {
        assert(!is_white_space(l[l.len() - 1]));
    }
    lemma_dedented_line(l, common_indent(ls));
    assert(ds.last() == dedent_line(l, n));
}

/// The lines of dedented SQL.
pub proof fn lemma_dedented_pieces(content: Seq<char>)
    requires
        sql_body(content).len() > 0,
    ensures
        ({
            let ls = sql_lines(content);
            pieces(dedented(content)) == dedent_lines(
                ls,
                common_indent(ls).len(),
            ).push(Seq::empty())
        }),
{
    let ls = sql_lines(content);
    let ds = dedent_lines(ls, common_indent(ls).len());
    let none = Seq::<char>::empty();
    lemma_dedent_lines(content);
    assert forall|i: int| 0 <= i < ds.len() + 1 implies on_one_line(#[trigger] ds.push(none)[i]) by {
        if i < ds.len() {
            assert(ds.push(none)[i] == ds[i]);
        }
    }
    lemma_pieces_of_join(ds.push(none));
    lemma_join_push(ds, none);
    assert(join_lines(ds) + seq!['\n'] + none =~= dedented(content));
}

/// Nothing more can be stripped of the SQL that the linter gets: its lines start with no
/// white space in common.
pub proof fn lemma_dedented_sql_has_no_indent(content: Seq<char>)
    ensures
        common_indent(pieces(dedented(content))).len() == 0,
{
    let none = Seq::<char>::empty();
    if sql_body(content).len() == 0 {
        assert(sql_body(content) =~= none);
        assert(dedented(content) =~= none);
        assert(pieces(none) =~= seq![none]);
        assert(seq![none].drop_last() =~= Seq::<Seq<char>>::empty());
        assert(shared_indent(seq![none]) is None);
    } else {
        let ls = sql_lines(content);
        let indent = common_indent(ls);
        let ds = dedent_lines(ls, indent.len());
        lemma_dedent_lines(content);
        lemma_dedented_pieces(content);
        lemma_common_indent(ls);
        assert(ds.push(none).drop_last() =~= ds);
        assert(shared_indent(ds.push(none)) == shared_indent(ds));
        let back = indent_lines(ds, indent);
        assert forall|i: int| 0 <= i < ls.len() implies #[trigger] ls[i] == back[i] || (is_blank(
            ls[i],
        ) && is_blank(back[i])) by {
            if !is_blank(ls[i]) {
                lemma_dedented_line(ls[i], indent);
            } else {
                assert(ds[i] =~= none);
            }
        }
        lemma_same_but_blank(ls, back);
        lemma_indent_of_indented(ds, indent);
    }
}

} // verus!
