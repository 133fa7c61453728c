//! Laws of putting fixed literals in place: what changes in the file, and what may
//! be written.
use crate::engine::{
    applied, edit_fits, edit_of, edits_fit, edits_of, escaped, fix_may_end_in, fixes_may_give,
    is_edit_in, lemma_edits_fit, lemma_prefix_bytes, lemma_rest_fits, normal_literal, one_line,
    parses, replaces, rightmost, spliced, EditView, FixView,
};
use crate::extract::{are_apart, are_placed, is_part_of, QueryView};
use crate::literal::{hashes, parsed_literal, raw_literal, LiteralKind};
use crate::roundtrip::{
    lemma_escaped_front, lemma_raw_literal_is_its_text, lemma_rebuilt_literal_reads_back,
};
use crate::sqruff_adapter::LinterConfig;
use crate::text::{char_at_byte, lemma_byte_len_prefix, starts_at};
use vstd::prelude::*;

verus! {

/// The index of the first character that the edit replaces.
#[verifier::opaque]
pub open spec fn edit_from(src: Seq<char>, e: EditView) -> int {
    char_at_byte(src, e.start).unwrap()
}

/// The index of the first character after those that the edit replaces.
#[verifier::opaque]
pub open spec fn edit_to(src: Seq<char>, e: EditView) -> int {
    char_at_byte(src, e.end).unwrap()
}

/// By how much the edit moves the character at `x`.
pub open spec fn moved_by(src: Seq<char>, e: EditView, x: int) -> int {
    if edit_to(src, e) <= x {
        e.text.len() - (edit_to(src, e) - edit_from(src, e))
    } else {
        0
    }
}

/// By how much the edits together move the character at `x`.
pub open spec fn moved(src: Seq<char>, edits: Seq<EditView>, x: int) -> int
    decreases edits.len(),
{
    if edits.len() == 0 {
        0
    } else {
        moved(src, edits.drop_last(), x) + moved_by(src, edits.last(), x)
    }
}

/// The edits are for different parts of `src`.
#[verifier::opaque]
spec fn all_fit(src: Seq<char>, edits: Seq<EditView>) -> bool {
    edits_fit(src, edits)
}

/// The order of the edits does not matter for how far they move a character.
proof fn lemma_moved_without(src: Seq<char>, edits: Seq<EditView>, k: int, x: int)
    requires
        0 <= k < edits.len(),
    ensures
        moved(src, edits, x) == moved(src, edits.remove(k), x) + moved_by(src, edits[k], x),
    decreases edits.len(),
{
    let init = edits.drop_last();
    if k == edits.len() - 1 {
        assert(edits.remove(k) =~= init);
    } else {
        lemma_moved_without(src, init, k, x);
        assert(edits.remove(k).drop_last() =~= init.remove(k));
        assert(edits.remove(k).last() == edits.last());
    }
}

/// The edit replaces characters before `a` only.
spec fn is_before(src: Seq<char>, e: EditView, a: int) -> bool {
    &&& 0 <= edit_from(src, e) <= edit_to(src, e) <= a
    &&& edit_from(src.take(a), e) == edit_from(src, e)
    &&& edit_to(src.take(a), e) == edit_to(src, e)
}

/// Edits before `a` move all that comes from `a` on alike.
proof fn lemma_moved_before(src: Seq<char>, edits: Seq<EditView>, a: int, x: int)
    requires
        0 <= a <= src.len(),
        forall|i: int| 0 <= i < edits.len() ==> is_before(src, #[trigger] edits[i], a),
    ensures
        moved(src.take(a), edits, x) == moved(src, edits, x),
        x >= a ==> moved(src, edits, x) == moved(src, edits, a),
    decreases edits.len(),
{
    if edits.len() > 0 {
        let init = edits.drop_last();
        assert forall|i: int| 0 <= i < init.len() implies is_before(src, #[trigger] init[i], a) by {
            assert(init[i] == edits[i]);
        }
        lemma_moved_before(src, init, a, x);
        assert(is_before(src, edits[edits.len() - 1], a));
    }
}

/// The edit that starts last replaces what comes after all the others.
proof fn lemma_last_edit(src: Seq<char>, edits: Seq<EditView>)
    requires
        all_fit(src, edits),
        edits.len() > 0,
    ensures
        ({
            let k = rightmost(edits);
            let a = edit_from(src, edits[k]);
            let b = edit_to(src, edits[k]);
            let rest = edits.remove(k);
            &&& 0 <= k < edits.len()
            &&& 0 <= a < b <= src.len()
            &&& all_fit(src.take(a), rest)
            &&& forall|i: int| 0 <= i < rest.len() ==> is_before(src, #[trigger] rest[i], a)
            &&& spliced(src, edits) == spliced(src.take(a), rest) + edits[k].text + src.skip(b)
        }),
{
    reveal(edit_from);
    reveal(edit_to);
    reveal(all_fit);
    lemma_rest_fits(src, edits);
    let k = rightmost(edits);
    let e = edits[k];
    let a = edit_from(src, e);
    let b = edit_to(src, e);
    let rest = edits.remove(k);
    assert(edit_fits(src, e));
    assert(starts_at(src, a, e.start));
    assert(starts_at(src, b, e.end));
    if b <= a {
        lemma_byte_len_prefix(src, b, a);
    }
    assert forall|i: int| 0 <= i < rest.len() implies is_before(src, #[trigger] rest[i], a) by {
        let f = rest[i];
        assert(edit_fits(src.take(a), f));
        let j = if i < k {
            i
        } else {
            i + 1
        };
        assert(f == edits[j]);
        assert(edit_fits(src, edits[j]));
        let to = char_at_byte(src.take(a), f.end).unwrap();
        assert(starts_at(src.take(a), to, f.end));
        lemma_byte_len_prefix(src.take(a), to, a);
        assert(src.take(a).take(a) =~= src.take(a));
        lemma_prefix_bytes(src, a, f.end);
        lemma_prefix_bytes(src, a, f.start);
        let from = edit_from(src, f);
        assert(starts_at(src, from, f.start));
        assert(starts_at(src, to, f.end));
        if to < from {
            lemma_byte_len_prefix(src, to, from);
        }
    }
}

/// How long the text is with the edits in place.
proof fn lemma_spliced_len(src: Seq<char>, edits: Seq<EditView>)
    requires
        all_fit(src, edits),
    ensures
        spliced(src, edits).len() == src.len() + moved(src, edits, src.len() as int),
    decreases edits.len(),
{
    if edits.len() > 0 {
        lemma_last_edit(src, edits);
        let k = rightmost(edits);
        let a = edit_from(src, edits[k]);
        let rest = edits.remove(k);
        let head = src.take(a);
        lemma_spliced_len(head, rest);
        lemma_moved_without(src, edits, k, src.len() as int);
        lemma_moved_before(src, rest, a, src.len() as int);
        lemma_moved_before(src, rest, a, a);
    }
}

/// Where the parts of a text made of three are.
proof fn lemma_three_parts(first: Seq<char>, mid: Seq<char>, last: Seq<char>)
    ensures
        ({
            let all = first + mid + last;
            let n = (first.len() + mid.len()) as int;
            &&& forall|p: int, q: int|
                0 <= p <= q <= first.len() ==> #[trigger] all.subrange(p, q) == first.subrange(p, q)
            &&& all.subrange(first.len() as int, n) == mid
            &&& forall|p: int, q: int|
                n <= p <= q <= n + last.len() ==> #[trigger] all.subrange(p, q) == last.subrange(
                    p - n,
                    q - n,
                )
        }),
{
    let all = first + mid + last;
    let n = (first.len() + mid.len()) as int;
    assert(all.subrange(first.len() as int, n) =~= mid);
    assert forall|p: int, q: int| 0 <= p <= q <= first.len() implies #[trigger] all.subrange(p, q)
        == first.subrange(p, q) by {
        assert(all.subrange(p, q) =~= first.subrange(p, q));
    }
    assert forall|p: int, q: int|
        n <= p <= q <= n + last.len() implies #[trigger] all.subrange(p, q) == last.subrange(
        p - n,
        q - n,
    ) by {
        assert(all.subrange(p, q) =~= last.subrange(p - n, q - n));
    }
}

/// The edit replaces none of the characters from `x` up to `y`.
pub open spec fn leaves(src: Seq<char>, e: EditView, x: int, y: int) -> bool {
    edit_to(src, e) <= x || y <= edit_from(src, e)
}

/// [`lemma_rest_of_file_is_kept`] by induction on the edits.
proof fn lemma_kept(src: Seq<char>, edits: Seq<EditView>, x: int, y: int)
    requires
        all_fit(src, edits),
        0 <= x <= y <= src.len(),
        forall|i: int| 0 <= i < edits.len() ==> leaves(src, #[trigger] edits[i], x, y),
    ensures
        ({
            let d = moved(src, edits, x);
            &&& 0 <= x + d
            &&& y + d <= spliced(src, edits).len()
            &&& spliced(src, edits).subrange(x + d, y + d) == src.subrange(x, y)
        }),
    decreases edits.len(),
{
    if edits.len() > 0 {
        lemma_last_edit(src, edits);
        let k = rightmost(edits);
        let e = edits[k];
        let a = edit_from(src, e);
        let b = edit_to(src, e);
        let rest = edits.remove(k);
        let head = src.take(a);
        let first = spliced(head, rest);
        let out = spliced(src, edits);
        assert(leaves(src, e, x, y));
        lemma_moved_without(src, edits, k, x);
        lemma_moved_before(src, rest, a, x);
        let d = moved(src, edits, x);
        if b <= x {
            lemma_spliced_len(head, rest);
            lemma_moved_before(src, rest, a, a);
            lemma_three_parts(first, e.text, src.skip(b));
            assert(x + d == first.len() + e.text.len() + (x - b));
            assert(out.subrange(x + d, y + d) == src.skip(b).subrange(x - b, y - b));
            assert(src.skip(b).subrange(x - b, y - b) =~= src.subrange(x, y));
        } else {
            assert forall|i: int| 0 <= i < rest.len() implies leaves(
                head,
                #[trigger] rest[i],
                x,
                y,
            ) by {
                let j = if i < k {
                    i
                } else {
                    i + 1
                };
                assert(rest[i] == edits[j]);
                assert(leaves(src, edits[j], x, y));
                assert(is_before(src, rest[i], a));
            }
            lemma_kept(head, rest, x, y);
            lemma_three_parts(first, e.text, src.skip(b));
            assert(out.subrange(x + d, y + d) == first.subrange(x + d, y + d));
            assert(head.subrange(x, y) =~= src.subrange(x, y));
        }
    }
}

/// [`lemma_every_edit_is_in_place`] by induction on the edits.
proof fn lemma_in_place(src: Seq<char>, edits: Seq<EditView>, k: int)
    requires
        all_fit(src, edits),
        0 <= k < edits.len(),
    ensures
        ({
            let e = edits[k];
            let at = edit_from(src, e) + moved(src, edits, edit_from(src, e));
            &&& 0 <= at
            &&& at + e.text.len() <= spliced(src, edits).len()
            &&& spliced(src, edits).subrange(at, at + e.text.len()) == e.text
        }),
    decreases edits.len(),
{
    lemma_last_edit(src, edits);
    let r = rightmost(edits);
    let last = edits[r];
    let a = edit_from(src, last);
    let rest = edits.remove(r);
    let head = src.take(a);
    let first = spliced(head, rest);
    let out = spliced(src, edits);
    let e = edits[k];
    let x = edit_from(src, e);
    lemma_moved_without(src, edits, r, x);
    lemma_moved_before(src, rest, a, x);
    let at = x + moved(src, edits, x);
    if k == r {
        lemma_spliced_len(head, rest);
        lemma_moved_before(src, rest, a, a);
        lemma_three_parts(first, e.text, src.skip(edit_to(src, e)));
        assert(at == first.len());
    } else {
        let i = if k < r {
            k
        } else {
            k - 1
        };
        assert(rest[i] == e);
        assert(is_before(src, rest[i], a));
        lemma_in_place(head, rest, i);
        lemma_three_parts(first, last.text, src.skip(edit_to(src, last)));
        assert(out.subrange(at, at + e.text.len()) == first.subrange(at, at + e.text.len()));
    }
}

/// What no edit replaces is still there, moved by as much as the edits before it
/// lengthen the text.
pub proof fn lemma_rest_of_file_is_kept(src: Seq<char>, edits: Seq<EditView>, x: int, y: int)
    requires
        edits_fit(src, edits),
        0 <= x <= y <= src.len(),
        forall|i: int| 0 <= i < edits.len() ==> leaves(src, #[trigger] edits[i], x, y),
    ensures
        ({
            let d = moved(src, edits, x);
            &&& 0 <= x + d
            &&& y + d <= spliced(src, edits).len()
            &&& spliced(src, edits).subrange(x + d, y + d) == src.subrange(x, y)
        }),
{
    assert(all_fit(src, edits)) by {
        reveal(all_fit);
    }
    lemma_kept(src, edits, x, y);
}

/// The text of every edit is where the characters were that it replaces, moved by as
/// much as the edits before it lengthen the text.
pub proof fn lemma_every_edit_is_in_place(src: Seq<char>, edits: Seq<EditView>, k: int)
    requires
        edits_fit(src, edits),
        0 <= k < edits.len(),
    ensures
        ({
            let e = edits[k];
            let at = edit_from(src, e) + moved(src, edits, edit_from(src, e));
            &&& 0 <= at
            &&& at + e.text.len() <= spliced(src, edits).len()
            &&& spliced(src, edits).subrange(at, at + e.text.len()) == e.text
        }),
{
    assert(all_fit(src, edits)) by {
        reveal(all_fit);
    }
    lemma_in_place(src, edits, k);
}

/// The part of `src` that the edit replaces.
pub open spec fn replaced(src: Seq<char>, e: EditView) -> Seq<char> {
    src.subrange(edit_from(src, e), edit_to(src, e))
}

/// Neither text starts with the other.
pub open spec fn part_ways(a: Seq<char>, b: Seq<char>) -> bool {
    !a.is_prefix_of(b) && !b.is_prefix_of(a)
}

/// Edits after `x` do not move what is at `x`.
proof fn lemma_not_moved(src: Seq<char>, edits: Seq<EditView>, x: int)
    requires
        forall|i: int| 0 <= i < edits.len() ==> edit_to(src, #[trigger] edits[i]) > x,
    ensures
        moved(src, edits, x) == 0,
    decreases edits.len(),
{
    if edits.len() > 0 {
        let init = edits.drop_last();
        assert forall|i: int| 0 <= i < init.len() implies edit_to(src, #[trigger] init[i]) > x by {
            assert(init[i] == edits[i]);
        }
        lemma_not_moved(src, init, x);
        assert(edits[edits.len() - 1] == edits.last());
    }
}

/// A file with changed literals differs from what it was, where the first edit `k`
/// replaces a text with which its own parts ways, or where it is the only one and
/// replaces another text. (The beginnings of two literals can differ and the file be
/// the same: in `xxxx`, with `x` replaced by `xx` and the last `xx` by `x`.)
pub proof fn lemma_changed_file_differs(src: Seq<char>, edits: Seq<EditView>, k: int)
    requires
        edits_fit(src, edits),
        0 <= k < edits.len(),
        forall|i: int|
            0 <= i < edits.len() ==> edits[k].start <= (#[trigger] edits[i]).start,
        part_ways(edits[k].text, replaced(src, edits[k])) || (edits.len() == 1 && edits[k].text
            != replaced(src, edits[k])),
    ensures
        spliced(src, edits) != src,
{
    let e = edits[k];
    let a = edit_from(src, e);
    let b = edit_to(src, e);
    assert forall|i: int| 0 <= i < edits.len() implies edit_to(src, #[trigger] edits[i]) > a by {
        lemma_ends_after(src, e, edits[i]);
    }
    lemma_ends_after(src, e, e);
    lemma_not_moved(src, edits, a);
    lemma_every_edit_is_in_place(src, edits, k);
    if spliced(src, edits) == src {
        let n = e.text.len() as int;
        assert(src.subrange(a, a + n) == e.text);
        if n <= b - a {
            assert(e.text =~= replaced(src, e).take(n));
        } else {
            assert(replaced(src, e) =~= e.text.take(b - a));
        }
        if edits.len() == 1 {
            assert(all_fit(src, edits)) by {
                reveal(all_fit);
            }
            lemma_spliced_len(src, edits);
            assert(edits.drop_last() =~= Seq::<EditView>::empty());
            assert(moved(src, edits.drop_last(), src.len() as int) == 0);
            assert(n == b - a);
            assert(e.text =~= replaced(src, e));
        }
    }
}

/// An edit that starts no earlier than another ends after its start.
proof fn lemma_ends_after(src: Seq<char>, e: EditView, f: EditView)
    requires
        edit_fits(src, e),
        edit_fits(src, f),
        e.start <= f.start,
    ensures
        0 <= edit_from(src, e) < edit_to(src, f) <= src.len(),
{
    reveal(edit_from);
    reveal(edit_to);
    let a = edit_from(src, e);
    let b = edit_to(src, f);
    assert(starts_at(src, a, e.start));
    assert(starts_at(src, b, f.end));
    if b <= a {
        lemma_byte_len_prefix(src, b, a);
    }
}

/// `part` stands at the index `at` of `text`.
pub open spec fn stands_at(text: Seq<char>, part: Seq<char>, at: int) -> bool {
    0 <= at && at + part.len() <= text.len() && text.subrange(at, at + part.len()) == part
}

/// None of the characters of `src` from `x` up to `y` belongs to the query.
pub open spec fn is_outside(src: Seq<char>, q: QueryView, x: int, y: int) -> bool {
    char_at_byte(src, q.end_byte).unwrap() <= x || y <= char_at_byte(src, q.start_byte).unwrap()
}

/// What belongs to no query is still there after the edits of the queries.
proof fn lemma_kept_outside_queries(
    src: Seq<char>,
    queries: Seq<QueryView>,
    only_multiline_raw: bool,
    fixed: Seq<Seq<char>>,
    x: int,
    y: int,
) -> (at: int)
    requires
        forall|i: int| 0 <= i < queries.len() ==> is_part_of(#[trigger] queries[i], src),
        are_apart(queries),
        0 <= x <= y <= src.len(),
        forall|i: int| 0 <= i < queries.len() ==> is_outside(src, #[trigger] queries[i], x, y),
    ensures
        stands_at(
            spliced(src, edits_of(queries, only_multiline_raw, fixed)),
            src.subrange(x, y),
            at,
        ),
{
    let edits = edits_of(queries, only_multiline_raw, fixed);
    lemma_edits_fit(src, queries, only_multiline_raw, fixed);
    assert forall|k: int| 0 <= k < edits.len() implies leaves(src, #[trigger] edits[k], x, y) by {
        assert(is_edit_in(edits[k], queries));
        let i = choose|i: int| replaces(edits[k], queries, i);
        lemma_leaves_outside(src, queries[i], edits[k], x, y);
    }
    lemma_rest_of_file_is_kept(src, edits, x, y);
    x + moved(src, edits, x)
}

/// The edit of a query leaves what is outside the query.
proof fn lemma_leaves_outside(src: Seq<char>, q: QueryView, e: EditView, x: int, y: int)
    requires
        e.start == q.start_byte,
        e.end == q.end_byte,
        is_outside(src, q, x, y),
    ensures
        leaves(src, e, x, y),
{
    reveal(edit_from);
    reveal(edit_to);
}

/// A fix touches the literals of queries only: what belongs to none of them is in the
/// new text as it was.
pub proof fn lemma_fix_touches_queries_only(
    config: LinterConfig,
    path: Seq<char>,
    src: Seq<char>,
    queries: Seq<QueryView>,
    only_multiline_raw: bool,
    r: Result<FixView, Seq<char>>,
    x: int,
    y: int,
)
    requires
        are_placed(src, queries),
        fix_may_end_in(config, path, src, queries, only_multiline_raw, r),
        0 <= x <= y <= src.len(),
        forall|i: int| 0 <= i < queries.len() ==> is_outside(src, #[trigger] queries[i], x, y),
    ensures
        r matches Ok(outcome) ==> (outcome.new_src matches Some(text) ==> exists|at: int|
            #[trigger] stands_at(text, src.subrange(x, y), at)),
{
    let fixed = choose|fixed: Seq<Seq<char>>| #[trigger]
        fixes_may_give(config, queries, only_multiline_raw, fixed) && r == applied(
            path,
            src,
            edits_of(queries, only_multiline_raw, fixed),
        );
    let at = lemma_kept_outside_queries(src, queries, only_multiline_raw, fixed, x, y);
    if let Ok(outcome) = r {
        if let Some(text) = outcome.new_src {
            assert(text == spliced(src, edits_of(queries, only_multiline_raw, fixed)));
            assert(stands_at(text, src.subrange(x, y), at));
        }
    }
}

/// The safety of a fix: whatever the fixer gives, what is to be written parses, and
/// there is something to write just where a query changed.
pub proof fn lemma_fix_is_safe(
    config: LinterConfig,
    path: Seq<char>,
    src: Seq<char>,
    queries: Seq<QueryView>,
    only_multiline_raw: bool,
    r: Result<FixView, Seq<char>>,
)
    requires
        fix_may_end_in(config, path, src, queries, only_multiline_raw, r),
    ensures
        r matches Ok(outcome) ==> {
            &&& outcome.new_src matches Some(text) ==> parses(text)
            &&& outcome.new_src is None <==> outcome.queries_changed == 0
            &&& 0 <= outcome.queries_changed <= queries.len()
        },
{
    let fixed = choose|fixed: Seq<Seq<char>>| #[trigger]
        fixes_may_give(config, queries, only_multiline_raw, fixed) && r == applied(
            path,
            src,
            edits_of(queries, only_multiline_raw, fixed),
        );
    lemma_at_most_one_edit_each(queries, only_multiline_raw, fixed);
}

/// A query gives at most one edit.
proof fn lemma_at_most_one_edit_each(
    queries: Seq<QueryView>,
    only_multiline_raw: bool,
    fixed: Seq<Seq<char>>,
)
    ensures
        edits_of(queries, only_multiline_raw, fixed).len() <= queries.len(),
    decreases queries.len(),
{
    if queries.len() > 0 {
        lemma_at_most_one_edit_each(queries.drop_last(), only_multiline_raw, fixed.drop_last());
    }
}

// ---------------------------------------------------------------------------
// Literals that part ways
// ---------------------------------------------------------------------------

/// The closing delimiter of a raw string with `h` hashes stands at the index `i`.
pub open spec fn closes_at(s: Seq<char>, h: nat, i: int) -> bool {
    stands_at(s, seq!['"'] + hashes(h), i)
}

/// Without a quote that is not escaped, and not ended by a backslash that escapes what
/// follows.
pub open spec fn has_no_bare_quote(s: Seq<char>) -> bool
    decreases s.len(),
{
    if s.len() == 0 {
        true
    } else if s[0] == '\\' {
        s.len() > 1 && has_no_bare_quote(s.skip(2))
    } else {
        s[0] != '"' && has_no_bare_quote(s.skip(1))
    }
}

/// A string literal that does not end before its end.
pub open spec fn is_closed(text: Seq<char>) -> bool {
    match parsed_literal(text) {
        Some((LiteralKind::Raw { hashes }, content)) => forall|i: int|
            !(#[trigger] closes_at(content, hashes as nat, i)),
        Some((LiteralKind::Normal, _)) => has_no_bare_quote(text.subrange(1, text.len() - 1)),
        None => false,
    }
}

/// What is escaped holds no bare quote.
proof fn lemma_escaped_has_no_bare_quote(s: Seq<char>)
    ensures
        has_no_bare_quote(escaped(s)),
    decreases s.len(),
{
    if s.len() > 0 {
        lemma_escaped_front(s);
        lemma_escaped_has_no_bare_quote(s.skip(1));
        let tail = escaped(s.skip(1));
        if s[0] == '\\' || s[0] == '"' {
            assert((seq!['\\', s[0]] + tail).skip(2) =~= tail);
        } else {
            assert((seq![s[0]] + tail).skip(1) =~= tail);
        }
    }
}

/// A normal string that a fix writes is closed, whatever the SQL.
pub proof fn lemma_normal_literal_is_closed(fixed: Seq<char>)
    ensures
        is_closed(normal_literal(fixed)),
{
    let text = normal_literal(fixed);
    let inner = escaped(one_line(fixed));
    assert(text.subrange(1, text.len() - 1) =~= inner);
    lemma_escaped_has_no_bare_quote(one_line(fixed));
}

/// Text without a bare quote and then a quote do not start a text without a bare quote.
proof fn lemma_bare_quote(a: Seq<char>, b: Seq<char>)
    requires
        has_no_bare_quote(a),
        a.push('"').is_prefix_of(b),
    ensures
        !has_no_bare_quote(b),
    decreases a.len(),
{
    let start = a.push('"');
    assert forall|i: int| 0 <= i < start.len() implies b[i] == #[trigger] start[i] by {
        assert(b.subrange(0, start.len() as int)[i] == b[i]);
    }
    if a.len() == 0 {
        assert(b[0] == start[0]);
    } else {
        let n: int = if a[0] == '\\' {
            2
        } else {
            1
        };
        assert(b[0] == start[0]);
        let rest = a.skip(n).push('"');
        assert(rest =~= b.skip(n).subrange(0, rest.len() as int)) by {
            assert forall|i: int| 0 <= i < rest.len() implies rest[i] == b.skip(n)[i] by {
                assert(rest[i] == start[n + i]);
            }
        }
        lemma_bare_quote(a.skip(n), b.skip(n));
    }
}

/// A closed literal does not start another one of its kind.
proof fn lemma_closed_is_no_start(a: Seq<char>, b: Seq<char>)
    requires
        a.len() <= usize::MAX,
        b.len() <= usize::MAX,
        is_closed(a),
        is_closed(b),
        parsed_literal(a).unwrap().0 == parsed_literal(b).unwrap().0,
        a.is_prefix_of(b),
    ensures
        a == b,
{
    lemma_raw_literal_is_its_text(a);
    lemma_raw_literal_is_its_text(b);
    let (kind, c) = parsed_literal(a).unwrap();
    let d = parsed_literal(b).unwrap().1;
    assert forall|i: int| 0 <= i < a.len() implies a[i] == #[trigger] b[i] by {
        assert(b.subrange(0, a.len() as int)[i] == b[i]);
    }
    if a.len() < b.len() {
        match kind {
            LiteralKind::Raw { hashes: n } => {
                let h = n as nat;
                let closing = seq!['"'] + hashes(h);
                let k = c.len() as int;
                assert(a == raw_literal(h, c));
                assert(b == raw_literal(h, d));
                assert forall|i: int| 0 <= i < closing.len() implies b[h + 2 + k + i]
                    == #[trigger] closing[i] by {
                    assert(a[h + 2 + k + i] == closing[i]);
                    assert(b[h + 2 + k + i] == a[h + 2 + k + i]);
                }
                if k + closing.len() > d.len() {
                    // The quote that ends the content is none of the hashes.
                    let i = d.len() - k;
                    assert(b[h + 2 + k + i] == '"');
                    assert(closing[i] == '#');
                } else {
                    assert(d.subrange(k, k + closing.len()) =~= closing) by {
                        assert forall|i: int| 0 <= i < closing.len() implies d[k + i]
                            == #[trigger] closing[i] by {
                            assert(b[h + 2 + k + i] == d[k + i]);
                        }
                    }
                    assert(closes_at(d, h, k));
                }
            },
            LiteralKind::Normal => {
                let x = a.subrange(1, a.len() - 1);
                let y = b.subrange(1, b.len() - 1);
                let start = x.push('"');
                assert(start =~= y.subrange(0, start.len() as int)) by {
                    assert forall|i: int| 0 <= i < start.len() implies start[i] == y[i] by {
                        assert(a[i + 1] == b[i + 1]);
                    }
                }
                lemma_bare_quote(x, y);
            },
        }
    } else {
        assert(a =~= b);
    }
}

/// The edit that starts first.
proof fn lemma_leftmost(edits: Seq<EditView>) -> (k: int)
    requires
        edits.len() > 0,
    ensures
        0 <= k < edits.len(),
        forall|i: int|
            0 <= i < edits.len() ==> edits[k].start <= (#[trigger] edits[i]).start,
    decreases edits.len(),
{
    if edits.len() == 1 {
        0
    } else {
        let init = edits.drop_last();
        let j = lemma_leftmost(init);
        let last = edits.len() - 1;
        let k = if edits[last].start < init[j].start {
            last
        } else {
            j
        };
        assert forall|i: int| 0 <= i < edits.len() implies edits[k].start <= (
        #[trigger] edits[i]).start by {
            if i < last {
                assert(edits[i] == init[i]);
            }
        }
        k
    }
}

/// The query that an edit is of.
proof fn lemma_query_of_edit(
    queries: Seq<QueryView>,
    only_multiline_raw: bool,
    fixed: Seq<Seq<char>>,
    i: int,
) -> (j: int)
    requires
        fixed.len() == queries.len(),
        0 <= i < edits_of(queries, only_multiline_raw, fixed).len(),
    ensures
        0 <= j < queries.len(),
        edit_of(queries[j], only_multiline_raw, fixed[j]) == Some(
            edits_of(queries, only_multiline_raw, fixed)[i],
        ),
    decreases queries.len(),
{
    let before = edits_of(queries.drop_last(), only_multiline_raw, fixed.drop_last());
    if i < before.len() {
        lemma_query_of_edit(queries.drop_last(), only_multiline_raw, fixed.drop_last(), i)
    } else {
        queries.len() - 1
    }
}

/// A file in which literals changed, one or more, differs as a whole from what it was.
/// Left out are literals that end before their end. The literals of a Rust file are
/// closed, and so is each normal string that a fix writes, but not a raw one into which
/// the fixer puts the closing delimiter.
pub proof fn lemma_changed_literals_change_the_file(
    src: Seq<char>,
    queries: Seq<QueryView>,
    only_multiline_raw: bool,
    fixed: Seq<Seq<char>>,
)
    requires
        are_placed(src, queries),
        fixed.len() == queries.len(),
        edits_of(queries, only_multiline_raw, fixed).len() > 0,
        forall|i: int|
            0 <= i < queries.len() ==> is_closed((#[trigger] queries[i]).text)
                && queries[i].text.len() <= usize::MAX,
        forall|i: int|
            0 <= i < edits_of(queries, only_multiline_raw, fixed).len() ==> is_closed(
                (#[trigger] edits_of(queries, only_multiline_raw, fixed)[i]).text,
            ) && edits_of(queries, only_multiline_raw, fixed)[i].text.len() <= usize::MAX,
    ensures
        spliced(src, edits_of(queries, only_multiline_raw, fixed)) != src,
{
    let edits = edits_of(queries, only_multiline_raw, fixed);
    lemma_edits_fit(src, queries, only_multiline_raw, fixed);
    let k = lemma_leftmost(edits);
    let j = lemma_query_of_edit(queries, only_multiline_raw, fixed, k);
    let q = queries[j];
    let e = edits[k];
    assert(is_part_of(q, src));
    assert(is_closed(q.text) && is_closed(e.text));
    let (kind, content) = parsed_literal(q.text).unwrap();
    lemma_rebuilt_literal_reads_back(kind, content, fixed[j]);
    assert(replaced(src, e) == q.text) by {
        reveal(edit_from);
        reveal(edit_to);
    }
    if e.text.is_prefix_of(q.text) {
        lemma_closed_is_no_start(e.text, q.text);
    }
    if q.text.is_prefix_of(e.text) {
        lemma_closed_is_no_start(q.text, e.text);
    }
    lemma_changed_file_differs(src, edits, k);
}

} // verus!
