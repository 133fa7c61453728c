//! Text as a sequence of characters: white space, runs, lines and UTF-8 widths,
//! each as a specification and as a verified function.
use vstd::prelude::*;
use vstd::utf8::{encode_scalar, encode_utf8};

verus! {

// ---------------------------------------------------------------------------
// Strings and character vectors
// ---------------------------------------------------------------------------

/// `String::push` appends one character.
pub assume_specification[ String::push ](s: &mut String, c: char)
    ensures
        final(s)@ == old(s)@.push(c),
;

/// `String::push_str` appends a string.
pub assume_specification[ String::push_str ](s: &mut String, tail: &str)
    ensures
        final(s)@ == old(s)@ + tail@,
;

/// The characters of `s`.
pub fn chars_of(s: &str) -> (chars: Vec<char>)
    ensures
        chars@ == s@,
{
    let mut chars: Vec<char> = Vec::new();
    for c in it: s.chars()
        invariant
            it.seq() == s@,
            chars@ == s@.take(it.index() as int),
    {
        chars.push(c);
    }
    chars
}

/// The string with the given characters.
pub fn text_of(chars: &[char]) -> (text: String)
    ensures
        text@ == chars@,
{
    let mut text = String::new();
    push_all(&mut text, chars);
    text
}

/// Appends `chars` to `text`.
pub fn push_all(text: &mut String, chars: &[char])
    ensures
        final(text)@ == old(text)@ + chars@,
{
    let ghost before = text@;
    for i in 0..chars.len()
        invariant
            text@ == before + chars@.take(i as int),
    {
        text.push(chars[i]);
    }
}

/// Whether two character sequences are equal.
pub fn same_chars(a: &[char], b: &[char]) -> (same: bool)
    ensures
        same == (a@ == b@),
{
    if a.len() != b.len() {
        return false;
    }
    for i in 0..a.len()
        invariant
            a.len() == b.len(),
            a@.take(i as int) == b@.take(i as int),
    {
        if a[i] != b[i] {
            return false;
        }
        assert(a@.take(i + 1) == b@.take(i + 1)) by {
            assert(a@.take(i + 1) == a@.take(i as int).push(a@[i as int]));
            assert(b@.take(i + 1) == b@.take(i as int).push(b@[i as int]));
        }
    }
    assert(a@.take(a@.len() as int) == a@);
    assert(b@.take(b@.len() as int) == b@);
    true
}

/// Whether `chars` spells `word`.
pub fn spells(chars: &Vec<char>, word: &str) -> (b: bool)
    ensures
        b == (chars@ == word@),
{
    let word = chars_of(word);
    same_chars(chars.as_slice(), word.as_slice())
}

/// Whether `long` starts with `short`.
pub fn is_prefix(short: &[char], long: &[char]) -> (b: bool)
    ensures
        b == short@.is_prefix_of(long@),
{
    if short.len() > long.len() {
        return false;
    }
    same_chars(short, vstd::slice::slice_subrange(long, 0, short.len()))
}

// ---------------------------------------------------------------------------
// White space
// ---------------------------------------------------------------------------

/// The Unicode `White_Space` property.
pub open spec fn is_white_space(c: char) -> bool {
    let v = c as u32;
    ||| 0x09 <= v <= 0x0d
    ||| v == 0x20
    ||| v == 0x85
    ||| v == 0xa0
    ||| v == 0x1680
    ||| 0x2000 <= v <= 0x200a
    ||| v == 0x2028
    ||| v == 0x2029
    ||| v == 0x202f
    ||| v == 0x205f
    ||| v == 0x3000
}

/// Whether `c` has the Unicode `White_Space` property.
pub fn white_space(c: char) -> (b: bool)
    ensures
        b == is_white_space(c),
{
    let v: u32 = c as u32;
    (0x09 <= v && v <= 0x0d) || v == 0x20 || v == 0x85 || v == 0xa0 || v == 0x1680 || (0x2000 <= v
        && v <= 0x200a) || v == 0x2028 || v == 0x2029 || v == 0x202f || v == 0x205f || v == 0x3000
}

/// Nothing but white space (true of the empty text).
pub open spec fn is_blank(s: Seq<char>) -> bool {
    forall|i: int| 0 <= i < s.len() ==> is_white_space(#[trigger] s[i])
}

/// Whether `chars` holds nothing but white space.
pub fn blank(chars: &[char]) -> (b: bool)
    ensures
        b == is_blank(chars@),
{
    for i in 0..chars.len()
        invariant
            forall|j: int| 0 <= j < i ==> is_white_space(#[trigger] chars@[j]),
    {
        if !white_space(chars[i]) {
            return false;
        }
    }
    true
}

// ---------------------------------------------------------------------------
// Runs at the start and at the end
// ---------------------------------------------------------------------------

/// How many characters at the start of `s` satisfy `p` without a gap.
pub open spec fn run_len(s: Seq<char>, p: spec_fn(char) -> bool) -> nat
    decreases s.len(),
{
    if s.len() > 0 && p(s[0]) {
        1 + run_len(s.skip(1), p)
    } else {
        0
    }
}

/// How many characters at the end of `s` satisfy `p` without a gap.
pub open spec fn tail_run_len(s: Seq<char>, p: spec_fn(char) -> bool) -> nat
    decreases s.len(),
{
    if s.len() > 0 && p(s.last()) {
        1 + tail_run_len(s.drop_last(), p)
    } else {
        0
    }
}

/// Being a line feed.
pub open spec fn newline() -> spec_fn(char) -> bool {
    |c: char| c == '\n'
}

/// Being anything but a line feed.
pub open spec fn not_newline() -> spec_fn(char) -> bool {
    |c: char| c != '\n'
}

/// Being white space.
pub open spec fn white() -> spec_fn(char) -> bool {
    |c: char| is_white_space(c)
}

/// Being a `#`.
pub open spec fn hash() -> spec_fn(char) -> bool {
    |c: char| c == '#'
}

/// `s` without the line feeds at its start.
pub open spec fn skip_newlines(s: Seq<char>) -> Seq<char> {
    s.skip(run_len(s, newline()) as int)
}

/// `s` without the line feeds at its end.
pub open spec fn trim_end_newlines(s: Seq<char>) -> Seq<char> {
    s.take(s.len() - tail_run_len(s, newline()))
}

/// `s` without the white space at its start.
pub open spec fn trim_start(s: Seq<char>) -> Seq<char> {
    s.skip(run_len(s, white()) as int)
}

/// `s` without the white space at its end.
pub open spec fn trim_end(s: Seq<char>) -> Seq<char> {
    s.take(s.len() - tail_run_len(s, white()))
}

/// What [`run_len`] counts: every character of the run satisfies `p`, and the
/// run ends at the end of the text or at a character that does not.
pub proof fn lemma_run_len(s: Seq<char>, p: spec_fn(char) -> bool)
    ensures
        run_len(s, p) <= s.len(),
        forall|i: int| 0 <= i < run_len(s, p) ==> p(#[trigger] s[i]),
        run_len(s, p) < s.len() ==> !p(s[run_len(s, p) as int]),
    decreases s.len(),
{
    if s.len() > 0 && p(s[0]) {
        let rest = s.skip(1);
        lemma_run_len(rest, p);
        assert forall|i: int| 0 <= i < run_len(s, p) implies p(#[trigger] s[i]) by {
            if i > 0 {
                assert(s[i] == rest[i - 1]);
            }
        }
    }
}

/// The run is determined by what [`lemma_run_len`] says of it.
pub proof fn lemma_run_len_is(s: Seq<char>, p: spec_fn(char) -> bool, n: nat)
    requires
        n <= s.len(),
        forall|i: int| 0 <= i < n ==> p(#[trigger] s[i]),
        n < s.len() ==> !p(s[n as int]),
    ensures
        run_len(s, p) == n,
{
    lemma_run_len(s, p);
    let r = run_len(s, p);
    if r < n {
        assert(p(s[r as int]));
    }
}

/// What [`tail_run_len`] counts.
pub proof fn lemma_tail_run_len(s: Seq<char>, p: spec_fn(char) -> bool)
    ensures
        tail_run_len(s, p) <= s.len(),
        forall|i: int| s.len() - tail_run_len(s, p) <= i < s.len() ==> p(#[trigger] s[i]),
        tail_run_len(s, p) < s.len() ==> !p(s[s.len() - tail_run_len(s, p) - 1]),
    decreases s.len(),
{
    if s.len() > 0 && p(s.last()) {
        let rest = s.drop_last();
        lemma_tail_run_len(rest, p);
        assert forall|i: int| s.len() - tail_run_len(s, p) <= i < s.len() implies p(
            #[trigger] s[i],
        ) by {
            if i < s.len() - 1 {
                assert(s[i] == rest[i]);
            }
        }
    }
}

/// The run at the end is determined by what [`lemma_tail_run_len`] says of it.
pub proof fn lemma_tail_run_len_is(s: Seq<char>, p: spec_fn(char) -> bool, n: nat)
    requires
        n <= s.len(),
        forall|i: int| s.len() - n <= i < s.len() ==> p(#[trigger] s[i]),
        n < s.len() ==> !p(s[s.len() - n - 1]),
    ensures
        tail_run_len(s, p) == n,
{
    lemma_tail_run_len(s, p);
    let r = tail_run_len(s, p);
    if r < n {
        assert(p(s[s.len() - r - 1]));
    }
}

/// The number of line feeds at the start of `chars`.
pub fn newline_run(chars: &[char]) -> (n: usize)
    ensures
        n == run_len(chars@, newline()),
{
    let mut n: usize = 0;
    while n < chars.len() && chars[n] == '\n'
        invariant
            n <= chars.len(),
            forall|i: int| 0 <= i < n ==> newline()(#[trigger] chars@[i]),
        decreases chars.len() - n,
    {
        n += 1;
    }
    proof {
        lemma_run_len_is(chars@, newline(), n as nat);
    }
    n
}

/// The number of white-space characters at the start of `chars`.
pub fn white_run(chars: &[char]) -> (n: usize)
    ensures
        n == run_len(chars@, white()),
{
    let mut n: usize = 0;
    while n < chars.len() && white_space(chars[n])
        invariant
            n <= chars.len(),
            forall|i: int| 0 <= i < n ==> white()(#[trigger] chars@[i]),
        decreases chars.len() - n,
    {
        n += 1;
    }
    proof {
        lemma_run_len_is(chars@, white(), n as nat);
    }
    n
}

/// The number of `#` at the start of `chars`.
pub fn hash_run(chars: &[char]) -> (n: usize)
    ensures
        n == run_len(chars@, hash()),
{
    let mut n: usize = 0;
    while n < chars.len() && chars[n] == '#'
        invariant
            n <= chars.len(),
            forall|i: int| 0 <= i < n ==> hash()(#[trigger] chars@[i]),
        decreases chars.len() - n,
    {
        n += 1;
    }
    proof {
        lemma_run_len_is(chars@, hash(), n as nat);
    }
    n
}

/// Where the line that starts `chars` ends: at its line feed, or at the end.
pub fn line_run(chars: &[char]) -> (n: usize)
    ensures
        n == run_len(chars@, not_newline()),
{
    let mut n: usize = 0;
    while n < chars.len() && chars[n] != '\n'
        invariant
            n <= chars.len(),
            forall|i: int| 0 <= i < n ==> not_newline()(#[trigger] chars@[i]),
        decreases chars.len() - n,
    {
        n += 1;
    }
    proof {
        lemma_run_len_is(chars@, not_newline(), n as nat);
    }
    n
}

/// The length of `chars` without the white space at its end.
pub fn trimmed_len(chars: &[char]) -> (n: usize)
    ensures
        n == chars@.len() - tail_run_len(chars@, white()),
        n <= chars.len(),
{
    let mut n: usize = chars.len();
    while n > 0 && white_space(chars[n - 1])
        invariant
            n <= chars.len(),
            forall|i: int| n <= i < chars.len() ==> white()(#[trigger] chars@[i]),
        decreases n,
    {
        n -= 1;
    }
    proof {
        lemma_tail_run_len_is(chars@, white(), (chars.len() - n) as nat);
    }
    n
}

/// The length of `chars` without the line feeds at its end.
pub fn unfed_len(chars: &[char]) -> (n: usize)
    ensures
        n == chars@.len() - tail_run_len(chars@, newline()),
        n <= chars.len(),
{
    let mut n: usize = chars.len();
    while n > 0 && chars[n - 1] == '\n'
        invariant
            n <= chars.len(),
            forall|i: int| n <= i < chars.len() ==> newline()(#[trigger] chars@[i]),
        decreases n,
    {
        n -= 1;
    }
    proof {
        lemma_tail_run_len_is(chars@, newline(), (chars.len() - n) as nat);
    }
    n
}

// ---------------------------------------------------------------------------
// Lines
// ---------------------------------------------------------------------------

/// `line` without one carriage return at its end.
pub open spec fn strip_cr(line: Seq<char>) -> Seq<char> {
    if line.len() > 0 && line.last() == '\r' {
        line.drop_last()
    } else {
        line
    }
}

/// The lines of `s`. Each ends at a line feed, or at a carriage return and a
/// line feed, which do not belong to it. The last line need not be ended, and
/// then keeps a carriage return at its end.
pub open spec fn lines(s: Seq<char>) -> Seq<Seq<char>>
    decreases s.len(),
{
    let n = run_len(s, not_newline());
    if s.len() == 0 {
        Seq::empty()
    } else if n >= s.len() {
        seq![s]
    } else {
        seq![strip_cr(s.take(n as int))] + lines(s.skip(n as int + 1))
    }
}

/// The given lines with one line feed between each two.
pub open spec fn join_lines(ls: Seq<Seq<char>>) -> Seq<char>
    decreases ls.len(),
{
    if ls.len() == 0 {
        Seq::empty()
    } else if ls.len() == 1 {
        ls[0]
    } else {
        ls[0] + seq!['\n'] + join_lines(ls.skip(1))
    }
}

/// The contents of a vector of character vectors.
pub open spec fn rows(v: Seq<Vec<char>>) -> Seq<Seq<char>> {
    Seq::new(v.len(), |i: int| v[i]@)
}

/// The lines of `chars`.
pub fn split_lines(chars: &[char]) -> (out: Vec<Vec<char>>)
    ensures
        rows(out@) == lines(chars@),
{
    let mut out: Vec<Vec<char>> = Vec::new();
    let mut pos: usize = 0;
    assert(chars@.skip(0) == chars@);
    while pos < chars.len()
        invariant
            pos <= chars.len(),
            lines(chars@) == rows(out@) + lines(chars@.skip(pos as int)),
        decreases chars.len() - pos,
    {
        let rest = vstd::slice::slice_subrange(chars, pos, chars.len());
        assert(rest@ == chars@.skip(pos as int));
        let n: usize = line_run(rest);
        proof {
            lemma_run_len(rest@, not_newline());
        }
        let ghost before = rows(out@);
        let ended = n < rest.len();
        let end: usize = if ended && n > 0 && rest[n - 1] == '\r' {
            n - 1
        } else {
            n
        };
        let line = subvec(rest, 0, end);
        assert(line@ == if ended {
            strip_cr(rest@.take(n as int))
        } else {
            rest@
        });
        out.push(line);
        assert(rows(out@) == before.push(line@));
        if ended {
            pos = pos + n + 1;
            assert(rest@.skip(n as int + 1) == chars@.skip(pos as int));
            assert(before + (seq![line@] + lines(chars@.skip(pos as int))) == rows(out@) + lines(
                chars@.skip(pos as int),
            ));
        } else {
            pos = chars.len();
            assert(lines(chars@.skip(pos as int)) == Seq::<Seq<char>>::empty());
            assert(before + seq![line@] == rows(out@) + Seq::<Seq<char>>::empty());
        }
    }
    assert(lines(chars@.skip(pos as int)) == Seq::<Seq<char>>::empty());
    assert(rows(out@) + Seq::<Seq<char>>::empty() == rows(out@));
    out
}

/// The characters of `chars` from `from` up to `to`.
pub fn subvec(chars: &[char], from: usize, to: usize) -> (out: Vec<char>)
    requires
        from <= to <= chars@.len(),
    ensures
        out@ == chars@.subrange(from as int, to as int),
{
    let mut out: Vec<char> = Vec::new();
    let mut i: usize = from;
    while i < to
        invariant
            from <= i <= to <= chars@.len(),
            out@ == chars@.subrange(from as int, i as int),
        decreases to - i,
    {
        out.push(chars[i]);
        i += 1;
    }
    out
}

/// The given lines with one line feed between each two.
pub fn joined(ls: &Vec<Vec<char>>) -> (text: String)
    ensures
        text@ == join_lines(rows(ls@)),
{
    let mut text = String::new();
    let n: usize = ls.len();
    proof {
        assert(rows(ls@).take(0) == Seq::<Seq<char>>::empty());
    }
    for i in 0..n
        invariant
            n == ls.len(),
            text@ == join_lines(rows(ls@).take(i as int)),
    {
        let ghost before = rows(ls@).take(i as int);
        if i > 0 {
            text.push('\n');
        }
        push_all(&mut text, ls[i].as_slice());
        proof {
            lemma_join_push(before, ls[i as int]@);
            assert(rows(ls@).take(i as int + 1) == before.push(ls[i as int]@));
            if i > 0 {
                assert(join_lines(before).push('\n') + ls[i as int]@ == join_lines(before) + seq![
                    '\n',
                ] + ls[i as int]@);
            } else {
                assert(Seq::<char>::empty() + ls[i as int]@ == ls[i as int]@);
            }
        }
    }
    assert(rows(ls@).take(n as int) == rows(ls@));
    text
}

/// Joining one more line.
pub proof fn lemma_join_push(ls: Seq<Seq<char>>, l: Seq<char>)
    ensures
        join_lines(ls.push(l)) == if ls.len() == 0 {
            l
        } else {
            join_lines(ls) + seq!['\n'] + l
        },
    decreases ls.len(),
{
    if ls.len() == 0 {
    } else if ls.len() == 1 {
        assert(ls.push(l).skip(1) == seq![l]);
        assert(join_lines(seq![l]) == l);
    } else {
        lemma_join_push(ls.skip(1), l);
        assert(ls.push(l).skip(1) == ls.skip(1).push(l));
        assert(ls[0] + seq!['\n'] + (join_lines(ls.skip(1)) + seq!['\n'] + l) == ls[0] + seq!['\n']
            + join_lines(ls.skip(1)) + seq!['\n'] + l);
    }
}

// ---------------------------------------------------------------------------
// Numbers
// ---------------------------------------------------------------------------

/// The decimal digit `d`.
pub open spec fn digit(d: nat) -> char
    recommends
        d < 10,
{
    ('0' as int + d) as char
}

/// `n` in decimal, without leading zeros.
pub open spec fn decimal(n: nat) -> Seq<char>
    decreases n,
{
    if n < 10 {
        seq![digit(n)]
    } else {
        decimal(n / 10).push(digit(n % 10))
    }
}

/// Appends `n` in decimal.
pub fn push_decimal(text: &mut String, n: usize)
    ensures
        final(text)@ == old(text)@ + decimal(n as nat),
    decreases n,
{
    let ghost before = text@;
    if n >= 10 {
        push_decimal(text, n / 10);
    }
    let d: u8 = (n % 10) as u8;
    text.push((48 + d) as char);
    assert(text@ == before + decimal(n as nat));
}

// ---------------------------------------------------------------------------
// Byte offsets
// ---------------------------------------------------------------------------

/// How many bytes UTF-8 takes for `c`.
pub open spec fn char_width(c: char) -> nat {
    let v = c as u32;
    if v <= 0x7f {
        1
    } else if v <= 0x7ff {
        2
    } else if v <= 0xffff {
        3
    } else {
        4
    }
}

/// How many bytes UTF-8 takes for `c`.
pub fn width_of(c: char) -> (n: usize)
    ensures
        n == char_width(c),
{
    let v: u32 = c as u32;
    if v <= 0x7f {
        1
    } else if v <= 0x7ff {
        2
    } else if v <= 0xffff {
        3
    } else {
        4
    }
}

/// How many bytes UTF-8 takes for `s`.
pub open spec fn byte_len(s: Seq<char>) -> nat
    decreases s.len(),
{
    if s.len() == 0 {
        0
    } else {
        byte_len(s.drop_last()) + char_width(s.last())
    }
}

/// The character of `s` at whose start byte `n` lies is the `k`-th.
pub open spec fn starts_at(s: Seq<char>, k: int, n: int) -> bool {
    0 <= k <= s.len() && byte_len(s.take(k)) == n
}

/// The index of the character that starts at byte `n` of `s`, or the number of
/// characters if `n` is the length in bytes; nothing inside a character or
/// past the end.
pub open spec fn char_at_byte(s: Seq<char>, n: int) -> Option<int> {
    if exists|k: int| starts_at(s, k, n) {
        Some(choose|k: int| starts_at(s, k, n))
    } else {
        None
    }
}

/// The part of `s` from byte `from` up to byte `to`, where both are the start
/// of a character or the end.
pub open spec fn byte_slice(s: Seq<char>, from: int, to: int) -> Option<Seq<char>> {
    match (char_at_byte(s, from), char_at_byte(s, to)) {
        (Some(a), Some(b)) => if a <= b {
            Some(s.subrange(a, b))
        } else {
            None
        },
        _ => None,
    }
}

/// Lengths add up.
pub proof fn lemma_byte_len_add(a: Seq<char>, b: Seq<char>)
    ensures
        byte_len(a + b) == byte_len(a) + byte_len(b),
    decreases b.len(),
{
    if b.len() == 0 {
        assert(a + b == a);
    } else {
        lemma_byte_len_add(a, b.drop_last());
        assert((a + b).drop_last() == a + b.drop_last());
    }
}

/// A longer prefix takes more bytes, at least one for each character.
pub proof fn lemma_byte_len_prefix(s: Seq<char>, i: int, j: int)
    requires
        0 <= i <= j <= s.len(),
    ensures
        byte_len(s.take(i)) + (j - i) <= byte_len(s.take(j)),
    decreases j - i,
{
    if i < j {
        lemma_byte_len_prefix(s, i, j - 1);
        assert(s.take(j).drop_last() == s.take(j - 1));
    }
}

/// One character further.
pub proof fn lemma_byte_len_step(s: Seq<char>, i: int)
    requires
        0 <= i < s.len(),
    ensures
        byte_len(s.take(i + 1)) == byte_len(s.take(i)) + char_width(s[i]),
{
    assert(s.take(i + 1).drop_last() == s.take(i));
}

/// A byte is the start of at most one character.
pub proof fn lemma_starts_at(s: Seq<char>, k: int, n: int)
    requires
        starts_at(s, k, n),
    ensures
        char_at_byte(s, n) == Some(k),
{
    let c = choose|c: int| starts_at(s, c, n);
    if c < k {
        lemma_byte_len_prefix(s, c, k);
    } else if k < c {
        lemma_byte_len_prefix(s, k, c);
    }
}

/// The index of the character of `chars` that starts at byte `n`.
pub fn char_index(chars: &[char], n: usize) -> (r: Option<usize>)
    ensures
        match char_at_byte(chars@, n as int) {
            Some(k) => r matches Some(i) && i == k && starts_at(chars@, k, n as int),
            None => r is None,
        },
{
    let mut left: usize = n;
    let mut k: usize = 0;
    assert(chars@.take(0) == Seq::<char>::empty());
    while left > 0
        invariant
            k <= chars.len(),
            left <= n,
            byte_len(chars@.take(k as int)) + left == n,
        decreases left,
    {
        if k == chars.len() || width_of(chars[k]) > left {
            proof {
                if exists|j: int| starts_at(chars@, j, n as int) {
                    let j = choose|j: int| starts_at(chars@, j, n as int);
                    if j <= k {
                        lemma_byte_len_prefix(chars@, j, k as int);
                    } else {
                        lemma_byte_len_step(chars@, k as int);
                        lemma_byte_len_prefix(chars@, k + 1, j);
                    }
                    assert(false);
                }
            }
            return None;
        }
        proof {
            lemma_byte_len_step(chars@, k as int);
        }
        left = left - width_of(chars[k]);
        k += 1;
    }
    proof {
        lemma_starts_at(chars@, k as int, n as int);
    }
    Some(k)
}

/// [`byte_len`] is the length of the UTF-8 encoding.
pub proof fn lemma_byte_len_utf8(s: Seq<char>)
    ensures
        byte_len(s) == encode_utf8(s).len(),
    decreases s.len(),
{
    if s.len() > 0 {
        lemma_byte_len_utf8(s.drop_first());
        assert(s == seq![s[0]] + s.drop_first());
        lemma_byte_len_add(seq![s[0]], s.drop_first());
        assert(seq![s[0]].drop_last() == Seq::<char>::empty());
        assert(byte_len(seq![s[0]]) == char_width(s[0])) by {
            assert(byte_len(Seq::<char>::empty()) == 0);
        }
        let c = s[0];
        vstd::utf8::char_is_scalar(c);
        assert(encode_scalar(c as u32).len() == char_width(c));
    }
}

/// The encoding of a concatenation.
pub proof fn lemma_utf8_add(a: Seq<char>, b: Seq<char>)
    ensures
        encode_utf8(a + b) == encode_utf8(a) + encode_utf8(b),
    decreases a.len(),
{
    if a.len() == 0 {
        assert(a + b == b);
        assert(encode_utf8(a) == Seq::<u8>::empty());
    } else {
        lemma_utf8_add(a.drop_first(), b);
        assert((a + b).drop_first() == a.drop_first() + b);
        assert((a + b)[0] == a[0]);
        assert(encode_utf8(a + b) == encode_scalar(a[0] as u32) + encode_utf8(a.drop_first() + b));
    }
}

/// The length of `s` in bytes.
pub fn byte_count(s: &str) -> (n: usize)
    ensures
        n == byte_len(s@),
        s@.len() <= n,
{
    let n: usize = s.as_bytes().len();
    proof {
        lemma_byte_len_utf8(s@);
        lemma_byte_len_prefix(s@, 0, s@.len() as int);
        assert(s@.take(s@.len() as int) == s@);
        assert(s@.take(0) == Seq::<char>::empty());
    }
    n
}

} // verus!
