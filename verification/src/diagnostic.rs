//! A finding mapped back to a location inside the Rust file, and its renderings.
use crate::text::{chars_of, decimal, digit, push_decimal};
use vstd::prelude::*;

verus! {

/// A finding at a place in a `.rs` file.
#[derive(Debug, Clone)]
pub struct Diagnostic {
    pub file: String,
    /// 1-based line in the `.rs` file.
    pub line: usize,
    /// 1-based column in the `.rs` file (best-effort).
    pub col: usize,
    pub code: String,
    pub message: String,
}

/// The value of a [`Diagnostic`].
pub struct DiagnosticView {
    pub file: Seq<char>,
    pub line: int,
    pub col: int,
    pub code: Seq<char>,
    pub message: Seq<char>,
}

impl View for Diagnostic {
    type V = DiagnosticView;

    open spec fn view(&self) -> DiagnosticView {
        DiagnosticView {
            file: self.file@,
            line: self.line as int,
            col: self.col as int,
            code: self.code@,
            message: self.message@,
        }
    }
}

/// The values of the diagnostics in `diags`.
pub open spec fn diagnostic_views(diags: Seq<Diagnostic>) -> Seq<DiagnosticView> {
    Seq::new(diags.len(), |i: int| diags[i]@)
}

/// The hexadecimal digit `n`.
pub open spec fn hex_digit(n: nat) -> char
    recommends
        n < 16,
{
    if n < 10 {
        digit(n)
    } else {
        ('a' as int + n - 10) as char
    }
}

/// What stands for `c` in a JSON string. Every control character is escaped.
pub open spec fn json_char(c: char) -> Seq<char> {
    if c == '"' {
        seq!['\\', '"']
    } else if c == '\\' {
        seq!['\\', '\\']
    } else if c == '\n' {
        seq!['\\', 'n']
    } else if c == '\t' {
        seq!['\\', 't']
    } else if c == '\r' {
        seq!['\\', 'r']
    } else if (c as u32) < 0x20 {
        seq!['\\', 'u', '0', '0', hex_digit((c as u32 / 16) as nat), hex_digit((c as u32 % 16) as nat)]
    } else {
        seq![c]
    }
}

/// [`json_char`] of every character of `s`.
pub open spec fn json_body(s: Seq<char>) -> Seq<char>
    decreases s.len(),
{
    if s.len() == 0 {
        Seq::empty()
    } else {
        json_body(s.drop_last()) + json_char(s.last())
    }
}

/// `s` as a JSON string.
pub open spec fn json_quoted(s: Seq<char>) -> Seq<char> {
    seq!['"'] + json_body(s) + seq!['"']
}

impl DiagnosticView {
    /// What [`Diagnostic::render_human`] gives.
    pub open spec fn human(self) -> Seq<char> {
        self.file + seq![':'] + decimal(self.line as nat) + seq![':'] + decimal(self.col as nat)
            + seq![':', ' '] + self.code + seq![' '] + self.message
    }

    /// What [`Diagnostic::render_json`] gives.
    pub open spec fn json(self) -> Seq<char> {
        "{\"file\":"@ + json_quoted(self.file) + ",\"line\":"@ + decimal(self.line as nat)
            + ",\"col\":"@ + decimal(self.col as nat) + ",\"code\":"@ + json_quoted(self.code)
            + ",\"message\":"@ + json_quoted(self.message) + "}"@
    }
}

impl Diagnostic {
    /// rustc-style: `path:line:col: CODE message`.
    pub fn render_human(&self) -> (out: String)
        ensures
            out@ == self@.human(),
    {
        let mut out = String::new();
        out.push_str(self.file.as_str());
        out.push(':');
        push_decimal(&mut out, self.line);
        out.push(':');
        push_decimal(&mut out, self.col);
        out.push(':');
        out.push(' ');
        out.push_str(self.code.as_str());
        out.push(' ');
        out.push_str(self.message.as_str());
        out
    }

    /// A minimal JSON object on one line.
    pub fn render_json(&self) -> (out: String)
        ensures
            out@ == self@.json(),
    {
        let mut out = String::new();
        out.push_str("{\"file\":");
        out.push_str(json_str(self.file.as_str()).as_str());
        out.push_str(",\"line\":");
        push_decimal(&mut out, self.line);
        out.push_str(",\"col\":");
        push_decimal(&mut out, self.col);
        out.push_str(",\"code\":");
        out.push_str(json_str(self.code.as_str()).as_str());
        out.push_str(",\"message\":");
        out.push_str(json_str(self.message.as_str()).as_str());
        out.push_str("}");
        out
    }
}

/// `s` as a JSON string.
pub fn json_str(s: &str) -> (out: String)
    ensures
        out@ == json_quoted(s@),
{
    let mut out = String::new();
    let chars = chars_of(s);
    out.push('"');
    for i in 0..chars.len()
        invariant
            chars@ == s@,
            out@ == seq!['"'] + json_body(s@.take(i as int)),
    {
        let ghost so_far = out@;
        let c = chars[i];
        match c {
            '"' => {
                out.push('\\');
                out.push('"');
            },
            '\\' => {
                out.push('\\');
                out.push('\\');
            },
            '\n' => {
                out.push('\\');
                out.push('n');
            },
            '\t' => {
                out.push('\\');
                out.push('t');
            },
            '\r' => {
                out.push('\\');
                out.push('r');
            },
            c => if (c as u32) < 0x20 {
                let code: u32 = c as u32;
                let n: u8 = code as u8;
                out.push('\\');
                out.push('u');
                out.push('0');
                out.push('0');
                out.push(hex(n / 16));
                out.push(hex(n % 16));
            } else {
                out.push(c);
            },
        }
        assert(out@ == so_far + json_char(c));
        assert(s@.take(i + 1).drop_last() == s@.take(i as int));
    }
    assert(s@.take(s@.len() as int) == s@);
    out.push('"');
    out
}

/// The hexadecimal digit `n`.
fn hex(n: u8) -> (c: char)
    requires
        n < 16,
    ensures
        c == hex_digit(n as nat),
{
    if n < 10 {
        (48 + n) as char
    } else {
        (97 + (n - 10)) as char
    }
}

// ---------------------------------------------------------------------------
// Laws
// ---------------------------------------------------------------------------

/// The value of a hexadecimal digit.
pub open spec fn hex_value(c: char) -> Option<nat> {
    if '0' <= c <= '9' {
        Some((c as nat - '0' as nat) as nat)
    } else if 'a' <= c <= 'f' {
        Some((c as nat - 'a' as nat + 10) as nat)
    } else if 'A' <= c <= 'F' {
        Some((c as nat - 'A' as nat + 10) as nat)
    } else {
        None
    }
}

/// The character that four hexadecimal digits name. Surrogates name none.
pub open spec fn hex_char(s: Seq<char>) -> Option<char> {
    match (hex_value(s[0]), hex_value(s[1]), hex_value(s[2]), hex_value(s[3])) {
        (Some(a), Some(b), Some(c), Some(d)) => {
            let v = a * 4096 + b * 256 + c * 16 + d;
            if 0xd800 <= v <= 0xdfff {
                None
            } else {
                Some(v as char)
            }
        },
        _ => None,
    }
}

/// What the character after a backslash stands for, but for `u`.
pub open spec fn json_escape(c: char) -> Option<char> {
    if c == '"' || c == '\\' || c == '/' {
        Some(c)
    } else if c == 'n' {
        Some('\n')
    } else if c == 't' {
        Some('\t')
    } else if c == 'r' {
        Some('\r')
    } else if c == 'b' {
        Some('\u{8}')
    } else if c == 'f' {
        Some('\u{c}')
    } else {
        None
    }
}

/// What a JSON reader makes of the inside of a string: nothing where it holds a quote or
/// a control character that is not escaped, or an escape that is none. Pairs of
/// surrogates are left out.
pub open spec fn json_decoded(s: Seq<char>) -> Option<Seq<char>>
    decreases s.len(),
{
    if s.len() == 0 {
        Some(Seq::empty())
    } else if s[0] == '"' || (s[0] as u32) < 0x20 {
        None
    } else if s[0] != '\\' {
        prepended(Some(s[0]), json_decoded(s.skip(1)))
    } else if s.len() == 1 {
        None
    } else if s[1] != 'u' {
        prepended(json_escape(s[1]), json_decoded(s.skip(2)))
    } else if s.len() < 6 {
        None
    } else {
        prepended(hex_char(s.subrange(2, 6)), json_decoded(s.skip(6)))
    }
}

/// `c` before `rest`, where both are there.
pub open spec fn prepended(c: Option<char>, rest: Option<Seq<char>>) -> Option<Seq<char>> {
    match (c, rest) {
        (Some(c), Some(rest)) => Some(seq![c] + rest),
        _ => None,
    }
}

/// Escaping from the front instead of from the end.
proof fn lemma_json_body_front(s: Seq<char>)
    requires
        s.len() > 0,
    ensures
        json_body(s) == json_char(s[0]) + json_body(s.skip(1)),
    decreases s.len(),
{
    if s.len() == 1 {
        assert(s.drop_last() == Seq::<char>::empty());
        assert(s.skip(1) == Seq::<char>::empty());
        assert(json_body(Seq::<char>::empty()) == Seq::<char>::empty());
        assert(Seq::<char>::empty() + json_char(s[0]) == json_char(s[0]) + Seq::<char>::empty());
    } else {
        let init = s.drop_last();
        lemma_json_body_front(init);
        assert(init.skip(1) == s.skip(1).drop_last());
        assert(json_char(s[0]) + json_body(init.skip(1)) + json_char(s.last()) == json_char(s[0])
            + (json_body(init.skip(1)) + json_char(s.last())));
    }
}

/// A control character is read back from its four digits.
proof fn lemma_control_char(c: char)
    requires
        (c as u32) < 0x20,
        json_char(c).len() == 6,
    ensures
        hex_char(json_char(c).subrange(2, 6)) == Some(c),
{
    vstd::utf8::char_is_scalar(c);
    let code = json_char(c).subrange(2, 6);
    let hi = (c as u32 / 16) as nat;
    let lo = (c as u32 % 16) as nat;
    assert(code =~= seq!['0', '0', hex_digit(hi), hex_digit(lo)]);
    assert(hex_value(hex_digit(hi)) == Some(hi));
    assert(hex_value(hex_digit(lo)) == Some(lo));
    assert(hex_value('0') == Some(0nat));
    assert(hi * 16 + lo == c as u32);
    assert((hi * 16 + lo) as char == c);
}

/// A JSON reader takes every quoted text, and gets back the text that was quoted.
pub proof fn lemma_json_round_trip(s: Seq<char>)
    ensures
        json_decoded(json_body(s)) == Some(s),
    decreases s.len(),
{
    if s.len() > 0 {
        lemma_json_body_front(s);
        lemma_json_round_trip(s.skip(1));
        let c = s[0];
        let head = json_char(c);
        let tail = json_body(s.skip(1));
        let all = head + tail;
        if head.len() == 1 {
            assert(all.skip(1) =~= tail);
        } else if head.len() == 2 {
            assert(all.skip(2) =~= tail);
        } else {
            assert(all.skip(6) =~= tail);
            lemma_control_char(c);
            assert(all.subrange(2, 6) =~= json_char(c).subrange(2, 6));
        }
        assert(seq![c] + s.skip(1) =~= s);
    } else {
        assert(s =~= Seq::<char>::empty());
    }
}

/// Quoted text holds no line feed.
pub proof fn lemma_json_body_one_line(s: Seq<char>)
    ensures
        !json_body(s).contains('\n'),
    decreases s.len(),
{
    if s.len() > 0 {
        lemma_json_body_one_line(s.drop_last());
        let a = json_body(s.drop_last());
        let b = json_char(s.last());
        assert forall|i: int| 0 <= i < (a + b).len() implies (a + b)[i] != '\n' by {
            if i < a.len() {
                assert(a[i] == (a + b)[i]);
                assert(a.contains(a[i]));
            } else {
                assert((a + b)[i] == b[i - a.len()]);
                assert((s.last() as u32 / 16) as nat <= 1 || b.len() <= 2);
            }
        }
    }
}

/// A number holds no line feed.
proof fn lemma_decimal_one_line(n: nat)
    ensures
        !decimal(n).contains('\n'),
    decreases n,
{
    if n >= 10 {
        lemma_decimal_one_line(n / 10);
        let init = decimal(n / 10);
        assert forall|i: int| 0 <= i < decimal(n).len() implies decimal(n)[i] != '\n' by {
            if i < init.len() {
                assert(init.contains(init[i]));
            }
        }
    }
}

/// Two texts without a line feed hold none together.
proof fn lemma_add_one_line(a: Seq<char>, b: Seq<char>)
    requires
        !a.contains('\n'),
        !b.contains('\n'),
    ensures
        !(a + b).contains('\n'),
{
    assert forall|i: int| 0 <= i < (a + b).len() implies (a + b)[i] != '\n' by {
        if i < a.len() {
            assert(a.contains(a[i]));
        } else {
            assert(b.contains(b[i - a.len()]));
        }
    }
}

/// The JSON rendering of a diagnostic is a single line.
pub proof fn lemma_json_is_one_line(d: DiagnosticView)
    ensures
        !d.json().contains('\n'),
{
    reveal_strlit("{\"file\":");
    reveal_strlit(",\"line\":");
    reveal_strlit(",\"col\":");
    reveal_strlit(",\"code\":");
    reveal_strlit(",\"message\":");
    reveal_strlit("}");
    lemma_json_body_one_line(d.file);
    lemma_json_body_one_line(d.code);
    lemma_json_body_one_line(d.message);
    lemma_decimal_one_line(d.line as nat);
    lemma_decimal_one_line(d.col as nat);
    let q = seq!['"'];
    lemma_add_one_line(q, json_body(d.file));
    lemma_add_one_line(q + json_body(d.file), q);
    lemma_add_one_line(q, json_body(d.code));
    lemma_add_one_line(q + json_body(d.code), q);
    lemma_add_one_line(q, json_body(d.message));
    lemma_add_one_line(q + json_body(d.message), q);
    let t1 = "{\"file\":"@ + json_quoted(d.file);
    lemma_add_one_line("{\"file\":"@, json_quoted(d.file));
    let t2 = t1 + ",\"line\":"@;
    lemma_add_one_line(t1, ",\"line\":"@);
    let t3 = t2 + decimal(d.line as nat);
    lemma_add_one_line(t2, decimal(d.line as nat));
    let t4 = t3 + ",\"col\":"@;
    lemma_add_one_line(t3, ",\"col\":"@);
    let t5 = t4 + decimal(d.col as nat);
    lemma_add_one_line(t4, decimal(d.col as nat));
    let t6 = t5 + ",\"code\":"@;
    lemma_add_one_line(t5, ",\"code\":"@);
    let t7 = t6 + json_quoted(d.code);
    lemma_add_one_line(t6, json_quoted(d.code));
    let t8 = t7 + ",\"message\":"@;
    lemma_add_one_line(t7, ",\"message\":"@);
    let t9 = t8 + json_quoted(d.message);
    lemma_add_one_line(t8, json_quoted(d.message));
    lemma_add_one_line(t9, "}"@);
}

} // verus!
