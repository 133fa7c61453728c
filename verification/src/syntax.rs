//! Reading Rust source with `syn`: the macro invocations of a file as plain
//! values. This is the only module that touches `syn` and `proc-macro2`.
use crate::extract::after_newlines;
use crate::layout::on_one_line;
use crate::text::chars_of;
use proc_macro2::extra::invalidate_current_thread_spans;
use proc_macro2::{TokenStream, TokenTree};
use syn::visit::Visit;
use vstd::prelude::*;

verus! {

/// A place in a source file: 1-based line, 0-based column counted in `char`s.
#[derive(Debug, Clone, Copy)]
pub struct Position {
    pub line: usize,
    pub column: usize,
}

/// A literal token: its text and where it stands.
#[derive(Debug, Clone)]
pub struct LiteralToken {
    pub text: String,
    pub start: Position,
    pub end: Position,
}

/// A token between the delimiters of a macro invocation. A delimited group is given as
/// an opening token, its tokens and a closing one, whatever its delimiters are.
#[derive(Debug, Clone)]
pub enum Token {
    Literal(LiteralToken),
    Ident(String),
    Punct(char),
    Open,
    Close,
}

/// A macro invocation: the last segment of its path, and its tokens.
#[derive(Debug, Clone)]
pub struct MacroCall {
    pub name: Option<String>,
    pub tokens: Vec<Token>,
}

/// The value of a [`LiteralToken`].
pub struct LiteralView {
    pub text: Seq<char>,
    pub start: Position,
    pub end: Position,
}

/// The value of a [`Token`].
pub enum TokenView {
    Literal(LiteralView),
    Ident(Seq<char>),
    Punct(char),
    Open,
    Close,
}

/// The value of a [`MacroCall`].
pub struct MacroView {
    pub name: Option<Seq<char>>,
    pub tokens: Seq<TokenView>,
}

impl View for LiteralToken {
    type V = LiteralView;

    open spec fn view(&self) -> LiteralView {
        LiteralView { text: self.text@, start: self.start, end: self.end }
    }
}

impl View for Token {
    type V = TokenView;

    open spec fn view(&self) -> TokenView {
        match *self {
            Token::Literal(l) => TokenView::Literal(l@),
            Token::Ident(name) => TokenView::Ident(name@),
            Token::Punct(c) => TokenView::Punct(c),
            Token::Open => TokenView::Open,
            Token::Close => TokenView::Close,
        }
    }
}

/// The values of the tokens in `tokens`.
pub open spec fn token_views(tokens: Seq<Token>) -> Seq<TokenView> {
    Seq::new(tokens.len(), |i: int| tokens[i]@)
}

impl View for MacroCall {
    type V = MacroView;

    open spec fn view(&self) -> MacroView {
        MacroView {
            name: match self.name {
                Some(n) => Some(n@),
                None => None,
            },
            tokens: token_views(self.tokens@),
        }
    }
}

/// The values of the invocations in `macros`.
pub open spec fn macro_views(macros: Seq<MacroCall>) -> Seq<MacroView> {
    Seq::new(macros.len(), |i: int| macros[i]@)
}

/// The value of what [`read_macros`] returns.
pub open spec fn read_view(r: Result<Vec<MacroCall>, String>) -> Result<Seq<MacroView>, Seq<char>> {
    match r {
        Ok(v) => Ok(macro_views(v@)),
        Err(e) => Err(e@),
    }
}

/// How long a text may be. `proc-macro2` numbers the characters that it reads with a
/// `u32`, and `syn` has it read negative literals a second time.
pub const MAX_SOURCE_LEN: usize = 0x3fff_ffff;

/// The text is not too long to be read.
pub open spec fn source_fits(src: Seq<char>) -> bool {
    src.len() <= MAX_SOURCE_LEN
}

/// Whether `src` is not too long to be read.
pub fn fits(src: &str) -> (b: bool)
    ensures
        b == source_fits(src@),
{
    chars_of(src).len() <= MAX_SOURCE_LEN
}

/// What `syn::parse_file` makes of a source text: the macro invocations of the
/// parsed file in the order in which `syn::visit` reaches them, or the message
/// of the parse error.
pub uninterp spec fn parsed_source(src: Seq<char>) -> Result<Seq<MacroView>, Seq<char>>;

/// `p` is a place in `src`: the line is there, and the column lies on it.
pub open spec fn is_place(src: Seq<char>, p: Position) -> bool {
    p.line > 0 && (after_newlines(src, (p.line - 1) as nat) matches Some(start) && start + p.column
        <= src.len() && on_one_line(src.subrange(start, start + p.column)))
}

/// `p` comes before `q`, or is `q`.
pub open spec fn comes_before(p: Position, q: Position) -> bool {
    p.line < q.line || (p.line == q.line && p.column <= q.column)
}

/// One of the two literals ends before the other starts.
pub open spec fn are_clear(l: LiteralView, m: LiteralView) -> bool {
    comes_before(l.end, m.start) || comes_before(m.end, l.start)
}

/// Each literal stands in `src`, and no two of them overlap.
pub open spec fn are_in_place(src: Seq<char>, macros: Seq<MacroView>) -> bool {
    &&& forall|i: int, a: int|
        0 <= i < macros.len() && 0 <= a < macros[i].tokens.len() ==> (
        #[trigger] macros[i].tokens[a] matches TokenView::Literal(l) ==> is_place(src, l.start)
            && is_place(src, l.end))
    &&& forall|i: int, a: int, j: int, b: int|
        0 <= i < macros.len() && 0 <= a < macros[i].tokens.len() && 0 <= j < macros.len() && 0 <= b
            < macros[j].tokens.len() && (i != j || a != b) ==> (
        #[trigger] macros[i].tokens[a] matches TokenView::Literal(l) ==> (
        #[trigger] macros[j].tokens[b] matches TokenView::Literal(m) ==> are_clear(l, m)))
}

/// Collects macro invocations.
struct MacroCollector {
    calls: Vec<MacroCall>,
}

impl<'ast> Visit<'ast> for MacroCollector {
    /// Takes the invocation down as plain values and lets `syn::visit::visit_macro`
    /// go on.
    #[verifier::external_body]
    fn visit_macro(&mut self, m: &'ast syn::Macro) {
        let name = m.path.segments.last().map(|segment| segment.ident.to_string());
        let mut tokens: Vec<Token> = Vec::new();
        push_tokens(&mut tokens, m.tokens.clone());
        self.calls.push(MacroCall { name, tokens });
        syn::visit::visit_macro(self, m);
    }
}

/// `syn::Macro`, one macro invocation in a syntax tree.
#[verifier::external_type_specification]
#[verifier::external_body]
pub struct ExSynMacro(syn::Macro);

/// `proc_macro2::TokenStream`, the tokens of a macro invocation or of a group.
#[verifier::external_type_specification]
#[verifier::external_body]
pub struct ExTokenStream(TokenStream);

/// Takes the trees of a `proc_macro2::TokenStream` down as plain values, one after the
/// other.
#[verifier::external_body]
fn push_tokens(out: &mut Vec<Token>, stream: TokenStream) {
    for tree in stream {
        match tree {
            TokenTree::Group(g) => {
                out.push(Token::Open);
                push_tokens(out, g.stream());
                out.push(Token::Close);
            },
            TokenTree::Ident(i) => out.push(Token::Ident(i.to_string())),
            TokenTree::Punct(p) => out.push(Token::Punct(p.as_char())),
            TokenTree::Literal(l) => out.push(Token::Literal(literal_token(&l))),
        }
    }
}

/// `proc_macro2::Literal`, a literal token.
#[verifier::external_type_specification]
#[verifier::external_body]
pub struct ExLiteral(proc_macro2::Literal);

/// Takes a `proc_macro2::Literal` and its span down as plain values.
#[verifier::external_body]
fn literal_token(l: &proc_macro2::Literal) -> LiteralToken {
    let (start, end) = (l.span().start(), l.span().end());
    LiteralToken {
        text: l.to_string(),
        start: Position { line: start.line, column: start.column },
        end: Position { line: end.line, column: end.column },
    }
}

/// Parses `src` with `syn::parse_file` and walks the file with `syn::visit::Visit`.
/// Claimed: the outcome is a function of the text alone, so that two reads of one text
/// agree; each literal starts and ends at a place in the text, for `proc-macro2` counts
/// lines by line feeds and columns in characters from the start of the line; and no two
/// literals overlap, for each is a token of its own. (`syn` leaves a byte order mark out
/// and empties the line of a shebang, which moves columns of the first line to the left.)
/// What the outcome is on a given text is left unsaid: that would be the grammar of Rust.
/// `proc-macro2` numbers the characters that a thread has read; the numbers start anew
/// for each text, which ends the use of all spans that the thread got before. Inside a
/// procedural macro that is not possible, and the call panics.
#[verifier::external_body]
pub(crate) fn read_macros(src: &str) -> (r: Result<Vec<MacroCall>, String>)
    requires
        source_fits(src@),
    ensures
        read_view(r) == parsed_source(src@),
        r matches Ok(macros) ==> are_in_place(src@, macro_views(macros@)),
{
    invalidate_current_thread_spans();
    let parsed = syn::parse_file(src);
    let mut collector = MacroCollector { calls: Vec::new() };
    let r = match parsed {
        Ok(file) => {
            collector.visit_file(&file);
            Ok(collector.calls)
        },
        Err(e) => Err(e.to_string()),
    };
    invalidate_current_thread_spans();
    r
}

} // verus!
