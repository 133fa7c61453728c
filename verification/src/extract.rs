//! Locating `sqlx::query*!` macros and the byte span of their SQL string-literal
//! argument.
use crate::syntax::{
    are_clear, are_in_place, comes_before, is_place, macro_views, parsed_source, read_macros,
    source_fits, token_views, LiteralToken, LiteralView, MacroCall, MacroView, Position, Token,
    TokenView,
};
use crate::text::{
    byte_count, byte_len, byte_slice, char_at_byte, chars_of, lemma_byte_len_prefix,
    lemma_byte_len_step, lemma_byte_len_utf8, lemma_run_len, lemma_starts_at, lemma_utf8_add,
    not_newline, run_len, same_chars, spells, starts_at, text_of, width_of,
};
use vstd::prelude::*;
use vstd::slice::slice_subrange;
use vstd::utf8::encode_utf8;

verus! {

/// One inline SQL literal located in a source file.
#[derive(Debug, Clone)]
pub struct QueryLiteral {
    /// Byte range of the literal token (with its delimiters) in the source.
    pub start_byte: usize,
    pub end_byte: usize,
    /// 1-based line where the literal token starts (for diagnostics).
    pub line: usize,
    /// Exact source text of the literal, e.g. `r#"SELECT 1"#`.
    pub text: String,
}

/// The value of a [`QueryLiteral`].
pub struct QueryView {
    pub start_byte: int,
    pub end_byte: int,
    pub line: int,
    pub text: Seq<char>,
}

impl View for QueryLiteral {
    type V = QueryView;

    open spec fn view(&self) -> QueryView {
        QueryView {
            start_byte: self.start_byte as int,
            end_byte: self.end_byte as int,
            line: self.line as int,
            text: self.text@,
        }
    }
}

/// The values of the literals in `queries`.
pub open spec fn query_views(queries: Seq<QueryLiteral>) -> Seq<QueryView> {
    Seq::new(queries.len(), |i: int| queries[i]@)
}

// ---------------------------------------------------------------------------
// Which macros, which tokens
// ---------------------------------------------------------------------------

/// The macros whose SQL is looked at.
pub open spec fn is_query_name(name: Seq<char>) -> bool {
    ||| name == "query"@
    ||| name == "query_as"@
    ||| name == "query_scalar"@
    ||| name == "query_unchecked"@
    ||| name == "query_as_unchecked"@
    ||| name == "query_scalar_unchecked"@
}

/// Starting as a string literal does: `"`, `r"` or `r#`.
pub open spec fn is_string_token(text: Seq<char>) -> bool {
    ||| text.len() >= 1 && text[0] == '"'
    ||| text.len() >= 2 && text[0] == 'r' && (text[1] == '"' || text[1] == '#')
}

/// The macros that take a type before the SQL.
pub open spec fn takes_type(name: Seq<char>) -> bool {
    name == "query_as"@ || name == "query_as_unchecked"@
}

/// The argument that ends before the `i`-th token ends there: at a comma, or with all
/// arguments.
pub open spec fn ends_argument(tokens: Seq<TokenView>, i: int) -> bool {
    i >= tokens.len() || tokens[i] == TokenView::Punct(',') || tokens[i] == TokenView::Close
}

/// The index after the first comma from the `i`-th token on that stands in no group and,
/// as type arguments do, in no angle brackets. `depth` and `angles` say in how many of
/// them the `i`-th token stands. The `>` of an arrow closes none.
pub open spec fn after_comma(tokens: Seq<TokenView>, i: int, depth: nat, angles: nat) -> Option<int>
    decreases tokens.len() - i,
{
    if i < 0 || i >= tokens.len() {
        None
    } else {
        match tokens[i] {
            TokenView::Open => after_comma(tokens, i + 1, depth + 1, angles),
            TokenView::Close => if depth == 0 {
                None
            } else {
                after_comma(tokens, i + 1, (depth - 1) as nat, angles)
            },
            TokenView::Punct(c) => if depth > 0 {
                after_comma(tokens, i + 1, depth, angles)
            } else if c == ',' && angles == 0 {
                Some(i + 1)
            } else if c == '<' {
                after_comma(tokens, i + 1, depth, angles + 1)
            } else if c == '>' && angles > 0 && !(i > 0 && tokens[i - 1] == TokenView::Punct('-')) {
                after_comma(tokens, i + 1, depth, (angles - 1) as nat)
            } else {
                after_comma(tokens, i + 1, depth, angles)
            },
            _ => after_comma(tokens, i + 1, depth, angles),
        }
    }
}

/// A string literal stands at the `p`-th token.
pub open spec fn is_string_at(tokens: Seq<TokenView>, p: int) -> bool {
    0 <= p < tokens.len() && (tokens[p] matches TokenView::Literal(l) && is_string_token(l.text))
}

/// The index of the string literal that is the whole argument starting at the `p`-th
/// token, or its value where the argument is named `source`.
pub open spec fn string_index(tokens: Seq<TokenView>, p: int) -> Option<int> {
    if is_string_at(tokens, p) && ends_argument(tokens, p + 1) {
        Some(p)
    } else if 0 <= p && p + 2 < tokens.len() && tokens[p] == TokenView::Ident("source"@)
        && tokens[p + 1] == TokenView::Punct('=') && is_string_at(tokens, p + 2) && ends_argument(
        tokens,
        p + 3,
    ) {
        Some(p + 2)
    } else {
        None
    }
}

/// The index of the SQL literal of a call of the macro `name` whose arguments start at the
/// `i`-th token: the first argument, or the second after a type. There is none where the
/// SQL is anything but one string literal.
pub open spec fn sql_index(tokens: Seq<TokenView>, i: int, name: Seq<char>) -> Option<int> {
    match (string_index(tokens, i), after_comma(tokens, i, 0, 0)) {
        (Some(k), _) => Some(k),
        (None, Some(p)) => if takes_type(name) {
            string_index(tokens, p)
        } else {
            None
        },
        (None, None) => None,
    }
}

/// The index of the SQL literal of the call of a query macro that starts at the `i`-th
/// token.
pub open spec fn call_index(tokens: Seq<TokenView>, i: int) -> Option<int> {
    if 0 <= i && i + 2 < tokens.len() && tokens[i + 1] == TokenView::Punct('!') && tokens[i + 2]
        == TokenView::Open {
        match tokens[i] {
            TokenView::Ident(name) => if is_query_name(name) {
                sql_index(tokens, i + 3, name)
            } else {
                None
            },
            _ => None,
        }
    } else {
        None
    }
}

/// `found` and, where it is there, one more index.
pub open spec fn with_index(found: Seq<int>, k: Option<int>) -> Seq<int> {
    match k {
        Some(k) => found.push(k),
        None => found,
    }
}

/// The indices of the SQL literals of the calls of query macros that start before the
/// `n`-th token, in the order of the calls.
pub open spec fn call_indices(tokens: Seq<TokenView>, n: nat) -> Seq<int>
    decreases n,
{
    if n == 0 {
        Seq::empty()
    } else {
        with_index(call_indices(tokens, (n - 1) as nat), call_index(tokens, n - 1))
    }
}

/// The index of the SQL literal of an invocation itself.
pub open spec fn own_index(m: MacroView) -> Option<int> {
    match m.name {
        Some(name) => if is_query_name(name) {
            sql_index(m.tokens, 0, name)
        } else {
            None
        },
        None => None,
    }
}

/// The indices of the SQL literals in an invocation: its own, and those of the calls among
/// its tokens.
pub open spec fn sql_indices(m: MacroView) -> Seq<int> {
    with_index(Seq::empty(), own_index(m)) + call_indices(m.tokens, m.tokens.len())
}

/// The literals at the given indices.
pub open spec fn literals_at(tokens: Seq<TokenView>, indices: Seq<int>) -> Seq<LiteralView> {
    Seq::new(indices.len(), |k: int| tokens[indices[k]]->Literal_0)
}

/// The SQL literals in an invocation.
pub open spec fn sql_literals(m: MacroView) -> Seq<LiteralView> {
    literals_at(m.tokens, sql_indices(m))
}

// ---------------------------------------------------------------------------
// Places
// ---------------------------------------------------------------------------

/// The index of the character right after the first `n` line feeds.
pub open spec fn after_newlines(s: Seq<char>, n: nat) -> Option<int>
    decreases n,
{
    if n == 0 {
        Some(0)
    } else {
        let r = run_len(s, not_newline()) as int;
        if r >= s.len() {
            None
        } else {
            match after_newlines(s.skip(r + 1), (n - 1) as nat) {
                Some(k) => Some(r + 1 + k),
                None => None,
            }
        }
    }
}

/// The index of the character at `p`, or the number of characters where the
/// column lies past the end of the text. Nothing where there is no such line.
pub open spec fn char_of_position(s: Seq<char>, p: Position) -> Option<int> {
    if p.line == 0 {
        None
    } else {
        match after_newlines(s, (p.line - 1) as nat) {
            Some(start) => Some(
                if start + p.column <= s.len() {
                    start + p.column
                } else {
                    s.len() as int
                },
            ),
            None => None,
        }
    }
}

/// The literal `l` as a part of `src`.
pub open spec fn located(src: Seq<char>, l: LiteralView) -> Option<QueryView> {
    match (char_of_position(src, l.start), char_of_position(src, l.end)) {
        (Some(a), Some(b)) => if a <= b {
            Some(
                QueryView {
                    start_byte: byte_len(src.take(a)) as int,
                    end_byte: byte_len(src.take(b)) as int,
                    line: l.start.line as int,
                    text: src.subrange(a, b),
                },
            )
        } else {
            None
        },
        _ => None,
    }
}

/// The given literals, located, in their order.
pub open spec fn all_located(src: Seq<char>, literals: Seq<LiteralView>) -> Seq<QueryView>
    decreases literals.len(),
{
    if literals.len() == 0 {
        Seq::empty()
    } else {
        let before = all_located(src, literals.drop_last());
        match located(src, literals.last()) {
            Some(q) => before.push(q),
            None => before,
        }
    }
}

/// The located SQL literals of the given invocations, in their order.
pub open spec fn queries_in(src: Seq<char>, macros: Seq<MacroView>) -> Seq<QueryView>
    decreases macros.len(),
{
    if macros.len() == 0 {
        Seq::empty()
    } else {
        queries_in(src, macros.drop_last()) + all_located(src, sql_literals(macros.last()))
    }
}

/// `query` occurs somewhere in `s`.
pub open spec fn mentions_query(s: Seq<char>) -> bool {
    exists|i: int| 0 <= i <= s.len() - 5 && #[trigger] s.subrange(i, i + 5) == "query"@
}

/// What [`extract_checked`] gives.
pub open spec fn extracted(src: Seq<char>) -> Result<Seq<QueryView>, Seq<char>> {
    if !mentions_query(src) {
        Ok(Seq::empty())
    } else {
        match parsed_source(src) {
            Ok(macros) => Ok(queries_in(src, macros)),
            Err(e) => Err(e),
        }
    }
}

/// What [`extract`] gives: nothing for a file that does not parse.
pub open spec fn extracted_or_none(src: Seq<char>) -> Seq<QueryView> {
    match extracted(src) {
        Ok(qs) => qs,
        Err(_) => Seq::empty(),
    }
}

// ---------------------------------------------------------------------------
// Functions
// ---------------------------------------------------------------------------

/// Extracts every inline query literal. Returns empty (not an error) if the file
/// does not parse; use [`extract_checked`] to tell "no queries" from "file didn't
/// parse", so that callers can warn instead of silently skipping.
pub fn extract(src: &str) -> (queries: Vec<QueryLiteral>)
    requires
        source_fits(src@),
    ensures
        query_views(queries@) == extracted_or_none(src@),
        are_placed(src@, query_views(queries@)),
        all_on_their_lines(src@, query_views(queries@)),
{
    match extract_checked(src) {
        Ok(queries) => queries,
        Err(_) => {
            let queries: Vec<QueryLiteral> = Vec::new();
            assert(query_views(queries@) == Seq::<QueryView>::empty());
            queries
        },
    }
}

/// Like [`extract`], but returns the parse error so that callers can warn that a
/// whole file was skipped (rather than hiding its queries).
pub fn extract_checked(src: &str) -> (r: Result<Vec<QueryLiteral>, String>)
    requires
        source_fits(src@),
    ensures
        match extracted(src@) {
            Ok(qs) => r matches Ok(v) && query_views(v@) == qs,
            Err(e) => r matches Err(m) && m@ == e,
        },
        r matches Ok(v) ==> are_placed(src@, query_views(v@)) && all_on_their_lines(
            src@,
            query_views(v@),
        ),
{
    // Every supported macro name contains "query", so a file without that text
    // has no inline SQL and need not be parsed at all.
    if !has_query(src) {
        let none: Vec<QueryLiteral> = Vec::new();
        assert(query_views(none@) == Seq::<QueryView>::empty());
        return Ok(none);
    }
    match read_macros(src) {
        Ok(macros) => {
            proof {
                lemma_queries_are_placed(src@, macro_views(macros@));
            }
            Ok(locate_queries(src, &macros))
        },
        Err(e) => Err(e),
    }
}

/// Whether `query` occurs in `src`.
fn has_query(src: &str) -> (b: bool)
    ensures
        b == mentions_query(src@),
{
    let chars = chars_of(src);
    let word = chars_of("query");
    proof {
        reveal_strlit("query");
    }
    let len: usize = chars.len();
    if len < 5 {
        return false;
    }
    let mut i: usize = 0;
    while i <= len - 5
        invariant
            len == chars.len(),
            len >= 5,
            i <= len - 4,
            chars@ == src@,
            word@ == "query"@,
            forall|j: int| 0 <= j < i ==> #[trigger] src@.subrange(j, j + 5) != "query"@,
        decreases len - i,
    {
        if same_chars(slice_subrange(chars.as_slice(), i, i + 5), word.as_slice()) {
            assert(src@.subrange(i as int, i + 5) == "query"@);
            return true;
        }
        i += 1;
    }
    false
}

/// Finds the SQL literals of `macros`, which were read from `src`.
pub fn locate_queries(src: &str, macros: &Vec<MacroCall>) -> (queries: Vec<QueryLiteral>)
    ensures
        query_views(queries@) == queries_in(src@, macro_views(macros@)),
{
    let index = LineIndex::new(src);
    let mut queries: Vec<QueryLiteral> = Vec::new();
    let count: usize = macros.len();
    assert(macro_views(macros@).take(0) == Seq::<MacroView>::empty());
    assert(query_views(queries@) == Seq::<QueryView>::empty());
    for i in 0..count
        invariant
            count == macros.len(),
            index.wf(src@),
            query_views(queries@) == queries_in(src@, macro_views(macros@).take(i as int)),
    {
        let ghost upto = macro_views(macros@).take(i + 1);
        let ghost before = query_views(queries@);
        proof {
            assert(upto.drop_last() == macro_views(macros@).take(i as int));
            assert(upto.last() == macros[i as int]@);
        }
        let literals = sql_of_macro(&macros[i]);
        let mut found = index.locate_all(&literals, Ghost(src@));
        let ghost more = query_views(found@);
        queries.append(&mut found);
        assert(query_views(queries@) == before + more);
    }
    assert(macro_views(macros@).take(count as int) == macro_views(macros@));
    queries
}

/// The values of the literals in `literals`.
pub open spec fn literal_views(literals: Seq<&LiteralToken>) -> Seq<LiteralView> {
    Seq::new(literals.len(), |i: int| literals[i]@)
}

/// Whether `name` is that of a query macro.
pub fn is_query_macro(name: &str) -> (b: bool)
    ensures
        b == is_query_name(name@),
{
    let name = chars_of(name);
    spells(&name, "query") || spells(&name, "query_as") || spells(&name, "query_scalar") || spells(
        &name,
        "query_unchecked",
    ) || spells(&name, "query_as_unchecked") || spells(&name, "query_scalar_unchecked")
}

/// Whether the macro `name` takes a type before the SQL.
fn is_typed(name: &str) -> (b: bool)
    ensures
        b == takes_type(name@),
{
    let name = chars_of(name);
    spells(&name, "query_as") || spells(&name, "query_as_unchecked")
}

/// Whether `token` is the punctuation character `c`.
fn is_punct(token: &Token, c: char) -> (b: bool)
    ensures
        b == (token@ == TokenView::Punct(c)),
{
    match token {
        Token::Punct(p) => *p == c,
        _ => false,
    }
}

/// The index after the comma that ends the argument starting at the `from`-th token.
fn next_argument(tokens: &Vec<Token>, from: usize) -> (r: Option<usize>)
    requires
        from <= tokens@.len(),
    ensures
        match after_comma(token_views(tokens@), from as int, 0, 0) {
            Some(p) => r matches Some(i) && i == p && i <= tokens@.len(),
            None => r is None,
        },
{
    let ghost views = token_views(tokens@);
    let ghost goal = after_comma(views, from as int, 0, 0);
    let mut i: usize = from;
    let mut depth: usize = 0;
    let mut angles: usize = 0;
    while i < tokens.len()
        invariant
            from <= i <= tokens.len(),
            depth <= i - from,
            angles <= i - from,
            views == token_views(tokens@),
            goal == after_comma(views, from as int, 0, 0),
            goal == after_comma(views, i as int, depth as nat, angles as nat),
        decreases tokens.len() - i,
    {
        assert(views[i as int] == tokens[i as int]@);
        if i > 0 {
            assert(views[i - 1] == tokens[i - 1]@);
        }
        match &tokens[i] {
            Token::Open => {
                depth += 1;
            },
            Token::Close => {
                if depth == 0 {
                    return None;
                }
                depth -= 1;
            },
            Token::Punct(c) => {
                let c = *c;
                if depth == 0 {
                    if c == ',' && angles == 0 {
                        return Some(i + 1);
                    } else if c == '<' {
                        angles += 1;
                    } else if c == '>' && angles > 0 && !(i > 0 && is_punct(&tokens[i - 1], '-')) {
                        angles -= 1;
                    }
                }
            },
            _ => {},
        }
        i += 1;
    }
    None
}

/// The string literal that is the whole argument starting at the `p`-th token, or its
/// value.
fn string_argument<'a>(tokens: &'a Vec<Token>, p: usize) -> (found: Option<&'a LiteralToken>)
    requires
        p <= tokens@.len(),
    ensures
        match string_index(token_views(tokens@), p as int) {
            Some(k) => found matches Some(t) && TokenView::Literal(t@) == token_views(tokens@)[k],
            None => found is None,
        },
{
    let ghost views = token_views(tokens@);
    if let Some(l) = whole_string(tokens, p) {
        return Some(l);
    }
    if tokens.len() - p <= 2 {
        return None;
    }
    assert(views[p as int] == tokens[p as int]@);
    assert(views[p + 1] == tokens[p + 1]@);
    let named = match &tokens[p] {
        Token::Ident(name) => spells(&chars_of(name.as_str()), "source"),
        _ => false,
    };
    if named && is_punct(&tokens[p + 1], '=') {
        whole_string(tokens, p + 2)
    } else {
        None
    }
}

/// The string literal at the `p`-th token, if an argument ends there.
fn whole_string<'a>(tokens: &'a Vec<Token>, p: usize) -> (found: Option<&'a LiteralToken>)
    requires
        p <= tokens@.len(),
    ensures
        match found {
            Some(t) => is_string_at(token_views(tokens@), p as int) && ends_argument(
                token_views(tokens@),
                p + 1,
            ) && TokenView::Literal(t@) == token_views(tokens@)[p as int],
            None => !(is_string_at(token_views(tokens@), p as int) && ends_argument(
                token_views(tokens@),
                p + 1,
            )),
        },
{
    let ghost views = token_views(tokens@);
    if p == tokens.len() {
        return None;
    }
    assert(views[p as int] == tokens[p as int]@);
    if p + 1 < tokens.len() {
        assert(views[p + 1] == tokens[p + 1]@);
        let ends = match &tokens[p + 1] {
            Token::Close => true,
            other => is_punct(other, ','),
        };
        if !ends {
            return None;
        }
    }
    match &tokens[p] {
        Token::Literal(l) => {
            let text = chars_of(l.text.as_str());
            if text.len() >= 1 && (text[0] == '"' || (text[0] == 'r' && text.len() >= 2 && (text[1]
                == '"' || text[1] == '#'))) {
                Some(l)
            } else {
                None
            }
        },
        _ => None,
    }
}

/// The SQL literal of a call of the macro `name` whose arguments start at the `from`-th
/// token: one string literal that is the whole SQL argument. A constant, a
/// concatenation or a bind argument is none.
pub fn first_string_literal<'a>(tokens: &'a Vec<Token>, from: usize, name: &str) -> (found: Option<
    &'a LiteralToken,
>)
    requires
        from <= tokens@.len(),
    ensures
        match sql_index(token_views(tokens@), from as int, name@) {
            Some(k) => found matches Some(t) && TokenView::Literal(t@) == token_views(tokens@)[k],
            None => found is None,
        },
{
    if let Some(l) = string_argument(tokens, from) {
        return Some(l);
    }
    if !is_typed(name) {
        return None;
    }
    match next_argument(tokens, from) {
        Some(p) => string_argument(tokens, p),
        None => None,
    }
}

/// The SQL literal of the call of a query macro that starts at the `i`-th token.
fn sql_of_call_at(tokens: &Vec<Token>, i: usize) -> (found: Option<&LiteralToken>)
    requires
        i < tokens@.len(),
    ensures
        match call_index(token_views(tokens@), i as int) {
            Some(k) => found matches Some(t) && TokenView::Literal(t@) == token_views(tokens@)[k],
            None => found is None,
        },
{
    let ghost views = token_views(tokens@);
    if tokens.len() - i <= 2 {
        return None;
    }
    assert(views[i as int] == tokens[i as int]@);
    assert(views[i + 1] == tokens[i + 1]@);
    assert(views[i + 2] == tokens[i + 2]@);
    let opens = match &tokens[i + 2] {
        Token::Open => true,
        _ => false,
    };
    if !opens || !is_punct(&tokens[i + 1], '!') {
        return None;
    }
    match &tokens[i] {
        Token::Ident(name) => {
            if is_query_macro(name.as_str()) {
                first_string_literal(tokens, i + 3, name.as_str())
            } else {
                None
            }
        },
        _ => None,
    }
}

/// The SQL literals in an invocation: its own, and those of the calls among its tokens.
fn sql_of_macro(m: &MacroCall) -> (found: Vec<&LiteralToken>)
    ensures
        literal_views(found@) == sql_literals(m@),
{
    let mut found: Vec<&LiteralToken> = Vec::new();
    let ghost views = token_views(m.tokens@);
    let ghost none = Seq::<int>::empty();
    assert(literal_views(found@) =~= literals_at(views, none));
    if let Some(name) = &m.name {
        if is_query_macro(name.as_str()) {
            if let Some(l) = first_string_literal(&m.tokens, 0, name.as_str()) {
                found.push(l);
                assert(literal_views(found@) =~= literals_at(views, with_index(none, own_index(m@))));
            }
        }
    }
    let ghost own = with_index(none, own_index(m@));
    assert(own + call_indices(views, 0) =~= own);
    let count: usize = m.tokens.len();
    for i in 0..count
        invariant
            count == m.tokens.len(),
            views == token_views(m.tokens@),
            literal_views(found@) == literals_at(views, own + call_indices(views, i as nat)),
    {
        let ghost before = literal_views(found@);
        let ghost upto = own + call_indices(views, i as nat);
        if let Some(l) = sql_of_call_at(&m.tokens, i) {
            let ghost k = call_index(views, i as int).unwrap();
            found.push(l);
            assert(literal_views(found@) =~= before.push(l@));
            assert(own + call_indices(views, i as nat).push(k) =~= upto.push(k));
            assert(literals_at(views, upto.push(k)) =~= before.push(l@));
        }
    }
    found
}

/// Where a line starts.
struct LineStart {
    /// The number of characters before it.
    at: usize,
    /// The number of bytes before it.
    byte: usize,
}

/// Maps (line, column) to a byte offset in the source.
struct LineIndex {
    chars: Vec<char>,
    /// The start of each line (line N at index N-1).
    line_starts: Vec<LineStart>,
}

impl LineIndex {
    /// The index belongs to `src`.
    closed spec fn wf(&self, src: Seq<char>) -> bool {
        &&& self.chars@ == src
        &&& byte_len(src) <= usize::MAX
        &&& self.line_starts@.len() >= 1
        &&& forall|i: int|
            0 <= i < self.line_starts@.len() ==> {
                let start = #[trigger] self.line_starts@[i];
                &&& after_newlines(src, i as nat) == Some(start.at as int)
                &&& start.at <= src.len()
                &&& start.byte == byte_len(src.take(start.at as int))
            }
        &&& forall|n: nat| n >= self.line_starts@.len() ==> #[trigger] after_newlines(src, n) is None
    }

    fn new(src: &str) -> (index: Self)
        ensures
            index.wf(src@),
    {
        let size: usize = byte_count(src);
        let chars = chars_of(src);
        let mut line_starts: Vec<LineStart> = Vec::new();
        line_starts.push(LineStart { at: 0, byte: 0 });
        let mut byte: usize = 0;
        proof {
            assert(src@.take(0) == Seq::<char>::empty());
            assert(src@.take(src@.len() as int) == src@);
            assert(count_newlines(src@.take(0)) == 0);
        }
        for i in 0..chars.len()
            invariant
                chars@ == src@,
                size == byte_len(src@),
                src@.take(src@.len() as int) == src@,
                byte == byte_len(src@.take(i as int)),
                line_starts@.len() == count_newlines(src@.take(i as int)) + 1,
                forall|j: int|
                    0 <= j < line_starts@.len() ==> {
                        let start = #[trigger] line_starts@[j];
                        &&& after_newlines(src@, j as nat) == Some(start.at as int)
                        &&& start.at <= src@.len()
                        &&& start.byte == byte_len(src@.take(start.at as int))
                    },
        {
            proof {
                lemma_byte_len_step(src@, i as int);
                lemma_byte_len_prefix(src@, i + 1, src@.len() as int);
                assert(src@.take(i + 1).drop_last() == src@.take(i as int));
            }
            byte = byte + width_of(chars[i]);
            if chars[i] == '\n' {
                proof {
                    lemma_after_newlines_at(src@, i as int);
                }
                line_starts.push(LineStart { at: i + 1, byte });
            }
        }
        proof {
            assert forall|n: nat| n >= line_starts@.len() implies #[trigger] after_newlines(
                src@,
                n,
            ) is None by {
                lemma_after_newlines_none(src@, n);
            }
        }
        LineIndex { chars, line_starts }
    }

    /// The index of the character at `p`, and its byte offset.
    fn offset(&self, p: Position, Ghost(src): Ghost<Seq<char>>) -> (r: Option<(usize, usize)>)
        requires
            self.wf(src),
        ensures
            match char_of_position(src, p) {
                Some(k) => r matches Some(o) && o.0 == k && o.0 <= src.len() && o.1 == byte_len(
                    src.take(k),
                ),
                None => r is None,
            },
    {
        if p.line == 0 || p.line > self.line_starts.len() {
            assert(p.line > 0 ==> after_newlines(src, (p.line - 1) as nat) is None);
            return None;
        }
        let start = &self.line_starts[p.line - 1];
        assert(self.line_starts@[p.line - 1] == *start);
        let mut k: usize = start.at;
        let mut byte: usize = start.byte;
        let len: usize = self.chars.len();
        let mut left: usize = p.column;
        proof {
            assert(src.take(src.len() as int) == src);
        }
        while left > 0 && k < len
            invariant
                len == src.len(),
                self.chars@ == src,
                byte_len(src) <= usize::MAX,
                src.take(src.len() as int) == src,
                start.at <= k <= len,
                k + left == start.at + p.column,
                byte == byte_len(src.take(k as int)),
            decreases left,
        {
            proof {
                lemma_byte_len_step(src, k as int);
                lemma_byte_len_prefix(src, k + 1, src.len() as int);
            }
            byte = byte + width_of(self.chars[k]);
            k += 1;
            left -= 1;
        }
        Some((k, byte))
    }

    /// The part of the source that the literal token `l` is.
    fn locate(&self, l: &LiteralToken, Ghost(src): Ghost<Seq<char>>) -> (q: Option<QueryLiteral>)
        requires
            self.wf(src),
        ensures
            match located(src, l@) {
                Some(v) => q matches Some(found) && found@ == v,
                None => q is None,
            },
    {
        let (a, start_byte) = match self.offset(l.start, Ghost(src)) {
            Some(o) => o,
            None => return None,
        };
        let (b, end_byte) = match self.offset(l.end, Ghost(src)) {
            Some(o) => o,
            None => return None,
        };
        if a > b {
            return None;
        }
        let text = text_of(slice_subrange(self.chars.as_slice(), a, b));
        Some(QueryLiteral { start_byte, end_byte, line: l.start.line, text })
    }

    /// The parts of the source that the literal tokens are.
    fn locate_all(&self, literals: &Vec<&LiteralToken>, Ghost(src): Ghost<Seq<char>>) -> (queries:
        Vec<QueryLiteral>)
        requires
            self.wf(src),
        ensures
            query_views(queries@) == all_located(src, literal_views(literals@)),
    {
        let mut queries: Vec<QueryLiteral> = Vec::new();
        let count: usize = literals.len();
        let ghost views = literal_views(literals@);
        assert(views.take(0) =~= Seq::<LiteralView>::empty());
        assert(query_views(queries@) =~= Seq::<QueryView>::empty());
        for i in 0..count
            invariant
                count == literals.len(),
                self.wf(src),
                views == literal_views(literals@),
                query_views(queries@) == all_located(src, views.take(i as int)),
        {
            let ghost upto = views.take(i + 1);
            let ghost before = query_views(queries@);
            proof {
                assert(upto.drop_last() =~= views.take(i as int));
                assert(upto.last() == literals[i as int]@);
            }
            if let Some(q) = self.locate(literals[i], Ghost(src)) {
                queries.push(q);
                assert(query_views(queries@) =~= before.push(q@));
            }
        }
        assert(views.take(count as int) =~= views);
        queries
    }
}

// ---------------------------------------------------------------------------
// Line starts
// ---------------------------------------------------------------------------

/// How many line feeds `s` holds.
pub open spec fn count_newlines(s: Seq<char>) -> nat
    decreases s.len(),
{
    if s.len() == 0 {
        0
    } else {
        count_newlines(s.drop_last()) + if s.last() == '\n' {
            1nat
        } else {
            0
        }
    }
}

/// The line feeds of two texts add up.
pub proof fn lemma_count_newlines_add(a: Seq<char>, b: Seq<char>)
    ensures
        count_newlines(a + b) == count_newlines(a) + count_newlines(b),
    decreases b.len(),
{
    if b.len() == 0 {
        assert(a + b == a);
    } else {
        lemma_count_newlines_add(a, b.drop_last());
        assert((a + b).drop_last() == a + b.drop_last());
    }
}

/// A text without line feeds holds none.
pub proof fn lemma_count_newlines_zero(s: Seq<char>)
    requires
        forall|i: int| 0 <= i < s.len() ==> s[i] != '\n',
    ensures
        count_newlines(s) == 0,
    decreases s.len(),
{
    if s.len() > 0 {
        lemma_count_newlines_zero(s.drop_last());
    }
}

/// The first line of `s` and its line feed hold one line feed.
proof fn lemma_first_line(s: Seq<char>, r: int)
    requires
        r == run_len(s, not_newline()),
        r < s.len(),
    ensures
        count_newlines(s.take(r + 1)) == 1,
        s.take(r + 1) + s.skip(r + 1) == s,
{
    lemma_run_len(s, not_newline());
    assert(s.take(r + 1).drop_last() == s.take(r));
    assert forall|i: int| 0 <= i < s.take(r).len() implies s.take(r)[i] != '\n' by {
        assert(not_newline()(s[i]));
    }
    lemma_count_newlines_zero(s.take(r));
}

/// After the line feed at `i` starts the line that follows all line feeds up to it.
proof fn lemma_after_newlines_at(s: Seq<char>, i: int)
    requires
        0 <= i < s.len(),
        s[i] == '\n',
    ensures
        after_newlines(s, (count_newlines(s.take(i)) + 1) as nat) == Some(i + 1),
    decreases s.len(),
{
    lemma_run_len(s, not_newline());
    let r = run_len(s, not_newline()) as int;
    assert(r <= i) by {
        if i < r {
            assert(not_newline()(s[i]));
        }
    }
    if r == i {
        assert forall|j: int| 0 <= j < s.take(i).len() implies s.take(i)[j] != '\n' by {
            assert(not_newline()(s[j]));
        }
        lemma_count_newlines_zero(s.take(i));
        assert(after_newlines(s.skip(r + 1), 0) == Some(0int));
    } else {
        let rest = s.skip(r + 1);
        lemma_after_newlines_at(rest, i - r - 1);
        lemma_first_line(s, r);
        assert(s.take(r + 1) + rest.take(i - r - 1) == s.take(i));
        lemma_count_newlines_add(s.take(r + 1), rest.take(i - r - 1));
    }
}

/// There are no more lines than line feeds, and one.
proof fn lemma_after_newlines_none(s: Seq<char>, n: nat)
    requires
        n > count_newlines(s),
    ensures
        after_newlines(s, n) is None,
    decreases n,
{
    lemma_run_len(s, not_newline());
    let r = run_len(s, not_newline()) as int;
    if r < s.len() {
        lemma_first_line(s, r);
        lemma_count_newlines_add(s.take(r + 1), s.skip(r + 1));
        lemma_after_newlines_none(s.skip(r + 1), (n - 1) as nat);
    }
}

// ---------------------------------------------------------------------------
// Laws
// ---------------------------------------------------------------------------

/// The byte range of `q` is a part of `src` between characters, and holds the
/// text of `q`.
pub open spec fn is_part_of(q: QueryView, src: Seq<char>) -> bool {
    byte_slice(src, q.start_byte, q.end_byte) == Some(q.text)
}

/// A literal that was located is the part of the source that its byte range says.
proof fn lemma_located(src: Seq<char>, l: LiteralView)
    ensures
        located(src, l) matches Some(q) ==> is_part_of(q, src),
{
    if let (Some(a), Some(b)) = (char_of_position(src, l.start), char_of_position(src, l.end)) {
        lemma_after_newlines_in(src, (l.start.line - 1) as nat);
        lemma_after_newlines_in(src, (l.end.line - 1) as nat);
        lemma_starts_at(src, a, byte_len(src.take(a)) as int);
        lemma_starts_at(src, b, byte_len(src.take(b)) as int);
    }
}

/// A line starts inside the text or at its end.
proof fn lemma_after_newlines_in(s: Seq<char>, n: nat)
    ensures
        after_newlines(s, n) matches Some(k) ==> 0 <= k <= s.len(),
    decreases n,
{
    if n > 0 {
        let r = run_len(s, not_newline()) as int;
        if r < s.len() {
            lemma_after_newlines_in(s.skip(r + 1), (n - 1) as nat);
        }
    }
}

/// Located literals are the parts of the source that their byte ranges say.
proof fn lemma_all_located(src: Seq<char>, literals: Seq<LiteralView>)
    ensures
        forall|i: int|
            0 <= i < all_located(src, literals).len() ==> is_part_of(
                #[trigger] all_located(src, literals)[i],
                src,
            ),
    decreases literals.len(),
{
    if literals.len() > 0 {
        lemma_all_located(src, literals.drop_last());
        lemma_located(src, literals.last());
        let before = all_located(src, literals.drop_last());
        assert forall|i: int| 0 <= i < all_located(src, literals).len() implies is_part_of(
            #[trigger] all_located(src, literals)[i],
            src,
        ) by {
            if i < before.len() {
                assert(all_located(src, literals)[i] == before[i]);
            }
        }
    }
}

/// Every extracted query is the part of the source that its byte range says,
/// whatever macros the source holds.
pub proof fn lemma_queries_are_parts(src: Seq<char>, macros: Seq<MacroView>)
    ensures
        forall|i: int|
            0 <= i < queries_in(src, macros).len() ==> is_part_of(
                #[trigger] queries_in(src, macros)[i],
                src,
            ),
    decreases macros.len(),
{
    if macros.len() > 0 {
        lemma_queries_are_parts(src, macros.drop_last());
        let before = queries_in(src, macros.drop_last());
        let more = all_located(src, sql_literals(macros.last()));
        lemma_all_located(src, sql_literals(macros.last()));
        assert forall|i: int| 0 <= i < queries_in(src, macros).len() implies is_part_of(
            #[trigger] queries_in(src, macros)[i],
            src,
        ) by {
            if i < before.len() {
                assert(queries_in(src, macros)[i] == before[i]);
            } else {
                assert(queries_in(src, macros)[i] == more[i - before.len()]);
            }
        }
    }
}

/// The bytes of the source between `start_byte` and `end_byte` are those of `text`.
pub proof fn lemma_part_bytes(q: QueryView, src: Seq<char>)
    requires
        is_part_of(q, src),
    ensures
        0 <= q.start_byte <= q.end_byte <= encode_utf8(src).len(),
        encode_utf8(src).subrange(q.start_byte, q.end_byte) == encode_utf8(q.text),
{
    let a = char_at_byte(src, q.start_byte).unwrap();
    let b = char_at_byte(src, q.end_byte).unwrap();
    assert(starts_at(src, a, q.start_byte));
    assert(starts_at(src, b, q.end_byte));
    let head = src.take(a);
    let tail = src.skip(b);
    assert(head + q.text == src.take(b));
    assert(src.take(b) + tail == src);
    lemma_utf8_add(head, q.text);
    lemma_utf8_add(src.take(b), tail);
    lemma_byte_len_utf8(head);
    lemma_byte_len_utf8(src.take(b));
    assert(encode_utf8(src).subrange(q.start_byte, q.end_byte) =~= encode_utf8(q.text));
}

/// The byte range of every query that [`extract`] returns is exact.
pub proof fn lemma_extracted_spans_are_exact(src: Seq<char>, i: int)
    requires
        0 <= i < extracted_or_none(src).len(),
    ensures
        ({
            let q = extracted_or_none(src)[i];
            &&& 0 <= q.start_byte <= q.end_byte <= encode_utf8(src).len()
            &&& encode_utf8(src).subrange(q.start_byte, q.end_byte) == encode_utf8(q.text)
        }),
{
    if let Ok(macros) = parsed_source(src) {
        lemma_queries_are_parts(src, macros);
        lemma_part_bytes(extracted_or_none(src)[i], src);
    }
}

/// No query macro is missed for want of the text `query`: every name looked for
/// holds it.
pub proof fn lemma_query_names_mention_query(name: Seq<char>)
    requires
        is_query_name(name),
    ensures
        mentions_query(name),
{
    reveal_strlit("query");
    reveal_strlit("query_as");
    reveal_strlit("query_scalar");
    reveal_strlit("query_unchecked");
    reveal_strlit("query_as_unchecked");
    reveal_strlit("query_scalar_unchecked");
    let i = 0int;
    assert(name.subrange(i, i + 5) == "query"@);
}

/// More tokens do not move the end of an argument.
proof fn lemma_after_comma_in_longer(
    tokens: Seq<TokenView>,
    more: Seq<TokenView>,
    i: int,
    depth: nat,
    angles: nat,
)
    ensures
        after_comma(tokens, i, depth, angles) matches Some(p) ==> 0 <= p <= tokens.len()
            && after_comma(tokens + more, i, depth, angles) == Some(p),
    decreases tokens.len() - i,
{
    if 0 <= i < tokens.len() {
        let all = tokens + more;
        assert(all[i] == tokens[i]);
        if i > 0 {
            assert(all[i - 1] == tokens[i - 1]);
        }
        lemma_after_comma_in_longer(tokens, more, i + 1, depth + 1, angles);
        lemma_after_comma_in_longer(tokens, more, i + 1, depth, angles);
        lemma_after_comma_in_longer(tokens, more, i + 1, depth, angles + 1);
        if depth > 0 {
            lemma_after_comma_in_longer(tokens, more, i + 1, (depth - 1) as nat, angles);
        }
        if angles > 0 {
            lemma_after_comma_in_longer(tokens, more, i + 1, depth, (angles - 1) as nat);
        }
    }
}

/// The arguments after the SQL, such as bind arguments, do not matter: a call has the
/// same SQL literal with and without them.
pub proof fn lemma_bind_arguments_do_not_matter(
    tokens: Seq<TokenView>,
    more: Seq<TokenView>,
    name: Seq<char>,
)
    requires
        sql_index(tokens, 0, name) is Some,
        more.len() > 0 ==> more[0] == TokenView::Punct(','),
    ensures
        sql_index(tokens + more, 0, name) == sql_index(tokens, 0, name),
        (tokens + more)[sql_index(tokens, 0, name).unwrap()] == tokens[sql_index(
            tokens,
            0,
            name,
        ).unwrap()],
{
    lemma_after_comma_in_longer(tokens, more, 0, 0, 0);
    lemma_string_in_longer(tokens, more, 0);
    if string_index(tokens, 0) is None {
        let p = after_comma(tokens, 0, 0, 0).unwrap();
        lemma_string_in_longer(tokens, more, p);
        lemma_no_string_in_longer(tokens, more, p);
    }
}

/// More arguments do not change a string argument.
proof fn lemma_string_in_longer(tokens: Seq<TokenView>, more: Seq<TokenView>, p: int)
    requires
        more.len() > 0 ==> more[0] == TokenView::Punct(','),
    ensures
        string_index(tokens, p) matches Some(k) ==> string_index(tokens + more, p) == Some(k)
            && (tokens + more)[k] == tokens[k],
{
    let all = tokens + more;
    assert forall|i: int| 0 <= i < tokens.len() implies #[trigger] all[i] == tokens[i] by {}
    if more.len() > 0 {
        assert(all[tokens.len() as int] == more[0]);
    }
}

/// Where an argument that ends in a comma is no string, more tokens do not make it one.
proof fn lemma_no_string_in_longer(tokens: Seq<TokenView>, more: Seq<TokenView>, p: int)
    requires
        after_comma(tokens, 0, 0, 0) == Some(p),
        string_index(tokens, 0) is None,
    ensures
        string_index(tokens + more, 0) is None,
{
    let all = tokens + more;
    lemma_after_comma_in_longer(tokens, more, 0, 0, 0);
    lemma_comma_before(tokens, 0, 0, 0);
    assert forall|i: int| 0 <= i < tokens.len() implies #[trigger] all[i] == tokens[i] by {}
    if let Some(k) = string_index(all, 0) {
        // The argument ends in the comma, if not before it.
        if k + 1 >= tokens.len() {
            assert(tokens[p - 1] == TokenView::Punct(','));
            assert(p - 1 < tokens.len());
        }
    }
}

/// What comes before the end of an argument is a comma.
proof fn lemma_comma_before(tokens: Seq<TokenView>, i: int, depth: nat, angles: nat)
    ensures
        after_comma(tokens, i, depth, angles) matches Some(p) ==> i < p <= tokens.len() && tokens[p
            - 1] == TokenView::Punct(','),
    decreases tokens.len() - i,
{
    if 0 <= i < tokens.len() {
        lemma_comma_before(tokens, i + 1, depth + 1, angles);
        lemma_comma_before(tokens, i + 1, depth, angles);
        lemma_comma_before(tokens, i + 1, depth, angles + 1);
        if depth > 0 {
            lemma_comma_before(tokens, i + 1, (depth - 1) as nat, angles);
        }
        if angles > 0 {
            lemma_comma_before(tokens, i + 1, depth, (angles - 1) as nat);
        }
    }
}

/// A string literal is taken for SQL only where it is a whole argument, and the first or,
/// after a type, the second: otherwise a call has no SQL literal, whatever strings follow.
pub proof fn lemma_bind_literals_are_no_sql(tokens: Seq<TokenView>, name: Seq<char>)
    requires
        string_index(tokens, 0) is None,
        takes_type(name) ==> (after_comma(tokens, 0, 0, 0) matches Some(p) ==> string_index(
            tokens,
            p,
        ) is None),
    ensures
        sql_index(tokens, 0, name) is None,
{
}

// ---------------------------------------------------------------------------
// Queries in place
// ---------------------------------------------------------------------------

/// The two queries share no byte.
pub open spec fn apart(q: QueryView, r: QueryView) -> bool {
    q.end_byte <= r.start_byte || r.end_byte <= q.start_byte
}

/// No two of the queries share a byte.
pub open spec fn are_apart(queries: Seq<QueryView>) -> bool {
    forall|i: int, j: int| 0 <= i < j < queries.len() ==> #[trigger] apart(queries[i], queries[j])
}

/// The queries are different parts of `src`.
pub open spec fn are_placed(src: Seq<char>, queries: Seq<QueryView>) -> bool {
    &&& forall|i: int| 0 <= i < queries.len() ==> is_part_of(#[trigger] queries[i], src)
    &&& are_apart(queries)
}

/// `q` starts on the line that it tells.
pub open spec fn starts_on_its_line(src: Seq<char>, q: QueryView) -> bool {
    q.line == count_newlines(src.take(char_at_byte(src, q.start_byte).unwrap())) + 1
}

/// Every query starts on the line that it tells.
pub open spec fn all_on_their_lines(src: Seq<char>, queries: Seq<QueryView>) -> bool {
    forall|i: int| 0 <= i < queries.len() ==> starts_on_its_line(src, #[trigger] queries[i])
}

/// The index of the token that opens the innermost group around the `p`-th token.
spec fn group_of(tokens: Seq<TokenView>, p: int) -> int
    decreases p,
{
    if p <= 0 || p > tokens.len() {
        -1
    } else {
        match tokens[p - 1] {
            TokenView::Open => p - 1,
            TokenView::Close => {
                let o = group_of(tokens, p - 1);
                if 0 <= o < p {
                    group_of(tokens, o)
                } else {
                    -1
                }
            },
            _ => group_of(tokens, p - 1),
        }
    }
}

/// A group is opened before what stands in it.
proof fn lemma_group_before(tokens: Seq<TokenView>, p: int)
    ensures
        -1 <= group_of(tokens, p),
        p >= 0 ==> group_of(tokens, p) < p,
    decreases p,
{
    if 0 < p <= tokens.len() {
        lemma_group_before(tokens, p - 1);
        if tokens[p - 1] is Close && group_of(tokens, p - 1) >= 0 {
            lemma_group_before(tokens, group_of(tokens, p - 1));
        }
    }
}

/// The index of the token that opens the group `depth` groups further out.
spec fn outer_group(tokens: Seq<TokenView>, p: int, depth: nat) -> int
    decreases depth,
{
    if depth == 0 {
        group_of(tokens, p)
    } else {
        outer_group(tokens, group_of(tokens, p), (depth - 1) as nat)
    }
}

/// An argument ends in the group in which it starts.
proof fn lemma_same_group(tokens: Seq<TokenView>, i: int, depth: nat, angles: nat)
    ensures
        after_comma(tokens, i, depth, angles) matches Some(p) ==> group_of(tokens, p)
            == outer_group(tokens, i, depth),
    decreases tokens.len() - i,
{
    if 0 <= i < tokens.len() {
        lemma_group_before(tokens, i);
        let o = group_of(tokens, i);
        lemma_same_group(tokens, i + 1, depth + 1, angles);
        lemma_same_group(tokens, i + 1, depth, angles);
        lemma_same_group(tokens, i + 1, depth, angles + 1);
        if depth > 0 {
            lemma_same_group(tokens, i + 1, (depth - 1) as nat, angles);
        }
        if angles > 0 {
            lemma_same_group(tokens, i + 1, depth, (angles - 1) as nat);
        }
        match tokens[i] {
            TokenView::Open => {
                assert(group_of(tokens, i + 1) == i);
                assert(outer_group(tokens, i + 1, depth + 1) == outer_group(tokens, i, depth));
            },
            TokenView::Close => {
                assert(group_of(tokens, i + 1) == group_of(tokens, o));
                if depth > 0 {
                    let d = (depth - 1) as nat;
                    assert(outer_group(tokens, i, depth) == outer_group(tokens, o, d));
                    assert(outer_group(tokens, i + 1, d) == outer_group(tokens, o, d));
                }
            },
            _ => {
                assert(group_of(tokens, i + 1) == o);
                assert(outer_group(tokens, i + 1, depth) == outer_group(tokens, i, depth));
            },
        }
    }
}

/// The SQL literal of a call stands in the group of its arguments.
proof fn lemma_sql_in_group(tokens: Seq<TokenView>, i: int, name: Seq<char>)
    requires
        0 <= i <= tokens.len(),
    ensures
        sql_index(tokens, i, name) matches Some(k) ==> 0 <= k < tokens.len() && tokens[k] is Literal
            && group_of(tokens, k) == group_of(tokens, i),
{
    lemma_same_group(tokens, i, 0, 0);
    lemma_string_in_group(tokens, i);
    if let Some(p) = after_comma(tokens, i, 0, 0) {
        lemma_comma_before(tokens, i, 0, 0);
        lemma_string_in_group(tokens, p);
    }
}

/// A string argument stands in the group in which it starts.
proof fn lemma_string_in_group(tokens: Seq<TokenView>, p: int)
    ensures
        string_index(tokens, p) matches Some(k) ==> 0 <= k < tokens.len() && tokens[k] is Literal
            && group_of(tokens, k) == group_of(tokens, p),
{
    if let Some(k) = string_index(tokens, p) {
        if k == p + 2 {
            assert(group_of(tokens, p + 1) == group_of(tokens, p));
            assert(group_of(tokens, p + 2) == group_of(tokens, p + 1));
        }
    }
}

/// No literal is the SQL of two calls.
proof fn lemma_calls_differ(tokens: Seq<TokenView>, n: nat)
    requires
        n <= tokens.len(),
    ensures
        ({
            let ks = call_indices(tokens, n);
            &&& forall|a: int|
                0 <= a < ks.len() ==> 0 <= #[trigger] ks[a] < tokens.len() && tokens[ks[a]] is Literal
                    && 0 <= group_of(tokens, ks[a]) < n + 2
            &&& forall|a: int, b: int|
                0 <= a < b < ks.len() ==> #[trigger] ks[a] != #[trigger] ks[b]
        }),
    decreases n,
{
    if n > 0 {
        lemma_calls_differ(tokens, (n - 1) as nat);
        let before = call_indices(tokens, (n - 1) as nat);
        if let Some(k) = call_index(tokens, n - 1) {
            if let TokenView::Ident(name) = tokens[n - 1] {
                lemma_sql_in_group(tokens, (n + 2) as int, name);
            }
            assert(group_of(tokens, (n + 2) as int) == n + 1);
            let ks = call_indices(tokens, n);
            assert forall|a: int, b: int| 0 <= a < b < ks.len() implies #[trigger] ks[a]
                != #[trigger] ks[b] by {
                if b == before.len() {
                    assert(ks[a] == before[a]);
                }
            }
        }
    }
}

/// The SQL literals of an invocation are different tokens.
proof fn lemma_indices_differ(m: MacroView)
    ensures
        ({
            let ks = sql_indices(m);
            &&& forall|a: int|
                0 <= a < ks.len() ==> 0 <= #[trigger] ks[a] < m.tokens.len()
                    && m.tokens[ks[a]] is Literal
            &&& forall|a: int, b: int|
                0 <= a < b < ks.len() ==> #[trigger] ks[a] != #[trigger] ks[b]
        }),
{
    let calls = call_indices(m.tokens, m.tokens.len());
    lemma_calls_differ(m.tokens, m.tokens.len());
    let own = with_index(Seq::empty(), own_index(m));
    let ks = sql_indices(m);
    if own_index(m) is Some {
        lemma_sql_in_group(m.tokens, 0, m.name.unwrap());
        assert(group_of(m.tokens, 0) == -1);
    }
    assert forall|a: int| 0 <= a < ks.len() implies 0 <= #[trigger] ks[a] < m.tokens.len()
        && m.tokens[ks[a]] is Literal by {
        if a >= own.len() {
            assert(ks[a] == calls[a - own.len()]);
        }
    }
    assert forall|a: int, b: int| 0 <= a < b < ks.len() implies #[trigger] ks[a]
        != #[trigger] ks[b] by {
        assert(ks[b] == calls[b - own.len()]);
        if a >= own.len() {
            assert(ks[a] == calls[a - own.len()]);
        }
    }
}

/// Places come in the order of their characters.
proof fn lemma_places_in_order(src: Seq<char>, p: Position, q: Position)
    requires
        is_place(src, p),
        is_place(src, q),
        comes_before(p, q),
    ensures
        char_of_position(src, p).unwrap() <= char_of_position(src, q).unwrap(),
{
    let a = after_newlines(src, (p.line - 1) as nat).unwrap();
    let b = after_newlines(src, (q.line - 1) as nat).unwrap();
    lemma_newlines_before_line(src, (p.line - 1) as nat);
    lemma_newlines_before_line(src, (q.line - 1) as nat);
    if p.line < q.line && b < a + p.column {
        // A later line does not start before the end of an earlier one.
        let run = src.subrange(a, a + p.column);
        lemma_count_newlines_zero(run);
        lemma_count_newlines_add(src.take(a), run);
        assert(src.take(a + p.column) =~= src.take(a) + run);
        lemma_count_newlines_add(src.take(b), src.subrange(b, a + p.column));
        assert(src.take(a + p.column) =~= src.take(b) + src.subrange(b, a + p.column));
    }
}

/// A line starts after as many line feeds as there are lines before it.
pub proof fn lemma_newlines_before_line(s: Seq<char>, n: nat)
    ensures
        after_newlines(s, n) matches Some(k) ==> 0 <= k <= s.len() && count_newlines(s.take(k))
            == n,
    decreases n,
{
    if n == 0 {
        assert(s.take(0) =~= Seq::<char>::empty());
    } else {
        lemma_run_len(s, not_newline());
        let r = run_len(s, not_newline()) as int;
        if r < s.len() {
            let rest = s.skip(r + 1);
            lemma_newlines_before_line(rest, (n - 1) as nat);
            if let Some(k) = after_newlines(rest, (n - 1) as nat) {
                lemma_first_line(s, r);
                assert(s.take(r + 1 + k) =~= s.take(r + 1) + rest.take(k));
                lemma_count_newlines_add(s.take(r + 1), rest.take(k));
            }
        }
    }
}

/// Literals that do not overlap are located apart.
proof fn lemma_located_apart(src: Seq<char>, l: LiteralView, m: LiteralView)
    requires
        is_place(src, l.start) && is_place(src, l.end),
        is_place(src, m.start) && is_place(src, m.end),
        are_clear(l, m),
    ensures
        located(src, l) matches Some(q) ==> (located(src, m) matches Some(r) ==> apart(q, r)),
{
    if located(src, l) is Some && located(src, m) is Some {
        lemma_after_newlines_in(src, (l.start.line - 1) as nat);
        lemma_after_newlines_in(src, (m.start.line - 1) as nat);
        lemma_after_newlines_in(src, (l.end.line - 1) as nat);
        lemma_after_newlines_in(src, (m.end.line - 1) as nat);
        if comes_before(l.end, m.start) {
            lemma_places_in_order(src, l.end, m.start);
            lemma_byte_len_prefix(
                src,
                char_of_position(src, l.end).unwrap(),
                char_of_position(src, m.start).unwrap(),
            );
        } else {
            lemma_places_in_order(src, m.end, l.start);
            lemma_byte_len_prefix(
                src,
                char_of_position(src, m.end).unwrap(),
                char_of_position(src, l.start).unwrap(),
            );
        }
    }
}

/// A located literal starts on the line that it tells.
proof fn lemma_located_on_line(src: Seq<char>, l: LiteralView)
    requires
        is_place(src, l.start),
    ensures
        located(src, l) matches Some(q) ==> starts_on_its_line(src, q),
{
    if let Some(q) = located(src, l) {
        let n = (l.start.line - 1) as nat;
        lemma_newlines_before_line(src, n);
        let start = after_newlines(src, n).unwrap();
        let a = start + l.start.column;
        lemma_starts_at(src, a, byte_len(src.take(a)) as int);
        let run = src.subrange(start, a);
        lemma_count_newlines_zero(run);
        lemma_count_newlines_add(src.take(start), run);
        assert(src.take(a) =~= src.take(start) + run);
    }
}

/// `q` is one of the literals, located.
spec fn is_one_of(src: Seq<char>, literals: Seq<LiteralView>, q: QueryView) -> bool {
    exists|k: int| 0 <= k < literals.len() && located(src, #[trigger] literals[k]) == Some(q)
}

/// Literals that do not overlap are located apart, and on their lines.
proof fn lemma_all_located_apart(src: Seq<char>, literals: Seq<LiteralView>)
    requires
        forall|k: int|
            0 <= k < literals.len() ==> is_place(src, (#[trigger] literals[k]).start) && is_place(
                src,
                literals[k].end,
            ),
        forall|a: int, b: int|
            0 <= a < b < literals.len() ==> are_clear(#[trigger] literals[a], #[trigger] literals[b]),
    ensures
        are_apart(all_located(src, literals)),
        all_on_their_lines(src, all_located(src, literals)),
        forall|i: int|
            0 <= i < all_located(src, literals).len() ==> is_one_of(
                src,
                literals,
                #[trigger] all_located(src, literals)[i],
            ),
    decreases literals.len(),
{
    if literals.len() > 0 {
        let init = literals.drop_last();
        let last = literals.last();
        lemma_all_located_apart(src, init);
        lemma_located_on_line(src, last);
        let before = all_located(src, init);
        let all = all_located(src, literals);
        assert(literals[literals.len() - 1] == last);
        assert forall|i: int| 0 <= i < before.len() implies is_one_of(
            src,
            literals,
            #[trigger] before[i],
        ) && (located(src, last) matches Some(q) ==> apart(before[i], q)) by {
            let k = choose|k: int|
                0 <= k < init.len() && located(src, #[trigger] init[k]) == Some(before[i]);
            assert(literals[k] == init[k]);
            lemma_located_apart(src, literals[k], last);
        }
        assert forall|i: int| 0 <= i < all.len() implies is_one_of(src, literals, #[trigger] all[i])
            && starts_on_its_line(src, all[i]) by {
            if i < before.len() {
                assert(all[i] == before[i]);
            }
        }
        assert forall|i: int, j: int| 0 <= i < j < all.len() implies #[trigger] apart(
            all[i],
            all[j],
        ) by {
            assert(all[i] == before[i]);
            if j < before.len() {
                assert(apart(before[i], before[j]));
            }
        }
    }
}

/// `q` is a literal of one of the invocations, located.
spec fn is_literal_of(src: Seq<char>, macros: Seq<MacroView>, q: QueryView) -> bool {
    exists|i: int, a: int|
        0 <= i < macros.len() && 0 <= a < macros[i].tokens.len() && (
        #[trigger] macros[i].tokens[a] matches TokenView::Literal(l) && located(src, l) == Some(q))
}

/// The queries of literals that are in place are different parts of the source, and each
/// starts on the line that it tells.
pub proof fn lemma_queries_are_placed(src: Seq<char>, macros: Seq<MacroView>)
    requires
        are_in_place(src, macros),
    ensures
        are_placed(src, queries_in(src, macros)),
        all_on_their_lines(src, queries_in(src, macros)),
{
    lemma_queries_are_parts(src, macros);
    lemma_queries_are_apart(src, macros);
}

/// [`lemma_queries_are_placed`] without what holds of any literals.
proof fn lemma_queries_are_apart(src: Seq<char>, macros: Seq<MacroView>)
    requires
        are_in_place(src, macros),
    ensures
        are_apart(queries_in(src, macros)),
        all_on_their_lines(src, queries_in(src, macros)),
        forall|i: int|
            0 <= i < queries_in(src, macros).len() ==> is_literal_of(
                src,
                macros,
                #[trigger] queries_in(src, macros)[i],
            ),
    decreases macros.len(),
{
    if macros.len() > 0 {
        let init = macros.drop_last();
        let n = init.len() as int;
        let m = macros[n];
        let ks = sql_indices(m);
        let literals = sql_literals(m);
        assert(are_in_place(src, init)) by {
            assert forall|i: int, a: int|
                0 <= i < init.len() && 0 <= a < init[i].tokens.len() implies (
            #[trigger] init[i].tokens[a] matches TokenView::Literal(l) ==> is_place(src, l.start)
                && is_place(src, l.end)) by {
                assert(init[i].tokens[a] == macros[i].tokens[a]);
            }
            assert forall|i: int, a: int, j: int, b: int|
                0 <= i < init.len() && 0 <= a < init[i].tokens.len() && 0 <= j < init.len() && 0
                    <= b < init[j].tokens.len() && (i != j || a != b) implies (
            #[trigger] init[i].tokens[a] matches TokenView::Literal(l) ==> (
            #[trigger] init[j].tokens[b] matches TokenView::Literal(k) ==> are_clear(l, k))) by {
                assert(init[i].tokens[a] == macros[i].tokens[a]);
                assert(init[j].tokens[b] == macros[j].tokens[b]);
            }
        }
        lemma_queries_are_apart(src, init);
        lemma_indices_differ(m);
        assert forall|k: int| 0 <= k < literals.len() implies TokenView::Literal(
            #[trigger] literals[k],
        ) == macros[n].tokens[ks[k]] by {
            assert(0 <= ks[k] < m.tokens.len());
        }
        assert forall|a: int, b: int| 0 <= a < b < literals.len() implies are_clear(
            #[trigger] literals[a],
            #[trigger] literals[b],
        ) by {
            assert(ks[a] != ks[b]);
            assert(TokenView::Literal(literals[a]) == macros[n].tokens[ks[a]]);
            assert(TokenView::Literal(literals[b]) == macros[n].tokens[ks[b]]);
        }
        lemma_all_located_apart(src, literals);
        let before = queries_in(src, init);
        let more = all_located(src, literals);
        let all = queries_in(src, macros);
        assert(macros.last() == m);
        assert forall|i: int| 0 <= i < more.len() implies is_literal_of(
            src,
            macros,
            #[trigger] more[i],
        ) by {
            let k = choose|k: int|
                0 <= k < literals.len() && located(src, #[trigger] literals[k]) == Some(more[i]);
            assert(TokenView::Literal(literals[k]) == macros[n].tokens[ks[k]]);
        }
        assert forall|i: int| 0 <= i < before.len() implies is_literal_of(
            src,
            macros,
            #[trigger] before[i],
        ) && (forall|j: int| 0 <= j < more.len() ==> apart(before[i], #[trigger] more[j])) by {
            let (c, a) = choose|c: int, a: int|
                0 <= c < init.len() && 0 <= a < init[c].tokens.len() && (
                #[trigger] init[c].tokens[a] matches TokenView::Literal(l) && located(src, l)
                    == Some(before[i]));
            assert(macros[c].tokens[a] == init[c].tokens[a]);
            let l = macros[c].tokens[a]->Literal_0;
            assert forall|j: int| 0 <= j < more.len() implies apart(
                before[i],
                #[trigger] more[j],
            ) by {
                let k = choose|k: int|
                    0 <= k < literals.len() && located(src, #[trigger] literals[k]) == Some(more[j]);
                assert(TokenView::Literal(literals[k]) == macros[n].tokens[ks[k]]);
                lemma_located_apart(src, l, literals[k]);
            }
        }
        assert forall|i: int| 0 <= i < all.len() implies is_literal_of(
            src,
            macros,
            #[trigger] all[i],
        ) && starts_on_its_line(src, all[i]) by {
            if i < before.len() {
                assert(all[i] == before[i]);
            } else {
                assert(all[i] == more[i - before.len()]);
            }
        }
        assert forall|i: int, j: int| 0 <= i < j < all.len() implies #[trigger] apart(
            all[i],
            all[j],
        ) by {
            if j < before.len() {
                assert(apart(before[i], before[j]));
            } else if i < before.len() {
                assert(all[i] == before[i]);
                assert(all[j] == more[j - before.len()]);
            } else {
                assert(apart(more[i - before.len()], more[j - before.len()]));
            }
        }
    }
}

} // verus!
