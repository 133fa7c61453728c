//! What extraction finds: no file that names a query macro is passed over, and no query
//! of a macro call is lost on the way from its tokens to its place in the file.
use crate::extract::{
    after_comma, after_newlines, all_located, call_index, call_indices, count_newlines, extracted,
    extracted_or_none, is_query_name, lemma_count_newlines_add, lemma_count_newlines_zero,
    lemma_newlines_before_line, mentions_query, own_index, queries_in, sql_indices,
    sql_literals, string_index, takes_type, with_index, QueryView,
};
use crate::syntax::{
    is_place, parsed_source, source_fits, LiteralView, MacroView, Position, TokenView,
};
use crate::text::{byte_len, lemma_run_len, not_newline, run_len};
use vstd::prelude::*;

verus! {

// ---------------------------------------------------------------------------
// Files
// ---------------------------------------------------------------------------

/// No file is passed over in which `query` stands, wherever that is: what comes of it is
/// what its macro calls give, or the error of a file that does not parse.
pub proof fn lemma_no_mention_is_missed(before: Seq<char>, after: Seq<char>)
    ensures
        ({
            let src = before + seq!['q', 'u', 'e', 'r', 'y'] + after;
            extracted(src) == match parsed_source(src) {
                Ok(macros) => Ok::<Seq<QueryView>, Seq<char>>(queries_in(src, macros)),
                Err(message) => Err(message),
            }
        }),
{
    let src = before + seq!['q', 'u', 'e', 'r', 'y'] + after;
    reveal_strlit("query");
    let i = before.len() as int;
    assert(src.subrange(i, i + 5) =~= "query"@);
    assert(mentions_query(src));
}

/// `query` stands in `src` at the index `i`.
pub open spec fn has_query_at(src: Seq<char>, i: int) -> bool {
    &&& 0 <= i
    &&& i + 4 < src.len()
    &&& src[i] == 'q'
    &&& src[i + 1] == 'u'
    &&& src[i + 2] == 'e'
    &&& src[i + 3] == 'r'
    &&& src[i + 4] == 'y'
}

/// A file in which `query` stands nowhere has no queries, and no error: it is not parsed.
pub proof fn lemma_file_without_mention_has_no_query(src: Seq<char>)
    requires
        forall|i: int| !(#[trigger] has_query_at(src, i)),
    ensures
        extracted(src) == Ok::<Seq<QueryView>, Seq<char>>(Seq::empty()),
{
    reveal_strlit("query");
    if mentions_query(src) {
        let i = choose|i: int|
            0 <= i <= src.len() - 5 && #[trigger] src.subrange(i, i + 5) == "query"@;
        let part = src.subrange(i, i + 5);
        assert(src[i] == part[0] && src[i + 1] == part[1] && src[i + 2] == part[2]);
        assert(src[i + 3] == part[3] && src[i + 4] == part[4]);
        assert(has_query_at(src, i));
    }
}

/// A file of less than 2^30 characters is read, and no longer one.
pub proof fn lemma_files_are_read_by_length(src: Seq<char>)
    ensures
        source_fits(src) <==> src.len() < 0x4000_0000,
{
}

/// A file that does not parse gives its error to those who ask for it, and no queries to
/// those who do not.
pub proof fn lemma_unparsable_file(before: Seq<char>, after: Seq<char>, message: Seq<char>)
    requires
        parsed_source(before + seq!['q', 'u', 'e', 'r', 'y'] + after) == Err::<
            Seq<MacroView>,
            Seq<char>,
        >(message),
    ensures
        ({
            let src = before + seq!['q', 'u', 'e', 'r', 'y'] + after;
            &&& extracted(src) == Err::<Seq<QueryView>, Seq<char>>(message)
            &&& extracted_or_none(src) == Seq::<QueryView>::empty()
        }),
{
    lemma_no_mention_is_missed(before, after);
}

// ---------------------------------------------------------------------------
// Names
// ---------------------------------------------------------------------------

/// What may follow `query` in the name of a macro: what it gives, ...
pub open spec fn is_result_part(part: Seq<char>) -> bool {
    part == ""@ || part == "_as"@ || part == "_scalar"@
}

/// ... and whether it is checked.
pub open spec fn is_check_part(part: Seq<char>) -> bool {
    part == ""@ || part == "_unchecked"@
}

/// Each of `query`, `query_as` and `query_scalar` is looked at, and its unchecked variant
/// with it. Those that give a type of the caller's take it before the SQL.
pub proof fn lemma_every_variant_is_looked_at(result: Seq<char>, check: Seq<char>)
    requires
        is_result_part(result),
        is_check_part(check),
    ensures
        is_query_name("query"@ + result + check),
        takes_type("query"@ + result + check) <==> result == "_as"@,
{
    lemma_names();
}

/// No other macro is looked at.
pub proof fn lemma_no_other_macro_is_looked_at(name: Seq<char>) -> (parts: (Seq<char>, Seq<char>))
    requires
        is_query_name(name),
    ensures
        is_result_part(parts.0),
        is_check_part(parts.1),
        name == "query"@ + parts.0 + parts.1,
{
    lemma_names();
    let result = if name == "query_as"@ || name == "query_as_unchecked"@ {
        "_as"@
    } else if name == "query_scalar"@ || name == "query_scalar_unchecked"@ {
        "_scalar"@
    } else {
        ""@
    };
    let check = if name == "query"@ || name == "query_as"@ || name == "query_scalar"@ {
        ""@
    } else {
        "_unchecked"@
    };
    (result, check)
}

/// The names, put together from their parts.
proof fn lemma_names()
    ensures
        "query"@ + ""@ + ""@ == "query"@,
        "query"@ + "_as"@ + ""@ == "query_as"@,
        "query"@ + "_scalar"@ + ""@ == "query_scalar"@,
        "query"@ + ""@ + "_unchecked"@ == "query_unchecked"@,
        "query"@ + "_as"@ + "_unchecked"@ == "query_as_unchecked"@,
        "query"@ + "_scalar"@ + "_unchecked"@ == "query_scalar_unchecked"@,
        "query"@.len() == 5,
        "query_as"@.len() == 8,
        "query_scalar"@.len() == 12,
        "query_unchecked"@.len() == 15,
        "query_as_unchecked"@.len() == 18,
        "query_scalar_unchecked"@.len() == 22,
        ""@ != "_as"@,
        "_scalar"@ != "_as"@,
{
    reveal_strlit("");
    reveal_strlit("_as");
    reveal_strlit("_scalar");
    reveal_strlit("_unchecked");
    reveal_strlit("query");
    reveal_strlit("query_as");
    reveal_strlit("query_scalar");
    reveal_strlit("query_unchecked");
    reveal_strlit("query_as_unchecked");
    reveal_strlit("query_scalar_unchecked");
    assert("query"@ + ""@ + ""@ =~= "query"@);
    assert("query"@ + "_as"@ + ""@ =~= "query_as"@);
    assert("query"@ + "_scalar"@ + ""@ =~= "query_scalar"@);
    assert("query"@ + ""@ + "_unchecked"@ =~= "query_unchecked"@);
    assert("query"@ + "_as"@ + "_unchecked"@ =~= "query_as_unchecked"@);
    assert("query"@ + "_scalar"@ + "_unchecked"@ =~= "query_scalar_unchecked"@);
    assert("_scalar"@.len() != "_as"@.len());
    assert(""@.len() != "_as"@.len());
}

// ---------------------------------------------------------------------------
// Calls
// ---------------------------------------------------------------------------

/// A string literal, plain or raw.
pub open spec fn is_string(l: LiteralView) -> bool {
    l.text.len() >= 2 && (l.text[0] == '"' || (l.text[0] == 'r' && (l.text[1] == '"' || l.text[1]
        == '#')))
}

/// What may stand behind an argument: nothing, the end of the call, or a comma and more.
pub open spec fn is_behind_argument(rest: Seq<TokenView>) -> bool {
    rest.len() == 0 || rest[0] == TokenView::Close || rest[0] == TokenView::Punct(',')
}

/// The SQL of `query!("...", ...)` is its first argument, whatever follows it.
pub proof fn lemma_first_argument_is_sql(name: Seq<char>, l: LiteralView, rest: Seq<TokenView>)
    requires
        is_query_name(name),
        is_string(l),
        is_behind_argument(rest),
    ensures
        ({
            let tokens = seq![TokenView::Literal(l)] + rest;
            let found = sql_literals(MacroView { name: Some(name), tokens });
            found.len() > 0 && found[0] == l
        }),
{
    let tokens = seq![TokenView::Literal(l)] + rest;
    let m = MacroView { name: Some(name), tokens };
    assert(tokens[0] == TokenView::Literal(l));
    if rest.len() > 0 {
        assert(tokens[1] == rest[0]);
    }
    assert(string_index(tokens, 0) == Some(0int));
    assert(own_index(m) == Some(0int));
    assert(sql_indices(m)[0] == 0);
}

/// A token of a type that is no bracket: neither opens nor closes a group or angle
/// brackets.
pub open spec fn is_flat(t: TokenView) -> bool {
    &&& t !is Open
    &&& t !is Close
    &&& t != TokenView::Punct('<')
    &&& t != TokenView::Punct('>')
}

/// A type without type arguments.
pub open spec fn is_simple_type(ty: Seq<TokenView>) -> bool {
    &&& ty.len() > 0
    &&& ty[0] !is Literal
    &&& ty[0] != TokenView::Ident("source"@)
    &&& forall|i: int|
        0 <= i < ty.len() ==> is_flat(#[trigger] ty[i]) && ty[i] != TokenView::Punct(',')
}

/// What stands between angle brackets, commas included.
pub open spec fn are_type_arguments(args: Seq<TokenView>) -> bool {
    &&& forall|i: int| 0 <= i < args.len() ==> is_flat(#[trigger] args[i])
    &&& args.len() > 0 ==> args.last() != TokenView::Punct('-')
}

/// No comma is found among tokens without brackets, unless there is one outside of angle
/// brackets.
proof fn lemma_over_flat(tokens: Seq<TokenView>, i: int, j: int, angles: nat)
    requires
        0 <= i <= j <= tokens.len(),
        forall|k: int|
            i <= k < j ==> is_flat(#[trigger] tokens[k]) && (angles > 0 || tokens[k]
                != TokenView::Punct(',')),
    ensures
        after_comma(tokens, i, 0, angles) == after_comma(tokens, j, 0, angles),
    decreases j - i,
{
    if i < j {
        assert(is_flat(tokens[i]));
        lemma_over_flat(tokens, i + 1, j, angles);
    }
}

/// The SQL of `query_as!(Type, "...", ...)` is the argument after the type, whatever
/// follows it.
pub proof fn lemma_argument_after_type_is_sql(
    name: Seq<char>,
    ty: Seq<TokenView>,
    l: LiteralView,
    rest: Seq<TokenView>,
)
    requires
        is_query_name(name),
        takes_type(name),
        is_simple_type(ty),
        is_string(l),
        is_behind_argument(rest),
    ensures
        ({
            let tokens = ty + seq![TokenView::Punct(','), TokenView::Literal(l)] + rest;
            let found = sql_literals(MacroView { name: Some(name), tokens });
            found.len() > 0 && found[0] == l
        }),
{
    let tokens = ty + seq![TokenView::Punct(','), TokenView::Literal(l)] + rest;
    let n = ty.len() as int;
    assert forall|k: int| 0 <= k < n implies is_flat(#[trigger] tokens[k]) && tokens[k]
        != TokenView::Punct(',') by {
        assert(tokens[k] == ty[k]);
    }
    lemma_over_flat(tokens, 0, n, 0);
    lemma_sql_behind_comma(name, tokens, n, l);
}

/// The SQL of `query_as!(Type<A, B>, "...", ...)` is the argument after the type: the
/// commas between angle brackets separate no arguments.
pub proof fn lemma_argument_after_generic_type_is_sql(
    name: Seq<char>,
    ty: Seq<TokenView>,
    args: Seq<TokenView>,
    l: LiteralView,
    rest: Seq<TokenView>,
)
    requires
        is_query_name(name),
        takes_type(name),
        is_simple_type(ty),
        are_type_arguments(args),
        is_string(l),
        is_behind_argument(rest),
    ensures
        ({
            let tokens = ty + seq![TokenView::Punct('<')] + args + seq![
                TokenView::Punct('>'),
                TokenView::Punct(','),
                TokenView::Literal(l),
            ] + rest;
            let found = sql_literals(MacroView { name: Some(name), tokens });
            found.len() > 0 && found[0] == l
        }),
{
    let tokens = ty + seq![TokenView::Punct('<')] + args + seq![
        TokenView::Punct('>'),
        TokenView::Punct(','),
        TokenView::Literal(l),
    ] + rest;
    let n = ty.len() as int;
    let m = n + 1 + args.len();
    assert forall|k: int| 0 <= k < n implies is_flat(#[trigger] tokens[k]) && tokens[k]
        != TokenView::Punct(',') by {
        assert(tokens[k] == ty[k]);
    }
    lemma_over_flat(tokens, 0, n, 0);
    assert(tokens[n] == TokenView::Punct('<'));
    assert forall|k: int| n + 1 <= k < m implies is_flat(#[trigger] tokens[k]) by {
        assert(tokens[k] == args[k - n - 1]);
    }
    lemma_over_flat(tokens, n + 1, m, 1);
    assert(tokens[m] == TokenView::Punct('>'));
    if args.len() > 0 {
        assert(tokens[m - 1] == args.last());
    }
    assert(after_comma(tokens, m, 0, 1) == after_comma(tokens, m + 1, 0, 0));
    assert(tokens[m + 1] == TokenView::Punct(','));
    assert(tokens[m + 2] == TokenView::Literal(l));
    if rest.len() > 0 {
        assert(tokens[m + 3] == rest[0]);
    }
    lemma_sql_behind_comma(name, tokens, m + 1, l);
}

/// The SQL of `query_as!((A, B), "...", ...)` is the argument after the type: the commas in
/// a group separate no arguments.
pub proof fn lemma_argument_after_group_is_sql(
    name: Seq<char>,
    inner: Seq<TokenView>,
    l: LiteralView,
    rest: Seq<TokenView>,
)
    requires
        is_query_name(name),
        takes_type(name),
        forall|i: int|
            0 <= i < inner.len() ==> #[trigger] inner[i] !is Open && inner[i] !is Close,
        is_string(l),
        is_behind_argument(rest),
    ensures
        ({
            let tokens = seq![TokenView::Open] + inner + seq![
                TokenView::Close,
                TokenView::Punct(','),
                TokenView::Literal(l),
            ] + rest;
            let found = sql_literals(MacroView { name: Some(name), tokens });
            found.len() > 0 && found[0] == l
        }),
{
    let tokens = seq![TokenView::Open] + inner + seq![
        TokenView::Close,
        TokenView::Punct(','),
        TokenView::Literal(l),
    ] + rest;
    let m = inner.len() as int + 1;
    assert(tokens[0] == TokenView::Open);
    assert forall|k: int| 1 <= k < m implies #[trigger] tokens[k] !is Open && tokens[k]
        !is Close by {
        assert(tokens[k] == inner[k - 1]);
    }
    lemma_over_group(tokens, 1, m);
    assert(tokens[m] == TokenView::Close);
    assert(tokens[m + 1] == TokenView::Punct(','));
    assert(tokens[m + 2] == TokenView::Literal(l));
    if rest.len() > 0 {
        assert(tokens[m + 3] == rest[0]);
    }
    assert(after_comma(tokens, 0, 0, 0) == after_comma(tokens, 1, 1, 0));
    assert(after_comma(tokens, m, 1, 0) == after_comma(tokens, m + 1, 0, 0));
    lemma_sql_behind_comma(name, tokens, m + 1, l);
}

/// No comma is found in a group.
proof fn lemma_over_group(tokens: Seq<TokenView>, i: int, j: int)
    requires
        0 <= i <= j <= tokens.len(),
        forall|k: int| i <= k < j ==> #[trigger] tokens[k] !is Open && tokens[k] !is Close,
    ensures
        after_comma(tokens, i, 1, 0) == after_comma(tokens, j, 1, 0),
    decreases j - i,
{
    if i < j {
        assert(tokens[i] !is Open && tokens[i] !is Close);
        lemma_over_group(tokens, i + 1, j);
    }
}

/// The SQL of `query!(source = "...", ...)` is the value of that argument.
pub proof fn lemma_source_argument_is_sql(name: Seq<char>, l: LiteralView, rest: Seq<TokenView>)
    requires
        is_query_name(name),
        is_string(l),
        is_behind_argument(rest),
    ensures
        ({
            let tokens = seq![
                TokenView::Ident("source"@),
                TokenView::Punct('='),
                TokenView::Literal(l),
            ] + rest;
            let found = sql_literals(MacroView { name: Some(name), tokens });
            found.len() > 0 && found[0] == l
        }),
{
    let tokens = seq![TokenView::Ident("source"@), TokenView::Punct('='), TokenView::Literal(l)]
        + rest;
    let m = MacroView { name: Some(name), tokens };
    assert(tokens[0] == TokenView::Ident("source"@));
    assert(tokens[1] == TokenView::Punct('='));
    assert(tokens[2] == TokenView::Literal(l));
    if rest.len() > 0 {
        assert(tokens[3] == rest[0]);
    }
    assert(string_index(tokens, 0) == Some(2int));
    assert(own_index(m) == Some(2int));
    assert(sql_indices(m)[0] == 2);
}

/// A call gives no SQL of its own where it is of another macro, where it takes no type and
/// starts with something else than a string (a variable, `concat!`), or where more than a
/// comma follows the string: bind arguments are not taken for SQL.
pub proof fn lemma_other_arguments_are_no_sql(name: Seq<char>, tokens: Seq<TokenView>)
    ensures
        !is_query_name(name) ==> own_index(MacroView { name: Some(name), tokens }) is None,
        !takes_type(name) && tokens.len() > 0 && tokens[0] !is Literal && tokens[0]
            != TokenView::Ident("source"@) ==> own_index(
            MacroView { name: Some(name), tokens },
        ) is None,
        !takes_type(name) && tokens.len() > 1 && tokens[0] is Literal && !is_behind_argument(
            tokens.skip(1),
        ) ==> own_index(MacroView { name: Some(name), tokens }) is None,
        tokens.len() == 0 ==> own_index(MacroView { name: Some(name), tokens }) is None,
        own_index(MacroView { name: None, tokens }) is None,
{
    if tokens.len() > 1 {
        assert(tokens.skip(1)[0] == tokens[1]);
    }
}

/// The SQL behind the first comma, after a type.
proof fn lemma_sql_behind_comma(name: Seq<char>, tokens: Seq<TokenView>, n: int, l: LiteralView)
    requires
        is_query_name(name),
        takes_type(name),
        is_string(l),
        0 < n,
        n + 1 < tokens.len(),
        tokens[0] !is Literal,
        tokens[0] != TokenView::Ident("source"@),
        after_comma(tokens, 0, 0, 0) == after_comma(tokens, n, 0, 0),
        tokens[n] == TokenView::Punct(','),
        tokens[n + 1] == TokenView::Literal(l),
        n + 2 >= tokens.len() || is_behind_argument(seq![tokens[n + 2]]),
    ensures
        ({
            let found = sql_literals(MacroView { name: Some(name), tokens });
            found.len() > 0 && found[0] == l
        }),
{
    let m = MacroView { name: Some(name), tokens };
    if n + 2 < tokens.len() {
        assert(seq![tokens[n + 2]][0] == tokens[n + 2]);
    }
    assert(string_index(tokens, 0) is None);
    assert(after_comma(tokens, n, 0, 0) == Some(n + 1));
    assert(string_index(tokens, n + 1) == Some(n + 1));
    assert(own_index(m) == Some(n + 1));
    assert(sql_indices(m)[0] == n + 1);
}

/// The index that a call gives is among those of all calls.
proof fn lemma_call_is_among(tokens: Seq<TokenView>, n: nat, i: int)
    requires
        0 <= i < n,
        call_index(tokens, i) is Some,
    ensures
        call_indices(tokens, n).contains(call_index(tokens, i).unwrap()),
    decreases n,
{
    let before = call_indices(tokens, (n - 1) as nat);
    let all = call_indices(tokens, n);
    if i < n - 1 {
        lemma_call_is_among(tokens, (n - 1) as nat, i);
        let k = choose|k: int|
            0 <= k < before.len() && before[k] == call_index(tokens, i).unwrap();
        assert(all[k] == before[k]);
    } else {
        assert(all.last() == call_index(tokens, i).unwrap());
    }
}

/// A call of a query macro is found among the tokens of any other macro, wherever it
/// stands: its SQL is the first argument.
pub proof fn lemma_nested_call_gives_its_sql(
    outer: Option<Seq<char>>,
    before: Seq<TokenView>,
    name: Seq<char>,
    l: LiteralView,
    rest: Seq<TokenView>,
)
    requires
        is_query_name(name),
        is_string(l),
        is_behind_argument(rest),
    ensures
        sql_literals(
            MacroView {
                name: outer,
                tokens: before + seq![
                    TokenView::Ident(name),
                    TokenView::Punct('!'),
                    TokenView::Open,
                    TokenView::Literal(l),
                ] + rest,
            },
        ).contains(l),
{
    let tokens = before + seq![
        TokenView::Ident(name),
        TokenView::Punct('!'),
        TokenView::Open,
        TokenView::Literal(l),
    ] + rest;
    let m = MacroView { name: outer, tokens };
    let i = before.len() as int;
    assert(tokens[i] == TokenView::Ident(name));
    assert(tokens[i + 1] == TokenView::Punct('!'));
    assert(tokens[i + 2] == TokenView::Open);
    assert(tokens[i + 3] == TokenView::Literal(l));
    if rest.len() > 0 {
        assert(tokens[i + 4] == rest[0]);
    }
    assert(string_index(tokens, i + 3) == Some(i + 3));
    assert(call_index(tokens, i) == Some(i + 3));
    lemma_call_is_among(tokens, tokens.len(), i);
    let calls = call_indices(tokens, tokens.len());
    let own = with_index(Seq::empty(), own_index(m));
    let k = choose|k: int| 0 <= k < calls.len() && calls[k] == i + 3;
    assert(sql_indices(m)[own.len() + k] == i + 3);
    assert(sql_literals(m)[own.len() + k] == l);
}

/// A call of a macro that takes a type is found among the tokens of any other macro: its SQL
/// is the argument after the type.
pub proof fn lemma_nested_typed_call_gives_its_sql(
    outer: Option<Seq<char>>,
    before: Seq<TokenView>,
    name: Seq<char>,
    ty: Seq<TokenView>,
    l: LiteralView,
    rest: Seq<TokenView>,
)
    requires
        is_query_name(name),
        takes_type(name),
        is_simple_type(ty),
        is_string(l),
        is_behind_argument(rest),
    ensures
        sql_literals(
            MacroView {
                name: outer,
                tokens: before + seq![
                    TokenView::Ident(name),
                    TokenView::Punct('!'),
                    TokenView::Open,
                ] + ty + seq![TokenView::Punct(','), TokenView::Literal(l)] + rest,
            },
        ).contains(l),
{
    let tokens = before + seq![TokenView::Ident(name), TokenView::Punct('!'), TokenView::Open] + ty
        + seq![TokenView::Punct(','), TokenView::Literal(l)] + rest;
    let m = MacroView { name: outer, tokens };
    let i = before.len() as int;
    let a = i + 3;
    let n = a + ty.len();
    assert(tokens[i] == TokenView::Ident(name));
    assert(tokens[i + 1] == TokenView::Punct('!'));
    assert(tokens[i + 2] == TokenView::Open);
    assert forall|k: int| a <= k < n implies is_flat(#[trigger] tokens[k]) && tokens[k]
        != TokenView::Punct(',') by {
        assert(tokens[k] == ty[k - a]);
    }
    lemma_over_flat(tokens, a, n, 0);
    assert(tokens[a] == ty[0]);
    assert(tokens[n] == TokenView::Punct(','));
    assert(tokens[n + 1] == TokenView::Literal(l));
    if rest.len() > 0 {
        assert(tokens[n + 2] == rest[0]);
    }
    assert(after_comma(tokens, n, 0, 0) == Some(n + 1));
    assert(string_index(tokens, a) is None);
    assert(string_index(tokens, n + 1) == Some(n + 1));
    assert(call_index(tokens, i) == Some(n + 1));
    lemma_call_is_among(tokens, tokens.len(), i);
    let calls = call_indices(tokens, tokens.len());
    let own = with_index(Seq::empty(), own_index(m));
    let k = choose|k: int| 0 <= k < calls.len() && calls[k] == n + 1;
    assert(sql_indices(m)[own.len() + k] == n + 1);
    assert(sql_literals(m)[own.len() + k] == l);
}

/// Starting with a quote, or as a raw string does.
pub open spec fn starts_as_string(text: Seq<char>) -> bool {
    ||| text.len() > 0 && text[0] == '"'
    ||| text.len() > 1 && text[0] == 'r' && (text[1] == '"' || text[1] == '#')
}

/// Nothing but a string literal is taken for SQL.
pub proof fn lemma_sql_is_a_string(m: MacroView, k: int)
    requires
        0 <= k < sql_literals(m).len(),
    ensures
        starts_as_string(sql_literals(m)[k].text),
        exists|p: int|
            0 <= p < m.tokens.len() && #[trigger] m.tokens[p] == TokenView::Literal(
                sql_literals(m)[k],
            ),
{
    let own = with_index(Seq::empty(), own_index(m));
    let p = sql_indices(m)[k];
    if k < own.len() {
        assert(p == own[k]);
    } else {
        lemma_calls_are_strings(m.tokens, m.tokens.len(), k - own.len());
        assert(p == call_indices(m.tokens, m.tokens.len())[k - own.len()]);
    }
    assert(m.tokens[p] == TokenView::Literal(sql_literals(m)[k]));
}

/// The calls among tokens give string literals.
proof fn lemma_calls_are_strings(tokens: Seq<TokenView>, n: nat, k: int)
    requires
        0 <= k < call_indices(tokens, n).len(),
    ensures
        ({
            let p = call_indices(tokens, n)[k];
            0 <= p < tokens.len() && (tokens[p] matches TokenView::Literal(l) && starts_as_string(
                l.text,
            ))
        }),
    decreases n,
{
    if n > 0 {
        let before = call_indices(tokens, (n - 1) as nat);
        if k < before.len() {
            lemma_calls_are_strings(tokens, (n - 1) as nat, k);
            assert(call_indices(tokens, n)[k] == before[k]);
        }
    }
}

// ---------------------------------------------------------------------------
// Places
// ---------------------------------------------------------------------------

/// The queries of two lists of calls are those of the first and then those of the second:
/// no call has a say in what becomes of another.
pub proof fn lemma_queries_add_up(src: Seq<char>, a: Seq<MacroView>, b: Seq<MacroView>)
    ensures
        queries_in(src, a + b) == queries_in(src, a) + queries_in(src, b),
    decreases b.len(),
{
    if b.len() == 0 {
        assert(a + b =~= a);
        assert(queries_in(src, a) + queries_in(src, b) =~= queries_in(src, a));
    } else {
        lemma_queries_add_up(src, a, b.drop_last());
        assert((a + b).drop_last() =~= a + b.drop_last());
        assert((a + b).last() == b.last());
        let more = all_located(src, sql_literals(b.last()));
        assert(queries_in(src, a) + queries_in(src, b.drop_last()) + more =~= queries_in(src, a) + (
        queries_in(src, b.drop_last()) + more));
    }
}

/// A line starts at the start of the text or right behind a line feed, with as many line
/// feeds before it as there are lines, and there is one for every line feed.
pub proof fn lemma_line_starts(s: Seq<char>, n: nat)
    ensures
        after_newlines(s, 0) == Some(0int),
        after_newlines(s, n) matches Some(k) ==> 0 <= k <= s.len() && count_newlines(s.take(k)) == n
            && (n > 0 ==> k > 0 && s[k - 1] == '\n'),
        after_newlines(s, n) is Some <==> n <= count_newlines(s),
    decreases n,
{
    lemma_newlines_before_line(s, n);
    lemma_run_len(s, not_newline());
    let r = run_len(s, not_newline()) as int;
    if n > 0 {
        if r < s.len() {
            let rest = s.skip(r + 1);
            lemma_line_starts(rest, (n - 1) as nat);
            assert(s.take(r) + seq!['\n'] + rest =~= s);
            assert forall|i: int| 0 <= i < s.take(r).len() implies s.take(r)[i] != '\n' by {
                assert(not_newline()(s[i]));
            }
            lemma_count_newlines_zero(s.take(r));
            lemma_count_newlines_add(s.take(r), seq!['\n']);
            lemma_count_newlines_add(s.take(r) + seq!['\n'], rest);
            assert(seq!['\n'].drop_last() =~= Seq::<char>::empty());
            assert(count_newlines(Seq::<char>::empty()) == 0);
            assert(count_newlines(seq!['\n']) == 1);
            if let Some(k) = after_newlines(rest, (n - 1) as nat) {
                if n > 1 {
                    assert(s[r + k] == rest[k - 1]);
                }
            }
        } else {
            assert forall|i: int| 0 <= i < s.len() implies s[i] != '\n' by {
                assert(not_newline()(s[i]));
            }
            lemma_count_newlines_zero(s);
        }
    }
}

/// The index in `src` of a place, counted from the start of its line.
pub open spec fn index_of(src: Seq<char>, p: Position) -> int {
    after_newlines(src, (p.line - 1) as nat).unwrap() + p.column
}

/// A literal with its two ends in `src`, in order.
pub open spec fn lies_in(src: Seq<char>, l: LiteralView) -> bool {
    &&& is_place(src, l.start)
    &&& is_place(src, l.end)
    &&& index_of(src, l.start) <= index_of(src, l.end)
}

/// `q` is what stands in `src` where the literal lies: its text, the bytes before its two
/// ends, and its line.
pub open spec fn is_query_at(src: Seq<char>, l: LiteralView, q: QueryView) -> bool {
    let a = index_of(src, l.start);
    let b = index_of(src, l.end);
    &&& q.text == src.subrange(a, b)
    &&& q.start_byte == byte_len(src.take(a))
    &&& q.end_byte == byte_len(src.take(b))
    &&& q.line == l.start.line
}

/// Located literals are there one for one.
proof fn lemma_all_are_located(src: Seq<char>, literals: Seq<LiteralView>)
    requires
        forall|k: int| 0 <= k < literals.len() ==> lies_in(src, #[trigger] literals[k]),
    ensures
        all_located(src, literals).len() == literals.len(),
        forall|k: int|
            0 <= k < literals.len() ==> is_query_at(
                src,
                literals[k],
                #[trigger] all_located(src, literals)[k],
            ),
    decreases literals.len(),
{
    if literals.len() > 0 {
        let init = literals.drop_last();
        assert forall|k: int| 0 <= k < init.len() implies lies_in(src, #[trigger] init[k]) by {
            assert(init[k] == literals[k]);
        }
        lemma_all_are_located(src, init);
        let last = literals.len() - 1;
        assert(lies_in(src, literals[last]));
        assert forall|k: int| 0 <= k < literals.len() implies is_query_at(
            src,
            literals[k],
            #[trigger] all_located(src, literals)[k],
        ) by {
            if k < last {
                assert(all_located(src, literals)[k] == all_located(src, init)[k]);
                assert(literals[k] == init[k]);
            }
        }
    }
}

/// The calls of a file give one query for each of their SQL literals, in their order: each
/// with the text, the bytes and the line of its place in the file.
pub proof fn lemma_every_literal_is_a_query(src: Seq<char>, before: Seq<MacroView>, m: MacroView)
    requires
        forall|k: int| 0 <= k < sql_literals(m).len() ==> lies_in(src, #[trigger] sql_literals(m)[k]),
    ensures
        ({
            let queries = queries_in(src, before.push(m));
            let n = queries_in(src, before).len();
            &&& queries.len() == n + sql_literals(m).len()
            &&& queries.take(n as int) == queries_in(src, before)
            &&& forall|k: int|
                0 <= k < sql_literals(m).len() ==> is_query_at(
                    src,
                    #[trigger] sql_literals(m)[k],
                    queries[n + k],
                )
        }),
{
    let all = before.push(m);
    let found = sql_literals(m);
    lemma_all_are_located(src, found);
    assert(all.drop_last() =~= before);
    assert(all.last() == m);
    let queries = queries_in(src, all);
    let n = queries_in(src, before).len();
    assert(queries.take(n as int) =~= queries_in(src, before));
    assert forall|k: int| 0 <= k < found.len() implies is_query_at(
        src,
        #[trigger] found[k],
        queries[n + k],
    ) by {
        assert(queries[n + k] == all_located(src, found)[k]);
    }
}

/// A call in a file is extracted: where the file is Rust and `l` is the SQL of one of its
/// calls, there is a query that is the text of the file where the literal lies.
pub proof fn lemma_every_call_is_extracted(
    before: Seq<char>,
    after: Seq<char>,
    macros: Seq<MacroView>,
    i: int,
    l: LiteralView,
) -> (k: int)
    requires
        parsed_source(before + seq!['q', 'u', 'e', 'r', 'y'] + after) == Ok::<
            Seq<MacroView>,
            Seq<char>,
        >(macros),
        0 <= i < macros.len(),
        sql_literals(macros[i]).contains(l),
        forall|j: int|
            0 <= j < sql_literals(macros[i]).len() ==> lies_in(
                before + seq!['q', 'u', 'e', 'r', 'y'] + after,
                #[trigger] sql_literals(macros[i])[j],
            ),
    ensures
        ({
            let src = before + seq!['q', 'u', 'e', 'r', 'y'] + after;
            0 <= k < extracted_or_none(src).len() && is_query_at(src, l, extracted_or_none(src)[k])
        }),
{
    let src = before + seq!['q', 'u', 'e', 'r', 'y'] + after;
    lemma_no_mention_is_missed(before, after);
    let first = macros.take(i);
    let upto = first.push(macros[i]);
    let rest = macros.skip(i + 1);
    assert(macros =~= upto + rest);
    lemma_queries_add_up(src, upto, rest);
    lemma_every_literal_is_a_query(src, first, macros[i]);
    let found = sql_literals(macros[i]);
    let j = choose|j: int| 0 <= j < found.len() && found[j] == l;
    let k = queries_in(src, first).len() + j;
    assert(queries_in(src, macros)[k] == queries_in(src, upto)[k]);
    assert(is_query_at(src, found[j], queries_in(src, upto)[k]));
    k
}

} // verus!
