use sqlx_sqruff_core::extract::{
    extract, extract_checked, first_string_literal, is_query_macro, locate_queries,
};
use sqlx_sqruff_core::syntax::{fits, LiteralToken, MacroCall, Position, Token};

#[test]
fn finds_query_as_with_leading_ident() {
    let src = r###"
fn f() {
    let _ = sqlx::query_as!(Row, r#"SELECT 1"#, x);
}
"###;
    let q = extract(src);
    assert_eq!(q.len(), 1);
    assert_eq!(q[0].text, "r#\"SELECT 1\"#");
}

#[test]
fn finds_bare_query_and_scalar() {
    let src = r###"
fn f() {
    let _ = query!("SELECT 1");
    let _ = sqlx::query_scalar!(r#"SELECT 2"#);
}
"###;
    let q = extract(src);
    assert_eq!(q.len(), 2);
    assert_eq!(q[0].text, "\"SELECT 1\"");
    assert_eq!(q[1].text, "r#\"SELECT 2\"#");
}

#[test]
fn byte_span_is_exact() {
    let src = "fn f(){let _=query!(r#\"SELECT 1\"#);}";
    let q = extract(src);
    assert_eq!(q.len(), 1);
    assert_eq!(&src[q[0].start_byte..q[0].end_byte], "r#\"SELECT 1\"#");
}

#[test]
fn ignores_unparsable_file() {
    assert!(extract("this is not rust {{{").is_empty());
}

#[test]
fn pre_filter_skips_query_free_files_without_parsing() {
    // No "query" substring: Ok-empty without invoking syn, even if the file
    // would not parse. Such files are never reported as skipped/unparsable.
    assert!(extract_checked("this is not rust {{{").unwrap().is_empty());
    assert!(extract_checked("fn f() { let x = 1; }").unwrap().is_empty());
}

#[test]
fn pre_filter_still_errors_on_unparsable_file_with_query() {
    // Contains "query": syn must still run, so a genuine parse failure is
    // surfaced (the CLI turns this into a skip warning).
    assert!(extract_checked("query! this is not rust {{{").is_err());
}

#[test]
fn finds_every_query_macro_and_no_other() {
    let src = "fn f() { query!(\"1\"); a::query_as!(T, \"2\"); query_scalar!(\"3\"); \
               query_unchecked!(\"4\"); query_as_unchecked!(T, \"5\"); \
               query_scalar_unchecked!(\"6\"); query_file!(\"7\"); my_query!(\"8\"); \
               sqlx::query(\"9\"); }";
    let texts: Vec<String> = extract(src).into_iter().map(|q| q.text).collect();
    assert_eq!(texts, ["\"1\"", "\"2\"", "\"3\"", "\"4\"", "\"5\"", "\"6\""]);
}

fn texts(src: &str) -> Vec<String> {
    extract(src).into_iter().map(|q| q.text).collect()
}

#[test]
fn bind_arguments_are_no_sql() {
    assert!(extract("fn f(){let _=query!(SQL, \"bob\");}").is_empty());
    assert!(extract("fn f(){let _=query_as!(Row, SQL, \"bob\");}").is_empty());
    assert!(extract("fn f(){let _=query!(1, 'c', b\"x\", r\"SELECT $1\", \"bind\");}").is_empty());
    assert_eq!(
        texts("fn f(){query!(r\"SELECT $1\", \"bind\"); query_as!(a::Row, \"SELECT $1\", \"bind\",);}"),
        ["r\"SELECT $1\"", "\"SELECT $1\""]
    );
}

#[test]
fn sql_is_one_whole_literal() {
    assert!(extract("fn f(){query!(concat!(\"a\", \"b\"));}").is_empty());
    assert!(extract("fn f(){query!(\"SELECT 1\" + \" FROM t\", x);}").is_empty());
    assert!(extract("fn f(){query!(); query_as!(Row);}").is_empty());
    assert_eq!(texts("fn f(){query!(\"SELECT 1\",);}"), ["\"SELECT 1\""]);
}

#[test]
fn the_first_string_literal_is_taken_where_it_stands() {
    assert_eq!(texts("fn f(){query_as!(\"SELECT 1\");}"), ["\"SELECT 1\""]);
    assert_eq!(texts("fn f(){query_as!(\"SELECT 1\", \"SELECT 2\");}"), ["\"SELECT 1\""]);
    assert_eq!(texts("fn f(){query!(source = \"SELECT 1\", args = [x]);}"), ["\"SELECT 1\""]);
    assert_eq!(texts("fn f(){query_as!(Row, source = \"SELECT 1\");}"), ["\"SELECT 1\""]);
}

#[test]
fn queries_stand_apart_and_on_their_lines() {
    let src = "// é\nfn f() {\n    query!(\"1\", query_scalar!(\"2\"));\n    vec![query!(r\"3\n  4\"), query_as!(T, \"5\")];\n}\n";
    let q = extract(src);
    assert_eq!(q.len(), 4);
    let mut spans: Vec<(usize, usize)> = q.iter().map(|q| (q.start_byte, q.end_byte)).collect();
    spans.sort();
    for pair in spans.windows(2) {
        assert!(pair[0].1 <= pair[1].0);
    }
    for q in &q {
        assert_eq!(&src[q.start_byte..q.end_byte], q.text);
        assert_eq!(q.line, 1 + src[..q.start_byte].matches('\n').count());
    }
}

#[test]
fn types_may_hold_commas() {
    assert_eq!(
        texts("fn f(){query_as!(Foo<A, B>, \"1\"); query_as!((A, B), \"2\"); query_as!(fn(A, B) -> C, \"3\"); query_as!(Foo<Bar<A, B>, C>, \"4\", x);}"),
        ["\"1\"", "\"2\"", "\"3\"", "\"4\""]
    );
}

#[test]
fn finds_calls_inside_other_macros() {
    assert_eq!(texts("fn f(){let _=vec![query!(\"SELECT 1\")];}"), ["\"SELECT 1\""]);
    let src = "fn f() {\n    join!(\n        sqlx::query!(r#\"SELECT 1\"#, \"x\"),\n        { query_as!(T, \"SELECT 2\") },\n        println!(\"no\"),\n        query(\"no\"),\n    );\n}\n";
    let q = extract(src);
    assert_eq!(q.len(), 2);
    assert_eq!((q[0].text.as_str(), q[0].line), ("r#\"SELECT 1\"#", 3));
    assert_eq!((q[1].text.as_str(), q[1].line), ("\"SELECT 2\"", 4));
    assert_eq!(&src[q[1].start_byte..q[1].end_byte], "\"SELECT 2\"");
    assert_eq!(texts("fn f(){query!(\"1\", query_scalar!(\"2\"));}"), ["\"1\"", "\"2\""]);
}

#[test]
fn a_literal_is_found_in_given_tokens() {
    let comma = || Token::Punct(',');
    let sql = || literal("\"a\"", (1, 0), (1, 3));
    let found = |tokens: Vec<Token>, name: &str| {
        first_string_literal(&tokens, 0, name).map(|l| l.text.clone())
    };
    assert_eq!(found(vec![sql()], "query"), Some("\"a\"".to_string()));
    assert_eq!(found(vec![sql(), comma(), sql()], "query"), Some("\"a\"".to_string()));
    assert_eq!(found(vec![Token::Ident("x".to_string()), comma(), sql()], "query"), None);
    assert_eq!(
        found(vec![Token::Ident("x".to_string()), comma(), sql()], "query_as"),
        Some("\"a\"".to_string())
    );
    assert_eq!(found(vec![sql(), Token::Punct('+'), sql()], "query"), None);
    assert_eq!(found(vec![], "query"), None);
    assert!(is_query_macro("query_scalar_unchecked"));
    assert!(!is_query_macro("query_file"));
}

#[test]
fn a_file_reads_the_same_after_others() {
    let src = "fn f() {\n    /* é */ query!(\"SELECT 1\");\n}\n";
    let first = extract(src);
    for _ in 0..50 {
        let q = extract(src);
        assert_eq!(q.len(), 1);
        assert_eq!((q[0].start_byte, q[0].end_byte, q[0].line), (first[0].start_byte, first[0].end_byte, 2));
    }
    assert!(fits(src));
}

#[test]
fn finds_macros_wherever_they_are() {
    let src = "struct S;\nimpl S {\n    fn f(&self) {\n        let g = || query!(\"é\");\n    }\n}\n";
    let q = extract(src);
    assert_eq!(q.len(), 1);
    assert_eq!(q[0].line, 4);
    assert_eq!(&src[q[0].start_byte..q[0].end_byte], "\"é\"");
}

#[test]
fn spans_count_bytes_after_wide_characters() {
    let src = "fn f() {\n    /* €🦀 */ query!(r#\"SELECT\n 'é'\"#);\n    query!(\"2\");\n}\n";
    let q = extract(src);
    assert_eq!(q.len(), 2);
    assert_eq!(&src[q[0].start_byte..q[0].end_byte], "r#\"SELECT\n 'é'\"#");
    assert_eq!(q[0].text, "r#\"SELECT\n 'é'\"#");
    assert_eq!(q[0].line, 2);
    assert_eq!(&src[q[1].start_byte..q[1].end_byte], "\"2\"");
    assert_eq!(q[1].line, 4);
}

#[test]
fn reports_the_parse_error() {
    let src = "fn query( {";
    let expected = syn::parse_file(src).err().unwrap().to_string();
    assert_eq!(extract_checked(src).unwrap_err(), expected);
    assert!(extract(src).is_empty());
}

fn literal(text: &str, start: (usize, usize), end: (usize, usize)) -> Token {
    Token::Literal(LiteralToken {
        text: text.to_string(),
        start: Position { line: start.0, column: start.1 },
        end: Position { line: end.0, column: end.1 },
    })
}

#[test]
fn locates_the_literals_of_given_macros() {
    let src = "é query!(T, \"a\",\n \"b\")\n";
    let macros = vec![
        MacroCall {
            name: Some("query_as".to_string()),
            tokens: vec![
                Token::Ident("T".to_string()),
                Token::Punct(','),
                literal("\"a\"", (1, 12), (1, 15)),
                Token::Punct(','),
                literal("\"b\"", (2, 1), (2, 4)),
            ],
        },
        MacroCall { name: Some("println".to_string()), tokens: vec![literal("\"b\"", (2, 1), (2, 4))] },
        MacroCall { name: None, tokens: vec![literal("\"b\"", (2, 1), (2, 4))] },
        MacroCall { name: Some("query_as".to_string()), tokens: vec![Token::Open, Token::Close] },
        // No such line, and an end before the start.
        MacroCall { name: Some("query".to_string()), tokens: vec![literal("\"b\"", (4, 0), (4, 3))] },
        MacroCall { name: Some("query".to_string()), tokens: vec![literal("\"b\"", (2, 1), (1, 1))] },
        MacroCall { name: Some("query".to_string()), tokens: vec![literal("\"b\"", (0, 0), (2, 4))] },
        // A column past the end of the text.
        MacroCall { name: Some("query".to_string()), tokens: vec![literal("\"b\"", (2, 1), (3, 9))] },
    ];
    let q = locate_queries(src, &macros);
    assert_eq!(q.len(), 2);
    assert_eq!((q[0].start_byte, q[0].end_byte, q[0].line), (13, 16, 1));
    assert_eq!(q[0].text, "\"a\"");
    assert_eq!((q[1].start_byte, q[1].end_byte, q[1].line), (19, 24, 2));
    assert_eq!(q[1].text, "\"b\")\n");
}
