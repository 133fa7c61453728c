# sqlx-sqruff

Lints and fixes the SQL inside `sqlx::query*!` macros in Rust source, with the
[sqruff](https://github.com/quarylabs/sqruff) library in-process. The library is
written in Verus: what its functions return is stated in their contracts and
proved.

```
sqlx-sqruff check  [PATHS...]                # lint, non-zero on findings
sqlx-sqruff check  [PATHS...] --format json  # structured diagnostics
sqlx-sqruff fix    [PATHS...]                # apply fixes, write back
sqlx-sqruff fix    [PATHS...] --check        # CI gate, no writes
sqlx-sqruff list   [PATHS...]                # debug: list extracted queries
sqlx-sqruff dump   [PATHS...]                # debug: print SQL as the linter sees it
```

`check` and `fix` take `--config FILE` (otherwise a `.sqruff` is discovered) and
`--dialect NAME` (default `postgres`). `fix --all-literals` fixes single-line
literals too; by default only raw strings over several lines are fixed.

## Layout

- `src/syntax.rs`: reading Rust with `syn`, the macro calls of a file as plain values
- `src/extract.rs`: which macros hold SQL, and the byte range of their literal
- `src/literal.rs`: a literal taken apart, dedent and re-indent
- `src/sqruff_adapter.rs`: the only file that touches `sqruff-lib`
- `src/config.rs`: the configuration texts that are handed to sqruff
- `src/grammar.rs`: the SQL that sqruff's parser can take, by dialect
- `src/engine.rs`: check, fix, and splicing fixed literals into a file
- `src/diagnostic.rs`, `src/report.rs`: what is printed, and how a run ends
- `src/text.rs`: characters, lines and UTF-8 widths
- `src/roundtrip.rs`, `src/location.rs`, `src/splicing.rs`: properties that span
  several functions; `src/layout.rs`: the lines and indents that they speak of
- `app/`: the command line

## What is taken on trust

`syn`, `proc-macro2` and sqruff are called through declarations whose contracts are
not proved; each says in its doc comment what it claims. What `syn` makes of a file is
taken to depend on its text alone. Of sqruff only that its answer is one of those that
configuration and SQL admit: its rules walk hash maps, so that two runs may differ.

What sqruff panics on is kept from it:

- SQL with a line that starts with `-- sqlfluff`.
- SQL that leads the parser to a name that the grammar of its dialect lacks. sqruff
  catches what a rule panics on, but not what its parser does. `src/grammar.rs` lists the
  words before each such gap; SQL that holds them is refused, wherever they stand. That
  there are no other gaps is part of what is trusted.
- A configuration text that is no INI file or holds a setting of the wrong kind. From a
  text an engine is made only if it is a plain configuration, as `src/config.rs` defines
  it; some texts that sqruff would read are none.
- A rule option of the wrong kind, on which sqruff panics once it loads its rules. An
  engine is made only of a configuration from which rules can be loaded. That this holds
  of a plain configuration is part of what is trusted. For a configuration that was found
  on disk the command line lints a trivial query before it makes an engine. That does not
  show that a placeholder pattern of the project's own takes every text.

The literals of a macro call are taken to stand in the file where `proc-macro2` says, in
their order, and on the line that it gives.

Spans of `proc-macro2` count from the start of all that a thread has parsed so far. So
they are thrown away before and after each file is read, and a file has to be short
enough for them. They cannot be thrown away inside a procedural macro.
