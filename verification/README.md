# pyastq

`pyastq` searches Python code by its syntax tree rather than its text, and
runs rules written as structural queries. This crate is its library, written
in Verus: the query language, the matcher, name resolution, suppression
comments, rule checks, the result cache and the rewrite templates carry
contracts that Verus proves.

## Layout

- `src/query/`: the query lexer and parser (each with a spec function that
  the code is proved against), the query model, template variables, Python
  name resolution and the matcher.
- `src/search.rs`: searching one source text, suppression comments and
  syntax errors.
- `src/rules.rs`: rule validation, compilation, example tests, result keys
  and the merging of rule files.
- `src/runs.rs`: one query or all rules run over many files, with the cache.
- `src/cache.rs`: the per-file result cache and content hashes.
- `src/rewrite.rs`: replacement templates and the edits they make.
- `src/files.rs`: include and exclude globs, and the changed files that Git
  lists.
- `src/report.rs`: findings, their order and their text form.
- `src/cli.rs`: argument checks, the cache key of a search, exit codes.
- `src/number.rs`: the numbers of numeric comparisons, read exactly.
- `src/double.rs`: rounding a decimal to the nearest double in integers, so
  that numbers compare as the doubles they read as.
- `src/ts.rs`: the `tree-sitter` parser, tree and nodes, each node named by
  the source text and its path of child indices from the root.
- `src/syntax.rs`: the `tree-sitter` tree copied into plain values, and
  `python_tree`, the tree that a source text parses to.
- `src/find.rs`, `src/query_parser.rs`: the simple `kind:name` patterns.
- `app/`: the command line, file walking, configuration files and output.

Calls into `regex`, `tree-sitter` and `std::path` stand behind small trusted
wrappers. Where a few lines can state what the call returns, the contract
states it; where it cannot (what `tree-sitter` parses, what a regex
matches), the contract names the result as a function of the call's
arguments, and the verified code is proved against that name. Everything
else in `src/` is verified.

## Checking

`verus` on `src/lib.rs` verifies the library; `tests/` holds its tests.
