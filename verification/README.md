# Atelier

A code-intelligence engine for a small expression and statement language,
written in Verus: lexing, error-recovering parsing, scoped name resolution,
incremental re-analysis on edits, IDE queries (go to definition, find
references, hover), a safe rename, an evaluator, a multi-file workspace, and a
seeded generator of random programs and edits.

## Layout

- `src/` is the verified library. Each module pairs executable code with the
  mathematical definitions its contracts speak of:
  - `lexer`, `unicode`: tokens of a text (`lex_from`), UTF-8 decoding.
  - `parse_spec`, `parser`: the grammar as spec functions and the parser that
    computes it, grouped by top level statement.
  - `resolve_spec`, `resolver`: scope rules and the symbol table.
  - `incremental`: `Analysis`, kept up to date edit by edit; `relex` and
    `reparse` hold what lexing and parsing part of a token stream give.
  - `query`, `rename`, `reference`, `eval`, `workspace`, `gen`, `rng`.
  - `rename_tree`, `rename_parse`, `rename_lex`, `rename_distinct` and
    `rename_law`: the proof that renaming a symbol to a name nothing uses is
    accepted (respelling a tree, lexing and parsing the respelled text, and
    the occurrences of a symbol table lying on distinct tokens).
- `tests/` runs the library on concrete programs, including randomised gates.
- `app/` is the command line front end (file I/O and printing).

## What is proved

- An analysis's tokens are always those of lexing its whole text, and after
  any sequence of edits its statement groups, and so its tree, symbol table
  and diagnostics, are those of a full analysis of the text
  (`Analysis::edit`, `incremental::law_groups_determine_analysis`).
- Go to definition and find references agree with an independent scope walk
  (`reference::law_reference_agrees`).
- A name is reported unresolved exactly when no enclosing scope binds it
  (`resolve_spec::law_unresolved_flagged_exactly`); analysing a text twice
  gives identical results.
- A rename is accepted exactly when it leaves name resolution unchanged, and
  renaming a symbol to a name that no occurrence uses is accepted
  (`rename_law::law_fresh_rename_succeeds`, under the conditions of
  `fresh_rename_ok`).
- A run's outcome does not depend on the evaluation budget.
- Smaller laws: lexed tokens are the text of their spans
  (`lexer::law_lex_tokens`); a clean parse ignores tokens after it
  (`reparse::law_clean_parse_ignores_later_tokens`); groups are non-empty
  (`parse_spec::law_groups_nonempty`); an analysis's diagnostics are its parse
  and resolution diagnostics, sorted (`incremental::law_diagnostics_are_merged`);
  sorting is idempotent (`sort::law_sort_sorted_is_identity`) and, for
  diagnostics of one severity, independent of their input order
  (`diagnostics::law_sorted_ignores_input_order`); offsets and
  line/column positions round-trip (`span::law_linecol_roundtrip`); go to
  definition at an occurrence gives its binding
  (`query::law_definition_at_occurrence`).
- The generator's output and final random state are given exactly by spec
  functions of the seed state and the budget (`gen::gen_program`, built from
  `gen_expr` and `gen_item`); its text is whole, non-empty lines, one item each.
- Each binding is declared by exactly one occurrence, at its declared span, and
  has an arity exactly when it is a function
  (`resolve_spec::law_program_declares_once`, `resolver::law_table_declares_once`);
  the references found at a resolved name hold exactly one declaration, at the
  span go to definition gives (`query::law_references_hold_one_declaration`).
- `rename_law::rename_to_fresh` checks the conditions of the fresh-rename law
  at run time and then renames, which is then proved to succeed.

The standard library's Unicode character classes and its UTF-8 and integer
parsing functions are trusted through small wrappers in `unicode` and
`numbers`.
