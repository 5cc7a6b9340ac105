//! Atelier: a semantic tooling layer for a small language.
//!
//! The pipeline: `lexer` turns text into tokens, `parser` turns tokens into a
//! syntax tree, `resolver` builds a scoped symbol table, and `incremental`
//! keeps an `Analysis` of one file up to date edit by edit. IDE queries live in
//! `query` and `rename`, evaluation in `eval`, and the multi file project model
//! in `workspace`. `reference` is an independent resolver to check against, and
//! `rng` with `gen` produce random programs and edits.
//!
//! The grammar (`parse_spec`), the scope rules (`resolve_spec`) and the other
//! mathematical definitions the contracts speak of sit beside the code that
//! computes them.

pub mod ast;
pub mod diagnostics;
pub mod eval;
pub mod gen;
pub mod incremental;
pub mod lexer;
pub mod numbers;
pub mod parse_spec;
pub mod parser;
pub mod query;
pub mod redefinition;
pub mod reference;
pub mod relex;
pub mod reparse;
pub mod rename;
pub mod rename_tree;
pub mod rename_parse;
pub mod rename_law;
pub mod rename_lex;
pub mod rename_distinct;
pub mod resolve_spec;
pub mod resolver;
pub mod rng;
pub mod shift;
pub mod sort;
pub mod span;
pub mod unicode;
pub mod workspace;

pub use diagnostics::{DiagKind, Diagnostic, Severity};
pub use incremental::Analysis;
pub use query::{Definition, Hover, Reference};
pub use span::Span;
pub use workspace::Workspace;
