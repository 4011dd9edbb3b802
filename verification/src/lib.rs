//! A small Lisp: a reader for S-expressions and an evaluator with lexical
//! scoping and first-class closures, each function with its contract.
//!
//! Text becomes tokens (`lexer`), tokens become nodes (`parser`, `reader`),
//! and nodes are evaluated (`eval`, `builtins`) against a chain of scopes
//! (`env`). What evaluation means is laid down in `semantics`; what holds of
//! it whatever the input is shown in `laws`, `normal` and `lifetime`.

pub mod ast;
pub mod builtins;
pub mod decimal;
pub mod env;
pub mod error;
pub mod eval;
pub mod laws;
pub mod lexer;
pub mod lifetime;
pub mod normal;
pub mod parser;
pub mod print;
pub mod reader;
pub mod repl;
pub mod semantics;
pub mod text;
