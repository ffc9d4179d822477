//! A small expression language: a lexer from source text to nested tokens,
//! a precedence parser from tokens to an abstract syntax tree, an evaluator
//! for that tree, and the diagnostics that each stage reports.

pub mod span;
pub mod text;
pub mod integer;
pub mod ir;
pub mod interpreter;
pub mod diagnostics;
pub mod lexer;
pub mod parser;
pub mod typecheck;
pub mod compile;
