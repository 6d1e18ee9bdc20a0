//! A regular-expression front end: a single-pass, stack-based parser that
//! turns a pattern string into an abstract syntax tree, or a
//! position-tagged error.
//!
//! Supported syntax: literal characters, concatenation, alternation (`|`),
//! grouping (`()`), the postfix quantifiers `+`, `*`, `?`, and escaping of
//! the seven syntax characters and backslash itself.

pub mod ast;
pub mod display;
pub mod laws;
pub mod machine;
pub mod parser;
pub mod render;

pub use ast::AST;
pub use ast::ParserError;
pub use parser::parse;
