//! An expression language for escape-time fractals: a lexer, an expression
//! tree, a precedence-climbing parser, the naming of the six variable slots,
//! and the planning of a render over contiguous ranges of pixels.

pub mod ast;
pub mod error;
pub mod eval;
pub mod lex;
pub mod parser;
pub mod render;
