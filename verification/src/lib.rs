//! A small compiler: lexer, parser, semantic checks and three-address code
//! generation for a language of assignments, `print` and `if`/`else`.
pub mod text;
pub mod lexer;
pub mod ast;
pub mod literal;
pub mod parser;
pub mod semantic;
pub mod codegen;
pub mod session;
pub mod laws;
