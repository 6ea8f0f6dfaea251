pub mod lexer;
pub mod parser;
pub mod eval;
pub mod render;
