pub mod ast;
pub mod codegen;
pub mod error;
pub mod lexer;
pub mod syntax;
pub mod parser;
pub mod walk;
pub mod resolver;
