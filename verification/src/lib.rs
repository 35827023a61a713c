//! BOMP: a compiler front end for the BOOF language: a lexer, a parser with
//! precedence climbing and symbol interning, a width (construct) checker, the
//! dependency graph between globals, and the lowering of the AST to BIR.
pub mod ast;
pub mod ast_lower;
pub mod bir;
pub mod constructs;
pub mod err;
pub mod global_cycle;
pub mod lexer;
pub mod parser;
pub mod show;
pub mod token;
