//! C Compiler - Lexer, Parser, and x86-64 Code Generator
//!
//! Supports a subset of C: int, variables, arithmetic, if/while/for,
//! functions. The lexer, the parser and the emitter are verified against
//! spec functions that state the token language, the grammar and the emitted
//! assembly text; what the code for an expression computes when it runs is
//! stated over a model of the machine.

pub mod text;
pub mod ast;
pub mod lexer;
pub mod parser;
pub mod codegen;
pub mod machine;
pub mod flow;

pub use ast::{BinOp, Expr, Function, Program, Statement, UnaryOp};
pub use codegen::CodeGen;
pub use lexer::{lex, LalrpopLexer, LexicalError, Token};
pub use parser::{parse, ParseError};
