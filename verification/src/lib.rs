use vstd::prelude::*;

pub mod ast_printer;
pub mod callable;
pub mod environment;
pub mod error;
pub mod interpreter;
pub mod text;
pub mod expr;
pub mod facts;
pub mod lox_function;
pub mod native_function;
pub mod parser;
pub mod resolver;
pub mod scanner;
pub mod semantics;
pub mod stmt;
pub mod token;

verus! {
}
