use vstd::prelude::*;

use crate::token::{Literal, Token};

verus! {

/// A syntax error found by the parser.
pub struct ParserError {
    pub token: Token,
    pub message: String,
}

impl ParserError {
    pub fn new(token: Token, message: String) -> (r: Self)
        ensures
            r == (ParserError { token, message }),
    {
        Self { token, message }
    }
}

/// An error found while running a program.
pub struct RuntimeError {
    pub token: Token,
    pub message: String,
}

impl Clone for RuntimeError {
    fn clone(&self) -> (r: Self)
        ensures
            r == *self,
    {
        RuntimeError { token: self.token.clone(), message: self.message.clone() }
    }
}

impl RuntimeError {
    pub fn new(token: Token, message: String) -> (r: Self)
        ensures
            r == (RuntimeError { token, message }),
    {
        Self { token, message }
    }
}

/// The value carried out of a function by `return`.
pub struct Return {
    pub value: Option<Literal>,
}

impl Return {
    pub fn new(value: Option<Literal>) -> (r: Self)
        ensures
            r == (Return { value }),
    {
        Self { value }
    }
}

/// What interrupts the normal flow of execution.
pub enum RuntimeException {
    Base(RuntimeError),
    Return(Return),
    Break,
}

impl RuntimeException {
    pub fn base(token: Token, message: String) -> (r: Self)
        ensures
            r == RuntimeException::Base(RuntimeError { token, message }),
    {
        let runtime_error = RuntimeError::new(token, message);
        RuntimeException::Base(runtime_error)
    }

    pub fn returning(value: Option<Literal>) -> (r: Self)
        ensures
            r == RuntimeException::Return(Return { value }),
    {
        let r = Return::new(value);
        RuntimeException::Return(r)
    }
}

/// A lexical error: the line it was found on and its message.
#[derive(Debug)]
pub struct ScanError {
    pub line: usize,
    pub message: String,
}

} // verus!
