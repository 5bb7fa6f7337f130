use vstd::prelude::*;

use crate::lox_function::LoxFunction;
use crate::native_function::{Host, NativeFunction};
use crate::text::concat3;

verus! {

/// The kinds of lexical tokens of the language.
#[derive(Debug, Copy, Clone, PartialEq, Eq, Structural, Hash)]
pub enum TokenType {
    // Single character tokens
    LeftParen,
    RightParen,
    LeftBrace,
    RightBrace,
    Comma,
    Dot,
    Minus,
    Plus,
    Semicolon,
    Slash,
    Star,
    Percent,
    // One or two character tokens
    Bang,
    BangEqual,
    Equal,
    EqualEqual,
    Greater,
    GreaterEqual,
    Less,
    LessEqual,
    // Identifiers
    Identifier,
    String,
    Number,
    // Keywords
    And,
    Break,
    Class,
    Else,
    False,
    Fun,
    For,
    If,
    Nil,
    Or,
    Print,
    Return,
    Super,
    This,
    True,
    Var,
    While,
    Eof,
}

/// A runtime value.
///
/// A number is held as the bit pattern of an IEEE-754 double; the arithmetic
/// on it is supplied by a [`crate::native_function::Host`].
pub enum Literal {
    Number(u64),
    String(String),
    True,
    False,
    Nil,
    NativeFunction(NativeFunction),
    LoxFunction(LoxFunction),
}

impl Clone for Literal {
    fn clone(&self) -> (r: Self)
        ensures
            r == *self,
    {
        match self {
            Literal::Number(n) => Literal::Number(*n),
            Literal::String(s) => Literal::String(s.clone()),
            Literal::True => Literal::True,
            Literal::False => Literal::False,
            Literal::Nil => Literal::Nil,
            Literal::NativeFunction(f) => Literal::NativeFunction(f.clone()),
            Literal::LoxFunction(f) => Literal::LoxFunction(f.clone()),
        }
    }
}

/// The literal that stands for a boolean.
pub open spec fn bool_literal(v: bool) -> Literal {
    if v {
        Literal::True
    } else {
        Literal::False
    }
}

impl From<bool> for Literal {
    fn from(v: bool) -> (r: Self)
        ensures
            r == bool_literal(v),
    {
        if v {
            Literal::True
        } else {
            Literal::False
        }
    }
}

impl vstd::std_specs::convert::FromSpecImpl<bool> for Literal {
    open spec fn obeys_from_spec() -> bool {
        true
    }

    open spec fn from_spec(v: bool) -> Literal {
        bool_literal(v)
    }
}

impl From<String> for Literal {
    fn from(v: String) -> (r: Self)
        ensures
            r == Literal::String(v),
    {
        Literal::String(v)
    }
}

impl vstd::std_specs::convert::FromSpecImpl<String> for Literal {
    open spec fn obeys_from_spec() -> bool {
        true
    }

    open spec fn from_spec(v: String) -> Literal {
        Literal::String(v)
    }
}

/// The text of a value that is no number, as the language writes it; a
/// number's text is the host's.
pub open spec fn plain_text(l: Literal) -> Option<Seq<char>> {
    match l {
        Literal::Nil => Some("nil"@),
        Literal::True => Some("true"@),
        Literal::False => Some("false"@),
        Literal::String(s) => Some(s@),
        Literal::Number(_) => None,
        Literal::NativeFunction(_) => Some("<native fn>"@),
        Literal::LoxFunction(f) => Some("<fn "@ + f.name_view() + ">"@),
    }
}

/// The text of a value, a number's being the host's text for it.
pub open spec fn literal_text(ar: crate::native_function::Arith, l: Literal) -> Seq<char> {
    match l {
        Literal::Number(n) => (ar.text)(n),
        _ => plain_text(l).unwrap(),
    }
}

impl Literal {
    /// The value as text: numbers as the host writes them.
    pub fn to_string<H: Host>(&self, host: &H) -> (r: String)
        ensures
            r@ == literal_text(crate::native_function::arith_of(host), *self),
    {
        match self {
            Literal::Nil => String::from_str("nil"),
            Literal::True => String::from_str("true"),
            Literal::False => String::from_str("false"),
            Literal::String(s) => s.clone(),
            Literal::Number(n) => host.number_to_string(*n),
            Literal::NativeFunction(_) => String::from_str("<native fn>"),
            Literal::LoxFunction(f) => concat3("<fn ", f.name().as_str(), ">"),
        }
    }
}

/// A lexical token: its kind, its text, the value of a literal, and its line.
pub struct Token {
    pub token_type: TokenType,
    pub lexeme: String,
    pub literal: Option<Literal>,
    pub line: u32,
}

/// A token seen as plain values: its text as characters.
pub struct TokenView {
    pub token_type: TokenType,
    pub lexeme: Seq<char>,
    pub literal: Option<Literal>,
    pub line: u32,
}

impl View for Token {
    type V = TokenView;

    open spec fn view(&self) -> TokenView {
        TokenView { token_type: self.token_type, lexeme: self.lexeme@, literal: self.literal, line: self.line }
    }
}

/// The views of a list of tokens.
pub open spec fn tokens_view(ts: Seq<Token>) -> Seq<TokenView> {
    ts.map_values(|t: Token| t@)
}

impl Clone for Token {
    fn clone(&self) -> (r: Self)
        ensures
            r == *self,
    {
        let literal = match &self.literal {
            Some(l) => Some(l.clone()),
            None => None,
        };
        Token { token_type: self.token_type, lexeme: self.lexeme.clone(), literal, line: self.line }
    }
}

impl Default for Token {
    fn default() -> (r: Self)
        ensures
            r.token_type == TokenType::Nil,
            r.lexeme@ == Seq::<char>::empty(),
            r.literal is None,
            r.line == 0,
    {
        Token { token_type: TokenType::Nil, lexeme: String::new(), literal: None, line: 0 }
    }
}

impl Token {
    pub fn new(token_type: TokenType, lexeme: String, literal: Option<Literal>, line: u32) -> (r: Self)
        ensures
            r == (Token { token_type, lexeme, literal, line }),
    {
        Token { token_type, lexeme, literal, line }
    }

    pub fn from_str(lexeme: &str) -> (r: Self)
        ensures
            r.token_type == TokenType::Nil,
            r.lexeme@ == lexeme@,
            r.literal is None,
            r.line == 0,
    {
        Self::from_string(lexeme.to_string())
    }

    /// The token that `from_string` makes of `lexeme`.
    pub open spec fn from_string_spec(lexeme: String) -> Token {
        Token { token_type: TokenType::Nil, lexeme, literal: None, line: 0 }
    }

    pub fn from_string(lexeme: String) -> (r: Self)
        ensures
            r == (Token { token_type: TokenType::Nil, lexeme, literal: None, line: 0 }),
    {
        Token { token_type: TokenType::Nil, lexeme, literal: None, line: 0 }
    }
}

} // verus!
