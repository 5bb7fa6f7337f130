use rlox::error::RuntimeError;
use rlox::native_function::{Host, Text, Values};
use rlox::scanner::Scanner;
use rlox::token::{Literal, Token, TokenType};

struct Doubles;

impl Host for Doubles {
    fn debug_spec(&self, _a: u64) -> Text {
        unreachable!("spec functions are never run")
    }
    fn number_debug(&self, a: u64) -> String {
        format!("{:?}", f64::from_bits(a))
    }
    fn parse_spec(&self, _text: Text) -> u64 {
        unreachable!("spec functions are never run")
    }
    fn negate_spec(&self, a: u64) -> u64 {
        self.negate(a)
    }
    fn sum_spec(&self, a: u64, b: u64) -> u64 {
        self.sum(a, b)
    }
    fn difference_spec(&self, a: u64, b: u64) -> u64 {
        self.difference(a, b)
    }
    fn product_spec(&self, a: u64, b: u64) -> u64 {
        self.product(a, b)
    }
    fn quotient_spec(&self, a: u64, b: u64) -> u64 {
        self.quotient(a, b)
    }
    fn remainder_spec(&self, a: u64, b: u64) -> u64 {
        self.remainder(a, b)
    }
    fn is_zero_spec(&self, a: u64) -> bool {
        self.is_zero(a)
    }
    fn equal_spec(&self, a: u64, b: u64) -> bool {
        self.equal(a, b)
    }
    fn greater_spec(&self, a: u64, b: u64) -> bool {
        self.greater(a, b)
    }
    fn greater_equal_spec(&self, a: u64, b: u64) -> bool {
        self.greater_equal(a, b)
    }
    fn less_spec(&self, a: u64, b: u64) -> bool {
        self.less(a, b)
    }
    fn less_equal_spec(&self, a: u64, b: u64) -> bool {
        self.less_equal(a, b)
    }
    fn text_spec(&self, _a: u64) -> Text {
        unreachable!("spec functions are never run")
    }
    fn parse_number(&self, text: &str) -> u64 {
        text.parse::<f64>().unwrap().to_bits()
    }
    fn negate(&self, a: u64) -> u64 {
        (-f64::from_bits(a)).to_bits()
    }
    fn sum(&self, a: u64, b: u64) -> u64 {
        (f64::from_bits(a) + f64::from_bits(b)).to_bits()
    }
    fn difference(&self, a: u64, b: u64) -> u64 {
        (f64::from_bits(a) - f64::from_bits(b)).to_bits()
    }
    fn product(&self, a: u64, b: u64) -> u64 {
        (f64::from_bits(a) * f64::from_bits(b)).to_bits()
    }
    fn quotient(&self, a: u64, b: u64) -> u64 {
        (f64::from_bits(a) / f64::from_bits(b)).to_bits()
    }
    fn remainder(&self, a: u64, b: u64) -> u64 {
        (f64::from_bits(a) % f64::from_bits(b)).to_bits()
    }
    fn is_zero(&self, a: u64) -> bool {
        f64::from_bits(a) == 0.0
    }
    fn equal(&self, a: u64, b: u64) -> bool {
        f64::from_bits(a) == f64::from_bits(b)
    }
    fn greater(&self, a: u64, b: u64) -> bool {
        f64::from_bits(a) > f64::from_bits(b)
    }
    fn greater_equal(&self, a: u64, b: u64) -> bool {
        f64::from_bits(a) >= f64::from_bits(b)
    }
    fn less(&self, a: u64, b: u64) -> bool {
        f64::from_bits(a) < f64::from_bits(b)
    }
    fn less_equal(&self, a: u64, b: u64) -> bool {
        f64::from_bits(a) <= f64::from_bits(b)
    }
    fn number_to_string(&self, a: u64) -> String {
        f64::from_bits(a).to_string()
    }
    fn native_spec(&self, _name: Text, _args: Values, _r: Result<Literal, RuntimeError>) -> bool {
        unreachable!("spec functions are never run")
    }
    fn now(&self) -> u64 {
        1000.0f64.to_bits()
    }
    fn call_native(&self, name: &str, _args: &Vec<Literal>) -> Result<Literal, RuntimeError> {
        Err(RuntimeError::new(Token::default(), format!("Unknown native function {}.", name)))
    }
}

fn kinds(source: &str) -> Vec<TokenType> {
    let mut scanner = Scanner::new(source.to_string());
    scanner.scan_tokens(&Doubles).unwrap();
    scanner.tokens.iter().map(|t| t.token_type).collect()
}

#[test]
fn scans_a_declaration() {
    let mut scanner = Scanner::new("var x = 12.5;".to_string());
    assert!(scanner.scan_tokens(&Doubles).is_ok());
    let types: Vec<TokenType> = scanner.tokens.iter().map(|t| t.token_type).collect();
    assert_eq!(
        types,
        vec![TokenType::Var, TokenType::Identifier, TokenType::Equal, TokenType::Number, TokenType::Semicolon, TokenType::Eof]
    );
    assert_eq!(scanner.tokens[1].lexeme, "x");
    assert_eq!(scanner.tokens[3].lexeme, "12.5");
    assert!(matches!(scanner.tokens[3].literal, Some(Literal::Number(n)) if f64::from_bits(n) == 12.5));
    assert_eq!(scanner.tokens[5].lexeme, "");
    assert_eq!(scanner.tokens[5].line, 1);
}

#[test]
fn scans_operators_of_one_or_two_characters() {
    assert_eq!(
        kinds("! != = == < <= > >= / * - + ; , . ( ) { }"),
        vec![
            TokenType::Bang, TokenType::BangEqual, TokenType::Equal, TokenType::EqualEqual, TokenType::Less,
            TokenType::LessEqual, TokenType::Greater, TokenType::GreaterEqual, TokenType::Slash, TokenType::Star,
            TokenType::Minus, TokenType::Plus, TokenType::Semicolon, TokenType::Comma, TokenType::Dot,
            TokenType::LeftParen, TokenType::RightParen, TokenType::LeftBrace, TokenType::RightBrace, TokenType::Eof,
        ]
    );
}

#[test]
fn comments_and_newlines_are_skipped() {
    let mut scanner = Scanner::new("// a comment\nprint 1;\n".to_string());
    scanner.scan_tokens(&Doubles).unwrap();
    let types: Vec<TokenType> = scanner.tokens.iter().map(|t| t.token_type).collect();
    assert_eq!(types, vec![TokenType::Print, TokenType::Number, TokenType::Semicolon, TokenType::Eof]);
    assert_eq!(scanner.tokens[0].line, 2);
    assert_eq!(scanner.tokens[3].line, 3);
}

#[test]
fn keywords_are_recognised() {
    assert_eq!(
        kinds("and class else false for fun if nil print return super this true var while break"),
        vec![
            TokenType::And, TokenType::Class, TokenType::Else, TokenType::False, TokenType::For, TokenType::Fun,
            TokenType::If, TokenType::Nil, TokenType::Print, TokenType::Return, TokenType::Super, TokenType::This,
            TokenType::True, TokenType::Var, TokenType::While, TokenType::Identifier, TokenType::Eof,
        ]
    );
}

#[test]
fn a_leading_o_is_or_only_before_r() {
    assert_eq!(kinds("orange"), vec![TokenType::Or, TokenType::Identifier, TokenType::Eof]);
    assert_eq!(kinds("o"), vec![TokenType::Eof]);
    let mut scanner = Scanner::new("ok".to_string());
    scanner.scan_tokens(&Doubles).unwrap();
    assert_eq!(scanner.tokens[0].lexeme, "k");
}

#[test]
fn a_string_keeps_its_contents_and_counts_lines() {
    let mut scanner = Scanner::new("\"a\nb\" x".to_string());
    scanner.scan_tokens(&Doubles).unwrap();
    assert_eq!(scanner.tokens[0].token_type, TokenType::String);
    assert!(matches!(&scanner.tokens[0].literal, Some(Literal::String(s)) if s == "a\nb"));
    assert_eq!(scanner.tokens[0].lexeme, "\"a\nb\"");
    assert_eq!(scanner.tokens[1].line, 2);
}

#[test]
fn an_unterminated_string_is_an_error() {
    let mut scanner = Scanner::new("\"abc".to_string());
    let e = scanner.scan_tokens(&Doubles).unwrap_err();
    assert_eq!(e.message, "Unterminated string.");
    assert_eq!(e.line, 1);
}

#[test]
fn an_unexpected_character_is_an_error() {
    let mut scanner = Scanner::new("1 @".to_string());
    let e = scanner.scan_tokens(&Doubles).unwrap_err();
    assert_eq!(e.message, "Unexpected character '@'");
    assert_eq!(scanner.tokens.len(), 1);
}

#[test]
fn a_number_before_a_final_dot_overruns() {
    let mut scanner = Scanner::new("1.".to_string());
    assert!(scanner.scan_tokens_checked(&Doubles).is_none());
    let mut scanner = Scanner::new("1.5".to_string());
    assert!(matches!(scanner.scan_tokens_checked(&Doubles), Some(Ok(()))));
    let mut scanner = Scanner::new("1.x".to_string());
    assert!(matches!(scanner.scan_tokens_checked(&Doubles), Some(Ok(()))));
    assert_eq!(scanner.tokens[0].lexeme, "1");
    assert_eq!(scanner.tokens[1].token_type, TokenType::Dot);
}

#[test]
fn a_fresh_scanner_is_at_the_start() {
    let scanner = Scanner::new("x".to_string());
    assert!(!scanner.is_at_end());
    let empty = Scanner::new(String::new());
    assert!(empty.is_at_end());
}

#[test]
fn scans_lines_and_comments_and_ends_at_the_source_end() {
    let mut s = Scanner::new("var x = 12.5; // note\nprint x;".to_string());
    assert!(s.scan_tokens(&Doubles).is_ok());
    let types: Vec<TokenType> = s.tokens.iter().map(|t| t.token_type).collect();
    assert_eq!(
        types,
        vec![
            TokenType::Var, TokenType::Identifier, TokenType::Equal, TokenType::Number, TokenType::Semicolon,
            TokenType::Print, TokenType::Identifier, TokenType::Semicolon, TokenType::Eof,
        ]
    );
    let lines: Vec<u32> = s.tokens.iter().map(|t| t.line).collect();
    assert_eq!(lines, vec![1, 1, 1, 1, 1, 2, 2, 2, 2]);
    assert!(matches!(s.tokens[3].literal, Some(Literal::Number(n)) if f64::from_bits(n) == 12.5));
    assert!(s.is_at_end());
}

#[test]
fn an_error_keeps_the_tokens_before_it() {
    let mut s = Scanner::new("1 @".to_string());
    match s.scan_tokens(&Doubles) {
        Err(e) => assert_eq!(e.message, "Unexpected character '@'"),
        Ok(()) => panic!("expected an error"),
    }
    assert_eq!(s.tokens.len(), 1);
    assert_eq!(s.tokens[0].lexeme, "1");
    assert!(matches!(s.tokens[0].literal, Some(Literal::Number(n)) if f64::from_bits(n) == 1.0));
}

#[test]
fn an_unexpected_character_leaves_the_cursor_just_past_it() {
    let mut s = Scanner::new("@ 1".to_string());
    assert!(s.scan_tokens(&Doubles).is_err());
    assert!(!s.is_at_end());
    let mut t = Scanner::new("\"open".to_string());
    assert!(t.scan_tokens(&Doubles).is_err());
    assert!(t.is_at_end());
}
