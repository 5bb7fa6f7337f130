use rlox::ast_printer::AstPrinter;
use rlox::error::RuntimeError;
use rlox::expr::Expr;
use rlox::native_function::{Host, Text, Values};
use rlox::parser::Parser;
use rlox::scanner::Scanner;
use rlox::stmt::Stmt;
use rlox::token::{Literal, Token, TokenType};

struct Doubles;

impl Host for Doubles {
    fn debug_spec(&self, _a: u64) -> Text {
        unreachable!("spec functions are never run")
    }
    fn number_debug(&self, a: u64) -> String {
        format!("{:?}", f64::from_bits(a))
    }
    fn parse_spec(&self, _text: Text) -> u64 {
        unreachable!("spec functions are never run")
    }
    fn negate_spec(&self, a: u64) -> u64 {
        self.negate(a)
    }
    fn sum_spec(&self, a: u64, b: u64) -> u64 {
        self.sum(a, b)
    }
    fn difference_spec(&self, a: u64, b: u64) -> u64 {
        self.difference(a, b)
    }
    fn product_spec(&self, a: u64, b: u64) -> u64 {
        self.product(a, b)
    }
    fn quotient_spec(&self, a: u64, b: u64) -> u64 {
        self.quotient(a, b)
    }
    fn remainder_spec(&self, a: u64, b: u64) -> u64 {
        self.remainder(a, b)
    }
    fn is_zero_spec(&self, a: u64) -> bool {
        self.is_zero(a)
    }
    fn equal_spec(&self, a: u64, b: u64) -> bool {
        self.equal(a, b)
    }
    fn greater_spec(&self, a: u64, b: u64) -> bool {
        self.greater(a, b)
    }
    fn greater_equal_spec(&self, a: u64, b: u64) -> bool {
        self.greater_equal(a, b)
    }
    fn less_spec(&self, a: u64, b: u64) -> bool {
        self.less(a, b)
    }
    fn less_equal_spec(&self, a: u64, b: u64) -> bool {
        self.less_equal(a, b)
    }
    fn text_spec(&self, _a: u64) -> Text {
        unreachable!("spec functions are never run")
    }
    fn parse_number(&self, text: &str) -> u64 {
        text.parse::<f64>().unwrap().to_bits()
    }
    fn negate(&self, a: u64) -> u64 {
        (-f64::from_bits(a)).to_bits()
    }
    fn sum(&self, a: u64, b: u64) -> u64 {
        (f64::from_bits(a) + f64::from_bits(b)).to_bits()
    }
    fn difference(&self, a: u64, b: u64) -> u64 {
        (f64::from_bits(a) - f64::from_bits(b)).to_bits()
    }
    fn product(&self, a: u64, b: u64) -> u64 {
        (f64::from_bits(a) * f64::from_bits(b)).to_bits()
    }
    fn quotient(&self, a: u64, b: u64) -> u64 {
        (f64::from_bits(a) / f64::from_bits(b)).to_bits()
    }
    fn remainder(&self, a: u64, b: u64) -> u64 {
        (f64::from_bits(a) % f64::from_bits(b)).to_bits()
    }
    fn is_zero(&self, a: u64) -> bool {
        f64::from_bits(a) == 0.0
    }
    fn equal(&self, a: u64, b: u64) -> bool {
        f64::from_bits(a) == f64::from_bits(b)
    }
    fn greater(&self, a: u64, b: u64) -> bool {
        f64::from_bits(a) > f64::from_bits(b)
    }
    fn greater_equal(&self, a: u64, b: u64) -> bool {
        f64::from_bits(a) >= f64::from_bits(b)
    }
    fn less(&self, a: u64, b: u64) -> bool {
        f64::from_bits(a) < f64::from_bits(b)
    }
    fn less_equal(&self, a: u64, b: u64) -> bool {
        f64::from_bits(a) <= f64::from_bits(b)
    }
    fn number_to_string(&self, a: u64) -> String {
        f64::from_bits(a).to_string()
    }
    fn native_spec(&self, _name: Text, _args: Values, _r: Result<Literal, RuntimeError>) -> bool {
        unreachable!("spec functions are never run")
    }
    fn now(&self) -> u64 {
        1000.0f64.to_bits()
    }
    fn call_native(&self, name: &str, _args: &Vec<Literal>) -> Result<Literal, RuntimeError> {
        Err(RuntimeError::new(Token::default(), format!("Unknown native function {}.", name)))
    }
}

fn parse(source: &str) -> Result<Vec<Stmt>, rlox::error::ParserError> {
    let mut scanner = Scanner::new(source.to_string());
    scanner.scan_tokens(&Doubles).unwrap();
    let mut parser = Parser::new(scanner.tokens);
    parser.parse()
}

fn printed_expression(source: &str) -> String {
    let stmts = parse(source).ok().unwrap();
    match stmts.into_iter().next().unwrap() {
        Stmt::Expression(e) | Stmt::Print(e) => AstPrinter::new().print(&Doubles, e),
        _ => panic!("not an expression statement"),
    }
}

#[test]
fn precedence_of_arithmetic() {
    assert_eq!(printed_expression("1 + 2 * 3;"), "(+ 1 (* 2 3))");
    assert_eq!(printed_expression("(1 + 2) * 3;"), "(* (group (+ 1 2)) 3)");
    assert_eq!(printed_expression("1 - 2 - 3;"), "(- (- 1 2) 3)");
}

#[test]
fn comparison_equality_and_unary() {
    assert_eq!(printed_expression("!true == 1 < 2;"), "(== (! true) (< 1 2))");
    assert_eq!(printed_expression("-a / 2;"), "(/ (- (var a)) 2)");
}

#[test]
fn logical_and_assignment() {
    assert_eq!(printed_expression("a = b or c and nil;"), "(var a (or (var b) (and (var c) nil)))");
}

#[test]
fn strings_print_as_their_contents() {
    assert_eq!(printed_expression("\"hi\";"), "hi");
}

#[test]
fn printing_a_call_lists_its_arguments() {
    let callee = Expr::Variable(Token::from_str("f"));
    let args = vec![Expr::Literal(Literal::True), Expr::Literal(Literal::Nil)];
    let call = Expr::Call(Box::new(callee), Token::from_str(")"), Box::new(args));
    assert_eq!(AstPrinter::default().print(&Doubles, call), "(var f)true nil )");
}

#[test]
fn a_missing_semicolon_is_reported_at_the_end() {
    let e = parse("print 1").err().unwrap();
    assert_eq!(e.message, "Expected ';' after value.");
    assert_eq!(e.token.token_type, TokenType::Eof);
}

#[test]
fn an_invalid_assignment_target_is_reported() {
    let e = parse("1 = 2;").err().unwrap();
    assert_eq!(e.message, "Invalid assignment target.");
    assert_eq!(e.token.token_type, TokenType::Equal);
}

#[test]
fn a_missing_expression_is_reported() {
    let e = parse("print ;").err().unwrap();
    assert_eq!(e.message, "Expect expression");
    assert_eq!(e.token.token_type, TokenType::Semicolon);
}

#[test]
fn a_for_loop_becomes_a_while_loop() {
    let stmts = parse("for (var i = 0; i < 2; i = i + 1) print i;").ok().unwrap();
    assert_eq!(stmts.len(), 1);
    match &stmts[0] {
        Stmt::Block(parts) => {
            assert_eq!(parts.len(), 2);
            assert!(matches!(parts[0], Stmt::Var(_, Some(_))));
            match &parts[1] {
                Stmt::While(_, body) => match &**body {
                    Stmt::Block(inner) => {
                        assert_eq!(inner.len(), 2);
                        assert!(matches!(inner[0], Stmt::Print(_)));
                        assert!(matches!(inner[1], Stmt::Expression(Expr::Assign(_, _))));
                    },
                    _ => panic!("the body should be a block"),
                },
                _ => panic!("expected a while loop"),
            }
        },
        _ => panic!("expected a block"),
    }
}

#[test]
fn a_for_loop_without_condition_loops_on_true() {
    let stmts = parse("for (;;) print 1;").ok().unwrap();
    match &stmts[0] {
        Stmt::While(Expr::Literal(Literal::True), body) => assert!(matches!(**body, Stmt::Print(_))),
        _ => panic!("expected a while loop on true"),
    }
}

#[test]
fn the_word_break_is_an_identifier() {
    let stmts = parse("break;").ok().unwrap();
    assert!(matches!(&stmts[0], Stmt::Expression(Expr::Variable(t)) if t.token_type == TokenType::Identifier));
}

#[test]
fn a_break_token_carries_the_position_after_its_semicolon() {
    let tokens = vec![
        Token::new(TokenType::Break, "break".to_string(), None, 1),
        Token::new(TokenType::Semicolon, ";".to_string(), None, 1),
        Token::new(TokenType::Eof, String::new(), None, 1),
    ];
    let stmts = Parser::new(tokens).parse().ok().unwrap();
    match &stmts[0] {
        Stmt::Break(t) => {
            assert_eq!(t.line, 2);
            assert_eq!(t.lexeme, "break");
        },
        _ => panic!("expected a break"),
    }
}

#[test]
fn synchronize_skips_past_the_next_semicolon() {
    let mut scanner = Scanner::new("a b; print 1;".to_string());
    scanner.scan_tokens(&Doubles).unwrap();
    let mut parser = Parser::new(scanner.tokens);
    parser.synchronize();
    assert_eq!(parser.current, 3);
}

#[test]
fn an_empty_program_parses_to_nothing() {
    assert_eq!(parse("").ok().unwrap().len(), 0);
    let parser = Parser::default();
    assert_eq!(parser.current, 0);
}

#[test]
fn prints_a_nested_expression_with_numbers() {
    let minus = Token::new(TokenType::Minus, "-".to_string(), None, 1);
    let star = Token::new(TokenType::Star, "*".to_string(), None, 1);
    let e = Expr::Binary(
        Box::new(Expr::Unary(minus, Box::new(Expr::Literal(Literal::Number(123.0f64.to_bits()))))),
        star,
        Box::new(Expr::Grouping(Box::new(Expr::Literal(Literal::Number(45.67f64.to_bits()))))),
    );
    assert_eq!(AstPrinter::new().print(&Doubles, e), "(* (- 123) (group 45.67))");
}

#[test]
fn a_missing_expression_leaves_the_position() {
    let mut scanner = Scanner::new(";".to_string());
    scanner.scan_tokens(&Doubles).unwrap();
    let mut parser = Parser::new(scanner.tokens);
    match parser.parse() {
        Err(e) => assert_eq!(e.message, "Expect expression"),
        Ok(_) => panic!("expected an error"),
    }
    assert_eq!(parser.current, 0);
}
