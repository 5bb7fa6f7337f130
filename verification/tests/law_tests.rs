use rlox::environment::Environment;
use rlox::error::RuntimeError;
use rlox::expr::Expr;
use rlox::interpreter::Interpreter;
use rlox::native_function::{Host, Text, Values};
use rlox::scanner::Scanner;
use rlox::error::RuntimeException;
use rlox::stmt::Stmt;
use rlox::token::{Literal, Token};

struct Doubles;

impl Host for Doubles {
    fn debug_spec(&self, _a: u64) -> Text {
        unreachable!("spec functions are never run")
    }
    fn number_debug(&self, a: u64) -> String {
        format!("{:?}", f64::from_bits(a))
    }
    fn parse_spec(&self, _text: Text) -> u64 {
        unreachable!("spec functions are never run")
    }
    fn negate_spec(&self, a: u64) -> u64 {
        self.negate(a)
    }
    fn sum_spec(&self, a: u64, b: u64) -> u64 {
        self.sum(a, b)
    }
    fn difference_spec(&self, a: u64, b: u64) -> u64 {
        self.difference(a, b)
    }
    fn product_spec(&self, a: u64, b: u64) -> u64 {
        self.product(a, b)
    }
    fn quotient_spec(&self, a: u64, b: u64) -> u64 {
        self.quotient(a, b)
    }
    fn remainder_spec(&self, a: u64, b: u64) -> u64 {
        self.remainder(a, b)
    }
    fn is_zero_spec(&self, a: u64) -> bool {
        self.is_zero(a)
    }
    fn equal_spec(&self, a: u64, b: u64) -> bool {
        self.equal(a, b)
    }
    fn greater_spec(&self, a: u64, b: u64) -> bool {
        self.greater(a, b)
    }
    fn greater_equal_spec(&self, a: u64, b: u64) -> bool {
        self.greater_equal(a, b)
    }
    fn less_spec(&self, a: u64, b: u64) -> bool {
        self.less(a, b)
    }
    fn less_equal_spec(&self, a: u64, b: u64) -> bool {
        self.less_equal(a, b)
    }
    fn text_spec(&self, _a: u64) -> Text {
        unreachable!("spec functions are never run")
    }
    fn parse_number(&self, text: &str) -> u64 {
        text.parse::<f64>().unwrap().to_bits()
    }
    fn negate(&self, a: u64) -> u64 {
        (-f64::from_bits(a)).to_bits()
    }
    fn sum(&self, a: u64, b: u64) -> u64 {
        (f64::from_bits(a) + f64::from_bits(b)).to_bits()
    }
    fn difference(&self, a: u64, b: u64) -> u64 {
        (f64::from_bits(a) - f64::from_bits(b)).to_bits()
    }
    fn product(&self, a: u64, b: u64) -> u64 {
        (f64::from_bits(a) * f64::from_bits(b)).to_bits()
    }
    fn quotient(&self, a: u64, b: u64) -> u64 {
        (f64::from_bits(a) / f64::from_bits(b)).to_bits()
    }
    fn remainder(&self, a: u64, b: u64) -> u64 {
        (f64::from_bits(a) % f64::from_bits(b)).to_bits()
    }
    fn is_zero(&self, a: u64) -> bool {
        f64::from_bits(a) == 0.0
    }
    fn equal(&self, a: u64, b: u64) -> bool {
        f64::from_bits(a) == f64::from_bits(b)
    }
    fn greater(&self, a: u64, b: u64) -> bool {
        f64::from_bits(a) > f64::from_bits(b)
    }
    fn greater_equal(&self, a: u64, b: u64) -> bool {
        f64::from_bits(a) >= f64::from_bits(b)
    }
    fn less(&self, a: u64, b: u64) -> bool {
        f64::from_bits(a) < f64::from_bits(b)
    }
    fn less_equal(&self, a: u64, b: u64) -> bool {
        f64::from_bits(a) <= f64::from_bits(b)
    }
    fn number_to_string(&self, a: u64) -> String {
        f64::from_bits(a).to_string()
    }
    fn native_spec(&self, _name: Text, _args: Values, _r: Result<Literal, RuntimeError>) -> bool {
        unreachable!("spec functions are never run")
    }
    fn now(&self) -> u64 {
        1000.0f64.to_bits()
    }
    fn call_native(&self, name: &str, _args: &Vec<Literal>) -> Result<Literal, RuntimeError> {
        Err(RuntimeError::new(Token::default(), format!("Unknown native function {}.", name)))
    }
}

fn number(x: f64) -> Literal {
    Literal::Number(x.to_bits())
}

fn name(text: &str) -> Token {
    Token::from_str(text)
}

fn output_of(source: &str) -> (Vec<String>, Vec<String>, Interpreter) {
    let mut interpreter = Interpreter::default();
    let _ = interpreter.run(&Doubles, source.to_string());
    let out = interpreter.take_output();
    let err = interpreter.take_errors();
    (out, err, interpreter)
}

#[test]
fn a_declared_variable_reads_back_its_initial_value() {
    let mut interpreter = Interpreter::new(&Environment::new());
    let init = Expr::Binary(
        Box::new(Expr::Literal(number(1.0))),
        {
            let mut plus = name("+");
            plus.token_type = rlox::token::TokenType::Plus;
            plus
        },
        Box::new(Expr::Literal(number(2.0))),
    );
    let r = interpreter.evaluate_block(
        &Doubles,
        vec![Stmt::Var(name("a"), Some(init)), Stmt::Print(Expr::Variable(name("a")))],
    );
    assert!(r.is_ok());
    assert_eq!(interpreter.take_output(), vec!["3"]);
}

#[test]
fn an_assigned_variable_reads_back_the_new_value() {
    let mut interpreter = Interpreter::new(&Environment::new());
    let r = interpreter.evaluate_block(
        &Doubles,
        vec![
            Stmt::Var(name("a"), Some(Expr::Literal(number(1.0)))),
            Stmt::Expression(Expr::Assign(name("a"), Box::new(Expr::Literal(number(5.0))))),
            Stmt::Print(Expr::Variable(name("a"))),
        ],
    );
    assert!(r.is_ok());
    assert_eq!(interpreter.take_output(), vec!["5"]);
}

#[test]
fn an_assignment_at_a_resolved_depth_does_not_stick() {
    let mut interpreter = Interpreter::new(&Environment::new());
    let assign = Expr::Assign(name("a"), Box::new(Expr::Literal(number(5.0))));
    interpreter.resolve(assign.clone(), 0);
    let r = interpreter.evaluate_block(
        &Doubles,
        vec![
            Stmt::Var(name("a"), Some(Expr::Literal(number(1.0)))),
            Stmt::Print(assign),
            Stmt::Print(Expr::Variable(name("a"))),
        ],
    );
    assert!(r.is_ok());
    assert_eq!(interpreter.take_output(), vec!["5", "1"]);
}

#[test]
fn a_print_statement_adds_exactly_one_line() {
    let mut interpreter = Interpreter::new(&Environment::new());
    let r = interpreter.evaluate_block(&Doubles, vec![Stmt::Print(Expr::Literal(Literal::String("hi".to_string())))]);
    assert!(r.is_ok());
    assert_eq!(interpreter.take_output(), vec!["hi"]);
}

#[test]
fn later_runs_only_add_printed_lines() {
    let mut interpreter = Interpreter::default();
    assert!(interpreter.run(&Doubles, "print 1;".to_string()).is_ok());
    assert!(interpreter.run(&Doubles, "print 2; print 3;".to_string()).is_ok());
    assert_eq!(interpreter.take_output(), vec!["1", "2", "3"]);
    assert!(interpreter.take_errors().is_empty());
}

#[test]
fn equality_is_symmetric_and_negated_by_not_equal() {
    let (out, err, _) = output_of("print nil == false; print false == nil; print \"a\" == \"a\"; print \"a\" != \"a\"; print nil != nil;");
    assert!(err.is_empty());
    assert_eq!(out, vec!["false", "false", "true", "false", "false"]);
}

#[test]
fn double_negation_tells_whether_a_value_counts_as_true() {
    let (out, _, _) = output_of("print !!nil; print !!0; print !!\"\"; print !!false;");
    assert_eq!(out, vec!["false", "true", "true", "false"]);
}

#[test]
fn a_run_stops_at_the_first_failing_statement() {
    let (out, err, interpreter) = output_of("print 1; print -\"x\"; print 2;");
    assert_eq!(out, vec!["1"]);
    assert_eq!(err, vec!["Operand must be a number.\n[line 1]"]);
    assert!(interpreter.had_runtime_error());
}

#[test]
fn a_resolution_error_prints_nothing() {
    let (out, err, interpreter) = output_of("print 1; { var a = a; }");
    assert!(out.is_empty());
    assert_eq!(err.len(), 1);
    assert!(interpreter.had_error());
}

#[test]
fn the_last_recorded_depth_wins() {
    let mut interpreter = Interpreter::new(&Environment::new());
    let e = Expr::Variable(name("a"));
    interpreter.resolve(e.clone(), 5);
    interpreter.resolve(e, 0);
    let r = interpreter.evaluate_block(
        &Doubles,
        vec![Stmt::Var(name("a"), Some(Expr::Literal(number(9.0)))), Stmt::Print(Expr::Variable(name("a")))],
    );
    assert!(r.is_ok());
    assert_eq!(interpreter.take_output(), vec!["9"]);
}

#[test]
fn tokens_follow_the_source_in_order() {
    let source = "ab+c1 >= (d)";
    let mut scanner = Scanner::new(source.to_string());
    assert!(scanner.scan_tokens(&Doubles).is_ok());
    let joined: String = scanner.tokens.iter().map(|t| t.lexeme.clone()).collect();
    assert_eq!(joined, source.replace(' ', ""));
}

#[test]
fn a_block_that_completes_leaves_its_frames() {
    let mut interpreter = Interpreter::new(&Environment::new());
    let inner = Stmt::Block(vec![Stmt::Var(name("b"), Some(Expr::Literal(number(2.0))))]);
    let r = interpreter.evaluate_block(&Doubles, vec![Stmt::Var(name("a"), Some(Expr::Literal(number(1.0)))), inner]);
    assert!(r.is_ok());
    assert!(interpreter.environment.fits_depth(2));
    assert!(!interpreter.environment.fits_depth(1));
}

#[test]
fn a_break_out_of_a_block_leaves_its_frame_behind() {
    let mut interpreter = Interpreter::new(&Environment::new());
    let body = Stmt::Block(vec![Stmt::Break(name("break"))]);
    let r = interpreter.evaluate_block(&Doubles, vec![Stmt::While(Expr::Literal(Literal::True), Box::new(body))]);
    assert!(r.is_ok());
    assert!(interpreter.environment.fits_depth(3));
    assert!(!interpreter.environment.fits_depth(2));
}

#[test]
fn after_a_loop_a_break_is_outside_any_loop() {
    let mut interpreter = Interpreter::new(&Environment::new());
    let r = interpreter.evaluate_block(
        &Doubles,
        vec![Stmt::While(Expr::Literal(Literal::False), Box::new(Stmt::Block(vec![]))), Stmt::Break(name("break"))],
    );
    match r {
        Err(RuntimeException::Base(e)) => assert_eq!(e.message, "Expected to be within a loop."),
        _ => panic!("expected an error"),
    }
}

#[test]
fn a_break_does_not_leave_its_function() {
    let mut interpreter = Interpreter::new(&Environment::new());
    let declare = Stmt::Function(name("f"), vec![], Box::new(vec![Stmt::Break(name("break"))]));
    let call = Expr::Call(Box::new(Expr::Variable(name("f"))), name(")"), Box::new(vec![]));
    let r = interpreter.evaluate_block(
        &Doubles,
        vec![declare, Stmt::While(Expr::Literal(Literal::True), Box::new(Stmt::Expression(call)))],
    );
    match r {
        Err(RuntimeException::Base(e)) => assert_eq!(e.message, "Expected to be within a loop."),
        _ => panic!("expected an error"),
    }
}

#[test]
fn an_inner_declaration_leaves_the_outer_scope() {
    let (out, err, _) = output_of("{ var a = 1; { var a = 2; print a; } print a; }");
    assert!(err.is_empty());
    assert_eq!(out, vec!["2", "1"]);
}
