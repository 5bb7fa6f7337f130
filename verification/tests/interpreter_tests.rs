use rlox::environment::Environment;
use rlox::error::{RuntimeError, RuntimeException};
use rlox::expr::Expr;
use rlox::interpreter::{number_text, Halt, Interpreter};
use rlox::native_function::{clock, Host, Text, Values};
use rlox::stmt::Stmt;
use rlox::token::{Literal, Token, TokenType};

struct Doubles;

impl Host for Doubles {
    fn debug_spec(&self, _a: u64) -> Text {
        unreachable!("spec functions are never run")
    }
    fn number_debug(&self, a: u64) -> String {
        format!("{:?}", f64::from_bits(a))
    }
    fn parse_spec(&self, _text: Text) -> u64 {
        unreachable!("spec functions are never run")
    }
    fn negate_spec(&self, a: u64) -> u64 {
        self.negate(a)
    }
    fn sum_spec(&self, a: u64, b: u64) -> u64 {
        self.sum(a, b)
    }
    fn difference_spec(&self, a: u64, b: u64) -> u64 {
        self.difference(a, b)
    }
    fn product_spec(&self, a: u64, b: u64) -> u64 {
        self.product(a, b)
    }
    fn quotient_spec(&self, a: u64, b: u64) -> u64 {
        self.quotient(a, b)
    }
    fn remainder_spec(&self, a: u64, b: u64) -> u64 {
        self.remainder(a, b)
    }
    fn is_zero_spec(&self, a: u64) -> bool {
        self.is_zero(a)
    }
    fn equal_spec(&self, a: u64, b: u64) -> bool {
        self.equal(a, b)
    }
    fn greater_spec(&self, a: u64, b: u64) -> bool {
        self.greater(a, b)
    }
    fn greater_equal_spec(&self, a: u64, b: u64) -> bool {
        self.greater_equal(a, b)
    }
    fn less_spec(&self, a: u64, b: u64) -> bool {
        self.less(a, b)
    }
    fn less_equal_spec(&self, a: u64, b: u64) -> bool {
        self.less_equal(a, b)
    }
    fn text_spec(&self, _a: u64) -> Text {
        unreachable!("spec functions are never run")
    }
    fn parse_number(&self, text: &str) -> u64 {
        text.parse::<f64>().unwrap().to_bits()
    }
    fn negate(&self, a: u64) -> u64 {
        (-f64::from_bits(a)).to_bits()
    }
    fn sum(&self, a: u64, b: u64) -> u64 {
        (f64::from_bits(a) + f64::from_bits(b)).to_bits()
    }
    fn difference(&self, a: u64, b: u64) -> u64 {
        (f64::from_bits(a) - f64::from_bits(b)).to_bits()
    }
    fn product(&self, a: u64, b: u64) -> u64 {
        (f64::from_bits(a) * f64::from_bits(b)).to_bits()
    }
    fn quotient(&self, a: u64, b: u64) -> u64 {
        (f64::from_bits(a) / f64::from_bits(b)).to_bits()
    }
    fn remainder(&self, a: u64, b: u64) -> u64 {
        (f64::from_bits(a) % f64::from_bits(b)).to_bits()
    }
    fn is_zero(&self, a: u64) -> bool {
        f64::from_bits(a) == 0.0
    }
    fn equal(&self, a: u64, b: u64) -> bool {
        f64::from_bits(a) == f64::from_bits(b)
    }
    fn greater(&self, a: u64, b: u64) -> bool {
        f64::from_bits(a) > f64::from_bits(b)
    }
    fn greater_equal(&self, a: u64, b: u64) -> bool {
        f64::from_bits(a) >= f64::from_bits(b)
    }
    fn less(&self, a: u64, b: u64) -> bool {
        f64::from_bits(a) < f64::from_bits(b)
    }
    fn less_equal(&self, a: u64, b: u64) -> bool {
        f64::from_bits(a) <= f64::from_bits(b)
    }
    fn number_to_string(&self, a: u64) -> String {
        f64::from_bits(a).to_string()
    }
    fn native_spec(&self, _name: Text, _args: Values, _r: Result<Literal, RuntimeError>) -> bool {
        unreachable!("spec functions are never run")
    }
    fn now(&self) -> u64 {
        1000.0f64.to_bits()
    }
    fn call_native(&self, name: &str, _args: &Vec<Literal>) -> Result<Literal, RuntimeError> {
        Err(RuntimeError::new(Token::default(), format!("Unknown native function {}.", name)))
    }
}

fn run(source: &str) -> (Result<(), Halt>, Vec<String>, Vec<String>, Interpreter) {
    let mut interpreter = Interpreter::default();
    let r = interpreter.run(&Doubles, source.to_string());
    let out = interpreter.take_output();
    let err = interpreter.take_errors();
    (r, out, err, interpreter)
}

fn number(x: f64) -> Literal {
    Literal::Number(x.to_bits())
}

#[test]
fn prints_arithmetic() {
    let (r, out, err, _) = run("print 1 + 2 * 3;");
    assert!(r.is_ok());
    assert_eq!(out, vec!["7"]);
    assert!(err.is_empty());
}

#[test]
fn prints_fractions_and_drops_a_point_zero() {
    let (_, out, _, _) = run("print 7 / 2; print 4 / 2;");
    assert_eq!(out, vec!["3.5", "2"]);
}

#[test]
fn concatenates_strings_and_values() {
    let (_, out, _, _) = run("print \"a\" + \"b\"; print \"n\" + 1; print true + \"!\";");
    assert_eq!(out, vec!["ab", "n1", "true!"]);
}

#[test]
fn compares_and_tests_equality() {
    let (_, out, _, _) = run("print 1 < 2; print 2 <= 1; print 1 == 1; print nil == false; print \"a\" != \"a\";");
    assert_eq!(out, vec!["true", "false", "true", "false", "false"]);
}

#[test]
fn or_yields_its_left_operand_either_way() {
    let (_, out, _, _) = run("print nil or 2; print 1 or 2; print 1 and 2; print false and 2;");
    assert_eq!(out, vec!["nil", "1", "2", "false"]);
}

#[test]
fn block_variables_can_be_assigned() {
    let (r, out, err, _) = run("{ var a = 1; a = a + 1; print a; }");
    assert!(r.is_ok());
    assert!(err.is_empty());
    assert_eq!(out, vec!["2"]);
}

#[test]
fn a_while_loop_runs_until_its_condition_fails() {
    let (_, out, _, _) = run("{ var i = 0; while (i < 3) { print i; i = i + 1; } }");
    assert_eq!(out, vec!["0", "1", "2"]);
}

#[test]
fn a_for_loop_counts() {
    let (_, out, _, _) = run("{ for (var i = 0; i < 2; i = i + 1) print i; }");
    assert_eq!(out, vec!["0", "1"]);
}

#[test]
fn break_leaves_the_loop() {
    let mut interpreter = Interpreter::default();
    let stop = Stmt::Break(Token::from_str("break"));
    let lp = Stmt::While(Expr::Literal(Literal::True), Box::new(Stmt::Block(vec![Stmt::Print(Expr::Literal(number(1.0))), stop])));
    let r = interpreter.evaluate_block(&Doubles, vec![lp, Stmt::Print(Expr::Literal(Literal::Nil))]);
    assert!(r.is_ok());
    assert_eq!(interpreter.take_output(), vec!["1", "nil"]);
}

#[test]
fn break_outside_a_loop_is_a_runtime_error() {
    let mut interpreter = Interpreter::default();
    match interpreter.evaluate_block(&Doubles, vec![Stmt::Break(Token::from_str("break"))]) {
        Err(RuntimeException::Base(e)) => assert_eq!(e.message, "Expected to be within a loop."),
        _ => panic!("expected an error"),
    }
}

#[test]
fn the_word_break_is_a_variable() {
    let (r, out, err, i) = run("{ while (true) { break; } }");
    assert!(r.is_ok());
    assert!(out.is_empty());
    assert_eq!(err, vec!["Undefined variable break.\n[line 1]"]);
    assert!(i.had_runtime_error());
}

#[test]
fn dividing_by_zero_is_a_runtime_error() {
    let (_, out, err, i) = run("print 1; print 1 / 0; print 2;");
    assert_eq!(out, vec!["1"]);
    assert_eq!(err, vec!["Cannot divide by zero\n[line 1]"]);
    assert!(i.had_runtime_error());
    assert!(!i.had_error());
}

#[test]
fn negating_a_string_is_a_runtime_error() {
    let (_, _, err, _) = run("print -\"x\";");
    assert_eq!(err, vec!["Operand must be a number.\n[line 1]"]);
}

#[test]
fn adding_a_number_to_nil_is_a_runtime_error() {
    let (_, _, err, _) = run("print 1 + nil;");
    assert_eq!(err, vec!["Operands must be two numbers or two strings.\n[line 1]"]);
    let (_, _, err, _) = run("print 1 - nil;");
    assert_eq!(err, vec!["Operands must be numbers.\n[line 1]"]);
}

#[test]
fn the_remainder_operator_works_on_numbers_only() {
    let mut percent = Token::from_str("%");
    percent.token_type = TokenType::Percent;
    let good = Expr::Binary(Box::new(Expr::Literal(number(7.0))), percent.clone(), Box::new(Expr::Literal(number(4.0))));
    let bad = Expr::Binary(Box::new(Expr::Literal(Literal::Nil)), percent, Box::new(Expr::Literal(number(1.0))));
    let mut interpreter = Interpreter::default();
    assert!(interpreter.evaluate_block(&Doubles, vec![Stmt::Print(good)]).is_ok());
    assert_eq!(interpreter.take_output(), vec!["3"]);
    match interpreter.evaluate_block(&Doubles, vec![Stmt::Print(bad)]) {
        Err(RuntimeException::Base(e)) => assert_eq!(e.message, "Operands must be numbers"),
        _ => panic!("expected an error"),
    }
}

#[test]
fn a_variable_without_initializer_is_a_runtime_error() {
    let (_, _, err, _) = run("{ var a; }");
    assert_eq!(err, vec!["Must assign value to new variable.\n[line 1]"]);
}

#[test]
fn an_unknown_variable_is_a_runtime_error() {
    let (_, _, err, _) = run("{ print b; }");
    assert_eq!(err, vec!["Undefined variable b.\n[line 1]"]);
}

#[test]
fn a_global_variable_cannot_be_resolved() {
    let (r, out, err, _) = run("var a = 1; print a;");
    assert!(matches!(r, Err(Halt::Unresolvable)));
    assert!(out.is_empty());
    assert!(err.is_empty());
}

#[test]
fn a_number_before_a_final_dot_halts() {
    let (r, _, _, _) = run("print 1.");
    assert!(matches!(r, Err(Halt::ScannerOverrun)));
}

#[test]
fn reading_a_local_in_its_own_initializer_is_an_error() {
    let (r, out, err, i) = run("{ var a = a; print 1; }");
    assert!(r.is_ok());
    assert!(out.is_empty());
    assert_eq!(err, vec!["[line 1] Error at 'a': Can't read local variable in its own initializer."]);
    assert!(i.had_error());
}

#[test]
fn a_lexical_error_is_reported_and_nothing_runs() {
    let (r, out, err, i) = run("print ; @");
    assert!(r.is_ok());
    assert!(out.is_empty());
    assert_eq!(err, vec!["[line 1] Error: Unexpected character '@'"]);
    assert!(i.had_error());
}

#[test]
fn a_syntax_error_is_reported_with_its_line() {
    let (r, out, err, i) = run("print 1");
    assert!(r.is_ok());
    assert!(out.is_empty());
    assert_eq!(err, vec!["Expected ';' after value.\n[line 1]"]);
    assert!(!i.had_error());
}

#[test]
fn the_global_scope_holds_clock() {
    let interpreter = Interpreter::default();
    let v = interpreter.environment.get(Token::from_str("clock")).ok().unwrap();
    assert!(matches!(v, Literal::NativeFunction(ref f) if f.name == "clock" && f.arity == 0));
}

#[test]
fn clock_takes_no_arguments() {
    assert!(matches!(clock(&vec![], 5.0f64.to_bits()), Ok(Literal::Number(n)) if f64::from_bits(n) == 5.0));
    let e = clock(&vec![Literal::Nil], 0).err().unwrap();
    assert_eq!(e.message, "Expected 0 args, received 1.");
}

#[test]
fn calls_a_function_declared_in_a_block() {
    let mut interpreter = Interpreter::default();
    let x = Token::from_str("x");
    let body = vec![Stmt::Return(Token::from_str("return"), Box::new(Some(Expr::Variable(x.clone()))))];
    let declare = Stmt::Function(Token::from_str("f"), vec![x], Box::new(body));
    let call = Expr::Call(
        Box::new(Expr::Variable(Token::from_str("f"))),
        Token::from_str(")"),
        Box::new(vec![Expr::Literal(number(4.0))]),
    );
    let r = interpreter.evaluate_block(&Doubles, vec![declare, Stmt::Print(call)]);
    assert!(r.is_ok());
    assert_eq!(interpreter.take_output(), vec!["4"]);
}

#[test]
fn a_call_with_the_wrong_number_of_arguments_fails() {
    let mut interpreter = Interpreter::default();
    let declare = Stmt::Function(Token::from_str("f"), vec![Token::from_str("x")], Box::new(vec![]));
    let call = Expr::Call(Box::new(Expr::Variable(Token::from_str("f"))), Token::from_str(")"), Box::new(vec![]));
    let r = interpreter.evaluate_block(&Doubles, vec![declare, Stmt::Expression(call)]);
    match r {
        Err(RuntimeException::Base(e)) => assert_eq!(e.message, "Expected 1 arguments but got 0."),
        _ => panic!("expected an arity error"),
    }
}

#[test]
fn calling_a_number_fails() {
    let mut interpreter = Interpreter::default();
    let call = Expr::Call(Box::new(Expr::Literal(number(1.0))), Token::from_str(")"), Box::new(vec![]));
    match interpreter.evaluate_block(&Doubles, vec![Stmt::Expression(call)]) {
        Err(RuntimeException::Base(e)) => assert_eq!(e.message, "Can only call functions and classes."),
        _ => panic!("expected an error"),
    }
}

#[test]
fn calling_clock_gives_the_host_time() {
    let mut interpreter = Interpreter::default();
    let call = Expr::Call(Box::new(Expr::Variable(Token::from_str("clock"))), Token::from_str(")"), Box::new(vec![]));
    let r = interpreter.evaluate_block(&Doubles, vec![Stmt::Print(call)]);
    assert!(r.is_ok());
    assert_eq!(interpreter.take_output(), vec!["1000"]);
}

#[test]
fn a_lambda_prints_as_an_anonymous_function() {
    let mut interpreter = Interpreter::default();
    let lambda = Expr::Lambda(vec![], Box::new(vec![]));
    let r = interpreter.evaluate_block(&Doubles, vec![Stmt::Print(lambda)]);
    assert!(r.is_ok());
    assert_eq!(interpreter.take_output(), vec!["<fn >"]);
}

#[test]
fn an_empty_expression_is_nil() {
    let mut interpreter = Interpreter::default();
    let r = interpreter.evaluate_block(&Doubles, vec![Stmt::Print(Expr::Empty)]);
    assert!(r.is_ok());
    assert_eq!(interpreter.take_output(), vec!["nil"]);
}

#[test]
fn a_resolved_depth_is_read_back() {
    let mut interpreter = Interpreter::new(&Environment::new());
    let e = Expr::Variable(Token::from_str("a"));
    interpreter.resolve(e, 0);
    let r = interpreter.evaluate_block(
        &Doubles,
        vec![Stmt::Var(Token::from_str("a"), Some(Expr::Literal(number(9.0)))), Stmt::Print(Expr::Variable(Token::from_str("a")))],
    );
    assert!(r.is_ok());
    assert_eq!(interpreter.take_output(), vec!["9"]);
}

#[test]
fn the_error_flag_can_be_cleared() {
    let (_, _, _, mut i) = run("print ; @");
    assert!(i.had_error());
    i.clear_error();
    assert!(!i.had_error());
}

#[test]
fn an_error_line_names_its_place() {
    let mut interpreter = Interpreter::default();
    interpreter.error(3, "boom".to_string());
    let mut eof = Token::from_str("");
    eof.token_type = TokenType::Eof;
    eof.line = 4;
    interpreter.log_error(eof, "late".to_string());
    let mut name = Token::from_str("x");
    name.token_type = TokenType::Identifier;
    name.line = 5;
    interpreter.log_error(name, "bad".to_string());
    assert_eq!(
        interpreter.take_errors(),
        vec!["[line 3] Error: boom", "[line 4] Errorat end: late", "[line 5] Error at 'x': bad"]
    );
    assert!(interpreter.had_error());
}

#[test]
fn a_number_prints_without_a_final_point_zero() {
    assert_eq!(number_text("2.0".to_string()), "2");
    assert_eq!(number_text("3.5".to_string()), "3.5");
    assert_eq!(number_text("10".to_string()), "10");
    assert_eq!(number_text("1.05".to_string()), "1.05");
}

#[test]
fn a_string_plus_a_number_joins_the_number_text() {
    let (_, out, _, _) = run("print \"a\" + 1; print 2.5 + \"b\"; print 7 - 2; print 2 > 1;");
    assert_eq!(out, vec!["a1", "2.5b", "5", "true"]);
}

#[test]
fn a_function_can_be_called_directly() {
    let mut interpreter = Interpreter::default();
    let x = Token::from_str("x");
    let body = vec![Stmt::Return(Token::from_str("return"), Box::new(Some(Expr::Variable(x.clone()))))];
    let declaration = Stmt::Function(Token::from_str("f"), vec![x], Box::new(body));
    let mut f = rlox::lox_function::LoxFunction::new("f".to_string(), declaration, Environment::new());
    let r = interpreter.call(&Doubles, &mut f, &vec![number(6.0)]);
    assert!(matches!(r, Ok(Literal::Number(n)) if f64::from_bits(n) == 6.0));
}

#[test]
fn a_native_call_goes_to_clock_or_to_the_host_by_name() {
    use_native_calls();
}

fn use_native_calls() {
    let clock_fn = rlox::native_function::NativeFunction { name: "clock".to_string(), arity: 0 };
    let r = rlox::native_function::call_native_function(&Doubles, &clock_fn, &vec![]);
    assert!(matches!(r, Ok(Literal::Number(n)) if f64::from_bits(n) == 1000.0));
    let other = rlox::native_function::NativeFunction { name: "other".to_string(), arity: 1 };
    match rlox::native_function::call_native_function(&Doubles, &other, &vec![number(1.0)]) {
        Err(RuntimeException::Base(e)) => assert_eq!(e.message, "Unknown native function other."),
        _ => panic!("expected the host's error"),
    }
}

#[test]
fn adding_mismatched_values_prints_their_debug_forms_first() {
    let (_, out, err, _) = run("print 1 + nil; print true + false;");
    assert_eq!(out, vec!["l1: Number(1.0), l2: Nil"]);
    assert_eq!(err, vec!["Operands must be two numbers or two strings.\n[line 1]"]);
}

#[test]
fn a_function_with_more_parameters_than_its_arity_shows_fails_on_call() {
    let mut interpreter = Interpreter::default();
    let params: Vec<Token> = (0..256).map(|i| Token::from_str(&format!("p{}", i))).collect();
    let declare = Stmt::Function(Token::from_str("f"), params, Box::new(vec![]));
    let call = Expr::Call(Box::new(Expr::Variable(Token::from_str("f"))), Token::from_str(")"), Box::new(vec![]));
    match interpreter.evaluate_block(&Doubles, vec![declare, Stmt::Expression(call)]) {
        Err(RuntimeException::Base(e)) => assert_eq!(e.message, "Expected 256 arguments but got 0."),
        _ => panic!("expected an error"),
    }
}
