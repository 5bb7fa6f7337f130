use rlox::environment::Environment;
use rlox::error::RuntimeException;
use rlox::token::{Literal, Token};

fn number(x: f64) -> Literal {
    Literal::Number(x.to_bits())
}

fn value_of(env: &Environment, name: &str) -> Option<f64> {
    match env.get(Token::from_str(name)) {
        Ok(Literal::Number(n)) => Some(f64::from_bits(n)),
        _ => None,
    }
}

#[test]
fn a_read_after_a_definition_gives_the_value() {
    let mut env = Environment::new();
    env.define("a".to_string(), number(1.0));
    assert_eq!(value_of(&env, "a"), Some(1.0));
    env.define("a".to_string(), number(2.0));
    assert_eq!(value_of(&env, "a"), Some(2.0));
}

#[test]
fn a_definition_leaves_other_names() {
    let mut env = Environment::new();
    env.define("a".to_string(), number(1.0));
    env.define("b".to_string(), number(2.0));
    assert_eq!(value_of(&env, "a"), Some(1.0));
}

#[test]
fn an_unbound_name_is_an_error() {
    let env = Environment::default();
    match env.get(Token::from_str("zz")) {
        Err(RuntimeException::Base(e)) => assert_eq!(e.message, "Undefined variable zz."),
        _ => panic!("expected an error"),
    }
    let mut env = Environment::new();
    match env.assign(Token::from_str("zz"), Literal::Nil) {
        Err(RuntimeException::Base(e)) => assert_eq!(e.message, "Undefined variable zz."),
        _ => panic!("expected an error"),
    }
}

#[test]
fn an_assignment_changes_the_innermost_binding() {
    let mut outer = Environment::new();
    outer.define("a".to_string(), number(1.0));
    outer.define("b".to_string(), number(1.0));
    let mut inner = Environment::with_enclosing(outer);
    inner.define("a".to_string(), number(2.0));
    assert!(inner.assign(Token::from_str("a"), number(3.0)).is_ok());
    assert!(inner.assign(Token::from_str("b"), number(4.0)).is_ok());
    assert_eq!(value_of(&inner, "a"), Some(3.0));
    assert_eq!(value_of(&inner, "b"), Some(4.0));
    let outer = *inner.enclosing.unwrap();
    assert_eq!(value_of(&outer, "a"), Some(1.0));
    assert_eq!(value_of(&outer, "b"), Some(4.0));
}

#[test]
fn get_at_reads_a_given_frame() {
    let mut outer = Environment::new();
    outer.define("a".to_string(), number(1.0));
    let mut inner = Environment::with_enclosing(outer);
    inner.define("a".to_string(), number(2.0));
    assert!(matches!(inner.get_at(1, "a".to_string()), Ok(Literal::Number(n)) if f64::from_bits(n) == 1.0));
    assert!(matches!(inner.get_at(0, "a".to_string()), Ok(Literal::Number(n)) if f64::from_bits(n) == 2.0));
    match inner.get_at(0, "b".to_string()) {
        Err(RuntimeException::Base(e)) => assert_eq!(e.message, "Could not find b at expected depth."),
        _ => panic!("expected an error"),
    }
}

#[test]
fn assign_at_leaves_the_environment_as_it_was() {
    let mut outer = Environment::new();
    outer.define("a".to_string(), number(1.0));
    let mut inner = Environment::with_enclosing(outer);
    assert!(inner.assign_at(1, Token::from_str("a"), number(5.0)).is_ok());
    assert_eq!(value_of(&inner, "a"), Some(1.0));
}

#[test]
fn unwrap_undoes_wrap() {
    let mut closure = Environment::new();
    closure.define("c".to_string(), number(1.0));
    let mut caller = Environment::new();
    caller.define("d".to_string(), number(2.0));
    let (wrapped, depth) = Environment::wrap(closure, caller, 0);
    assert_eq!(depth, 0);
    assert_eq!(value_of(&wrapped, "d"), Some(2.0));
    let back = Environment::unwrap(wrapped, depth);
    assert_eq!(value_of(&back, "c"), Some(1.0));
    assert_eq!(value_of(&back, "d"), None);
    assert!(back.enclosing.is_none());
}

#[test]
fn fits_depth_counts_frames() {
    let env = Environment::with_enclosing(Environment::new());
    assert!(env.fits_depth(2));
    assert!(!env.fits_depth(1));
}
