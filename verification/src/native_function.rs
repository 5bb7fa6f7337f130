use vstd::prelude::*;

use crate::callable::Callable;
use crate::error::{RuntimeError, RuntimeException};
use crate::token::{Literal, Token};

verus! {

/// Text as a sequence of characters.
pub type Text = Seq<char>;

/// A list of values.
pub type Values = Seq<Literal>;

/// What the interpreter needs from its surroundings: the arithmetic of
/// IEEE-754 doubles (numbers travel as their bit patterns), their decimal
/// and debug text, the time, and the native functions other than `clock`.
/// Each arithmetic and text method gives a value that depends on its
/// arguments alone, named by the spec function beside it; a native
/// function's result is one that `native_spec` allows for its name and
/// arguments; the time is left open.
pub trait Host {
    /// The bits of the double that the decimal numeral `text` denotes.
    spec fn parse_spec(&self, text: Text) -> u64;

    /// The bits of `-a`.
    spec fn negate_spec(&self, a: u64) -> u64;

    /// The bits of `a + b`.
    spec fn sum_spec(&self, a: u64, b: u64) -> u64;

    /// The bits of `a - b`.
    spec fn difference_spec(&self, a: u64, b: u64) -> u64;

    /// The bits of `a * b`.
    spec fn product_spec(&self, a: u64, b: u64) -> u64;

    /// The bits of `a / b`.
    spec fn quotient_spec(&self, a: u64, b: u64) -> u64;

    /// The bits of `a % b`.
    spec fn remainder_spec(&self, a: u64, b: u64) -> u64;

    /// Whether `a == 0.0`.
    spec fn is_zero_spec(&self, a: u64) -> bool;

    /// Whether `a == b` on doubles.
    spec fn equal_spec(&self, a: u64, b: u64) -> bool;

    /// Whether `a > b`.
    spec fn greater_spec(&self, a: u64, b: u64) -> bool;

    /// Whether `a >= b`.
    spec fn greater_equal_spec(&self, a: u64, b: u64) -> bool;

    /// Whether `a < b`.
    spec fn less_spec(&self, a: u64, b: u64) -> bool;

    /// Whether `a <= b`.
    spec fn less_equal_spec(&self, a: u64, b: u64) -> bool;

    /// The decimal text of a double.
    spec fn text_spec(&self, a: u64) -> Text;

    /// The debug text of a double (as `{:?}` writes it).
    spec fn debug_spec(&self, a: u64) -> Text;

    /// `r` is a result that the host's native function called `name` may
    /// give for `args`.
    spec fn native_spec(&self, name: Text, args: Values, r: Result<Literal, RuntimeError>) -> bool;

    /// The bits of the double that the decimal numeral `text` denotes.
    fn parse_number(&self, text: &str) -> (r: u64)
        ensures
            r == self.parse_spec(text@);

    /// `-a`.
    fn negate(&self, a: u64) -> (r: u64)
        ensures
            r == self.negate_spec(a);

    /// `a + b`.
    fn sum(&self, a: u64, b: u64) -> (r: u64)
        ensures
            r == self.sum_spec(a, b);

    /// `a - b`.
    fn difference(&self, a: u64, b: u64) -> (r: u64)
        ensures
            r == self.difference_spec(a, b);

    /// `a * b`.
    fn product(&self, a: u64, b: u64) -> (r: u64)
        ensures
            r == self.product_spec(a, b);

    /// `a / b`.
    fn quotient(&self, a: u64, b: u64) -> (r: u64)
        ensures
            r == self.quotient_spec(a, b);

    /// `a % b`.
    fn remainder(&self, a: u64, b: u64) -> (r: u64)
        ensures
            r == self.remainder_spec(a, b);

    /// `a == 0.0`.
    fn is_zero(&self, a: u64) -> (r: bool)
        ensures
            r == self.is_zero_spec(a);

    /// `a == b` on doubles.
    fn equal(&self, a: u64, b: u64) -> (r: bool)
        ensures
            r == self.equal_spec(a, b);

    /// `a > b`.
    fn greater(&self, a: u64, b: u64) -> (r: bool)
        ensures
            r == self.greater_spec(a, b);

    /// `a >= b`.
    fn greater_equal(&self, a: u64, b: u64) -> (r: bool)
        ensures
            r == self.greater_equal_spec(a, b);

    /// `a < b`.
    fn less(&self, a: u64, b: u64) -> (r: bool)
        ensures
            r == self.less_spec(a, b);

    /// `a <= b`.
    fn less_equal(&self, a: u64, b: u64) -> (r: bool)
        ensures
            r == self.less_equal_spec(a, b);

    /// The decimal text of a double (as `f64::to_string` writes it).
    fn number_to_string(&self, a: u64) -> (r: String)
        ensures
            r@ == self.text_spec(a);

    /// The debug text of a double (as `{:?}` writes it).
    fn number_debug(&self, a: u64) -> (r: String)
        ensures
            r@ == self.debug_spec(a);

    /// The current time, in milliseconds since the epoch, as the bits of a
    /// double.
    fn now(&self) -> u64;

    /// Runs the host's native function called `name` on `args`.
    fn call_native(&self, name: &str, args: &Vec<Literal>) -> (r: Result<Literal, RuntimeError>)
        ensures
            self.native_spec(name@, args@, r);
}

/// The number operations of a host, and what its native functions may
/// give, as plain functions.
pub struct Arith {
    pub parse: spec_fn(Seq<char>) -> u64,
    pub negate: spec_fn(u64) -> u64,
    pub sum: spec_fn(u64, u64) -> u64,
    pub difference: spec_fn(u64, u64) -> u64,
    pub product: spec_fn(u64, u64) -> u64,
    pub quotient: spec_fn(u64, u64) -> u64,
    pub remainder: spec_fn(u64, u64) -> u64,
    pub is_zero: spec_fn(u64) -> bool,
    pub equal: spec_fn(u64, u64) -> bool,
    pub greater: spec_fn(u64, u64) -> bool,
    pub greater_equal: spec_fn(u64, u64) -> bool,
    pub less: spec_fn(u64, u64) -> bool,
    pub less_equal: spec_fn(u64, u64) -> bool,
    pub text: spec_fn(u64) -> Seq<char>,
    pub debug: spec_fn(u64) -> Seq<char>,
    pub native: spec_fn(Seq<char>, Seq<Literal>, Result<Literal, RuntimeError>) -> bool,
}

/// The operations of `host`.
pub open spec fn arith_of<H: Host>(host: &H) -> Arith {
    Arith {
        parse: |t: Seq<char>| host.parse_spec(t),
        negate: |a: u64| host.negate_spec(a),
        sum: |a: u64, b: u64| host.sum_spec(a, b),
        difference: |a: u64, b: u64| host.difference_spec(a, b),
        product: |a: u64, b: u64| host.product_spec(a, b),
        quotient: |a: u64, b: u64| host.quotient_spec(a, b),
        remainder: |a: u64, b: u64| host.remainder_spec(a, b),
        is_zero: |a: u64| host.is_zero_spec(a),
        equal: |a: u64, b: u64| host.equal_spec(a, b),
        greater: |a: u64, b: u64| host.greater_spec(a, b),
        greater_equal: |a: u64, b: u64| host.greater_equal_spec(a, b),
        less: |a: u64, b: u64| host.less_spec(a, b),
        less_equal: |a: u64, b: u64| host.less_equal_spec(a, b),
        text: |a: u64| host.text_spec(a),
        debug: |a: u64| host.debug_spec(a),
        native: |name: Seq<char>, args: Seq<Literal>, r: Result<Literal, RuntimeError>| host.native_spec(name, args, r),
    }
}

/// A function supplied by the host, known by its name and its arity.
pub struct NativeFunction {
    pub name: String,
    pub arity: u8,
}

impl Clone for NativeFunction {
    fn clone(&self) -> (r: Self)
        ensures
            r == *self,
    {
        NativeFunction { name: self.name.clone(), arity: self.arity }
    }
}

impl Callable for NativeFunction {
    fn arity(&self) -> (r: u8)
        ensures
            r == self.arity,
    {
        self.arity
    }
}

/// The message when `clock` gets arguments.
pub open spec fn clock_arity_message(got: nat) -> Seq<char> {
    "Expected 0 args, received "@ + crate::text::decimal(got) + "."@
}

/// `r` is what `clock` gives for `args` at the time `now`, as a runtime
/// error where it fails.
pub open spec fn clock_outcome(args: Seq<Literal>, now: u64, r: Result<Literal, RuntimeException>) -> bool {
    if args.len() == 0 {
        r == Ok::<Literal, RuntimeException>(Literal::Number(now))
    } else {
        r matches Err(RuntimeException::Base(e)) && e.token.token_type == crate::token::TokenType::Nil
            && e.token.lexeme@ == Seq::<char>::empty() && e.token.literal is None && e.token.line == 0
            && e.message@ == clock_arity_message(args.len())
    }
}

/// What calling the native function called `name` with `args` may give:
/// `clock` at some time, or else a result that the host's function of that
/// name may give, an error as a runtime error.
pub open spec fn native_outcome(ar: Arith, name: Seq<char>, args: Seq<Literal>, r: Result<Literal, RuntimeException>) -> bool {
    if name == "clock"@ {
        exists|now: u64| #[trigger] clock_outcome(args, now, r)
    } else {
        exists|res: Result<Literal, RuntimeError>| #[trigger] (ar.native)(name, args, res) && r == match res {
            Ok(v) => Ok::<Literal, RuntimeException>(v),
            Err(e) => Err::<Literal, RuntimeException>(RuntimeException::Base(e)),
        }
    }
}

/// Calls the native function `f` with `args`: `clock` reads the host's
/// time; any other name is the host's own function.
pub fn call_native_function<H: Host>(host: &H, f: &NativeFunction, args: &Vec<Literal>) -> (r: Result<Literal, RuntimeException>)
    ensures
        native_outcome(arith_of(host), f.name@, args@, r),
{
    let clock_name = String::from_str("clock");
    proof {
        reveal_strlit("clock");
    }
    if f.name == clock_name {
        let now = host.now();
        let r = match clock(args, now) {
            Ok(v) => Ok(v),
            Err(e) => Err(RuntimeException::Base(e)),
        };
        proof {
            assert(clock_outcome(args@, now, r));
        }
        r
    } else {
        let res = host.call_native(f.name.as_str(), args);
        let r = match res {
            Ok(v) => Ok(v),
            Err(e) => Err(RuntimeException::Base(e)),
        };
        proof {
            assert((arith_of(host).native)(f.name@, args@, res));
        }
        r
    }
}

/// The native function `clock`: the time `now` (milliseconds since the
/// epoch, as the bits of a double) when called with no argument.
pub fn clock(args: &Vec<Literal>, now: u64) -> (r: Result<Literal, RuntimeError>)
    ensures
        args@.len() == 0 ==> r == Ok::<Literal, RuntimeError>(Literal::Number(now)),
        args@.len() != 0 ==> (r matches Err(e) && e.token.token_type == crate::token::TokenType::Nil
            && e.token.lexeme@ == Seq::<char>::empty() && e.token.literal is None && e.token.line == 0
            && e.message@ == clock_arity_message(args@.len())),
{
    if args.len() != 0 {
        let mut message = String::from_str("Expected 0 args, received ");
        crate::text::push_decimal(&mut message, args.len());
        message.append(".");
        return Err(RuntimeError::new(Token::default(), message));
    }
    Ok(Literal::Number(now))
}

} // verus!
