use vstd::prelude::*;

use crate::environment::{assigned, defined, lookup, not_at_depth_message, undefined_message, Environment, Frame};
use crate::error::{Return, RuntimeException};
use crate::expr::{Expr, ExprView};
use crate::lox_function::{arity_of, LoxFunction};
use crate::stmt::{stmts_view, Stmt, StmtView};
use crate::native_function::Arith;
use crate::token::{bool_literal, literal_text, plain_text, tokens_view, Literal, Token, TokenType, TokenView};

verus! {

/// Everything that running code reads or changes, as plain values.
pub struct Machine {
    pub env: Environment,
    pub locals: Seq<(Expr, u32)>,
    pub loop_count: nat,
    pub steps: nat,
    pub repl: bool,
    pub output: Seq<Seq<char>>,
    pub errors: Seq<Seq<char>>,
    pub had_error: bool,
    pub had_runtime_error: bool,
    pub arith: Arith,
}

/// Every value but `nil` and `false` counts as true.
pub open spec fn truthy(v: Literal) -> bool {
    !(v is Nil || v is False)
}

/// The depth recorded for the expression `e`, if any: the first entry whose
/// key is the same key as `e`.
pub open spec fn local_depth(locals: Seq<(Expr, u32)>, e: ExprView) -> Option<u32>
    decreases locals.len(),
{
    if locals.len() == 0 {
        None
    } else if crate::expr::expr_key_eq(locals[0].0.view(), e) {
        Some(locals[0].1)
    } else {
        local_depth(locals.drop_first(), e)
    }
}

/// `r` is the error with message `message` at `token`.
pub open spec fn fails_at<T>(r: Result<T, RuntimeException>, token: Token, message: Seq<char>) -> bool {
    r matches Err(RuntimeException::Base(e)) && e.token == token && e.message@ == message
}

/// `r` is the error with message `message` at a token whose view is `token`.
pub open spec fn fails_at_view<T>(r: Result<T, RuntimeException>, token: TokenView, message: Seq<char>) -> bool {
    r matches Err(RuntimeException::Base(e)) && e.token@ == token && e.message@ == message
}

/// The view of a token that `Token::default` or `Token::from_str("")`
/// makes.
pub open spec fn blank_token() -> TokenView {
    TokenView { token_type: TokenType::Nil, lexeme: Seq::empty(), literal: None, line: 0 }
}

/// The message when the step budget is spent.
pub open spec fn step_limit_message() -> Seq<char> {
    "Step limit exceeded."@
}

/// The message when arguments and parameters differ in number.
pub open spec fn arity_message(arity: nat, got: nat) -> Seq<char> {
    "Expected "@ + crate::text::decimal(arity) + " arguments but got "@ + crate::text::decimal(got) + "."@
}

/// `m2` is `m` with an environment whose frames are `frames`.
pub open spec fn with_frames(m: Machine, m2: Machine, frames: Seq<Frame>) -> bool {
    &&& m2 == Machine { env: m2.env, ..m }
    &&& m2.env.wf()
    &&& m2.env@ == frames
}

/// `text` without a final `.0`.
pub open spec fn trim_point_zero(text: Seq<char>) -> Seq<char> {
    if text.len() >= 2 && text[text.len() - 2] == '.' && text[text.len() - 1] == '0' {
        text.subrange(0, text.len() - 2)
    } else {
        text
    }
}

/// The printed form of a value: a number's is the host's text for it
/// without a final `.0`.
pub open spec fn display_text(ar: Arith, v: Literal) -> Seq<char> {
    match v {
        Literal::Number(n) => trim_point_zero((ar.text)(n)),
        _ => literal_text(ar, v),
    }
}

/// `m2` is `m` with one more printed line, the printed form of `v`.
pub open spec fn printed(m: Machine, m2: Machine, v: Literal) -> bool {
    &&& m2 == Machine { output: m2.output, ..m }
    &&& m2.output == m.output.push(display_text(m.arith, v))
}

/// Whether two values are equal for `==`, where that does not rest on
/// number arithmetic: `None` for two numbers (their equality is the host's).
pub open spec fn plain_equal(a: Literal, b: Literal) -> Option<bool> {
    match (a, b) {
        (Literal::Nil, Literal::Nil) => Some(true),
        (Literal::Nil, _) => Some(false),
        (Literal::True, Literal::True) => Some(true),
        (Literal::False, Literal::False) => Some(true),
        (Literal::Number(_), Literal::Number(_)) => None,
        (Literal::String(s1), Literal::String(s2)) => Some(s1@ == s2@),
        (Literal::NativeFunction(f1), Literal::NativeFunction(f2)) => Some(f1.name@ == f2.name@ && f1.arity == f2.arity),
        _ => Some(false),
    }
}

/// Whether two values are equal for `==`: two numbers by the host's
/// equality of doubles.
pub open spec fn value_equal(ar: Arith, a: Literal, b: Literal) -> bool {
    match (a, b) {
        (Literal::Number(x), Literal::Number(y)) => (ar.equal)(x, y),
        _ => plain_equal(a, b) == Some(true),
    }
}

/// `r` is the truth value of `a == b`, or of `a != b` when `negate`.
pub open spec fn equality_outcome(ar: Arith, a: Literal, b: Literal, negate: bool, r: Result<Literal, RuntimeException>) -> bool {
    r == Ok::<Literal, RuntimeException>(bool_literal(if negate { !value_equal(ar, a, b) } else { value_equal(ar, a, b) }))
}

/// What a unary operator `op` gives for the operand `right`.
pub open spec fn unary_outcome(ar: Arith, op: Token, right: Result<Literal, RuntimeException>, r: Result<Literal, RuntimeException>) -> bool {
    if op.token_type == TokenType::Minus {
        match right {
            Ok(Literal::Number(n)) => r == Ok::<Literal, RuntimeException>(Literal::Number((ar.negate)(n))),
            _ => fails_at(r, op, "Operand must be a number."@),
        }
    } else {
        match right {
            Ok(v) => r == Ok::<Literal, RuntimeException>(bool_literal(!truthy(v))),
            Err(e) => r == Err::<Literal, RuntimeException>(e),
        }
    }
}

/// What a binary operator `op` gives for the operands `left` and `right`:
/// on two numbers, the host's operation on the left and the right one, in
/// that order.
pub open spec fn binary_outcome(
    ar: Arith,
    op: Token,
    left: Result<Literal, RuntimeException>,
    right: Result<Literal, RuntimeException>,
    r: Result<Literal, RuntimeException>,
) -> bool {
    let t = op.token_type;
    if t == TokenType::Plus {
        match (left, right) {
            (Ok(Literal::Number(a)), Ok(Literal::Number(b))) => r == Ok::<Literal, RuntimeException>(Literal::Number((ar.sum)(a, b))),
            (Ok(Literal::String(s)), Ok(Literal::String(s2))) => r matches Ok(Literal::String(x)) && x@ == s@ + s2@,
            (Ok(Literal::String(s)), Ok(l)) => r matches Ok(Literal::String(x)) && x@ == s@ + literal_text(ar, l),
            (Ok(l), Ok(Literal::String(s2))) => r matches Ok(Literal::String(x)) && x@ == literal_text(ar, l) + s2@,
            (Ok(_), Ok(_)) => fails_at(r, op, "Operands must be two numbers or two strings."@),
            (Err(e), _) => r == Err::<Literal, RuntimeException>(e),
            (_, Err(e)) => r == Err::<Literal, RuntimeException>(e),
        }
    } else if t == TokenType::EqualEqual || t == TokenType::BangEqual {
        match (left, right) {
            (Ok(a), Ok(b)) => equality_outcome(ar, a, b, t == TokenType::BangEqual, r),
            (Err(e), _) => r == Err::<Literal, RuntimeException>(e),
            (_, Err(e)) => r == Err::<Literal, RuntimeException>(e),
        }
    } else {
        match (left, right) {
            (Ok(Literal::Number(a)), Ok(Literal::Number(b))) => if t == TokenType::Minus {
                r == Ok::<Literal, RuntimeException>(Literal::Number((ar.difference)(a, b)))
            } else if t == TokenType::Star {
                r == Ok::<Literal, RuntimeException>(Literal::Number((ar.product)(a, b)))
            } else if t == TokenType::Slash {
                if (ar.is_zero)(b) {
                    fails_at(r, op, "Cannot divide by zero"@)
                } else {
                    r == Ok::<Literal, RuntimeException>(Literal::Number((ar.quotient)(a, b)))
                }
            } else if t == TokenType::Percent {
                r == Ok::<Literal, RuntimeException>(Literal::Number((ar.remainder)(a, b)))
            } else if t == TokenType::Greater {
                r == Ok::<Literal, RuntimeException>(bool_literal((ar.greater)(a, b)))
            } else if t == TokenType::GreaterEqual {
                r == Ok::<Literal, RuntimeException>(bool_literal((ar.greater_equal)(a, b)))
            } else if t == TokenType::Less {
                r == Ok::<Literal, RuntimeException>(bool_literal((ar.less)(a, b)))
            } else {
                r == Ok::<Literal, RuntimeException>(bool_literal((ar.less_equal)(a, b)))
            },
            _ => if t == TokenType::Percent {
                fails_at(r, op, "Operands must be numbers"@)
            } else {
                fails_at(r, op, "Operands must be numbers."@)
            },
        }
    }
}

/// `+` on two values, neither of them a string, that are not two numbers.
pub open spec fn plus_mismatch(op: Token, left: Result<Literal, RuntimeException>, right: Result<Literal, RuntimeException>) -> bool {
    op.token_type == TokenType::Plus && match (left, right) {
        (Ok(a), Ok(b)) => !(a is String) && !(b is String) && !((a is Number) && (b is Number)),
        _ => false,
    }
}

/// The debug form of a value (as `{:?}` writes it), where it is fixed: a
/// number's holds the host's debug text for it; a function of the language
/// is not given one.
pub open spec fn debug_text(ar: Arith, v: Literal) -> Option<Seq<char>> {
    match v {
        Literal::Nil => Some("Nil"@),
        Literal::True => Some("True"@),
        Literal::False => Some("False"@),
        Literal::Number(n) => Some("Number("@ + (ar.debug)(n) + ")"@),
        Literal::String(s) => None,
        Literal::NativeFunction(f) => Some("NativeFunction(NativeFunction("@ + f.name@ + "))"@),
        Literal::LoxFunction(_) => None,
    }
}

/// `line` is what `+` prints before it fails on the values `left` and
/// `right`, where their debug forms are fixed.
pub open spec fn mismatch_line(
    ar: Arith,
    left: Result<Literal, RuntimeException>,
    right: Result<Literal, RuntimeException>,
    line: Seq<char>,
) -> bool {
    match (left, right) {
        (Ok(a), Ok(b)) => match (debug_text(ar, a), debug_text(ar, b)) {
            (Some(x), Some(y)) => line == "l1: "@ + x + ", l2: "@ + y,
            _ => true,
        },
        _ => true,
    }
}

/// What reading the variable `name` (the expression `e`) gives in `m`:
/// from the frame its resolved depth names, or else from the innermost
/// frame that binds it.
pub open spec fn read_outcome(m: Machine, name: Token, e: Expr, r: Result<Literal, RuntimeException>) -> bool {
    match local_depth(m.locals, e.view()) {
        Some(d) => if m.env@[d as int].contains_key(name.lexeme@) {
            r == Ok::<Literal, RuntimeException>(m.env@[d as int][name.lexeme@])
        } else {
            fails_at(r, Token::from_string_spec(name.lexeme), not_at_depth_message(name.lexeme@))
        },
        None => match lookup(m.env@, name.lexeme@) {
            Some(v) => r == Ok::<Literal, RuntimeException>(v),
            None => fails_at(r, name, undefined_message(name.lexeme@)),
        },
    }
}

/// What assigning `v` to `name` (the expression `e`) does once the value is
/// known: nothing to the frames where the name was resolved (the write goes
/// to a copy), else the innermost frame that binds it changes.
pub open spec fn assign_outcome(m: Machine, name: Token, e: Expr, v: Literal, m2: Machine, r: Result<Literal, RuntimeException>) -> bool {
    match local_depth(m.locals, e.view()) {
        Some(_) => m2 == m && r == Ok::<Literal, RuntimeException>(v),
        None => match assigned(m.env@, name.lexeme@, v) {
            Some(frames) => with_frames(m, m2, frames) && r == Ok::<Literal, RuntimeException>(v),
            None => m2 == m && fails_at(r, name, undefined_message(name.lexeme@)),
        },
    }
}

/// `f` is a function called `name` with the declaration `declaration`
/// (seen as a plain value), closing over an environment with the frames of
/// `env`.
pub open spec fn made_function(f: LoxFunction, name: Seq<char>, declaration: StmtView, env: Environment) -> bool {
    &&& f.name_view() == name
    &&& f.declaration_view().view() == declaration
    &&& f.closure_view().wf()
    &&& f.closure_view()@ == env@
}

/// `f2` is `f` closing over an environment with the frames `frames`.
pub open spec fn reclosed(f: LoxFunction, f2: LoxFunction, frames: Seq<Frame>) -> bool {
    &&& f2.name_view() == f.name_view()
    &&& f2.declaration_view() == f.declaration_view()
    &&& f2.closure_view().wf()
    &&& f2.closure_view()@ == frames
}

/// The frames after binding each parameter to its argument, in order, in
/// the innermost frame.
pub open spec fn bind_params(frames: Seq<Frame>, params: Seq<Token>, args: Seq<Literal>) -> Seq<Frame>
    decreases params.len(),
{
    if params.len() == 0 || params.len() > args.len() {
        frames
    } else {
        let k = params.len() - 1;
        defined(bind_params(frames, params.drop_last(), args), params[k].lexeme@, args[k])
    }
}

/// The machine a call runs its body in: a fresh scope with the parameters
/// inside `frames`, no resolved expression, no loop, the caller's steps, and
/// nothing printed or reported yet.
pub open spec fn callee_machine(m: Machine, env: Environment) -> bool {
    &&& env.wf()
    &&& m.env == env
    &&& m.locals == Seq::<(Expr, u32)>::empty()
    &&& m.loop_count == 0
    &&& !m.repl
    &&& m.output == Seq::<Seq<char>>::empty()
    &&& m.errors == Seq::<Seq<char>>::empty()
    &&& !m.had_error
    &&& !m.had_runtime_error
}

/// What a call gives back from what its body did.
pub open spec fn call_result(body: Result<(), RuntimeException>) -> Result<Literal, RuntimeException> {
    match body {
        Err(RuntimeException::Return(ret)) => match ret.value {
            Some(v) => Ok(v),
            None => Ok(Literal::Nil),
        },
        Err(e) => Err(e),
        Ok(()) => Ok(Literal::Nil),
    }
}

/// What a derivation records at one of its steps: the machines and the
/// results between the parts it is made of.
pub struct Mid {
    pub ma: Machine,
    pub mb: Machine,
    pub mc: Machine,
    pub ra: Result<Literal, RuntimeException>,
    pub rb: Result<Literal, RuntimeException>,
    pub rc: Result<Literal, RuntimeException>,
    pub ua: Result<(), RuntimeException>,
    pub vals: Result<Seq<Literal>, RuntimeException>,
    pub lf: LoxFunction,
    pub v: Literal,
}

/// A derivation: how a run is made of runs of the parts of the code.
pub enum Deriv {
    Leaf,
    Node { a: Box<Deriv>, b: Box<Deriv>, c: Box<Deriv>, x: Mid },
}

/// `d` derives that evaluating `e` in `m` ends in `m2` with `r`. Number
/// arithmetic and comparisons are the operations of the machine's host;
/// what a native function returns is left free.
pub open spec fn eval_d(d: Deriv, m: Machine, e: Expr, m2: Machine, r: Result<Literal, RuntimeException>) -> bool
    decreases d, 0nat,
{
    match e {
        Expr::Empty => m2 == m && r == Ok::<Literal, RuntimeException>(Literal::Nil),
        Expr::Literal(l) => m2 == m && r == Ok::<Literal, RuntimeException>(l),
        Expr::Variable(name) => m2 == m && read_outcome(m, name, e, r),
        Expr::Lambda(params, body) => m2 == m && (r matches Ok(Literal::LoxFunction(f)) && made_function(
            f,
            Seq::empty(),
            StmtView::Function(blank_token(), tokens_view(params@), stmts_view(body@)),
            m.env,
        )),
        _ => match d {
            Deriv::Leaf => false,
            Deriv::Node { a, b, c, x } => match e {
                Expr::Grouping(inner) => eval_d(*a, m, *inner, m2, r),
                Expr::Unary(op, right) => eval_d(*a, m, *right, m2, x.ra) && unary_outcome(m.arith, op, x.ra, r),
                Expr::Assign(name, value) => eval_d(*a, m, *value, x.ma, x.ra) && match x.ra {
                    Ok(v) => assign_outcome(x.ma, name, e, v, m2, r),
                    Err(y) => m2 == x.ma && r == Err::<Literal, RuntimeException>(y),
                },
                Expr::Logical(left, op, right) => eval_d(*a, m, *left, x.ma, x.ra) && match x.ra {
                    Ok(l) => if (op.token_type == TokenType::Or && truthy(l)) || !truthy(l) {
                        m2 == x.ma && r == Ok::<Literal, RuntimeException>(l)
                    } else {
                        eval_d(*b, x.ma, *right, m2, r)
                    },
                    Err(y) => m2 == x.ma && r == Err::<Literal, RuntimeException>(y),
                },
                Expr::Call(callee, paren, args) => eval_d(*a, m, *callee, x.ma, x.ra) && match x.ra {
                    Ok(cv) => args_d(*b, x.ma, args@, x.mb, x.vals) && match x.vals {
                        Ok(vals) => call_outcome(*c, x, x.mb, cv, *callee, paren, vals, m2, r),
                        Err(y) => m2 == x.mb && r == Err::<Literal, RuntimeException>(y),
                    },
                    Err(y) => m2 == x.ma && r == Err::<Literal, RuntimeException>(y),
                },
                Expr::Binary(left, op, right) => eval_d(*a, m, *left, x.ma, x.ra) && eval_d(*b, x.ma, *right, x.mb, x.rb)
                    && binary_outcome(m.arith, op, x.ra, x.rb, r) && if plus_mismatch(op, x.ra, x.rb) {
                        &&& m2 == Machine { output: m2.output, ..x.mb }
                        &&& m2.output.len() == x.mb.output.len() + 1
                        &&& m2.output.drop_last() == x.mb.output
                        &&& mismatch_line(m.arith, x.ra, x.rb, m2.output.last())
                    } else {
                        m2 == x.mb
                    },
                _ => false,
            },
        },
    }
}

/// `d` derives that evaluating the expressions of `args` in order, stopping
/// at the first error, ends in `m2` with `r`.
pub open spec fn args_d(d: Deriv, m: Machine, args: Seq<Expr>, m2: Machine, r: Result<Seq<Literal>, RuntimeException>) -> bool
    decreases d, 0nat,
{
    if args.len() == 0 {
        m2 == m && r == Ok::<Seq<Literal>, RuntimeException>(Seq::empty())
    } else {
        match d {
            Deriv::Leaf => false,
            Deriv::Node { a, b, c, x } => args_d(*a, m, args.drop_last(), x.ma, x.vals) && match x.vals {
                Ok(vs) => eval_d(*b, x.ma, args.last(), m2, x.ra) && match x.ra {
                    Ok(v) => r == Ok::<Seq<Literal>, RuntimeException>(vs.push(v)),
                    Err(y) => r == Err::<Seq<Literal>, RuntimeException>(y),
                },
                Err(y) => m2 == x.ma && r == Err::<Seq<Literal>, RuntimeException>(y),
            },
        }
    }
}

/// Calling the value `cv` (the value of `callee`) with `vals` in `m`, where
/// `d` derives the run of a function's body and `x` records its outcome.
pub open spec fn call_outcome(
    d: Deriv,
    x: Mid,
    m: Machine,
    cv: Literal,
    callee: Expr,
    paren: Token,
    vals: Seq<Literal>,
    m2: Machine,
    r: Result<Literal, RuntimeException>,
) -> bool
    decreases d, 1nat,
{
    match cv {
        Literal::LoxFunction(lf) => if vals.len() != arity_of(lf.declaration_view()) as nat {
            m2 == m && fails_at(r, paren, arity_message(arity_of(lf.declaration_view()) as nat, vals.len()))
        } else if m.steps == 0 {
            m2 == m && fails_at(r, paren, step_limit_message())
        } else {
            call_d(d, Machine { steps: (m.steps - 1) as nat, ..m }, lf, vals, x.mc, x.rc, x.lf) && match callee {
                Expr::Variable(t) => match assigned(x.mc.env@, t.lexeme@, Literal::LoxFunction(x.lf)) {
                    Some(frames) => with_frames(x.mc, m2, frames) && r == x.rc,
                    None => m2 == x.mc && fails_at(r, t, undefined_message(t.lexeme@)),
                },
                _ => m2 == x.mc && r == x.rc,
            }
        },
        Literal::NativeFunction(nf) => if vals.len() != nf.arity as nat {
            m2 == m && fails_at(r, paren, arity_message(nf.arity as nat, vals.len()))
        } else {
            m2 == m && crate::native_function::native_outcome(m.arith, nf.name@, vals, r)
        },
        _ => m2 == m && fails_at(r, paren, "Can only call functions and classes."@),
    }
}

/// `d` derives that calling the function `lf` with `vals` in `m` ends in
/// `m2` with `r`, the function then being `lf2`: its body runs in a fresh
/// scope inside its closure put in front of the caller's frames; the
/// function then closes over the frames of that run cut after its
/// closure's frames but the last.
pub open spec fn call_d(
    d: Deriv,
    m: Machine,
    lf: LoxFunction,
    vals: Seq<Literal>,
    m2: Machine,
    r: Result<Literal, RuntimeException>,
    lf2: LoxFunction,
) -> bool
    decreases d, 0nat,
{
    if lf.closure_view()@.len() > 0xFFFF_FFFF {
        m2 == m && lf2 == lf && fails_at_view(r, blank_token(), "Too many nested scopes."@)
    } else {
        match lf.declaration_view() {
            Stmt::Function(_, params, body) => if params@.len() > vals.len() {
                m2 == m && lf2 == lf && fails_at_view(r, blank_token(), arity_message(params@.len(), vals.len()))
            } else {
                match d {
                Deriv::Leaf => false,
                Deriv::Node { a, b, c, x } => {
                    let depth = lf.closure_view()@.len() - 1;
                    let frames = bind_params(
                        seq![Map::<Seq<char>, Literal>::empty()] + lf.closure_view()@ + m.env@,
                        params@,
                        vals,
                    );
                    &&& callee_machine(x.ma, x.ma.env)
                    &&& x.ma.arith == m.arith
                    &&& x.ma.env@ == frames
                    &&& x.ma.steps == m.steps
                    &&& block_d(*a, x.ma, body@, x.mb, x.ua)
                    &&& reclosed(lf, lf2, x.mb.env@.take(depth + 1))
                    &&& m2 == Machine { steps: x.mb.steps, output: m.output + x.mb.output, ..m }
                    &&& r == call_result(x.ua)
                },
                }
            },
            _ => m2 == m && lf2 == lf && fails_at_view(r, blank_token(), "Invalid function declaration."@),
        }
    }
}

/// `d` derives that running the statements `v` in a fresh scope inside
/// `m`'s environment ends in `m2` with `r`; the scope is left when they all
/// complete normally.
pub open spec fn block_d(d: Deriv, m: Machine, v: Seq<Stmt>, m2: Machine, r: Result<(), RuntimeException>) -> bool
    decreases d, 0nat,
{
    match d {
        Deriv::Leaf => false,
        Deriv::Node { a, b, c, x } => {
            &&& with_frames(m, x.ma, seq![Map::<Seq<char>, Literal>::empty()] + m.env@)
            &&& seq_d(*a, x.ma, v, x.mb, x.ua)
            &&& match x.ua {
                Ok(()) => with_frames(x.mb, m2, x.mb.env@.drop_first()) && r == x.ua,
                Err(_) => m2 == x.mb && r == x.ua,
            }
        },
    }
}

/// `d` derives that running the statements `v` in order, stopping at the
/// first that does not complete normally, ends in `m2` with `r`.
pub open spec fn seq_d(d: Deriv, m: Machine, v: Seq<Stmt>, m2: Machine, r: Result<(), RuntimeException>) -> bool
    decreases d, 0nat,
{
    if v.len() == 0 {
        m2 == m && r == Ok::<(), RuntimeException>(())
    } else {
        match d {
            Deriv::Leaf => false,
            Deriv::Node { a, b, c, x } => seq_d(*a, m, v.drop_last(), x.ma, x.ua) && match x.ua {
                Ok(()) => exec_d(*b, x.ma, v.last(), m2, r),
                Err(_) => m2 == x.ma && r == x.ua,
            },
        }
    }
}

/// `d` derives that running the statement `s` in `m` ends in `m2` with `r`
/// (an error, a `break` or a `return` in the error case).
pub open spec fn exec_d(d: Deriv, m: Machine, s: Stmt, m2: Machine, r: Result<(), RuntimeException>) -> bool
    decreases d, 0nat,
{
    match s {
        Stmt::Var(name, None) => m2 == m && fails_at(r, name, "Must assign value to new variable."@),
        Stmt::Break(token) => m2 == m && if m.loop_count > 0 {
            r == Err::<(), RuntimeException>(RuntimeException::Break)
        } else {
            fails_at(r, token, "Expected to be within a loop."@)
        },
        Stmt::Function(name, params, body) => r == Ok::<(), RuntimeException>(()) && exists|lf: LoxFunction|
            #[trigger] made_function(lf, name.lexeme@, s.view(), m.env)
                && with_frames(m, m2, defined(m.env@, name.lexeme@, Literal::LoxFunction(lf))),
        Stmt::Return(_, value) if (*value) is None => m2 == m
            && r == Err::<(), RuntimeException>(RuntimeException::Return(Return { value: None })),
        _ => match d {
            Deriv::Leaf => false,
            Deriv::Node { a, b, c, x } => match s {
                Stmt::Expression(e) => eval_d(*a, m, e, x.ma, x.ra) && match x.ra {
                    Ok(v) => r == Ok::<(), RuntimeException>(()) && if (e is Assign) || !x.ma.repl {
                        m2 == x.ma
                    } else {
                        printed(x.ma, m2, v)
                    },
                    Err(y) => m2 == x.ma && r == Err::<(), RuntimeException>(y),
                },
                Stmt::Print(e) => eval_d(*a, m, e, x.ma, x.ra) && match x.ra {
                    Ok(v) => r == Ok::<(), RuntimeException>(()) && printed(x.ma, m2, v),
                    Err(y) => m2 == x.ma && r == Err::<(), RuntimeException>(y),
                },
                Stmt::Var(name, Some(e)) => eval_d(*a, m, e, x.ma, x.ra) && match x.ra {
                    Ok(v) => r == Ok::<(), RuntimeException>(()) && with_frames(x.ma, m2, defined(x.ma.env@, name.lexeme@, v)),
                    Err(y) => m2 == x.ma && r == Err::<(), RuntimeException>(y),
                },
                Stmt::Return(_, value) => match *value {
                    Some(e) => eval_d(*a, m, e, x.ma, x.ra) && m2 == x.ma && match x.ra {
                        Ok(v) => r == Err::<(), RuntimeException>(RuntimeException::Return(Return { value: Some(v) })),
                        Err(y) => r == Err::<(), RuntimeException>(y),
                    },
                    None => false,
                },
                Stmt::Block(v) => block_d(*a, m, v@, m2, r),
                Stmt::If(cond, t, el) => eval_d(*a, m, cond, x.ma, x.ra) && match x.ra {
                    Ok(v) => if truthy(v) {
                        exec_d(*b, x.ma, *t, m2, r)
                    } else {
                        match *el {
                            Some(y) => exec_d(*b, x.ma, y, m2, r),
                            None => m2 == x.ma && r == Ok::<(), RuntimeException>(()),
                        }
                    },
                    Err(y) => m2 == x.ma && r == Err::<(), RuntimeException>(y),
                },
                Stmt::While(cond, body) => eval_d(*a, m, cond, x.ma, x.ra) && match x.ra {
                    Ok(v0) => if x.ma.steps == 0 {
                        m2 == x.ma && fails_at_view(r, blank_token(), step_limit_message())
                    } else {
                        &&& reaches_d(
                            *b,
                            Machine { steps: (x.ma.steps - 1) as nat, loop_count: x.ma.loop_count + 1, ..x.ma },
                            cond,
                            *body,
                            v0,
                            x.mb,
                            x.v,
                        )
                        &&& exit_d(*c, x.mb, cond, *body, x.v, x.mc, x.ua)
                        &&& match x.ua {
                            Ok(()) => m2 == Machine { loop_count: (x.mc.loop_count - 1) as nat, ..x.mc } && r == x.ua,
                            Err(_) => m2 == x.mc && r == x.ua,
                        }
                    },
                    Err(y) => m2 == x.ma && r == Err::<(), RuntimeException>(y),
                },
                _ => false,
            },
        },
    }
}

/// `d` derives that a loop on `cond` with body `body`, entered in `m0`
/// with the condition's value `v0`, is in `m`, with the condition's value
/// `v`, after some complete rounds: each takes a step, runs the body to
/// normal completion and evaluates the condition again, which held before.
pub open spec fn reaches_d(d: Deriv, m0: Machine, cond: Expr, body: Stmt, v0: Literal, m: Machine, v: Literal) -> bool
    decreases d, 0nat,
{
    match d {
        Deriv::Leaf => m == m0 && v == v0,
        Deriv::Node { a, b, c, x } => {
            &&& reaches_d(*a, m0, cond, body, v0, x.ma, x.v)
            &&& truthy(x.v)
            &&& x.ma.steps > 0
            &&& exec_d(*b, Machine { steps: (x.ma.steps - 1) as nat, ..x.ma }, body, x.mb, Ok(()))
            &&& eval_d(*c, x.mb, cond, m, Ok(v))
        },
    }
}

/// `d` derives the round of a loop that ends it, from `m` with the
/// condition's value `v`: the condition fails, the budget is spent, the
/// body breaks or fails, or the condition fails to evaluate.
pub open spec fn exit_d(d: Deriv, m: Machine, cond: Expr, body: Stmt, v: Literal, m2: Machine, r: Result<(), RuntimeException>) -> bool
    decreases d, 0nat,
{
    if !truthy(v) {
        m2 == m && r == Ok::<(), RuntimeException>(())
    } else if m.steps == 0 {
        m2 == m && fails_at_view(r, blank_token(), step_limit_message())
    } else {
        match d {
            Deriv::Leaf => false,
            Deriv::Node { a, b, c, x } => exec_d(*a, Machine { steps: (m.steps - 1) as nat, ..m }, body, x.ma, x.ua) && match x.ua {
                Err(RuntimeException::Break) => m2 == x.ma && r == Ok::<(), RuntimeException>(()),
                Err(y) => m2 == x.ma && r == Err::<(), RuntimeException>(y),
                Ok(()) => eval_d(*b, x.ma, cond, m2, x.ra) && (x.ra matches Err(y) && r == Err::<(), RuntimeException>(y)),
            },
        }
    }
}

/// A record that leaves everything open.
pub open spec fn blank_mid() -> Mid {
    vstd::pervasive::arbitrary()
}

/// A derivation step made of `a`, `b` and `c`, with the record `x`.
pub open spec fn node(a: Deriv, b: Deriv, c: Deriv, x: Mid) -> Deriv {
    Deriv::Node { a: Box::new(a), b: Box::new(b), c: Box::new(c), x }
}

/// Evaluating `e` in `m` can end in `m2` with `r`.
pub open spec fn evaluates(m: Machine, e: Expr, m2: Machine, r: Result<Literal, RuntimeException>) -> bool {
    exists|d: Deriv| #[trigger] eval_d(d, m, e, m2, r)
}

/// Running `s` in `m` can end in `m2` with `r`.
pub open spec fn executes(m: Machine, s: Stmt, m2: Machine, r: Result<(), RuntimeException>) -> bool {
    exists|d: Deriv| #[trigger] exec_d(d, m, s, m2, r)
}

/// Running the statements `v` in a fresh scope inside `m` can end in `m2`
/// with `r`.
pub open spec fn runs_block(m: Machine, v: Seq<Stmt>, m2: Machine, r: Result<(), RuntimeException>) -> bool {
    exists|d: Deriv| #[trigger] block_d(d, m, v, m2, r)
}

/// Calling `lf` with `vals` in `m` can end in `m2` with `r`, the function
/// then being `lf2`.
pub open spec fn calls(m: Machine, lf: LoxFunction, vals: Seq<Literal>, m2: Machine, r: Result<Literal, RuntimeException>, lf2: LoxFunction) -> bool {
    exists|d: Deriv| #[trigger] call_d(d, m, lf, vals, m2, r, lf2)
}

/// A normal completion is the one normal completion.
pub proof fn lemma_unit_ok(r: Result<(), RuntimeException>)
    requires
        r is Ok,
    ensures
        r == Ok::<(), RuntimeException>(()),
{
    match r {
        Ok(u) => {
            assert(u == ());
        },
        Err(_) => {},
    }
}

} // verus!
