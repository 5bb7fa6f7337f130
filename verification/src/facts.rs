use vstd::prelude::*;

use crate::environment::{law_lookup_after_assign, law_lookup_after_define, lookup};
use crate::error::RuntimeException;
use crate::expr::Expr;
use crate::interpreter::{fresh_resolution, ran, run_statements, run_tokens, runs_all, Halt};
use crate::semantics::{
    args_d, binary_outcome, block_d, call_d, call_outcome, eval_d, evaluates, exec_d, executes, exit_d,
    local_depth, made_function, plain_equal, value_equal, reaches_d, seq_d, truthy, unary_outcome, with_frames, Deriv,
    Machine, Mid,
};
use crate::stmt::{stmts_view, Stmt, StmtView};
use crate::lox_function::{arity_of, LoxFunction};
use crate::native_function::Arith;
use crate::token::{bool_literal, Literal, Token, TokenType};

verus! {

broadcast use vstd::seq::group_seq_axioms;

/// `m2` follows `m` without touching what running code leaves alone: the
/// resolved depths, the REPL mode and the error record stay, the printed
/// lines only grow at the end, the step budget never grows, and the
/// frames stay well formed.
pub open spec fn keeps(m: Machine, m2: Machine) -> bool {
    &&& m.env.wf() ==> m2.env.wf()
    &&& m2.locals == m.locals
    &&& m2.repl == m.repl
    &&& m2.errors == m.errors
    &&& m2.had_error == m.had_error
    &&& m2.had_runtime_error == m.had_runtime_error
    &&& m2.steps <= m.steps
    &&& m.output.len() <= m2.output.len()
    &&& m2.output.take(m.output.len() as int) == m.output
}

proof fn lemma_keeps_trans(a: Machine, b: Machine, c: Machine)
    requires
        keeps(a, b),
        keeps(b, c),
    ensures
        keeps(a, c),
{
    assert(c.output.take(a.output.len() as int) =~= c.output.take(b.output.len() as int).take(a.output.len() as int));
}

/// A machine that differs from `a` only in its frames, its loop count and
/// a smaller budget keeps `a`.
proof fn lemma_keeps_same(a: Machine, b: Machine)
    requires
        b == (Machine { env: b.env, loop_count: b.loop_count, steps: b.steps, ..a }),
        b.steps <= a.steps,
        b.env == a.env || b.env.wf(),
    ensures
        keeps(a, b),
{
    assert(a.output.take(a.output.len() as int) =~= a.output);
}

proof fn lemma_eval_keeps(d: Deriv, m: Machine, e: Expr, m2: Machine, r: Result<Literal, RuntimeException>)
    requires
        eval_d(d, m, e, m2, r),
    ensures
        keeps(m, m2),
    decreases d, 0nat,
{
    match e {
        Expr::Empty => lemma_keeps_same(m, m2),
        Expr::Literal(_) => lemma_keeps_same(m, m2),
        Expr::Variable(_) => lemma_keeps_same(m, m2),
        Expr::Lambda(_, _) => lemma_keeps_same(m, m2),
        _ => match d {
            Deriv::Leaf => {},
            Deriv::Node { a, b, c, x } => match e {
                Expr::Grouping(inner) => lemma_eval_keeps(*a, m, *inner, m2, r),
                Expr::Unary(_, right) => lemma_eval_keeps(*a, m, *right, m2, x.ra),
                Expr::Assign(_, value) => {
                    lemma_eval_keeps(*a, m, *value, x.ma, x.ra);
                    lemma_keeps_same(x.ma, m2);
                    lemma_keeps_trans(m, x.ma, m2);
                },
                Expr::Logical(left, op, right) => {
                    lemma_eval_keeps(*a, m, *left, x.ma, x.ra);
                    match x.ra {
                        Ok(l) => if (op.token_type == crate::token::TokenType::Or && truthy(l)) || !truthy(l) {
                            lemma_keeps_same(x.ma, m2);
                        } else {
                            lemma_eval_keeps(*b, x.ma, *right, m2, r);
                        },
                        Err(_) => lemma_keeps_same(x.ma, m2),
                    }
                    lemma_keeps_trans(m, x.ma, m2);
                },
                Expr::Call(callee, paren, args) => {
                    lemma_eval_keeps(*a, m, *callee, x.ma, x.ra);
                    match x.ra {
                        Ok(cv) => {
                            lemma_args_keeps(*b, x.ma, args@, x.mb, x.vals);
                            lemma_keeps_trans(m, x.ma, x.mb);
                            match x.vals {
                                Ok(vals) => lemma_call_outcome_keeps(*c, x, x.mb, cv, *callee, paren, vals, m2, r),
                                Err(_) => lemma_keeps_same(x.mb, m2),
                            }
                            lemma_keeps_trans(m, x.mb, m2);
                        },
                        Err(_) => {
                            lemma_keeps_same(x.ma, m2);
                            lemma_keeps_trans(m, x.ma, m2);
                        },
                    }
                },
                Expr::Binary(left, _, right) => {
                    lemma_eval_keeps(*a, m, *left, x.ma, x.ra);
                    lemma_eval_keeps(*b, x.ma, *right, x.mb, x.rb);
                    lemma_keeps_trans(m, x.ma, x.mb);
                    if m2 == x.mb {
                        lemma_keeps_same(x.mb, m2);
                    } else {
                        assert(m2.output.take(x.mb.output.len() as int) =~= x.mb.output);
                    }
                    lemma_keeps_trans(m, x.mb, m2);
                },
                _ => {},
            },
        },
    }
}

proof fn lemma_args_keeps(d: Deriv, m: Machine, args: Seq<Expr>, m2: Machine, r: Result<Seq<Literal>, RuntimeException>)
    requires
        args_d(d, m, args, m2, r),
    ensures
        keeps(m, m2),
    decreases d, 0nat,
{
    if args.len() == 0 {
        lemma_keeps_same(m, m2);
    } else {
        match d {
            Deriv::Leaf => {},
            Deriv::Node { a, b, c, x } => {
                lemma_args_keeps(*a, m, args.drop_last(), x.ma, x.vals);
                match x.vals {
                    Ok(_) => lemma_eval_keeps(*b, x.ma, args.last(), m2, x.ra),
                    Err(_) => lemma_keeps_same(x.ma, m2),
                }
                lemma_keeps_trans(m, x.ma, m2);
            },
        }
    }
}

proof fn lemma_call_outcome_keeps(
    d: Deriv,
    x: Mid,
    m: Machine,
    cv: Literal,
    callee: Expr,
    paren: Token,
    vals: Seq<Literal>,
    m2: Machine,
    r: Result<Literal, RuntimeException>,
)
    requires
        call_outcome(d, x, m, cv, callee, paren, vals, m2, r),
    ensures
        keeps(m, m2),
    decreases d, 1nat,
{
    match cv {
        Literal::LoxFunction(lf) => if vals.len() != arity_of(lf.declaration_view()) as nat || m.steps == 0 {
            lemma_keeps_same(m, m2);
        } else {
            let mm = Machine { steps: (m.steps - 1) as nat, ..m };
            lemma_keeps_same(m, mm);
            lemma_call_keeps(d, mm, lf, vals, x.mc, x.rc, x.lf);
            lemma_keeps_trans(m, mm, x.mc);
            lemma_keeps_same(x.mc, m2);
            lemma_keeps_trans(m, x.mc, m2);
        },
        _ => lemma_keeps_same(m, m2),
    }
}

proof fn lemma_call_keeps(
    d: Deriv,
    m: Machine,
    lf: LoxFunction,
    vals: Seq<Literal>,
    m2: Machine,
    r: Result<Literal, RuntimeException>,
    lf2: LoxFunction,
)
    requires
        call_d(d, m, lf, vals, m2, r, lf2),
    ensures
        keeps(m, m2),
    decreases d, 0nat,
{
    if lf.closure_view()@.len() > 0xFFFF_FFFF {
        lemma_keeps_same(m, m2);
    } else {
        match lf.declaration_view() {
            Stmt::Function(_, params, body) => if params@.len() > vals.len() {
                lemma_keeps_same(m, m2);
            } else {
                match d {
                    Deriv::Leaf => {},
                    Deriv::Node { a, b, c, x } => {
                        lemma_block_keeps(*a, x.ma, body@, x.mb, x.ua);
                        assert((m.output + x.mb.output).take(m.output.len() as int) =~= m.output);
                    },
                }
            },
            _ => lemma_keeps_same(m, m2),
        }
    }
}

proof fn lemma_block_keeps(d: Deriv, m: Machine, v: Seq<Stmt>, m2: Machine, r: Result<(), RuntimeException>)
    requires
        block_d(d, m, v, m2, r),
    ensures
        keeps(m, m2),
    decreases d, 0nat,
{
    match d {
        Deriv::Leaf => {},
        Deriv::Node { a, b, c, x } => {
            lemma_keeps_same(m, x.ma);
            lemma_seq_keeps(*a, x.ma, v, x.mb, x.ua);
            lemma_keeps_same(x.mb, m2);
            lemma_keeps_trans(m, x.ma, x.mb);
            lemma_keeps_trans(m, x.mb, m2);
        },
    }
}

proof fn lemma_seq_keeps(d: Deriv, m: Machine, v: Seq<Stmt>, m2: Machine, r: Result<(), RuntimeException>)
    requires
        seq_d(d, m, v, m2, r),
    ensures
        keeps(m, m2),
    decreases d, 0nat,
{
    if v.len() == 0 {
        lemma_keeps_same(m, m2);
    } else {
        match d {
            Deriv::Leaf => {},
            Deriv::Node { a, b, c, x } => {
                lemma_seq_keeps(*a, m, v.drop_last(), x.ma, x.ua);
                match x.ua {
                    Ok(_) => lemma_exec_keeps(*b, x.ma, v.last(), m2, r),
                    Err(_) => lemma_keeps_same(x.ma, m2),
                }
                lemma_keeps_trans(m, x.ma, m2);
            },
        }
    }
}

/// One more printed line keeps the machine.
proof fn lemma_printed_keeps(m: Machine, m2: Machine, v: Literal)
    requires
        crate::semantics::printed(m, m2, v),
    ensures
        keeps(m, m2),
{
    assert(m2.output.take(m.output.len() as int) =~= m.output);
}

proof fn lemma_exec_keeps(d: Deriv, m: Machine, s: Stmt, m2: Machine, r: Result<(), RuntimeException>)
    requires
        exec_d(d, m, s, m2, r),
    ensures
        keeps(m, m2),
    decreases d, 0nat,
{
    match s {
        Stmt::Var(_, None) => lemma_keeps_same(m, m2),
        Stmt::Break(_) => lemma_keeps_same(m, m2),
        Stmt::Function(name, _, _) => {
            let lf = choose|lf: LoxFunction|
                #[trigger] made_function(lf, name.lexeme@, s.view(), m.env)
                    && with_frames(m, m2, crate::environment::defined(m.env@, name.lexeme@, Literal::LoxFunction(lf)));
            lemma_keeps_same(m, m2);
        },
        Stmt::Return(_, value) if (*value) is None => lemma_keeps_same(m, m2),
        _ => match d {
            Deriv::Leaf => {},
            Deriv::Node { a, b, c, x } => match s {
                Stmt::Expression(e) => {
                    lemma_eval_keeps(*a, m, e, x.ma, x.ra);
                    match x.ra {
                        Ok(v) => if (e is Assign) || !x.ma.repl {
                            lemma_keeps_same(x.ma, m2);
                        } else {
                            lemma_printed_keeps(x.ma, m2, v);
                        },
                        Err(_) => lemma_keeps_same(x.ma, m2),
                    }
                    lemma_keeps_trans(m, x.ma, m2);
                },
                Stmt::Print(e) => {
                    lemma_eval_keeps(*a, m, e, x.ma, x.ra);
                    match x.ra {
                        Ok(v) => lemma_printed_keeps(x.ma, m2, v),
                        Err(_) => lemma_keeps_same(x.ma, m2),
                    }
                    lemma_keeps_trans(m, x.ma, m2);
                },
                Stmt::Var(_, Some(e)) => {
                    lemma_eval_keeps(*a, m, e, x.ma, x.ra);
                    lemma_keeps_same(x.ma, m2);
                    lemma_keeps_trans(m, x.ma, m2);
                },
                Stmt::Return(_, value) => match *value {
                    Some(e) => {
                        lemma_eval_keeps(*a, m, e, x.ma, x.ra);
                        lemma_keeps_same(x.ma, m2);
                        lemma_keeps_trans(m, x.ma, m2);
                    },
                    None => {},
                },
                Stmt::Block(v) => lemma_block_keeps(*a, m, v@, m2, r),
                Stmt::If(cond, t, el) => {
                    lemma_eval_keeps(*a, m, cond, x.ma, x.ra);
                    match x.ra {
                        Ok(v) => if truthy(v) {
                            lemma_exec_keeps(*b, x.ma, *t, m2, r);
                        } else {
                            match *el {
                                Some(y) => lemma_exec_keeps(*b, x.ma, y, m2, r),
                                None => lemma_keeps_same(x.ma, m2),
                            }
                        },
                        Err(_) => lemma_keeps_same(x.ma, m2),
                    }
                    lemma_keeps_trans(m, x.ma, m2);
                },
                Stmt::While(cond, body) => {
                    lemma_eval_keeps(*a, m, cond, x.ma, x.ra);
                    match x.ra {
                        Ok(v0) => if x.ma.steps == 0 {
                            lemma_keeps_same(x.ma, m2);
                        } else {
                            let m0 = Machine { steps: (x.ma.steps - 1) as nat, loop_count: x.ma.loop_count + 1, ..x.ma };
                            lemma_keeps_same(x.ma, m0);
                            lemma_reaches_keeps(*b, m0, cond, *body, v0, x.mb, x.v);
                            lemma_exit_keeps(*c, x.mb, cond, *body, x.v, x.mc, x.ua);
                            lemma_keeps_same(x.mc, m2);
                            lemma_keeps_trans(x.ma, m0, x.mb);
                            lemma_keeps_trans(x.ma, x.mb, x.mc);
                            lemma_keeps_trans(x.ma, x.mc, m2);
                        },
                        Err(_) => lemma_keeps_same(x.ma, m2),
                    }
                    lemma_keeps_trans(m, x.ma, m2);
                },
                _ => {},
            },
        },
    }
}

proof fn lemma_reaches_keeps(d: Deriv, m0: Machine, cond: Expr, body: Stmt, v0: Literal, m: Machine, v: Literal)
    requires
        reaches_d(d, m0, cond, body, v0, m, v),
    ensures
        keeps(m0, m),
    decreases d, 0nat,
{
    match d {
        Deriv::Leaf => lemma_keeps_same(m0, m),
        Deriv::Node { a, b, c, x } => {
            lemma_reaches_keeps(*a, m0, cond, body, v0, x.ma, x.v);
            let mm = Machine { steps: (x.ma.steps - 1) as nat, ..x.ma };
            lemma_keeps_same(x.ma, mm);
            lemma_exec_keeps(*b, mm, body, x.mb, Ok(()));
            lemma_eval_keeps(*c, x.mb, cond, m, Ok(v));
            lemma_keeps_trans(m0, x.ma, mm);
            lemma_keeps_trans(m0, mm, x.mb);
            lemma_keeps_trans(m0, x.mb, m);
        },
    }
}

proof fn lemma_exit_keeps(d: Deriv, m: Machine, cond: Expr, body: Stmt, v: Literal, m2: Machine, r: Result<(), RuntimeException>)
    requires
        exit_d(d, m, cond, body, v, m2, r),
    ensures
        keeps(m, m2),
    decreases d, 0nat,
{
    if !truthy(v) || m.steps == 0 {
        lemma_keeps_same(m, m2);
    } else {
        match d {
            Deriv::Leaf => {},
            Deriv::Node { a, b, c, x } => {
                let mm = Machine { steps: (m.steps - 1) as nat, ..m };
                lemma_keeps_same(m, mm);
                lemma_exec_keeps(*a, mm, body, x.ma, x.ua);
                match x.ua {
                    Ok(_) => lemma_eval_keeps(*b, x.ma, cond, m2, x.ra),
                    Err(_) => lemma_keeps_same(x.ma, m2),
                }
                lemma_keeps_trans(m, mm, x.ma);
                lemma_keeps_trans(m, x.ma, m2);
            },
        }
    }
}

/// Evaluating an expression never changes the resolved depths, the REPL
/// mode or the error record; it only adds printed lines, and never adds to
/// the step budget.
pub proof fn law_evaluation_keeps(m: Machine, e: Expr, m2: Machine, r: Result<Literal, RuntimeException>)
    requires
        evaluates(m, e, m2, r),
    ensures
        keeps(m, m2),
{
    let d = choose|d: Deriv| eval_d(d, m, e, m2, r);
    lemma_eval_keeps(d, m, e, m2, r);
}

/// Running a statement never changes the resolved depths, the REPL mode or
/// the error record; it only adds printed lines, and never adds to the step
/// budget.
pub proof fn law_execution_keeps(m: Machine, s: Stmt, m2: Machine, r: Result<(), RuntimeException>)
    requires
        executes(m, s, m2, r),
    ensures
        keeps(m, m2),
{
    let d = choose|d: Deriv| exec_d(d, m, s, m2, r);
    lemma_exec_keeps(d, m, s, m2, r);
}

/// After `var x = e;` completes, reading `x`, where the resolver recorded no
/// depth for the read, gives back the value that `e` had and changes
/// nothing.
pub proof fn law_read_after_var(
    m: Machine,
    name: Token,
    init: Expr,
    m2: Machine,
    read: Expr,
    m3: Machine,
    r: Result<Literal, RuntimeException>,
)
    requires
        m.env.wf(),
        executes(m, Stmt::Var(name, Some(init)), m2, Ok(())),
        read matches Expr::Variable(t) && t.lexeme@ == name.lexeme@,
        local_depth(m2.locals, read.view()) is None,
        evaluates(m2, read, m3, r),
    ensures
        m3 == m2,
        exists|m1: Machine, v: Literal| #[trigger] evaluates(m, init, m1, Ok(v)) && r == Ok::<Literal, RuntimeException>(v),
{
    let s = Stmt::Var(name, Some(init));
    let d = choose|d: Deriv| exec_d(d, m, s, m2, Ok(()));
    let d2 = choose|d: Deriv| eval_d(d, m2, read, m3, r);
    assert(eval_d(d2, m2, read, m3, r));
    match d {
        Deriv::Leaf => {},
        Deriv::Node { a, b, c, x } => {
            match x.ra {
                Ok(v) => {
                    assert(eval_d(*a, m, init, x.ma, Ok(v)));
                    lemma_eval_keeps(*a, m, init, x.ma, Ok(v));
                    x.ma.env.lemma_enclosing();
                    let frames = crate::environment::defined(x.ma.env@, name.lexeme@, v);
                    m2.env.lemma_enclosing();
                    assert(m2.env@ == frames);
                    assert(frames.len() == x.ma.env@.len());
                    law_lookup_after_define(x.ma.env@, name.lexeme@, v);
                    assert(lookup(m2.env@, name.lexeme@) == Some(v));
                    assert(evaluates(m, init, x.ma, Ok(v)));
                },
                Err(_) => {},
            }
        },
    }
}

/// After an assignment `x = e` gives `v`, where the resolver recorded no
/// depth for the assignment nor for a later read of `x`, the read gives
/// back `v` and changes nothing.
pub proof fn law_read_after_assign(
    m: Machine,
    name: Token,
    value: Box<Expr>,
    m2: Machine,
    v: Literal,
    read: Expr,
    m3: Machine,
    r: Result<Literal, RuntimeException>,
)
    requires
        evaluates(m, Expr::Assign(name, value), m2, Ok(v)),
        local_depth(m.locals, Expr::Assign(name, value).view()) is None,
        read matches Expr::Variable(t) && t.lexeme@ == name.lexeme@,
        local_depth(m.locals, read.view()) is None,
        evaluates(m2, read, m3, r),
    ensures
        m3 == m2,
        r == Ok::<Literal, RuntimeException>(v),
{
    let e = Expr::Assign(name, value);
    let d = choose|d: Deriv| eval_d(d, m, e, m2, Ok(v));
    let d2 = choose|d: Deriv| eval_d(d, m2, read, m3, r);
    assert(eval_d(d2, m2, read, m3, r));
    match d {
        Deriv::Leaf => {},
        Deriv::Node { a, b, c, x } => {
            lemma_eval_keeps(*a, m, *value, x.ma, x.ra);
            match x.ra {
                Ok(v1) => {
                    match crate::environment::assigned(x.ma.env@, name.lexeme@, v1) {
                        Some(frames) => {
                            assert(v1 == v);
                            law_lookup_after_assign(x.ma.env@, name.lexeme@, v);
                            assert(lookup(m2.env@, name.lexeme@) == Some(v));
                        },
                        None => {},
                    }
                },
                Err(_) => {},
            }
        },
    }
}

/// A `print` statement that completes adds one line after what evaluating
/// its expression printed: the text of the value, and changes nothing else.
pub proof fn law_print_adds_one_line(m: Machine, e: Expr, m2: Machine)
    requires
        executes(m, Stmt::Print(e), m2, Ok(())),
    ensures
        exists|m1: Machine, v: Literal| #[trigger] evaluates(m, e, m1, Ok(v)) && crate::semantics::printed(m1, m2, v),
{
    let d = choose|d: Deriv| exec_d(d, m, Stmt::Print(e), m2, Ok(()));
    match d {
        Deriv::Leaf => {},
        Deriv::Node { a, b, c, x } => {
            match x.ra {
                Ok(v) => {
                    assert(eval_d(*a, m, e, x.ma, Ok(v)));
                    assert(evaluates(m, e, x.ma, Ok(v)));
                },
                Err(_) => {},
            }
        },
    }
}

/// `==` is symmetric where it does not rest on number arithmetic.
pub proof fn law_equality_symmetric(a: Literal, b: Literal)
    ensures
        plain_equal(a, b) == plain_equal(b, a),
{
}

/// Every value is `==` to itself, but for numbers (whose equality is the
/// host's) and functions of the language (which are never equal).
pub proof fn law_equality_reflexive(a: Literal)
    requires
        !(a is Number),
        !(a is LoxFunction),
    ensures
        plain_equal(a, a) == Some(true),
{
}

/// `==` is symmetric when the host's equality of doubles is.
pub proof fn law_value_equality_symmetric(ar: Arith, a: Literal, b: Literal)
    requires
        forall|x: u64, y: u64| #[trigger] (ar.equal)(x, y) == (ar.equal)(y, x),
    ensures
        value_equal(ar, a, b) == value_equal(ar, b, a),
{
    law_equality_symmetric(a, b);
    if let (Literal::Number(x), Literal::Number(y)) = (a, b) {
        assert((ar.equal)(x, y) == (ar.equal)(y, x));
    }
}

/// `a != b` is the negation of `a == b`.
pub proof fn law_not_equal_negates(
    ar: Arith,
    equal: Token,
    not_equal: Token,
    a: Literal,
    b: Literal,
    r1: Result<Literal, RuntimeException>,
    r2: Result<Literal, RuntimeException>,
)
    requires
        equal.token_type == TokenType::EqualEqual,
        not_equal.token_type == TokenType::BangEqual,
        binary_outcome(ar, equal, Ok(a), Ok(b), r1),
        binary_outcome(ar, not_equal, Ok(a), Ok(b), r2),
    ensures
        r1 == Ok::<Literal, RuntimeException>(bool_literal(value_equal(ar, a, b))),
        r2 == Ok::<Literal, RuntimeException>(bool_literal(!value_equal(ar, a, b))),
{
}

/// `!!v` is `true` exactly when `v` counts as true.
pub proof fn law_double_negation(
    ar: Arith,
    bang: Token,
    v: Literal,
    r1: Result<Literal, RuntimeException>,
    r2: Result<Literal, RuntimeException>,
)
    requires
        bang.token_type == TokenType::Bang,
        unary_outcome(ar, bang, Ok(v), r1),
        unary_outcome(ar, bang, r1, r2),
    ensures
        r2 == Ok::<Literal, RuntimeException>(bool_literal(truthy(v))),
{
}

proof fn lemma_first_failure(d: Deriv, m: Machine, v: Seq<Stmt>, m2: Machine, y: RuntimeException)
    requires
        seq_d(d, m, v, m2, Err(y)),
    ensures
        exists|k: int, m1: Machine|
            0 <= k < v.len() && #[trigger] runs_all(m, v.take(k), m1, Ok(())) && executes(m1, v[k], m2, Err(y)),
    decreases d,
{
    match d {
        Deriv::Leaf => {},
        Deriv::Node { a, b, c, x } => {
            let k = v.len() - 1;
            assert(v.drop_last() =~= v.take(k));
            match x.ua {
                Ok(_) => {
                    crate::semantics::lemma_unit_ok(x.ua);
                    assert(seq_d(*a, m, v.take(k), x.ma, Ok(())));
                    assert(runs_all(m, v.take(k), x.ma, Ok(())));
                    assert(exec_d(*b, x.ma, v[k], m2, Err(y)));
                    assert(executes(x.ma, v[k], m2, Err(y)));
                },
                Err(_) => {
                    lemma_first_failure(*a, m, v.drop_last(), m2, y);
                    let (j, m1) = choose|j: int, m1: Machine|
                        0 <= j < v.drop_last().len() && #[trigger] runs_all(m, v.drop_last().take(j), m1, Ok(()))
                            && executes(m1, v.drop_last()[j], m2, Err(y));
                    assert(v.drop_last().take(j) =~= v.take(j));
                    assert(v.drop_last()[j] == v[j]);
                    assert(runs_all(m, v.take(j), m1, Ok(())));
                },
            }
        },
    }
}

/// Running statements in order stops at the first one that does not
/// complete normally: those before it complete, and none after it runs.
pub proof fn law_run_stops_at_first_failure(m: Machine, v: Seq<Stmt>, m2: Machine, y: RuntimeException)
    requires
        runs_all(m, v, m2, Err(y)),
    ensures
        exists|k: int, m1: Machine|
            0 <= k < v.len() && #[trigger] runs_all(m, v.take(k), m1, Ok(())) && executes(m1, v[k], m2, Err(y)),
{
    let d = choose|d: Deriv| seq_d(d, m, v, m2, Err(y));
    lemma_first_failure(d, m, v, m2, y);
}

/// Resolving and running parsed statements never takes back a printed
/// line, and when it reports an error while resolving it prints nothing.
pub proof fn law_run_statements_output(m: Machine, sv: Seq<StmtView>, m2: Machine, r: Result<(), Halt>)
    requires
        run_statements(m, sv, m2, r),
        !m.had_error,
    ensures
        m.output.len() <= m2.output.len(),
        m2.output.take(m.output.len() as int) == m.output,
        m2.had_error ==> m2.output == m.output,
{
    assert(m.output.take(m.output.len() as int) =~= m.output);
    if crate::resolver::stmts_resolvable(false, sv) {
        let st = crate::resolver::applied(fresh_resolution(), crate::resolver::stmts_events(Seq::empty(), sv).1);
        let m1 = Machine { errors: m.errors + st.errors, had_error: st.had_error, ..m };
        if !st.had_error {
            let (v, m3, rr) = choose|v: Seq<Stmt>, m3: Machine, rr: Result<(), RuntimeException>|
                stmts_view(v) == sv && #[trigger] ran(m1, v, m3, rr, m2);
            let d = choose|d: Deriv| seq_d(d, m1, v, m3, rr);
            lemma_seq_keeps(d, m1, v, m3, rr);
        }
    }
}

/// A whole run never takes back a printed line.
pub proof fn law_run_output_grows(m: Machine, toks: Seq<crate::token::Token>, m2: Machine, r: Result<(), Halt>)
    requires
        run_tokens(m, toks, m2, r),
    ensures
        m.output.len() <= m2.output.len(),
        m2.output.take(m.output.len() as int) == m.output,
{
    assert(m.output.take(m.output.len() as int) =~= m.output);
    if !m.had_error {
        match crate::parser::p_program(toks, 0) {
            Ok((sv, _)) => law_run_statements_output(m, sv, m2, r),
            Err(_) => {},
        }
    }
}

/// Whether a `break` stands in `s` outside the bodies of functions.
pub open spec fn stmt_breaks(s: StmtView) -> bool
    decreases s,
{
    match s {
        StmtView::Break(_) => true,
        StmtView::Block(v) => stmts_break(v),
        StmtView::If(_, t, e) => stmt_breaks(*t) || match e {
            Some(b) => stmt_breaks(*b),
            None => false,
        },
        StmtView::While(_, b) => stmt_breaks(*b),
        _ => false,
    }
}

/// Whether a `break` stands in one of the statements `v` outside the
/// bodies of functions.
pub open spec fn stmts_break(v: Seq<StmtView>) -> bool
    decreases v,
{
    if v.len() == 0 {
        false
    } else {
        stmts_break(v.drop_last()) || stmt_breaks(v.last())
    }
}

proof fn lemma_assigned_len(frames: Seq<crate::environment::Frame>, name: Seq<char>, v: Literal)
    requires
        crate::environment::assigned(frames, name, v) is Some,
    ensures
        crate::environment::assigned(frames, name, v).unwrap().len() == frames.len(),
    decreases frames.len(),
{
    if !frames[0].contains_key(name) {
        lemma_assigned_len(frames.drop_first(), name, v);
    }
}

/// What running code keeps of the loop depth and the scope chain, for an
/// expression: no `break` comes out, and the loop depth and the number of
/// frames stay.
pub open spec fn expr_scoped<T>(m: Machine, m2: Machine, r: Result<T, RuntimeException>) -> bool {
    &&& !(r matches Err(RuntimeException::Break))
    &&& m2.loop_count == m.loop_count
    &&& m2.env@.len() == m.env@.len()
}

/// What running code keeps of the loop depth and the scope chain, for
/// statements: a normal completion or a `break` leaves the loop depth, a
/// `break` comes out only inside a loop, and, where no `break` stands
/// outside function bodies, none comes out and a normal completion leaves
/// as many frames as it found.
pub open spec fn stmts_scoped(m: Machine, m2: Machine, r: Result<(), RuntimeException>, breaks: bool) -> bool {
    &&& (r is Ok || r matches Err(RuntimeException::Break)) ==> m2.loop_count == m.loop_count
    &&& r matches Err(RuntimeException::Break) ==> m.loop_count > 0
    &&& !breaks ==> !(r matches Err(RuntimeException::Break))
    &&& !breaks && r is Ok && m.env.wf() ==> m2.env@.len() == m.env@.len()
}

proof fn lemma_eval_scoped(d: Deriv, m: Machine, e: Expr, m2: Machine, r: Result<Literal, RuntimeException>)
    requires
        eval_d(d, m, e, m2, r),
    ensures
        expr_scoped(m, m2, r),
    decreases d, 0nat,
{
    match e {
        Expr::Empty => {},
        Expr::Literal(_) => {},
        Expr::Variable(_) => {},
        Expr::Lambda(_, _) => {},
        _ => match d {
            Deriv::Leaf => {},
            Deriv::Node { a, b, c, x } => match e {
                Expr::Grouping(inner) => lemma_eval_scoped(*a, m, *inner, m2, r),
                Expr::Unary(_, right) => lemma_eval_scoped(*a, m, *right, m2, x.ra),
                Expr::Assign(name, value) => {
                    lemma_eval_scoped(*a, m, *value, x.ma, x.ra);
                    if let Ok(v) = x.ra {
                        if local_depth(x.ma.locals, e.view()) is None {
                            if crate::environment::assigned(x.ma.env@, name.lexeme@, v) is Some {
                                lemma_assigned_len(x.ma.env@, name.lexeme@, v);
                            }
                        }
                    }
                },
                Expr::Logical(left, op, right) => {
                    lemma_eval_scoped(*a, m, *left, x.ma, x.ra);
                    if let Ok(l) = x.ra {
                        if !((op.token_type == crate::token::TokenType::Or && truthy(l)) || !truthy(l)) {
                            lemma_eval_scoped(*b, x.ma, *right, m2, r);
                        }
                    }
                },
                Expr::Call(callee, paren, args) => {
                    lemma_eval_scoped(*a, m, *callee, x.ma, x.ra);
                    if let Ok(cv) = x.ra {
                        lemma_args_scoped(*b, x.ma, args@, x.mb, x.vals);
                        if let Ok(vals) = x.vals {
                            lemma_call_outcome_scoped(*c, x, x.mb, cv, *callee, paren, vals, m2, r);
                        }
                    }
                },
                Expr::Binary(left, _, right) => {
                    lemma_eval_scoped(*a, m, *left, x.ma, x.ra);
                    lemma_eval_scoped(*b, x.ma, *right, x.mb, x.rb);
                },
                _ => {},
            },
        },
    }
}

proof fn lemma_args_scoped(d: Deriv, m: Machine, args: Seq<Expr>, m2: Machine, r: Result<Seq<Literal>, RuntimeException>)
    requires
        args_d(d, m, args, m2, r),
    ensures
        expr_scoped(m, m2, r),
    decreases d, 0nat,
{
    if args.len() > 0 {
        match d {
            Deriv::Leaf => {},
            Deriv::Node { a, b, c, x } => {
                lemma_args_scoped(*a, m, args.drop_last(), x.ma, x.vals);
                if x.vals is Ok {
                    lemma_eval_scoped(*b, x.ma, args.last(), m2, x.ra);
                }
            },
        }
    }
}

proof fn lemma_call_outcome_scoped(
    d: Deriv,
    x: Mid,
    m: Machine,
    cv: Literal,
    callee: Expr,
    paren: Token,
    vals: Seq<Literal>,
    m2: Machine,
    r: Result<Literal, RuntimeException>,
)
    requires
        call_outcome(d, x, m, cv, callee, paren, vals, m2, r),
    ensures
        expr_scoped(m, m2, r),
    decreases d, 1nat,
{
    if let Literal::LoxFunction(lf) = cv {
        if vals.len() == arity_of(lf.declaration_view()) as nat && m.steps > 0 {
            let mm = Machine { steps: (m.steps - 1) as nat, ..m };
            lemma_call_scoped(d, mm, lf, vals, x.mc, x.rc, x.lf);
            if let Expr::Variable(t) = callee {
                if crate::environment::assigned(x.mc.env@, t.lexeme@, Literal::LoxFunction(x.lf)) is Some {
                    lemma_assigned_len(x.mc.env@, t.lexeme@, Literal::LoxFunction(x.lf));
                }
            }
        }
    }
}

proof fn lemma_call_scoped(
    d: Deriv,
    m: Machine,
    lf: LoxFunction,
    vals: Seq<Literal>,
    m2: Machine,
    r: Result<Literal, RuntimeException>,
    lf2: LoxFunction,
)
    requires
        call_d(d, m, lf, vals, m2, r, lf2),
    ensures
        expr_scoped(m, m2, r),
        m2.env == m.env,
    decreases d, 0nat,
{
    if lf.closure_view()@.len() <= 0xFFFF_FFFF {
        if let Stmt::Function(_, params, body) = lf.declaration_view() {
            if params@.len() <= vals.len() {
                if let Deriv::Node { a, b, c, x } = d {
                    lemma_block_scoped(*a, x.ma, body@, x.mb, x.ua);
                }
            }
        }
    }
}

proof fn lemma_block_scoped(d: Deriv, m: Machine, v: Seq<Stmt>, m2: Machine, r: Result<(), RuntimeException>)
    requires
        block_d(d, m, v, m2, r),
    ensures
        stmts_scoped(m, m2, r, stmts_break(stmts_view(v))),
    decreases d, 0nat,
{
    if let Deriv::Node { a, b, c, x } = d {
        lemma_seq_scoped(*a, x.ma, v, x.mb, x.ua);
        if r is Ok && m.env.wf() {
            m.env.lemma_enclosing();
        }
    }
}

proof fn lemma_seq_scoped(d: Deriv, m: Machine, v: Seq<Stmt>, m2: Machine, r: Result<(), RuntimeException>)
    requires
        seq_d(d, m, v, m2, r),
    ensures
        stmts_scoped(m, m2, r, stmts_break(stmts_view(v))),
    decreases d, 0nat,
{
    if v.len() > 0 {
        if let Deriv::Node { a, b, c, x } = d {
            assert(stmts_view(v).drop_last() =~= stmts_view(v.drop_last()));
            assert(stmts_view(v).last() == v.last().view());
            lemma_seq_scoped(*a, m, v.drop_last(), x.ma, x.ua);
            if x.ua is Ok {
                lemma_exec_scoped(*b, x.ma, v.last(), m2, r);
                if m.env.wf() {
                    lemma_seq_keeps(*a, m, v.drop_last(), x.ma, x.ua);
                }
            }
        }
    }
}

proof fn lemma_exec_scoped(d: Deriv, m: Machine, s: Stmt, m2: Machine, r: Result<(), RuntimeException>)
    requires
        exec_d(d, m, s, m2, r),
    ensures
        stmts_scoped(m, m2, r, stmt_breaks(s.view())),
    decreases d, 0nat,
{
    match s {
        Stmt::Var(_, None) => {},
        Stmt::Break(_) => {},
        Stmt::Function(name, _, _) => {
            if m.env.wf() {
                m.env.lemma_enclosing();
            }
        },
        Stmt::Return(_, value) if (*value) is None => {},
        _ => match d {
            Deriv::Leaf => {},
            Deriv::Node { a, b, c, x } => match s {
                Stmt::Expression(e) => lemma_eval_scoped(*a, m, e, x.ma, x.ra),
                Stmt::Print(e) => lemma_eval_scoped(*a, m, e, x.ma, x.ra),
                Stmt::Var(_, Some(e)) => {
                    lemma_eval_scoped(*a, m, e, x.ma, x.ra);
                    if m.env.wf() {
                        lemma_eval_keeps(*a, m, e, x.ma, x.ra);
                        x.ma.env.lemma_enclosing();
                    }
                },
                Stmt::Return(_, value) => match *value {
                    Some(e) => lemma_eval_scoped(*a, m, e, x.ma, x.ra),
                    None => {},
                },
                Stmt::Block(v) => lemma_block_scoped(*a, m, v@, m2, r),
                Stmt::If(cond, t, el) => {
                    lemma_eval_scoped(*a, m, cond, x.ma, x.ra);
                    if m.env.wf() {
                        lemma_eval_keeps(*a, m, cond, x.ma, x.ra);
                    }
                    if let Ok(v) = x.ra {
                        if truthy(v) {
                            lemma_exec_scoped(*b, x.ma, *t, m2, r);
                        } else if let Some(y) = *el {
                            lemma_exec_scoped(*b, x.ma, y, m2, r);
                        }
                    }
                },
                Stmt::While(cond, body) => {
                    lemma_eval_scoped(*a, m, cond, x.ma, x.ra);
                    if m.env.wf() {
                        lemma_eval_keeps(*a, m, cond, x.ma, x.ra);
                    }
                    if let Ok(v0) = x.ra {
                        if x.ma.steps > 0 {
                            let m0 = Machine { steps: (x.ma.steps - 1) as nat, loop_count: x.ma.loop_count + 1, ..x.ma };
                            lemma_reaches_scoped(*b, m0, cond, *body, v0, x.mb, x.v);
                            if m.env.wf() {
                                lemma_reaches_keeps(*b, m0, cond, *body, v0, x.mb, x.v);
                            }
                            lemma_exit_scoped(*c, x.mb, cond, *body, x.v, x.mc, x.ua);
                        }
                    }
                },
                _ => {},
            },
        },
    }
}

proof fn lemma_reaches_scoped(d: Deriv, m0: Machine, cond: Expr, body: Stmt, v0: Literal, m: Machine, v: Literal)
    requires
        reaches_d(d, m0, cond, body, v0, m, v),
    ensures
        m.loop_count == m0.loop_count,
        !stmt_breaks(body.view()) && m0.env.wf() ==> m.env@.len() == m0.env@.len(),
    decreases d, 0nat,
{
    if let Deriv::Node { a, b, c, x } = d {
        lemma_reaches_scoped(*a, m0, cond, body, v0, x.ma, x.v);
        let mm = Machine { steps: (x.ma.steps - 1) as nat, ..x.ma };
        lemma_exec_scoped(*b, mm, body, x.mb, Ok(()));
        lemma_eval_scoped(*c, x.mb, cond, m, Ok(v));
        if m0.env.wf() {
            lemma_reaches_keeps(*a, m0, cond, body, v0, x.ma, x.v);
        }
    }
}

proof fn lemma_exit_scoped(d: Deriv, m: Machine, cond: Expr, body: Stmt, v: Literal, m2: Machine, r: Result<(), RuntimeException>)
    requires
        exit_d(d, m, cond, body, v, m2, r),
    ensures
        !(r matches Err(RuntimeException::Break)),
        r is Ok ==> m2.loop_count == m.loop_count,
        !stmt_breaks(body.view()) && r is Ok && m.env.wf() ==> m2.env@.len() == m.env@.len(),
    decreases d, 0nat,
{
    if truthy(v) && m.steps > 0 {
        if let Deriv::Node { a, b, c, x } = d {
            let mm = Machine { steps: (m.steps - 1) as nat, ..m };
            lemma_exec_scoped(*a, mm, body, x.ma, x.ua);
            if x.ua is Ok {
                lemma_eval_scoped(*b, x.ma, cond, m2, x.ra);
            }
        }
    }
}

/// Evaluating an expression leaves the loop depth and the number of frames
/// as it found them, and no `break` comes out of it: a `break` never leaves
/// the function it stands in.
pub proof fn law_evaluation_keeps_scopes(m: Machine, e: Expr, m2: Machine, r: Result<Literal, RuntimeException>)
    requires
        evaluates(m, e, m2, r),
    ensures
        !(r matches Err(RuntimeException::Break)),
        m2.loop_count == m.loop_count,
        m2.env@.len() == m.env@.len(),
{
    let d = choose|d: Deriv| eval_d(d, m, e, m2, r);
    lemma_eval_scoped(d, m, e, m2, r);
}

/// A statement that completes normally, or by `break`, leaves the loop
/// depth as it found it, and a `break` comes out of a statement only inside
/// a loop.
pub proof fn law_loop_depth_restored(m: Machine, s: Stmt, m2: Machine, r: Result<(), RuntimeException>)
    requires
        executes(m, s, m2, r),
    ensures
        (r is Ok || r matches Err(RuntimeException::Break)) ==> m2.loop_count == m.loop_count,
        r matches Err(RuntimeException::Break) ==> m.loop_count > 0,
{
    let d = choose|d: Deriv| exec_d(d, m, s, m2, r);
    lemma_exec_scoped(d, m, s, m2, r);
}

/// A statement that completes normally leaves as many frames as it found,
/// when no `break` stands in it outside function bodies (a `break` out of a
/// block leaves that block's frame behind).
pub proof fn law_frames_restored(m: Machine, s: Stmt, m2: Machine)
    requires
        m.env.wf(),
        !stmt_breaks(s.view()),
        executes(m, s, m2, Ok(())),
    ensures
        m2.env@.len() == m.env@.len(),
{
    let d = choose|d: Deriv| exec_d(d, m, s, m2, Ok(()));
    lemma_exec_scoped(d, m, s, m2, Ok(()));
}

/// What the binary operator `t` gives on the numbers `a` and `b`, as the
/// host computes them: the difference, product, sum, remainder or quotient
/// (division by zero being an error), greater, greater-or-equal, less,
/// less-or-equal, equal, or not equal, of `a` and `b` in that order.
pub open spec fn number_operator_result(ar: Arith, t: TokenType, a: u64, b: u64, r: Result<Literal, RuntimeException>) -> bool {
    &&& t == TokenType::Minus ==> r == Ok::<Literal, RuntimeException>(Literal::Number((ar.difference)(a, b)))
    &&& t == TokenType::Star ==> r == Ok::<Literal, RuntimeException>(Literal::Number((ar.product)(a, b)))
    &&& t == TokenType::Plus ==> r == Ok::<Literal, RuntimeException>(Literal::Number((ar.sum)(a, b)))
    &&& t == TokenType::Percent ==> r == Ok::<Literal, RuntimeException>(Literal::Number((ar.remainder)(a, b)))
    &&& (t == TokenType::Slash && (ar.is_zero)(b) ==> (r matches Err(RuntimeException::Base(_))))
    &&& t == TokenType::Slash && !(ar.is_zero)(b) ==> r == Ok::<Literal, RuntimeException>(Literal::Number((ar.quotient)(a, b)))
    &&& t == TokenType::Greater ==> r == Ok::<Literal, RuntimeException>(bool_literal((ar.greater)(a, b)))
    &&& t == TokenType::GreaterEqual ==> r == Ok::<Literal, RuntimeException>(bool_literal((ar.greater_equal)(a, b)))
    &&& t == TokenType::Less ==> r == Ok::<Literal, RuntimeException>(bool_literal((ar.less)(a, b)))
    &&& t == TokenType::LessEqual ==> r == Ok::<Literal, RuntimeException>(bool_literal((ar.less_equal)(a, b)))
    &&& t == TokenType::EqualEqual ==> r == Ok::<Literal, RuntimeException>(bool_literal((ar.equal)(a, b)))
    &&& t == TokenType::BangEqual ==> r == Ok::<Literal, RuntimeException>(bool_literal(!(ar.equal)(a, b)))
}

/// On two numbers, each binary operator gives the host's matching operation
/// on the left operand's value and the right one's, in that order: the
/// difference, product, sum, remainder or quotient (division by zero being
/// an error), the comparisons greater, greater-or-equal, less,
/// less-or-equal, and equality or its negation; nothing more is printed.
pub proof fn law_number_operators(
    m: Machine,
    left: Box<Expr>,
    op: Token,
    right: Box<Expr>,
    m2: Machine,
    r: Result<Literal, RuntimeException>,
)
    requires
        evaluates(m, Expr::Binary(left, op, right), m2, r),
    ensures
        exists|m1: Machine, m3: Machine, ra: Result<Literal, RuntimeException>, rb: Result<Literal, RuntimeException>|
            #[trigger] evaluates(m, *left, m1, ra) && #[trigger] evaluates(m1, *right, m3, rb)
            && match (ra, rb) {
                (Ok(Literal::Number(a)), Ok(Literal::Number(b))) => m2 == m3
                    && number_operator_result(m.arith, op.token_type, a, b, r),
                _ => true,
            },
{
    let e = Expr::Binary(left, op, right);
    let d = choose|d: Deriv| eval_d(d, m, e, m2, r);
    match d {
        Deriv::Leaf => {
            assert(false);
        },
        Deriv::Node { a, b, c, x } => {
            assert(eval_d(*a, m, *left, x.ma, x.ra));
            assert(eval_d(*b, x.ma, *right, x.mb, x.rb));
            assert(evaluates(m, *left, x.ma, x.ra));
            assert(evaluates(x.ma, *right, x.mb, x.rb));
            if let (Ok(Literal::Number(va)), Ok(Literal::Number(vb))) = (x.ra, x.rb) {
                assert(!crate::semantics::plus_mismatch(op, x.ra, x.rb));
                assert(m2 == x.mb);
                assert(binary_outcome(m.arith, op, x.ra, x.rb, r));
                assert(number_operator_result(m.arith, op.token_type, va, vb, r));
            }
        },
    }
}

/// `if (c) S1 else S2` evaluates `c` and then runs `S1` when its value
/// counts as true and `S2` when it does not, with their effects and
/// results; an error in `c` ends it.
pub proof fn law_if_runs_one_branch(m: Machine, c: Expr, t: Box<Stmt>, el: Stmt, m2: Machine, r: Result<(), RuntimeException>)
    requires
        executes(m, Stmt::If(c, t, Box::new(Some(el))), m2, r),
    ensures
        exists|m1: Machine, rc: Result<Literal, RuntimeException>| #[trigger] evaluates(m, c, m1, rc) && match rc {
            Ok(v) => if truthy(v) { executes(m1, *t, m2, r) } else { executes(m1, el, m2, r) },
            Err(y) => m2 == m1 && r == Err::<(), RuntimeException>(y),
        },
{
    let s = Stmt::If(c, t, Box::new(Some(el)));
    let d = choose|d: Deriv| exec_d(d, m, s, m2, r);
    match d {
        Deriv::Leaf => {},
        Deriv::Node { a, b, c: cc, x } => {
            assert(eval_d(*a, m, c, x.ma, x.ra));
            assert(evaluates(m, c, x.ma, x.ra));
            if let Ok(v) = x.ra {
                if truthy(v) {
                    assert(exec_d(*b, x.ma, *t, m2, r));
                    assert(executes(x.ma, *t, m2, r));
                } else {
                    assert(exec_d(*b, x.ma, el, m2, r));
                    assert(executes(x.ma, el, m2, r));
                }
            }
        },
    }
}

/// Swapping the branches of an `if` and negating its condition changes
/// nothing: whatever `if (c) S1 else S2` can do, `if (!c) S2 else S1` can
/// do too.
pub proof fn law_if_swap_branches(
    m: Machine,
    c: Expr,
    bang: Token,
    t: Stmt,
    el: Stmt,
    m2: Machine,
    r: Result<(), RuntimeException>,
)
    requires
        bang.token_type == TokenType::Bang,
        executes(m, Stmt::If(c, Box::new(t), Box::new(Some(el))), m2, r),
    ensures
        executes(m, Stmt::If(Expr::Unary(bang, Box::new(c)), Box::new(el), Box::new(Some(t))), m2, r),
{
    let s = Stmt::If(c, Box::new(t), Box::new(Some(el)));
    let s2 = Stmt::If(Expr::Unary(bang, Box::new(c)), Box::new(el), Box::new(Some(t)));
    let d = choose|d: Deriv| exec_d(d, m, s, m2, r);
    match d {
        Deriv::Leaf => {},
        Deriv::Node { a, b, c: cc, x } => {
            let rn: Result<Literal, RuntimeException> = match x.ra {
                Ok(v) => Ok(bool_literal(!truthy(v))),
                Err(y) => Err(y),
            };
            let neg = crate::semantics::node(*a, Deriv::Leaf, Deriv::Leaf, Mid { ra: x.ra, ..crate::semantics::blank_mid() });
            assert(eval_d(neg, m, Expr::Unary(bang, Box::new(c)), x.ma, rn));
            let d2 = crate::semantics::node(neg, *b, Deriv::Leaf, Mid { ma: x.ma, ra: rn, ..crate::semantics::blank_mid() });
            assert(exec_d(d2, m, s2, m2, r));
        },
    }
}

/// Binding parameters gives each its own argument: the `i`-th parameter
/// names the `i`-th argument, unless a later parameter has the same name.
pub proof fn law_params_bound_in_order(frames: Seq<crate::environment::Frame>, params: Seq<Token>, args: Seq<Literal>, i: int)
    requires
        frames.len() > 0,
        params.len() <= args.len(),
        0 <= i < params.len(),
        forall|k: int| i < k < params.len() ==> (#[trigger] params[k]).lexeme@ != params[i].lexeme@,
    ensures
        lookup(crate::semantics::bind_params(frames, params, args), params[i].lexeme@) == Some(args[i]),
    decreases params.len(),
{
    let k = params.len() - 1;
    let inner = crate::semantics::bind_params(frames, params.drop_last(), args);
    lemma_bind_params_len(frames, params.drop_last(), args);
    if i == k {
        law_lookup_after_define(inner, params[k].lexeme@, args[k]);
    } else {
        assert(params.drop_last()[i] == params[i]);
        law_params_bound_in_order(frames, params.drop_last(), args, i);
        crate::environment::law_define_leaves_others(inner, params[k].lexeme@, params[i].lexeme@, args[k]);
    }
}

proof fn lemma_bind_params_len(frames: Seq<crate::environment::Frame>, params: Seq<Token>, args: Seq<Literal>)
    requires
        frames.len() > 0,
    ensures
        crate::semantics::bind_params(frames, params, args).len() == frames.len(),
    decreases params.len(),
{
    if params.len() > 0 && params.len() <= args.len() {
        lemma_bind_params_len(frames, params.drop_last(), args);
    }
}

/// A call runs the function's body in a scope where its `i`-th parameter
/// names the `i`-th argument (unless a later parameter has the same name).
pub proof fn law_call_binds_arguments(
    d: Deriv,
    m: Machine,
    lf: LoxFunction,
    vals: Seq<Literal>,
    m2: Machine,
    r: Result<Literal, RuntimeException>,
    lf2: LoxFunction,
    i: int,
)
    requires
        call_d(d, m, lf, vals, m2, r, lf2),
        lf.closure_view()@.len() <= 0xFFFF_FFFF,
        lf.declaration_view() matches Stmt::Function(_, params, _) && params@.len() <= vals.len() && 0 <= i < params@.len()
            && forall|k: int| i < k < params@.len() ==> (#[trigger] params@[k]).lexeme@ != params@[i].lexeme@,
    ensures
        d matches Deriv::Node { x, .. } && lf.declaration_view() matches Stmt::Function(_, params, _)
            && lookup(x.ma.env@, params@[i].lexeme@) == Some(vals[i]),
{
    if let Stmt::Function(_, params, _) = lf.declaration_view() {
        if let Deriv::Node { a, b, c, x } = d {
            let frames = seq![Map::<Seq<char>, Literal>::empty()] + lf.closure_view()@ + m.env@;
            law_params_bound_in_order(frames, params@, vals, i);
        }
    }
}

/// `-e` gives the host's negation of `e`'s value when it is a number, and
/// fails otherwise; `!e` gives `true` exactly when `e`'s value does not
/// count as true, and passes on an error of `e`.
pub proof fn law_unary_operators(m: Machine, op: Token, operand: Box<Expr>, m2: Machine, r: Result<Literal, RuntimeException>)
    requires
        evaluates(m, Expr::Unary(op, operand), m2, r),
    ensures
        exists|rv: Result<Literal, RuntimeException>| #[trigger] evaluates(m, *operand, m2, rv) && match rv {
            Ok(v) => (op.token_type == TokenType::Bang ==> r == Ok::<Literal, RuntimeException>(bool_literal(!truthy(v))))
                && (op.token_type == TokenType::Minus ==> match v {
                    Literal::Number(n) => r == Ok::<Literal, RuntimeException>(Literal::Number((m.arith.negate)(n))),
                    _ => r is Err,
                }),
            Err(y) => (op.token_type == TokenType::Bang ==> r == Err::<Literal, RuntimeException>(y))
                && (op.token_type == TokenType::Minus ==> r is Err),
        },
{
    let d = choose|d: Deriv| eval_d(d, m, Expr::Unary(op, operand), m2, r);
    match d {
        Deriv::Leaf => {
            assert(false);
        },
        Deriv::Node { a, b, c, x } => {
            assert(eval_d(*a, m, *operand, m2, x.ra));
            assert(evaluates(m, *operand, m2, x.ra));
        },
    }
}

/// `l and r` / `l or r` evaluate `l` first; an error there ends it; a value
/// of `l` that does not count as true, or any value of `l` under `or`, is
/// the result; otherwise `r` is evaluated and gives the result.
pub proof fn law_logical_operators(m: Machine, left: Box<Expr>, op: Token, right: Box<Expr>, m2: Machine, r: Result<Literal, RuntimeException>)
    requires
        evaluates(m, Expr::Logical(left, op, right), m2, r),
    ensures
        exists|m1: Machine, rl: Result<Literal, RuntimeException>| #[trigger] evaluates(m, *left, m1, rl) && match rl {
            Ok(l) => if !truthy(l) || op.token_type == TokenType::Or {
                m2 == m1 && r == Ok::<Literal, RuntimeException>(l)
            } else {
                evaluates(m1, *right, m2, r)
            },
            Err(y) => m2 == m1 && r == Err::<Literal, RuntimeException>(y),
        },
{
    let d = choose|d: Deriv| eval_d(d, m, Expr::Logical(left, op, right), m2, r);
    match d {
        Deriv::Leaf => {
            assert(false);
        },
        Deriv::Node { a, b, c, x } => {
            assert(eval_d(*a, m, *left, x.ma, x.ra));
            assert(evaluates(m, *left, x.ma, x.ra));
            if let Ok(l) = x.ra {
                if !(!truthy(l) || op.token_type == TokenType::Or) {
                    assert(eval_d(*b, x.ma, *right, m2, r));
                    assert(evaluates(x.ma, *right, m2, r));
                }
            }
        },
    }
}

proof fn lemma_reaches_from_false(d: Deriv, m0: Machine, cond: Expr, body: Stmt, v0: Literal, m: Machine, v: Literal)
    requires
        reaches_d(d, m0, cond, body, v0, m, v),
        !truthy(v0),
    ensures
        m == m0,
        v == v0,
    decreases d,
{
    if let Deriv::Node { a, b, c, x } = d {
        lemma_reaches_from_false(*a, m0, cond, body, v0, x.ma, x.v);
    }
}

/// A `while` loop whose condition first gives a value that does not count
/// as true runs its body not at all: it completes normally after the
/// condition, spending one step (an error in the condition ends it).
pub proof fn law_while_false_skips_body(m: Machine, c: Expr, body: Box<Stmt>, m2: Machine, r: Result<(), RuntimeException>)
    requires
        executes(m, Stmt::While(c, body), m2, r),
    ensures
        exists|m1: Machine, rc: Result<Literal, RuntimeException>| #[trigger] evaluates(m, c, m1, rc) && match rc {
            Ok(v) => !truthy(v) && m1.steps > 0 ==> r == Ok::<(), RuntimeException>(())
                && m2 == (Machine { steps: (m1.steps - 1) as nat, ..m1 }),
            Err(y) => m2 == m1 && r == Err::<(), RuntimeException>(y),
        },
{
    let d = choose|d: Deriv| exec_d(d, m, Stmt::While(c, body), m2, r);
    match d {
        Deriv::Leaf => {
            assert(false);
        },
        Deriv::Node { a, b, c: cc, x } => {
            assert(eval_d(*a, m, c, x.ma, x.ra));
            assert(evaluates(m, c, x.ma, x.ra));
            if let Ok(v0) = x.ra {
                if !truthy(v0) && x.ma.steps > 0 {
                    let m0 = Machine { steps: (x.ma.steps - 1) as nat, loop_count: x.ma.loop_count + 1, ..x.ma };
                    lemma_reaches_from_false(*b, m0, c, *body, v0, x.mb, x.v);
                    assert(exit_d(*cc, x.mb, c, *body, x.v, x.mc, x.ua));
                    assert(x.mc == x.mb);
                    assert(x.ua == Ok::<(), RuntimeException>(()));
                    assert(m2 == (Machine { loop_count: (x.mc.loop_count - 1) as nat, ..x.mc }));
                    assert(m2 == (Machine { steps: (x.ma.steps - 1) as nat, ..x.ma }));
                }
            }
        },
    }
}

} // verus!
