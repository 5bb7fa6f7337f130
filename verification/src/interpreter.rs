use vstd::prelude::*;

use crate::environment::Environment;
use crate::error::{ParserError, Return, RuntimeError, RuntimeException};
use crate::expr::{clone_tokens, expr_key_eq, Expr, ExprView};
use crate::callable::Callable;
use crate::lox_function::{arity_of, rc_clone, LoxFunction};
use std::rc::Rc;
use crate::native_function::{arith_of, Host, NativeFunction};
use crate::stmt::{clone_stmts, stmts_view, Stmt, StmtView};
use crate::text::{chars_of, concat2, concat3, push_decimal, string_of};
use crate::semantics::{
    args_d, arity_message, bind_params, binary_outcome, blank_mid, blank_token, block_d, call_d, call_outcome,
    call_result, callee_machine, calls, eval_d, evaluates, exec_d, executes, exit_d, fails_at, fails_at_view,
    local_depth, made_function, node, plain_equal, printed, reaches_d, read_outcome, reclosed, runs_block, seq_d,
    truthy, unary_outcome, with_frames, lemma_unit_ok, display_text, debug_text, mismatch_line, plus_mismatch, trim_point_zero, value_equal, Deriv, Machine, Mid,
};
use crate::token::{bool_literal, plain_text, Literal, Token, TokenType, TokenView};

verus! {

broadcast use vstd::std_specs::vec::group_vec_axioms, vstd::seq::group_seq_axioms;

/// How many steps (loop iterations, loop entries and calls) a run may take.
pub const STEP_LIMIT: u64 = 0xFFFF_FFFF_FFFF_FFFE;

/// `t` is an operator that a binary expression can hold.
pub open spec fn binary_operator(t: TokenType) -> bool {
    t == TokenType::Minus || t == TokenType::Slash || t == TokenType::Star || t == TokenType::Plus
        || t == TokenType::Percent || t == TokenType::Greater || t == TokenType::GreaterEqual
        || t == TokenType::Less || t == TokenType::LessEqual || t == TokenType::BangEqual
        || t == TokenType::EqualEqual
}

/// The expression is one the evaluator handles: its unary and binary
/// operators are ones the evaluator knows.
pub open spec fn expr_view_ok(e: ExprView) -> bool
    decreases e,
{
    match e {
        ExprView::Literal(_) => true,
        ExprView::Logical(a, _, b) => expr_view_ok(*a) && expr_view_ok(*b),
        ExprView::Unary(op, b) => (op.token_type == TokenType::Minus || op.token_type == TokenType::Bang)
            && expr_view_ok(*b),
        ExprView::Assign(_, b) => expr_view_ok(*b),
        ExprView::Binary(a, op, b) => binary_operator(op.token_type) && expr_view_ok(*a) && expr_view_ok(*b),
        ExprView::Lambda(ps, body) => forall|i: int| 0 <= i < body.len() ==> stmt_view_ok(#[trigger] body[i]),
        ExprView::Call(c, _, args) => expr_view_ok(*c) && forall|i: int| 0 <= i < args.len() ==> expr_view_ok(#[trigger] args[i]),
        ExprView::Grouping(b) => expr_view_ok(*b),
        ExprView::Variable(_) => true,
        ExprView::Empty => true,
    }
}

/// The statement is one the interpreter handles (see [`expr_view_ok`]).
pub open spec fn stmt_view_ok(s: StmtView) -> bool
    decreases s,
{
    match s {
        StmtView::Block(v) => forall|i: int| 0 <= i < v.len() ==> stmt_view_ok(#[trigger] v[i]),
        StmtView::Expression(e) => expr_view_ok(e),
        StmtView::Function(_, ps, body) => forall|i: int| 0 <= i < body.len() ==> stmt_view_ok(#[trigger] body[i]),
        StmtView::Print(e) => expr_view_ok(e),
        StmtView::Return(_, v) => match v {
            Some(e) => expr_view_ok(e),
            None => true,
        },
        StmtView::If(c, t, e) => expr_view_ok(c) && stmt_view_ok(*t) && match e {
            Some(s) => stmt_view_ok(*s),
            None => true,
        },
        StmtView::While(c, b) => expr_view_ok(c) && stmt_view_ok(*b),
        StmtView::Var(_, i) => match i {
            Some(e) => expr_view_ok(e),
            None => true,
        },
        StmtView::Break(_) => true,
    }
}

/// The expression is one the evaluator handles.
pub open spec fn expr_ok(e: Expr) -> bool {
    expr_view_ok(e.view())
}

/// The statement is one the interpreter handles.
pub open spec fn stmt_ok(s: Stmt) -> bool {
    stmt_view_ok(s.view())
}

/// Every statement of the list is one the interpreter handles.
pub open spec fn stmts_ok(v: Seq<Stmt>) -> bool {
    forall|i: int| 0 <= i < v.len() ==> stmt_ok(#[trigger] v[i])
}

proof fn lemma_block_ok(v: Seq<StmtView>)
    requires
        stmt_view_ok(StmtView::Block(v)),
    ensures
        forall|j: int| 0 <= j < v.len() ==> stmt_view_ok(#[trigger] v[j]),
{
    let s = StmtView::Block(v);
    assert forall|j: int| 0 <= j < v.len() implies stmt_view_ok(#[trigger] v[j]) by {
        assert(stmt_view_ok(s->Block_0[j]));
    }
}

proof fn lemma_function_ok(name: TokenView, params: Seq<TokenView>, body: Seq<StmtView>)
    requires
        stmt_view_ok(StmtView::Function(name, params, body)),
    ensures
        forall|j: int| 0 <= j < body.len() ==> stmt_view_ok(#[trigger] body[j]),
{
    let s = StmtView::Function(name, params, body);
    assert forall|j: int| 0 <= j < body.len() implies stmt_view_ok(#[trigger] body[j]) by {
        assert(stmt_view_ok(s->Function_2[j]));
    }
}

proof fn lemma_lambda_ok(params: Seq<TokenView>, body: Seq<StmtView>)
    requires
        expr_view_ok(ExprView::Lambda(params, body)),
    ensures
        forall|j: int| 0 <= j < body.len() ==> stmt_view_ok(#[trigger] body[j]),
{
    let e = ExprView::Lambda(params, body);
    assert forall|j: int| 0 <= j < body.len() implies stmt_view_ok(#[trigger] body[j]) by {
        assert(stmt_view_ok(e->Lambda_1[j]));
    }
}

proof fn lemma_call_ok(callee: Box<ExprView>, paren: TokenView, args: Seq<ExprView>)
    requires
        expr_view_ok(ExprView::Call(callee, paren, args)),
    ensures
        expr_view_ok(*callee),
        forall|j: int| 0 <= j < args.len() ==> expr_view_ok(#[trigger] args[j]),
{
    let e = ExprView::Call(callee, paren, args);
    assert forall|j: int| 0 <= j < args.len() implies expr_view_ok(#[trigger] args[j]) by {
        assert(expr_view_ok(e->Call_2[j]));
    }
}

/// Runs statements, keeping the printed lines and the error lines it writes.
pub struct Interpreter {
    pub(crate) had_error: bool,
    pub(crate) had_runtime_error: bool,
    pub environment: Environment,
    pub(crate) repl: bool,
    pub(crate) loop_count: u64,
    pub(crate) locals: Vec<(Expr, u32)>,
    pub(crate) steps: u64,
    pub(crate) output: Vec<String>,
    pub(crate) errors: Vec<String>,
}

/// Whether `+` meets two values that are neither strings nor two numbers.
fn is_plus_mismatch(op: &Token, left: &Result<Literal, RuntimeException>, right: &Result<Literal, RuntimeException>) -> (r: bool)
    ensures
        r == plus_mismatch(*op, *left, *right),
{
    if op.token_type != TokenType::Plus {
        return false;
    }
    match (left, right) {
        (Ok(a), Ok(b)) => {
            let a_string = match a {
                Literal::String(_) => true,
                _ => false,
            };
            let b_string = match b {
                Literal::String(_) => true,
                _ => false,
            };
            let both_numbers = match (a, b) {
                (Literal::Number(_), Literal::Number(_)) => true,
                _ => false,
            };
            !a_string && !b_string && !both_numbers
        },
        _ => false,
    }
}

/// The debug form of a value; a function of the language is shown by its
/// name, as its full debug form holds its closure, whose order is not
/// fixed.
fn debug_form<H: Host>(host: &H, v: &Literal) -> (r: String)
    ensures
        debug_text(arith_of(host), *v) matches Some(t) ==> r@ == t,
{
    proof {
        reveal_strlit("Nil");
        reveal_strlit("True");
        reveal_strlit("False");
        reveal_strlit("Number(");
        reveal_strlit(")");
        reveal_strlit("NativeFunction(NativeFunction(");
        reveal_strlit("))");
    }
    match v {
        Literal::Nil => String::from_str("Nil"),
        Literal::True => String::from_str("True"),
        Literal::False => String::from_str("False"),
        Literal::Number(n) => {
            let text = host.number_debug(*n);
            concat3("Number(", text.as_str(), ")")
        },
        Literal::String(s) => concat3("String(", s.as_str(), ")"),
        Literal::NativeFunction(f) => concat3("NativeFunction(NativeFunction(", f.name.as_str(), "))"),
        Literal::LoxFunction(f) => concat3("LoxFunction(<fn ", f.name().as_str(), ">)"),
    }
}

/// The line that `+` prints before it fails on `left` and `right`.
fn mismatch_text<H: Host>(host: &H, left: &Result<Literal, RuntimeException>, right: &Result<Literal, RuntimeException>) -> (r: String)
    ensures
        mismatch_line(arith_of(host), *left, *right, r@),
{
    proof {
        reveal_strlit("l1: ");
        reveal_strlit(", l2: ");
    }
    match (left, right) {
        (Ok(a), Ok(b)) => {
            let x = debug_form(host, a);
            let y = debug_form(host, b);
            let mut s = String::from_str("l1: ");
            s.append(x.as_str());
            s.append(", l2: ");
            s.append(y.as_str());
            s
        },
        _ => String::new(),
    }
}

/// The printed form of a number from the host's text for it: the text
/// without a final `.0`.
pub fn number_text(text: String) -> (r: String)
    ensures
        r@ == trim_point_zero(text@),
{
    let chars = chars_of(&text);
    let len = chars.len();
    if len >= 2 && chars[len - 2] == '.' && chars[len - 1] == '0' {
        string_of(&chars, 0, len - 2)
    } else {
        text
    }
}

impl Interpreter {
    /// The interpreter's invariant.
    pub closed spec fn wf(&self) -> bool {
        &&& self.environment.wf()
        &&& self.loop_count + self.steps <= u64::MAX
    }

    /// Every resolved depth names a frame of the environment.
    pub closed spec fn locals_fit(&self) -> bool {
        forall|i: int| 0 <= i < self.locals@.len() ==> (#[trigger] self.locals@[i]).1 < self.environment@.len()
    }

    /// The state that running code reads and changes.
    pub closed spec fn machine_on<H: Host>(&self, host: &H) -> Machine {
        Machine {
            env: self.environment,
            locals: self.locals@,
            loop_count: self.loop_count as nat,
            steps: self.steps as nat,
            repl: self.repl,
            output: self.printed(),
            errors: self.error_lines(),
            had_error: self.had_error,
            had_runtime_error: self.had_runtime_error,
            arith: arith_of(host),
        }
    }

    /// The resolved expressions and their depths.
    pub closed spec fn resolved(&self) -> Seq<(Expr, u32)> {
        self.locals@
    }

    /// How many loops are running.
    pub closed spec fn loop_depth(&self) -> nat {
        self.loop_count as nat
    }

    /// How many steps are left in the budget.
    pub closed spec fn steps_left(&self) -> nat {
        self.steps as nat
    }

    /// Whether the value of each expression statement is printed.
    pub closed spec fn echoes(&self) -> bool {
        self.repl
    }

    /// The frames of the current environment.
    pub closed spec fn env_view(&self) -> Seq<crate::environment::Frame> {
        self.environment@
    }

    /// The lines printed so far.
    pub closed spec fn printed(&self) -> Seq<Seq<char>> {
        self.output@.map_values(|s: String| s@)
    }

    /// The error lines written so far.
    pub closed spec fn error_lines(&self) -> Seq<Seq<char>> {
        self.errors@.map_values(|s: String| s@)
    }

    /// Whether a lexical, syntax or resolution error was reported.
    pub closed spec fn reported_error(&self) -> bool {
        self.had_error
    }

    /// Whether a runtime error was reported.
    pub closed spec fn reported_runtime_error(&self) -> bool {
        self.had_runtime_error
    }

    fn is_truthy(&self, v: &Literal) -> (r: bool)
        ensures
            r == truthy(*v),
    {
        match v {
            Literal::Nil | Literal::False => false,
            _ => true,
        }
    }

    fn is_equal<H: Host>(&self, host: &H, a: &Literal, b: &Literal) -> (r: bool)
        ensures
            r == value_equal(arith_of(host), *a, *b),
    {
        match (a, b) {
            (Literal::Nil, Literal::Nil) => true,
            (Literal::Nil, _) => false,
            (Literal::True, Literal::True) => true,
            (Literal::False, Literal::False) => true,
            (Literal::Number(i), Literal::Number(j)) => host.equal(*i, *j),
            (Literal::String(s1), Literal::String(s2)) => *s1 == *s2,
            (Literal::NativeFunction(f1), Literal::NativeFunction(f2)) => f1.name == f2.name && f1.arity == f2.arity,
            _ => false,
        }
    }

    fn stringify<H: Host>(&self, host: &H, literal: Literal) -> (r: String)
        ensures
            r@ == display_text(arith_of(host), literal),
    {
        match literal {
            Literal::Number(n) => {
                let text = host.number_to_string(n);
                number_text(text)
            },
            _ => literal.to_string(host),
        }
    }
}

proof fn lemma_local_depth_entry(locals: Seq<(Expr, u32)>, e: ExprView)
    requires
        local_depth(locals, e) is Some,
    ensures
        exists|k: int| 0 <= k < locals.len() && (#[trigger] locals[k]).1 == local_depth(locals, e).unwrap(),
    decreases locals.len(),
{
    if !expr_key_eq(locals[0].0.view(), e) {
        lemma_local_depth_entry(locals.drop_first(), e);
        let k = choose|k: int| 0 <= k < locals.drop_first().len() && (#[trigger] locals.drop_first()[k]).1 == local_depth(locals, e).unwrap();
        assert(locals[k + 1] == locals.drop_first()[k]);
    } else {
        assert(locals[0].1 == local_depth(locals, e).unwrap());
    }
}

impl Interpreter {
    /// A step taken out of the budget; an error once the budget is spent.
    fn take_step(&mut self, token: &Token) -> (r: Result<(), RuntimeException>)
        requires
            old(self).wf(),
        ensures
            final(self).wf(),
            old(self).steps > 0 ==> r is Ok && final(self).steps == old(self).steps - 1,
            old(self).steps == 0 ==> final(self).steps == old(self).steps && (r matches Err(RuntimeException::Base(e))
                && e.token == *token && e.message@ == "Step limit exceeded."@),
            *final(self) == (Interpreter { steps: final(self).steps, ..*old(self) }),
    {
        if self.steps == 0 {
            return Err(RuntimeException::base(token.clone(), String::from_str("Step limit exceeded.")));
        }
        self.steps = self.steps - 1;
        Ok(())
    }

    fn local_distance(&self, expr: &Expr) -> (r: Option<u32>)
        ensures
            r == local_depth(self.locals@, expr.view()),
    {
        let n = self.locals.len();
        assert(self.locals@.skip(0) =~= self.locals@);
        for i in 0..n
            invariant
                n == self.locals@.len(),
                local_depth(self.locals@, expr.view()) == local_depth(self.locals@.skip(i as int), expr.view()),
        {
            assert(self.locals@.skip(i as int).drop_first() =~= self.locals@.skip(i + 1));
            if self.locals[i].0.key_equals(expr) {
                return Some(self.locals[i].1);
            }
        }
        None
    }

    fn look_up_variable<H: Host>(&self, host: &H, name: &Token, expr: &Expr) -> (r: Result<Literal, RuntimeException>)
        requires
            self.wf(),
            self.locals_fit(),
        ensures
            r is Err ==> r matches Err(RuntimeException::Base(_)),
            read_outcome(self.machine_on(host), *name, *expr, r),
    {
        match self.local_distance(expr) {
            Some(distance) => {
                proof {
                    lemma_local_depth_entry(self.locals@, expr.view());
                }
                self.environment.get_at(distance, name.lexeme.clone())
            },
            None => self.environment.get(name.clone()),
        }
    }
}

impl Interpreter {
    /// An interpreter whose variables live in a fresh scope inside `environment`.
    pub fn new(environment: &Environment) -> (r: Self)
        requires
            environment.wf(),
        ensures
            r.wf(),
            r.env_view() == seq![Map::<Seq<char>, Literal>::empty()] + environment@,
            r.resolved().len() == 0,
            r.loop_depth() == 0,
            r.steps_left() == STEP_LIMIT,
            !r.echoes(),
            !r.reported_error(),
            !r.reported_runtime_error(),
            r.printed().len() == 0,
            r.error_lines().len() == 0,
    {
        let r = Self {
            had_error: false,
            had_runtime_error: false,
            environment: Environment::with_enclosing(environment.clone()),
            repl: false,
            loop_count: 0,
            locals: Vec::new(),
            steps: STEP_LIMIT,
            output: Vec::new(),
            errors: Vec::new(),
        };
        r
    }
}

impl Interpreter {
    /// Evaluates `expr`.
    #[verifier::spinoff_prover]
    #[verifier::rlimit(60)]
    fn evaluate<H: Host>(&mut self, host: &H, expr: &Expr) -> (r: Result<Literal, RuntimeException>)
        requires
            old(self).wf(),
            old(self).locals_fit(),
            expr_ok(*expr),
        ensures
            final(self).wf(),
            final(self).locals_fit(),
            final(self).locals == old(self).locals,
            final(self).steps <= old(self).steps,
            final(self).loop_count == old(self).loop_count,
            final(self).repl == old(self).repl,
            final(self).environment@.len() == old(self).environment@.len(),
            !(r matches Err(RuntimeException::Break)),
            evaluates(old(self).machine_on(host), *expr, final(self).machine_on(host), r),
        decreases old(self).steps, 1int, *expr,
    {
        let ghost m0 = self.machine_on(host);
        match expr {
            Expr::Empty => {
                let r = Ok(Literal::Nil);
                assert(eval_d(Deriv::Leaf, m0, *expr, self.machine_on(host), r));
                r
            },
            Expr::Literal(literal) => {
                let r = Ok(literal.clone());
                assert(eval_d(Deriv::Leaf, m0, *expr, self.machine_on(host), r));
                r
            },
            Expr::Grouping(inner) => {
                let r = self.evaluate(host, inner);
                proof {
                    let d1 = choose|d: Deriv| eval_d(d, m0, **inner, self.machine_on(host), r);
                    assert(eval_d(node(d1, Deriv::Leaf, Deriv::Leaf, blank_mid()), m0, *expr, self.machine_on(host), r));
                }
                r
            },
            Expr::Unary(operator, operand) => {
                let rv = self.evaluate(host, operand);
                let ghost grv = rv;
                let r = match operator.token_type {
                    TokenType::Minus => match rv {
                        Ok(Literal::Number(n)) => Ok(Literal::Number(host.negate(n))),
                        _ => Err(RuntimeException::base(operator.clone(), String::from_str("Operand must be a number."))),
                    },
                    _ => match rv {
                        Ok(v) => {
                            let b = !self.is_truthy(&v);
                            if b {
                                Ok(Literal::True)
                            } else {
                                Ok(Literal::False)
                            }
                        },
                        Err(err) => Err(err),
                    },
                };
                proof {
                    let d1 = choose|d: Deriv| eval_d(d, m0, **operand, self.machine_on(host), grv);
                    assert(unary_outcome(arith_of(host), *operator, grv, r));
                    assert(eval_d(node(d1, Deriv::Leaf, Deriv::Leaf, Mid { ra: grv, ..blank_mid() }), m0, *expr, self.machine_on(host), r));
                }
                r
            },
            Expr::Assign(name, value) => {
                let rv = self.evaluate(host, value);
                let ghost m1 = self.machine_on(host);
                let ghost d1 = choose|d: Deriv| eval_d(d, m0, **value, m1, rv);
                let ghost d = node(d1, Deriv::Leaf, Deriv::Leaf, Mid { ma: m1, ra: rv, ..blank_mid() });
                let v = match rv {
                    Err(x) => {
                        proof {
                            assert(eval_d(d, m0, *expr, m1, Err(x)));
                        }
                        return Err(x);
                    },
                    Ok(v) => v,
                };
                match self.local_distance(expr) {
                    Some(distance) => {
                        proof {
                            lemma_local_depth_entry(self.locals@, expr.view());
                        }
                        let _ = self.environment.assign_at(distance, name.clone(), v.clone());
                    },
                    None => {
                        if let Err(e) = self.environment.assign(name.clone(), v.clone()) {
                            proof {
                                assert(self.machine_on(host) == m1);
                                assert(eval_d(d, m0, *expr, m1, Err(e)));
                            }
                            return Err(e);
                        }
                    },
                }
                let r = Ok(v);
                proof {
                    assert(crate::semantics::assign_outcome(m1, *name, *expr, v, self.machine_on(host), r));
                    assert(eval_d(d, m0, *expr, self.machine_on(host), r));
                }
                r
            },
            Expr::Variable(name) => {
                let r = self.look_up_variable(host, name, expr);
                assert(eval_d(Deriv::Leaf, m0, *expr, self.machine_on(host), r));
                r
            },
            Expr::Logical(left, operator, right) => {
                let rl = self.evaluate(host, left);
                let ghost m1 = self.machine_on(host);
                let ghost d1 = choose|d: Deriv| eval_d(d, m0, **left, m1, rl);
                let ghost d = node(d1, Deriv::Leaf, Deriv::Leaf, Mid { ma: m1, ra: rl, ..blank_mid() });
                let l = match rl {
                    Err(x) => {
                        proof {
                            assert(eval_d(d, m0, *expr, m1, Err(x)));
                        }
                        return Err(x);
                    },
                    Ok(l) => l,
                };
                if operator.token_type == TokenType::Or && self.is_truthy(&l) {
                    proof {
                        assert(eval_d(d, m0, *expr, m1, Ok(l)));
                    }
                    return Ok(l);
                }
                if !self.is_truthy(&l) {
                    proof {
                        assert(eval_d(d, m0, *expr, m1, Ok(l)));
                    }
                    return Ok(l);
                }
                let r = self.evaluate(host, right);
                proof {
                    let d2 = choose|d: Deriv| eval_d(d, m1, **right, self.machine_on(host), r);
                    assert(eval_d(node(d1, d2, Deriv::Leaf, Mid { ma: m1, ra: Ok(l), ..blank_mid() }), m0, *expr, self.machine_on(host), r));
                }
                r
            },
            Expr::Lambda(params, body) => {
                proof {
                    let v = crate::stmt::stmts_view((**body)@);
                    assert(expr.view() == ExprView::Lambda(crate::token::tokens_view(params@), v));
                    lemma_lambda_ok(crate::token::tokens_view(params@), v);
                    reveal_strlit("");
                }
                let anonymous = Token::from_str("");
                let stmt = Stmt::Function(anonymous, clone_tokens(params), Box::new(clone_stmts(&**body)));
                proof {
                    reveal_strlit("");
                    assert(""@ =~= Seq::<char>::empty());
                    assert(stmt.view() == StmtView::Function(anonymous@, crate::token::tokens_view(params@), crate::stmt::stmts_view((**body)@)));
                    assert(anonymous@ == blank_token());
                }
                let function = LoxFunction::new(String::new(), stmt, self.environment.clone());
                let r = Ok(Literal::LoxFunction(function));
                proof {
                    assert(eval_d(Deriv::Leaf, m0, *expr, self.machine_on(host), r));
                }
                r
            },
            Expr::Call(callee, paren, arguments) => self.evaluate_call(host, expr, callee, paren, arguments),
            Expr::Binary(left, operator, right) => {
                let rl = self.evaluate(host, left);
                let ghost m1 = self.machine_on(host);
                let ghost grl = rl;
                let rr = self.evaluate(host, right);
                let ghost grr = rr;
                let ghost m2 = self.machine_on(host);
                if is_plus_mismatch(operator, &rl, &rr) {
                    let line = mismatch_text(host, &rl, &rr);
                    self.output.push(line);
                    proof {
                        assert(self.printed() =~= m2.output.push(line@));
                        assert(self.printed().drop_last() =~= m2.output);
                    }
                }
                let r = self.binary(host, operator, rl, rr);
                proof {
                    let d1 = choose|d: Deriv| eval_d(d, m0, **left, m1, grl);
                    let d2 = choose|d: Deriv| eval_d(d, m1, **right, m2, grr);
                    assert(eval_d(node(d1, d2, Deriv::Leaf, Mid { ma: m1, mb: m2, ra: grl, rb: grr, ..blank_mid() }), m0, *expr, self.machine_on(host), r));
                }
                r
            },
        }
    }

    /// Evaluates the call `expr` of `callee` with `arguments`.
    #[verifier::loop_isolation(false)]
    fn evaluate_call<H: Host>(
        &mut self,
        host: &H,
        expr: &Expr,
        callee: &Box<Expr>,
        paren: &Token,
        arguments: &Box<Vec<Expr>>,
    ) -> (r: Result<Literal, RuntimeException>)
        requires
            old(self).wf(),
            old(self).locals_fit(),
            expr_ok(*expr),
            *expr == Expr::Call(*callee, *paren, *arguments),
        ensures
            final(self).wf(),
            final(self).locals_fit(),
            final(self).locals == old(self).locals,
            final(self).steps <= old(self).steps,
            final(self).loop_count == old(self).loop_count,
            final(self).repl == old(self).repl,
            final(self).environment@.len() == old(self).environment@.len(),
            !(r matches Err(RuntimeException::Break)),
            evaluates(old(self).machine_on(host), *expr, final(self).machine_on(host), r),
        decreases old(self).steps, 1int, *expr, 0int,
    {
        let ghost m0 = self.machine_on(host);
        let ghost all = (**arguments)@;
        proof {
            let v = crate::expr::exprs_view(all);
            assert(expr.view() == ExprView::Call(Box::new(callee.view()), paren@, v));
            lemma_call_ok(Box::new(callee.view()), paren@, v);
        }
        assert(decreases_to!(*expr => **callee));
        let rc = self.evaluate(host, callee);
        let ghost m1 = self.machine_on(host);
        let ghost dc = choose|d: Deriv| eval_d(d, m0, **callee, m1, rc);
        let callee2 = match rc {
            Err(x) => {
                proof {
                    assert(eval_d(node(dc, Deriv::Leaf, Deriv::Leaf, Mid { ma: m1, ra: rc, ..blank_mid() }), m0, *expr, m1, Err(x)));
                }
                return Err(x);
            },
            Ok(c) => c,
        };
        let mut args: Vec<Literal> = Vec::new();
        let n = arguments.len();
        let ghost mut da: Deriv = Deriv::Leaf;
        proof {
            assert(all.take(0) =~= Seq::<Expr>::empty());
            assert(args_d(da, m1, all.take(0), m1, Ok(Seq::<Literal>::empty())));
        }
        for i in 0..n
            invariant
                n == all.len(),
                all == (**arguments)@,
                forall|j: int| 0 <= j < all.len() ==> expr_view_ok(#[trigger] crate::expr::exprs_view(all)[j]),
                self.wf(),
                self.locals_fit(),
                self.locals == old(self).locals,
                self.steps <= old(self).steps,
                self.loop_count == old(self).loop_count,
                self.repl == old(self).repl,
                self.environment@.len() == old(self).environment@.len(),
                m1.locals == self.locals@,
                args_d(da, m1, all.take(i as int), self.machine_on(host), Ok(args@)),
                eval_d(dc, m0, **callee, m1, Ok::<Literal, RuntimeException>(callee2)),
        {
            assert(decreases_to!(*expr => arguments@[i as int]));
            assert(crate::expr::exprs_view(all)[i as int] == arguments@[i as int].view());
            let ghost mi = self.machine_on(host);
            let ghost before = args@;
            let rv = self.evaluate(host, &arguments[i]);
            proof {
                let di = choose|d: Deriv| eval_d(d, mi, all[i as int], self.machine_on(host), rv);
                assert(all.take(i + 1).drop_last() =~= all.take(i as int));
                assert(all.take(i + 1).last() == all[i as int]);
                let da2 = node(da, di, Deriv::Leaf, Mid { ma: mi, vals: Ok(before), ra: rv, ..blank_mid() });
                assert(args_d(da2, m1, all.take(i + 1), self.machine_on(host), match rv {
                    Ok(v) => Ok::<Seq<Literal>, RuntimeException>(before.push(v)),
                    Err(x) => Err::<Seq<Literal>, RuntimeException>(x),
                }));
                da = da2;
            }
            match rv {
                Err(x) => {
                    proof {
                        let da2 = lemma_args_error_extends(da, m1, all, i + 1, self.machine_on(host), x);
                        let mid = Mid { ma: m1, ra: Ok(callee2), mb: self.machine_on(host), vals: Err(x), ..blank_mid() };
                        assert(eval_d(node(dc, da2, Deriv::Leaf, mid), m0, *expr, self.machine_on(host), Err(x)));
                    }
                    return Err(x);
                },
                Ok(v) => {
                    args.push(v);
                },
            }
        }
        proof {
            assert(all.take(n as int) =~= all);
        }
        let ghost m3 = self.machine_on(host);
        let ghost vals = args@;
        let ghost mid0 = Mid { ma: m1, ra: Ok(callee2), mb: m3, vals: Ok(vals), ..blank_mid() };
        let ghost d0 = node(dc, da, Deriv::Leaf, mid0);
        match callee2 {
            Literal::LoxFunction(lf) => {
                let ghost lf0 = lf;
                let mut lf = lf;
                let arity = lf.arity();
                if args.len() != arity as usize {
                    let message = arity_error(arity as usize, args.len());
                    let r = Err(RuntimeException::base(paren.clone(), message));
                    proof {
                        assert(call_outcome(Deriv::Leaf, mid0, m3, Literal::LoxFunction(lf0), **callee, *paren, vals, m3, r));
                        assert(eval_d(d0, m0, *expr, m3, r));
                    }
                    return r;
                }
                if let Err(e) = self.take_step(paren) {
                    proof {
                        assert(self.machine_on(host) == m3);
                        assert(call_outcome(Deriv::Leaf, mid0, m3, Literal::LoxFunction(lf0), **callee, *paren, vals, m3, Err(e)));
                        assert(eval_d(d0, m0, *expr, m3, Err(e)));
                    }
                    return Err(e);
                }
                let ghost m4 = self.machine_on(host);
                proof {
                    assert(m4 == Machine { steps: (m3.steps - 1) as nat, ..m3 });
                }
                let result = self.call_function(host, &mut lf, &args);
                let ghost m5 = self.machine_on(host);
                let ghost dk = choose|d: Deriv| call_d(d, m4, lf0, vals, m5, result, lf);
                let ghost mid1 = Mid { mc: m5, rc: result, lf: lf, ..mid0 };
                let ghost d3 = node(dc, da, dk, mid1);
                if let Expr::Variable(token) = &**callee {
                    if let Err(e) = self.environment.assign(token.clone(), Literal::LoxFunction(lf)) {
                        proof {
                            assert(self.machine_on(host) == m5);
                            assert(call_outcome(dk, mid1, m3, Literal::LoxFunction(lf0), **callee, *paren, vals, m5, Err(e)));
                            assert(eval_d(d3, m0, *expr, m5, Err(e)));
                        }
                        return Err(e);
                    }
                }
                proof {
                    assert(call_outcome(dk, mid1, m3, Literal::LoxFunction(lf0), **callee, *paren, vals, self.machine_on(host), result));
                    assert(eval_d(d3, m0, *expr, self.machine_on(host), result));
                }
                result
            },
            Literal::NativeFunction(nf) => {
                let ghost nf0 = nf;
                let arity = nf.arity();
                if args.len() != arity as usize {
                    let message = arity_error(arity as usize, args.len());
                    let r = Err(RuntimeException::base(paren.clone(), message));
                    proof {
                        assert(call_outcome(Deriv::Leaf, mid0, m3, Literal::NativeFunction(nf0), **callee, *paren, vals, m3, r));
                        assert(eval_d(d0, m0, *expr, m3, r));
                    }
                    return r;
                }
                let r = crate::native_function::call_native_function(host, &nf, &args);
                proof {
                    assert(call_outcome(Deriv::Leaf, mid0, m3, Literal::NativeFunction(nf0), **callee, *paren, vals, m3, r));
                    assert(eval_d(d0, m0, *expr, m3, r));
                }
                r
            },
            _ => {
                let r = Err(RuntimeException::base(paren.clone(), String::from_str("Can only call functions and classes.")));
                proof {
                    assert(call_outcome(Deriv::Leaf, mid0, m3, callee2, **callee, *paren, vals, m3, r));
                    assert(eval_d(d0, m0, *expr, m3, r));
                }
                r
            },
        }
    }

    /// Applies a binary operator to the values (or errors) of its operands.
    fn binary<H: Host>(
        &self,
        host: &H,
        operator: &Token,
        left: Result<Literal, RuntimeException>,
        right: Result<Literal, RuntimeException>,
    ) -> (r: Result<Literal, RuntimeException>)
        requires
            binary_operator(operator.token_type),
        ensures
            !(left matches Err(RuntimeException::Break)) && !(right matches Err(RuntimeException::Break))
                ==> !(r matches Err(RuntimeException::Break)),
            binary_outcome(arith_of(host), *operator, left, right, r),
    {
        let numbers_message = "Operands must be numbers.";
        match operator.token_type {
            TokenType::Minus => match (left, right) {
                (Ok(Literal::Number(a)), Ok(Literal::Number(b))) => Ok(Literal::Number(host.difference(a, b))),
                _ => Err(RuntimeException::base(operator.clone(), String::from_str(numbers_message))),
            },
            TokenType::Slash => match (left, right) {
                (Ok(Literal::Number(a)), Ok(Literal::Number(b))) => {
                    if host.is_zero(b) {
                        Err(RuntimeException::base(operator.clone(), String::from_str("Cannot divide by zero")))
                    } else {
                        Ok(Literal::Number(host.quotient(a, b)))
                    }
                },
                _ => Err(RuntimeException::base(operator.clone(), String::from_str(numbers_message))),
            },
            TokenType::Star => match (left, right) {
                (Ok(Literal::Number(a)), Ok(Literal::Number(b))) => Ok(Literal::Number(host.product(a, b))),
                _ => Err(RuntimeException::base(operator.clone(), String::from_str(numbers_message))),
            },
            TokenType::Plus => match (left, right) {
                (Ok(Literal::Number(a)), Ok(Literal::Number(b))) => Ok(Literal::Number(host.sum(a, b))),
                (Ok(Literal::String(s)), Ok(Literal::String(s2))) => {
                    let mut s = s;
                    s.append(s2.as_str());
                    Ok(Literal::String(s))
                },
                (Ok(Literal::String(s)), Ok(literal)) => {
                    let mut s = s;
                    s.append(literal.to_string(host).as_str());
                    Ok(Literal::String(s))
                },
                (Ok(literal), Ok(Literal::String(s2))) => {
                    let mut s = literal.to_string(host);
                    s.append(s2.as_str());
                    Ok(Literal::String(s))
                },
                (Ok(_), Ok(_)) => Err(
                    RuntimeException::base(operator.clone(), String::from_str("Operands must be two numbers or two strings.")),
                ),
                (Err(err), _) => Err(err),
                (_, Err(err)) => Err(err),
            },
            TokenType::Percent => match (left, right) {
                (Ok(Literal::Number(a)), Ok(Literal::Number(b))) => Ok(Literal::Number(host.remainder(a, b))),
                _ => Err(RuntimeException::base(operator.clone(), String::from_str("Operands must be numbers"))),
            },
            TokenType::Greater => match (left, right) {
                (Ok(Literal::Number(a)), Ok(Literal::Number(b))) => Ok(Literal::from(host.greater(a, b))),
                _ => Err(RuntimeException::base(operator.clone(), String::from_str(numbers_message))),
            },
            TokenType::GreaterEqual => match (left, right) {
                (Ok(Literal::Number(a)), Ok(Literal::Number(b))) => Ok(Literal::from(host.greater_equal(a, b))),
                _ => Err(RuntimeException::base(operator.clone(), String::from_str(numbers_message))),
            },
            TokenType::Less => match (left, right) {
                (Ok(Literal::Number(a)), Ok(Literal::Number(b))) => Ok(Literal::from(host.less(a, b))),
                _ => Err(RuntimeException::base(operator.clone(), String::from_str(numbers_message))),
            },
            TokenType::LessEqual => match (left, right) {
                (Ok(Literal::Number(a)), Ok(Literal::Number(b))) => Ok(Literal::from(host.less_equal(a, b))),
                _ => Err(RuntimeException::base(operator.clone(), String::from_str(numbers_message))),
            },
            TokenType::BangEqual => match (left, right) {
                (Ok(l1), Ok(l2)) => Ok(Literal::from(!self.is_equal(host, &l1, &l2))),
                (Err(err), _) => Err(err),
                (_, Err(err)) => Err(err),
            },
            _ => match (left, right) {
                (Ok(l1), Ok(l2)) => Ok(Literal::from(self.is_equal(host, &l1, &l2))),
                (Err(err), _) => Err(err),
                (_, Err(err)) => Err(err),
            },
        }
    }

    /// Runs `stmt`.
    fn execute<H: Host>(&mut self, host: &H, stmt: &Stmt) -> (r: Result<(), RuntimeException>)
        requires
            old(self).wf(),
            old(self).locals_fit(),
            stmt_ok(*stmt),
        ensures
            final(self).wf(),
            final(self).locals_fit(),
            final(self).locals == old(self).locals,
            final(self).steps <= old(self).steps,
            final(self).repl == old(self).repl,
            final(self).loop_count >= old(self).loop_count,
            (r is Ok || r matches Err(RuntimeException::Break)) ==> final(self).loop_count == old(self).loop_count,
            final(self).environment@.len() >= old(self).environment@.len(),
            r matches Err(RuntimeException::Break) ==> old(self).loop_count > 0,
            executes(old(self).machine_on(host), *stmt, final(self).machine_on(host), r),
        decreases old(self).steps, 1int, *stmt, 1int,
    {
        let ghost m0 = self.machine_on(host);
        proof {
            self.environment.lemma_enclosing();
        }
        match stmt {
            Stmt::Expression(expr) => {
                let rv = self.evaluate(host, expr);
                let ghost m1 = self.machine_on(host);
                let ghost d1 = choose|d: Deriv| eval_d(d, m0, *expr, m1, rv);
                let ghost d = node(d1, Deriv::Leaf, Deriv::Leaf, Mid { ma: m1, ra: rv, ..blank_mid() });
                let value = match rv {
                    Err(x) => {
                        proof {
                            assert(exec_d(d, m0, *stmt, m1, Err(x)));
                        }
                        return Err(x);
                    },
                    Ok(value) => value,
                };
                let is_assign = match expr {
                    Expr::Assign(_, _) => true,
                    _ => false,
                };
                if !is_assign && self.repl {
                    let ghost gv = value;
                    let text = self.stringify(host, value);
                    self.output.push(text);
                    proof {
                        assert(self.printed() =~= m1.output.push(text@));
                        assert(self.printed().drop_last() =~= m1.output);
                        assert(printed(m1, self.machine_on(host), gv));
                    }
                }
                proof {
                    assert(exec_d(d, m0, *stmt, self.machine_on(host), Ok(())));
                }
                Ok(())
            },
            Stmt::Print(expr) => {
                let rv = self.evaluate(host, expr);
                let ghost m1 = self.machine_on(host);
                let ghost d1 = choose|d: Deriv| eval_d(d, m0, *expr, m1, rv);
                let ghost d = node(d1, Deriv::Leaf, Deriv::Leaf, Mid { ma: m1, ra: rv, ..blank_mid() });
                let value = match rv {
                    Err(x) => {
                        proof {
                            assert(exec_d(d, m0, *stmt, m1, Err(x)));
                        }
                        return Err(x);
                    },
                    Ok(value) => value,
                };
                let ghost gv = value;
                let text = self.stringify(host, value);
                self.output.push(text);
                proof {
                    assert(self.printed() =~= m1.output.push(text@));
                    assert(self.printed().drop_last() =~= m1.output);
                    assert(printed(m1, self.machine_on(host), gv));
                    assert(exec_d(d, m0, *stmt, self.machine_on(host), Ok(())));
                }
                Ok(())
            },
            Stmt::Var(token, initializer) => {
                match initializer {
                    None => {
                        let r = Err(RuntimeException::base(token.clone(), String::from_str("Must assign value to new variable.")));
                        proof {
                            assert(exec_d(Deriv::Leaf, m0, *stmt, self.machine_on(host), r));
                        }
                        r
                    },
                    Some(expr) => {
                        let rv = self.evaluate(host, expr);
                        let ghost m1 = self.machine_on(host);
                        let ghost d1 = choose|d: Deriv| eval_d(d, m0, *expr, m1, rv);
                        let ghost d = node(d1, Deriv::Leaf, Deriv::Leaf, Mid { ma: m1, ra: rv, ..blank_mid() });
                        let v = match rv {
                            Err(x) => {
                                proof {
                                    assert(exec_d(d, m0, *stmt, m1, Err(x)));
                                }
                                return Err(x);
                            },
                            Ok(v) => v,
                        };
                        let ghost gv = v;
                        self.environment.define(token.lexeme.clone(), v);
                        proof {
                            assert(with_frames(m1, self.machine_on(host), crate::environment::defined(m1.env@, token.lexeme@, gv)));
                            assert(exec_d(d, m0, *stmt, self.machine_on(host), Ok(())));
                        }
                        Ok(())
                    },
                }
            },
            Stmt::While(condition, body) => self.execute_while(host, stmt, condition, body),
            Stmt::Block(stmts) => {
                proof {
                    assert(stmt.view() == StmtView::Block(crate::stmt::stmts_view(stmts@)));
                    lemma_block_ok(crate::stmt::stmts_view(stmts@));
                    assert forall|i: int| 0 <= i < stmts@.len() implies stmt_ok(#[trigger] stmts@[i]) by {
                        assert(crate::stmt::stmts_view(stmts@)[i] == stmts@[i].view());
                    }
                }
                let r = self.execute_block(host, stmts);
                proof {
                    let d1 = choose|d: Deriv| block_d(d, m0, stmts@, self.machine_on(host), r);
                    assert(exec_d(node(d1, Deriv::Leaf, Deriv::Leaf, blank_mid()), m0, *stmt, self.machine_on(host), r));
                }
                r
            },
            Stmt::If(condition, then_branch, else_branch) => {
                let rv = self.evaluate(host, condition);
                let ghost m1 = self.machine_on(host);
                let ghost d1 = choose|d: Deriv| eval_d(d, m0, *condition, m1, rv);
                let ghost d = node(d1, Deriv::Leaf, Deriv::Leaf, Mid { ma: m1, ra: rv, ..blank_mid() });
                let v = match rv {
                    Err(x) => {
                        proof {
                            assert(exec_d(d, m0, *stmt, m1, Err(x)));
                        }
                        return Err(x);
                    },
                    Ok(v) => v,
                };
                if self.is_truthy(&v) {
                    let r = self.execute(host, then_branch);
                    proof {
                        let d2 = choose|d: Deriv| exec_d(d, m1, **then_branch, self.machine_on(host), r);
                        assert(exec_d(node(d1, d2, Deriv::Leaf, Mid { ma: m1, ra: rv, ..blank_mid() }), m0, *stmt, self.machine_on(host), r));
                    }
                    r
                } else if let Some(else_branch) = &**else_branch {
                    let r = self.execute(host, else_branch);
                    proof {
                        let d2 = choose|d: Deriv| exec_d(d, m1, *else_branch, self.machine_on(host), r);
                        assert(exec_d(node(d1, d2, Deriv::Leaf, Mid { ma: m1, ra: rv, ..blank_mid() }), m0, *stmt, self.machine_on(host), r));
                    }
                    r
                } else {
                    proof {
                        assert(exec_d(d, m0, *stmt, self.machine_on(host), Ok(())));
                    }
                    Ok(())
                }
            },
            Stmt::Break(token) => {
                let r = if self.loop_count > 0 {
                    Err(RuntimeException::Break)
                } else {
                    Err(RuntimeException::base(token.clone(), String::from_str("Expected to be within a loop.")))
                };
                proof {
                    assert(exec_d(Deriv::Leaf, m0, *stmt, self.machine_on(host), r));
                }
                r
            },
            Stmt::Function(name, params, body) => {
                let declaration = Stmt::Function(name.clone(), clone_tokens(params), Box::new(clone_stmts(&**body)));
                proof {
                    assert(declaration.view() == stmt.view());
                }
                let function = LoxFunction::new(name.lexeme.clone(), declaration, self.environment.clone());
                let ghost gf = function;
                self.environment.define(name.lexeme.clone(), Literal::LoxFunction(function));
                proof {
                    assert(made_function(gf, name.lexeme@, stmt.view(), m0.env));
                    assert(with_frames(m0, self.machine_on(host), crate::environment::defined(m0.env@, name.lexeme@, Literal::LoxFunction(gf))));
                    assert(exec_d(Deriv::Leaf, m0, *stmt, self.machine_on(host), Ok(())));
                }
                Ok(())
            },
            Stmt::Return(_keyword, value) => {
                match &**value {
                    None => {
                        let r = Err(RuntimeException::Return(Return::new(None)));
                        proof {
                            assert(exec_d(Deriv::Leaf, m0, *stmt, self.machine_on(host), r));
                        }
                        r
                    },
                    Some(expr) => {
                        let rv = self.evaluate(host, expr);
                        let ghost m1 = self.machine_on(host);
                        let ghost d1 = choose|d: Deriv| eval_d(d, m0, *expr, m1, rv);
                        let ghost grv = rv;
                        let r = match rv {
                            Err(x) => Err(x),
                            Ok(v) => Err(RuntimeException::Return(Return::new(Some(v)))),
                        };
                        proof {
                            assert(exec_d(node(d1, Deriv::Leaf, Deriv::Leaf, Mid { ma: m1, ra: grv, ..blank_mid() }), m0, *stmt, m1, r));
                        }
                        r
                    },
                }
            },
        }
    }
}

impl Interpreter {
    /// Runs the loop `stmt` on `condition` with body `body`.
    fn execute_while<H: Host>(&mut self, host: &H, stmt: &Stmt, condition: &Expr, body: &Box<Stmt>) -> (r: Result<(), RuntimeException>)
        requires
            old(self).wf(),
            old(self).locals_fit(),
            stmt_ok(*stmt),
            *stmt == Stmt::While(*condition, *body),
        ensures
            final(self).wf(),
            final(self).locals_fit(),
            final(self).locals == old(self).locals,
            final(self).steps <= old(self).steps,
            final(self).repl == old(self).repl,
            final(self).loop_count >= old(self).loop_count,
            (r is Ok || r matches Err(RuntimeException::Break)) ==> final(self).loop_count == old(self).loop_count,
            final(self).environment@.len() >= old(self).environment@.len(),
            !(r matches Err(RuntimeException::Break)),
            executes(old(self).machine_on(host), *stmt, final(self).machine_on(host), r),
        decreases old(self).steps, 1int, *stmt, 0int,
    {
        let ghost m0 = self.machine_on(host);
        let ghost c = *condition;
        let ghost b = **body;
        proof {
            assert(stmt.view() == StmtView::While(c.view(), Box::new(b.view())));
        }
        let rv = self.evaluate(host, condition);
        let ghost m1 = self.machine_on(host);
        let ghost d1 = choose|d: Deriv| eval_d(d, m0, c, m1, rv);
        let mut value = match rv {
            Err(x) => {
                proof {
                    assert(exec_d(node(d1, Deriv::Leaf, Deriv::Leaf, Mid { ma: m1, ra: rv, ..blank_mid() }), m0, *stmt, m1, Err(x)));
                }
                return Err(x);
            },
            Ok(v) => v,
        };
        let ghost v0 = value;
        let guard = Token::default();
        proof {
            assert(guard@ == blank_token());
        }
        if let Err(e) = self.take_step(&guard) {
            proof {
                assert(self.machine_on(host) == m1);
                assert(exec_d(node(d1, Deriv::Leaf, Deriv::Leaf, Mid { ma: m1, ra: Ok(v0), ..blank_mid() }), m0, *stmt, m1, Err(e)));
            }
            return Err(e);
        }
        self.loop_count = self.loop_count + 1;
        let ghost me = self.machine_on(host);
        proof {
            assert(me == Machine { steps: (m1.steps - 1) as nat, loop_count: m1.loop_count + 1, ..m1 });
            assert(reaches_d(Deriv::Leaf, me, c, b, v0, me, v0));
        }
        let ghost mut dr: Deriv = Deriv::Leaf;
        let mut broke = false;
        let ghost mut mq: Machine = me;
        let ghost mut vq: Literal = v0;
        let ghost mut de: Deriv = Deriv::Leaf;
        while !broke && self.is_truthy(&value)
            invariant
                stmt_ok(*stmt),
                *stmt == Stmt::While(*condition, *body),
                c == *condition,
                b == **body,
                self.wf(),
                self.locals_fit(),
                self.locals == old(self).locals,
                self.steps < old(self).steps,
                self.repl == old(self).repl,
                self.loop_count == old(self).loop_count + 1,
                self.environment@.len() >= old(self).environment@.len(),
                m0 == old(self).machine_on(host),
                eval_d(d1, m0, c, m1, Ok::<Literal, RuntimeException>(v0)),
                m1.steps > 0,
                me == (Machine { steps: (m1.steps - 1) as nat, loop_count: m1.loop_count + 1, ..m1 }),
                guard@ == blank_token(),
                !broke ==> reaches_d(dr, me, c, b, v0, self.machine_on(host), value),
                broke ==> reaches_d(dr, me, c, b, v0, mq, vq) && exit_d(de, mq, c, b, vq, self.machine_on(host), Ok(())),
            decreases self.steps,
        {
            let ghost mp = self.machine_on(host);
            let ghost vp = value;
            if let Err(e) = self.take_step(&guard) {
                proof {
                    assert(self.machine_on(host) == mp);
                    assert(exit_d(Deriv::Leaf, mp, c, b, vp, mp, Err(e)));
                    lemma_while_result(m0, c, b, d1, m1, v0, me, dr, mp, vp, Deriv::Leaf, mp, Err(e), *stmt);
                }
                return Err(e);
            }
            let ghost ms = self.machine_on(host);
            proof {
                assert(ms == Machine { steps: (mp.steps - 1) as nat, ..mp });
            }
            let rb = self.execute(host, body);
            let ghost mb = self.machine_on(host);
            let ghost db = choose|d: Deriv| exec_d(d, ms, b, mb, rb);
            match rb {
                Err(RuntimeException::Break) => {
                    proof {
                        let de2 = node(db, Deriv::Leaf, Deriv::Leaf, Mid { ma: mb, ua: rb, ..blank_mid() });
                        assert(exit_d(de2, mp, c, b, vp, mb, Ok(())));
                        mq = mp;
                        vq = vp;
                        de = de2;
                    }
                    broke = true;
                },
                Err(x) => {
                    proof {
                        let de2 = node(db, Deriv::Leaf, Deriv::Leaf, Mid { ma: mb, ua: rb, ..blank_mid() });
                        assert(exit_d(de2, mp, c, b, vp, mb, Err(x)));
                        lemma_while_result(m0, c, b, d1, m1, v0, me, dr, mp, vp, de2, mb, Err(x), *stmt);
                    }
                    return Err(x);
                },
                Ok(()) => {
                    let rc = self.evaluate(host, condition);
                    let ghost mc = self.machine_on(host);
                    let ghost dc = choose|d: Deriv| eval_d(d, mb, c, mc, rc);
                    proof {
                        lemma_unit_ok(rb);
                    }
                    match rc {
                        Err(x) => {
                            proof {
                                let de2 = node(db, dc, Deriv::Leaf, Mid { ma: mb, ua: Ok(()), ra: rc, ..blank_mid() });
                                assert(exit_d(de2, mp, c, b, vp, mc, Err(x)));
                                lemma_while_result(m0, c, b, d1, m1, v0, me, dr, mp, vp, de2, mc, Err(x), *stmt);
                            }
                            return Err(x);
                        },
                        Ok(v2) => {
                            proof {
                                let dr2 = node(dr, db, dc, Mid { ma: mp, v: vp, mb: mb, ..blank_mid() });
                                assert(reaches_d(dr2, me, c, b, v0, mc, v2));
                                dr = dr2;
                            }
                            value = v2;
                        },
                    }
                },
            }
        }
        let ghost mx = self.machine_on(host);
        self.loop_count = self.loop_count - 1;
        proof {
            if broke {
                lemma_while_result(m0, c, b, d1, m1, v0, me, dr, mq, vq, de, mx, Ok(()), *stmt);
            } else {
                assert(exit_d(Deriv::Leaf, mx, c, b, value, mx, Ok(())));
                lemma_while_result(m0, c, b, d1, m1, v0, me, dr, mx, value, Deriv::Leaf, mx, Ok(()), *stmt);
            }
            assert(self.machine_on(host) == loop_end(mx, Ok(())));
        }
        Ok(())
    }

    /// Runs `stmts` in a fresh scope inside the current one.
    fn execute_block<H: Host>(&mut self, host: &H, stmts: &Vec<Stmt>) -> (r: Result<(), RuntimeException>)
        requires
            old(self).wf(),
            old(self).locals_fit(),
            stmts_ok(stmts@),
        ensures
            final(self).wf(),
            final(self).locals_fit(),
            final(self).locals == old(self).locals,
            final(self).steps <= old(self).steps,
            final(self).repl == old(self).repl,
            final(self).loop_count >= old(self).loop_count,
            (r is Ok || r matches Err(RuntimeException::Break)) ==> final(self).loop_count == old(self).loop_count,
            final(self).environment@.len() >= old(self).environment@.len(),
            r matches Err(RuntimeException::Break) ==> old(self).loop_count > 0,
            runs_block(old(self).machine_on(host), stmts@, final(self).machine_on(host), r),
        decreases old(self).steps, 1int, *stmts, 0int,
    {
        let ghost m0 = self.machine_on(host);
        proof {
            self.environment.lemma_enclosing();
        }
        self.environment = Environment::with_enclosing(self.environment.clone());
        let ghost inner = self.machine_on(host);
        proof {
            assert(with_frames(m0, inner, seq![Map::<Seq<char>, Literal>::empty()] + m0.env@));
            assert(stmts@.take(0) =~= Seq::<Stmt>::empty());
            assert(seq_d(Deriv::Leaf, inner, stmts@.take(0), inner, Ok(())));
        }
        let ghost mut ds: Deriv = Deriv::Leaf;
        let n = stmts.len();
        for i in 0..n
            invariant
                n == stmts@.len(),
                stmts_ok(stmts@),
                self.wf(),
                self.locals_fit(),
                self.locals == old(self).locals,
                self.steps <= old(self).steps,
                self.repl == old(self).repl,
                self.loop_count == old(self).loop_count,
                self.environment@.len() >= old(self).environment@.len() + 1,
                seq_d(ds, inner, stmts@.take(i as int), self.machine_on(host), Ok(())),
                with_frames(m0, inner, seq![Map::<Seq<char>, Literal>::empty()] + m0.env@),
                m0 == old(self).machine_on(host),
        {
            assert(decreases_to!(*stmts => stmts@[i as int]));
            let ghost mi = self.machine_on(host);
            let rs = self.execute(host, &stmts[i]);
            proof {
                let di = choose|d: Deriv| exec_d(d, mi, stmts@[i as int], self.machine_on(host), rs);
                assert(stmts@.take(i + 1).drop_last() =~= stmts@.take(i as int));
                assert(stmts@.take(i + 1).last() == stmts@[i as int]);
                let ds2 = node(ds, di, Deriv::Leaf, Mid { ma: mi, ua: Ok(()), ..blank_mid() });
                assert(seq_d(ds2, inner, stmts@.take(i + 1), self.machine_on(host), rs));
                ds = ds2;
            }
            if let Err(x) = rs {
                proof {
                    let ds3 = lemma_seq_error_extends(ds, inner, stmts@, i + 1, self.machine_on(host), x);
                    let mid = Mid { ma: inner, mb: self.machine_on(host), ua: Err(x), ..blank_mid() };
                    assert(block_d(node(ds3, Deriv::Leaf, Deriv::Leaf, mid), m0, stmts@, self.machine_on(host), Err(x)));
                }
                return Err(x);
            }
            proof {
                lemma_unit_ok(rs);
            }
        }
        proof {
            assert(stmts@.take(n as int) =~= stmts@);
            self.environment.lemma_enclosing();
        }
        let ghost m3 = self.machine_on(host);
        if let Some(enclosing) = &self.environment.enclosing {
            self.environment = (**enclosing).clone();
        }
        proof {
            assert(with_frames(m3, self.machine_on(host), m3.env@.drop_first()));
            let mid = Mid { ma: inner, mb: m3, ua: Ok(()), ..blank_mid() };
            assert(block_d(node(ds, Deriv::Leaf, Deriv::Leaf, mid), m0, stmts@, self.machine_on(host), Ok(())));
        }
        Ok(())
    }

    /// Calls `function` with `args`, as a call expression does once its
    /// arguments are known; the function then closes over the frames its
    /// body ran in, cut after its closure's frames but the last.
    pub fn call<H: Host>(&mut self, host: &H, function: &mut LoxFunction, args: &Vec<Literal>) -> (r: Result<Literal, RuntimeException>)
        requires
            old(self).wf(),
        ensures
            final(self).wf(),
            final(self).resolved() == old(self).resolved(),
            final(self).env_view() == old(self).env_view(),
            final(self).steps_left() <= old(self).steps_left(),
            final(self).echoes() == old(self).echoes(),
            final(self).loop_depth() == old(self).loop_depth(),
            !(r matches Err(RuntimeException::Break)),
            calls(old(self).machine_on(host), *old(function), args@, final(self).machine_on(host), r, *final(function)),
    {
        self.call_function(host, function, args)
    }

    fn call_function<H: Host>(&mut self, host: &H, function: &mut LoxFunction, args: &Vec<Literal>) -> (r: Result<Literal, RuntimeException>)
        requires
            old(self).wf(),
        ensures
            final(self).wf(),
            final(self).locals == old(self).locals,
            final(self).environment == old(self).environment,
            final(self).steps <= old(self).steps,
            final(self).repl == old(self).repl,
            final(self).loop_count == old(self).loop_count,
            !(r matches Err(RuntimeException::Break)),
            calls(old(self).machine_on(host), *old(function), args@, final(self).machine_on(host), r, *final(function)),
        decreases old(self).steps + 1, 0int, old(function).declaration_view(), 0int,
    {
        let ghost m0 = self.machine_on(host);
        let ghost lf0 = *function;
        proof {
            use_type_invariant(&*function);
            function.lemma_views();
        }
        if !function.closure.fits_depth(0xFFFF_FFFF) {
            let r = Err(RuntimeException::base(Token::default(), String::from_str("Too many nested scopes.")));
            proof {
                assert(call_d(Deriv::Leaf, m0, lf0, args@, self.machine_on(host), r, *function));
            }
            return r;
        }
        let (env, depth) = Environment::wrap((*function.closure).clone(), self.environment.clone(), 0);
        let mut interpreter2 = Interpreter::new(&env);
        interpreter2.steps = self.steps;
        let declaration = rc_clone(&function.declaration);
        match &*declaration {
            Stmt::Function(_name, params, body) => {
                if params.len() > args.len() {
                    let message = arity_error(params.len(), args.len());
                    let r = Err(RuntimeException::base(Token::default(), message));
                    proof {
                        assert(call_d(Deriv::Leaf, m0, lf0, args@, self.machine_on(host), r, *function));
                    }
                    return r;
                }
                proof {
                    let v = crate::stmt::stmts_view((**body)@);
                    assert(declaration.view() == StmtView::Function(_name@, crate::token::tokens_view(params@), v));
                    lemma_function_ok(_name@, crate::token::tokens_view(params@), v);
                    assert(crate::token::tokens_view(params@).len() == params@.len());
                    assert forall|i: int| 0 <= i < body@.len() implies stmt_ok(#[trigger] body@[i]) by {
                        assert(crate::stmt::stmts_view(body@)[i] == body@[i].view());
                    }
                }
                let ghost start = seq![Map::<Seq<char>, Literal>::empty()] + lf0.closure_view()@ + m0.env@;
                proof {
                    assert(interpreter2.environment@ =~= start);
                    assert(params@.take(0) =~= Seq::<Token>::empty());
                }
                let n = params.len();
                for i in 0..n
                    invariant
                        n == params@.len(),
                        n <= args@.len(),
                        interpreter2.wf(),
                        interpreter2.locals@.len() == 0,
                        interpreter2.loop_count == 0,
                        interpreter2.steps == self.steps,
                        !interpreter2.repl,
                        interpreter2.printed().len() == 0,
                        interpreter2.error_lines().len() == 0,
                        !interpreter2.had_error,
                        !interpreter2.had_runtime_error,
                        interpreter2.environment@.len() == env@.len() + 1,
                        interpreter2.environment@ == bind_params(start, params@.take(i as int), args@),
                {
                    let value = args[i].clone();
                    interpreter2.environment.define(params[i].lexeme.clone(), value);
                    proof {
                        assert(params@.take(i + 1).drop_last() =~= params@.take(i as int));
                        assert(params@.take(i + 1)[i as int] == params@[i as int]);
                    }
                }
                proof {
                    assert(params@.take(n as int) =~= params@);
                    assert(interpreter2.printed() =~= Seq::<Seq<char>>::empty());
                    assert(interpreter2.error_lines() =~= Seq::<Seq<char>>::empty());
                    assert(interpreter2.locals@ =~= Seq::<(Expr, u32)>::empty());
                    assert(interpreter2.locals_fit());
                }
                let ghost i1 = interpreter2.machine_on(host);
                let result = interpreter2.execute_block(host, &**body);
                let ghost i2 = interpreter2.machine_on(host);
                function.closure = Rc::new(Environment::unwrap(interpreter2.environment, depth));
                self.steps = interpreter2.steps;
                self.output.append(&mut interpreter2.output);
                let r = match result {
                    Err(RuntimeException::Return(r)) => match r.value {
                        Some(v) => Ok(v),
                        None => Ok(Literal::Nil),
                    },
                    Err(err) => Err(err),
                    Ok(()) => Ok(Literal::Nil),
                };
                proof {
                    let db = choose|d: Deriv| block_d(d, i1, body@, i2, result);
                    assert(self.printed() =~= m0.output + i2.output);
                    assert(callee_machine(i1, i1.env));
                    function.lemma_views();
                    assert(reclosed(lf0, *function, i2.env@.take(depth + 1)));
                    assert(r == call_result(result));
                    let mid = Mid { ma: i1, mb: i2, ua: result, ..blank_mid() };
                    assert(call_d(node(db, Deriv::Leaf, Deriv::Leaf, mid), m0, lf0, args@, self.machine_on(host), r, *function));
                }
                r
            },
            _ => {
                let r = Err(RuntimeException::base(Token::default(), String::from_str("Invalid function declaration.")));
                proof {
                    assert(call_d(Deriv::Leaf, m0, lf0, args@, self.machine_on(host), r, *function));
                }
                r
            },
        }
    }
}

/// The machine after a loop's last round: one loop fewer when it ended
/// normally.
pub open spec fn loop_end(m3: Machine, rl: Result<(), RuntimeException>) -> Machine {
    match rl {
        Ok(()) => Machine { loop_count: (m3.loop_count - 1) as nat, ..m3 },
        Err(_) => m3,
    }
}

/// An error while evaluating arguments is the error of the whole list.
proof fn lemma_args_error_extends(d: Deriv, m: Machine, args: Seq<Expr>, j: int, m2: Machine, x: RuntimeException) -> (d2: Deriv)
    requires
        0 <= j <= args.len(),
        args_d(d, m, args.take(j), m2, Err(x)),
    ensures
        args_d(d2, m, args, m2, Err(x)),
    decreases args.len() - j,
{
    if j < args.len() {
        assert(args.take(j + 1).drop_last() =~= args.take(j));
        let d1 = node(d, Deriv::Leaf, Deriv::Leaf, Mid { ma: m2, vals: Err(x), ..blank_mid() });
        assert(args_d(d1, m, args.take(j + 1), m2, Err(x)));
        lemma_args_error_extends(d1, m, args, j + 1, m2, x)
    } else {
        assert(args.take(j) =~= args);
        d
    }
}

/// A statement that does not complete normally ends the whole list.
proof fn lemma_seq_error_extends(d: Deriv, m: Machine, v: Seq<Stmt>, j: int, m2: Machine, x: RuntimeException) -> (d2: Deriv)
    requires
        0 <= j <= v.len(),
        seq_d(d, m, v.take(j), m2, Err(x)),
    ensures
        seq_d(d2, m, v, m2, Err(x)),
    decreases v.len() - j,
{
    if j < v.len() {
        assert(v.take(j + 1).drop_last() =~= v.take(j));
        let d1 = node(d, Deriv::Leaf, Deriv::Leaf, Mid { ma: m2, ua: Err(x), ..blank_mid() });
        assert(seq_d(d1, m, v.take(j + 1), m2, Err(x)));
        lemma_seq_error_extends(d1, m, v, j + 1, m2, x)
    } else {
        assert(v.take(j) =~= v);
        d
    }
}

/// A loop that reaches `mk` and leaves it by a final round is a run of the
/// whole `while` statement.
proof fn lemma_while_result(
    m0: Machine,
    c: Expr,
    b: Stmt,
    d1: Deriv,
    m1: Machine,
    v0: Literal,
    me: Machine,
    dr: Deriv,
    mk: Machine,
    vk: Literal,
    de: Deriv,
    m3: Machine,
    rl: Result<(), RuntimeException>,
    stmt: Stmt,
)
    requires
        stmt == Stmt::While(c, Box::new(b)),
        eval_d(d1, m0, c, m1, Ok::<Literal, RuntimeException>(v0)),
        m1.steps > 0,
        me == (Machine { steps: (m1.steps - 1) as nat, loop_count: m1.loop_count + 1, ..m1 }),
        reaches_d(dr, me, c, b, v0, mk, vk),
        exit_d(de, mk, c, b, vk, m3, rl),
    ensures
        executes(m0, stmt, loop_end(m3, rl), rl),
{
    let mid = Mid { ma: m1, ra: Ok(v0), mb: mk, v: vk, mc: m3, ua: rl, ..blank_mid() };
    assert(exec_d(node(d1, dr, de, mid), m0, stmt, loop_end(m3, rl), rl));
}

/// The message when arguments and parameters differ in number.
fn arity_error(arity: usize, got: usize) -> (r: String)
    ensures
        r@ == arity_message(arity as nat, got as nat),
{
    let mut s = String::from_str("Expected ");
    push_decimal(&mut s, arity);
    s.append(" arguments but got ");
    push_decimal(&mut s, got);
    s.append(".");
    s
}

/// The error line for `message` found on `line` at `location`.
pub open spec fn report_line(line: u32, location: Seq<char>, message: Seq<char>) -> Seq<char> {
    "[line "@ + crate::text::decimal(line as nat) + "] Error"@ + location + ": "@ + message
}

/// Where an error at `token` is: at the end of the input, or at its text.
pub open spec fn location_of(token: TokenView) -> Seq<char> {
    if token.token_type == TokenType::Eof {
        "at end"@
    } else {
        " at '"@ + token.lexeme + "'"@
    }
}

/// The lines written for an error that carries its token's line.
pub open spec fn error_block(message: Seq<char>, line: u32) -> Seq<char> {
    message + "\n[line "@ + crate::text::decimal(line as nat) + "]"@
}

/// The first entry whose expression is the same key as `e`.
pub open spec fn first_key(locals: Seq<(ExprView, u32)>, e: ExprView) -> Option<int>
    decreases locals.len(),
{
    if locals.len() == 0 {
        None
    } else if expr_key_eq(locals[0].0, e) {
        Some(0)
    } else {
        match first_key(locals.drop_first(), e) {
            Some(i) => Some(i + 1),
            None => None,
        }
    }
}

/// The resolved depths after recording `depth` for `e`: the entry of the
/// same key gets the new depth, or a new entry is added.
pub open spec fn with_depth(locals: Seq<(ExprView, u32)>, e: ExprView, depth: u32) -> Seq<(ExprView, u32)> {
    match first_key(locals, e) {
        Some(i) => locals.update(i, (locals[i].0, depth)),
        None => locals.push((e, depth)),
    }
}

proof fn lemma_first_key(locals: Seq<(ExprView, u32)>, e: ExprView)
    ensures
        match first_key(locals, e) {
            Some(i) => 0 <= i < locals.len() && expr_key_eq(locals[i].0, e)
                && forall|j: int| 0 <= j < i ==> !expr_key_eq(#[trigger] locals[j].0, e),
            None => forall|j: int| 0 <= j < locals.len() ==> !expr_key_eq(#[trigger] locals[j].0, e),
        },
    decreases locals.len(),
{
    if locals.len() > 0 {
        lemma_first_key(locals.drop_first(), e);
        if !expr_key_eq(locals[0].0, e) {
            match first_key(locals.drop_first(), e) {
                Some(i) => {
                    assert forall|j: int| 0 <= j < i + 1 implies !expr_key_eq(#[trigger] locals[j].0, e) by {
                        if j > 0 {
                            assert(locals[j] == locals.drop_first()[j - 1]);
                        }
                    }
                },
                None => {
                    assert forall|j: int| 0 <= j < locals.len() implies !expr_key_eq(#[trigger] locals[j].0, e) by {
                        if j > 0 {
                            assert(locals[j] == locals.drop_first()[j - 1]);
                        }
                    }
                },
            }
        }
    }
}

/// The depth recorded for `e`: that of the first entry of the same key.
pub open spec fn depth_of(locals: Seq<(ExprView, u32)>, e: ExprView) -> Option<u32> {
    match first_key(locals, e) {
        Some(i) => Some(locals[i].1),
        None => None,
    }
}

/// After recording a depth for an expression, the table gives back that
/// depth for it; an expression that holds a function definition is no key,
/// so nothing is found for it.
pub proof fn law_depth_after_resolve(locals: Seq<(ExprView, u32)>, e: ExprView, depth: u32)
    requires
        expr_key_eq(e, e),
    ensures
        depth_of(with_depth(locals, e, depth), e) == Some(depth),
{
    lemma_first_key(locals, e);
    let after = with_depth(locals, e, depth);
    lemma_first_key(after, e);
    match first_key(locals, e) {
        Some(i) => {
            assert(after == locals.update(i, (locals[i].0, depth)));
            assert(after.len() == locals.len());
            assert(after[i] == (locals[i].0, depth));
            match first_key(after, e) {
                Some(k) => {
                    if k < i {
                        assert(after[k] == locals[k]);
                    } else if k > i {
                        assert(after[i].0 == locals[i].0);
                    }
                },
                None => {
                    assert(after[i].0 == locals[i].0);
                },
            }
            assert(first_key(after, e) == Some(i));
        },
        None => {
            let n = locals.len() as int;
            assert(after == locals.push((e, depth)));
            assert(after[n] == (e, depth));
            assert(after.len() == n + 1);
            match first_key(after, e) {
                Some(k) => {
                    if k < n {
                        assert(after[k].0 == locals[k].0);
                    }
                },
                None => {
                    assert(after[n].0 == e);
                },
            }
            assert(first_key(after, e) == Some(n));
        },
    }
}

/// What resolving touches in an interpreter: the resolved expressions, the
/// error lines and whether an error was reported.
pub struct ResolveState {
    pub locals: Seq<(ExprView, u32)>,
    pub errors: Seq<Seq<char>>,
    pub had_error: bool,
}

impl Interpreter {
    /// The part of the interpreter that resolving touches.
    pub closed spec fn resolve_state(&self) -> ResolveState {
        ResolveState { locals: self.resolved_view(), errors: self.error_lines(), had_error: self.had_error }
    }

    /// `self` is `before` but for what resolving touches.
    pub closed spec fn same_but_resolution(&self, before: &Self) -> bool {
        *self == (Interpreter { locals: self.locals, errors: self.errors, had_error: self.had_error, ..*before })
    }

    /// Changes to what resolving touches compose.
    pub proof fn lemma_resolution_trans(a: &Self, b: &Self, c: &Self)
        requires
            b.same_but_resolution(a),
            c.same_but_resolution(b),
        ensures
            c.same_but_resolution(a),
    {
    }

    /// Nothing changed is a change to what resolving touches.
    pub proof fn lemma_resolution_refl(a: &Self)
        ensures
            a.same_but_resolution(a),
    {
    }

    /// `self` is `before` but for the resolved expressions.
    pub closed spec fn same_but_resolved(&self, before: &Self) -> bool {
        *self == (Interpreter { locals: self.locals, ..*before })
    }

    /// `self` is `before` but for the error lines and the error flags.
    pub closed spec fn same_but_errors(&self, before: &Self) -> bool {
        *self == (Interpreter {
            errors: self.errors,
            had_error: self.had_error,
            had_runtime_error: self.had_runtime_error,
            ..*before
        })
    }

    /// The resolved expressions, as plain values, with their depths.
    pub closed spec fn resolved_view(&self) -> Seq<(ExprView, u32)> {
        self.locals@.map_values(|p: (Expr, u32)| (p.0.view(), p.1))
    }

    /// Records that `expr` refers to a variable `depth` scopes out.
    pub fn resolve(&mut self, expr: Expr, depth: u32)
        ensures
            final(self).resolved_view() == with_depth(old(self).resolved_view(), expr.view(), depth),
            final(self).same_but_resolved(&*old(self)),
            final(self).same_but_resolution(&*old(self)),
            final(self).resolve_state() == (ResolveState {
                locals: with_depth(old(self).resolve_state().locals, expr.view(), depth),
                ..old(self).resolve_state()
            }),
            final(self).wf() == old(self).wf(),
            depth < old(self).env_view().len() && old(self).locals_fit() ==> final(self).locals_fit(),
    {
        let ghost before = self.resolved_view();
        proof {
            lemma_first_key(before, expr.view());
        }
        let n = self.locals.len();
        let mut i: usize = 0;
        while i < n
            invariant
                n == self.locals@.len(),
                i <= n,
                *self == *old(self),
                before == self.resolved_view(),
                forall|j: int| 0 <= j < i ==> !expr_key_eq(#[trigger] before[j].0, expr.view()),
            decreases n - i,
        {
            if self.locals[i].0.key_equals(&expr) {
                proof {
                    assert(before[i as int].0 == self.locals@[i as int].0.view());
                    let e = expr.view();
                    lemma_first_key(before, e);
                    assert(expr_key_eq(before[i as int].0, e));
                    match first_key(before, e) {
                        Some(k) => {
                            if k < i {
                                assert(!expr_key_eq(before[k].0, e));
                            } else if k > i {
                                assert(!expr_key_eq(before[i as int].0, e));
                            }
                        },
                        None => {
                            assert(!expr_key_eq(before[i as int].0, e));
                        },
                    }
                    assert(first_key(before, expr.view()) == Some(i as int));
                }
                let entry = (self.locals[i].0.clone(), depth);
                self.locals.set(i, entry);
                proof {
                    assert(self.resolved_view() =~= before.update(i as int, (before[i as int].0, depth)));
                }
                return;
            }
            assert(before[i as int].0 == self.locals@[i as int].0.view());
            i = i + 1;
        }
        proof {
            lemma_first_key(before, expr.view());
            if let Some(k) = first_key(before, expr.view()) {
                assert(!expr_key_eq(before[k].0, expr.view()));
            }
        }
        self.locals.push((expr, depth));
        proof {
            assert(self.resolved_view() =~= before.push((expr.view(), depth)));
        }
    }

    /// Writes an error line for `message` at `location` and notes the error.
    fn report(&mut self, line: u32, location: &str, message: &str)
        ensures
            final(self).error_lines() == old(self).error_lines().push(report_line(line, location@, message@)),
            final(self).reported_error(),
            *final(self) == (Interpreter { errors: final(self).errors, had_error: true, ..*old(self) }),
    {
        let mut text = String::from_str("[line ");
        push_decimal(&mut text, line as usize);
        text.append("] Error");
        text.append(location);
        text.append(": ");
        text.append(message);
        self.errors.push(text);
        self.had_error = true;
        proof {
            assert(self.error_lines() =~= old(self).error_lines().push(report_line(line, location@, message@)));
        }
    }

    /// Reports a lexical error found on `line`.
    pub fn error(&mut self, line: u32, message: String)
        ensures
            final(self).error_lines() == old(self).error_lines().push(report_line(line, Seq::empty(), message@)),
            final(self).reported_error(),
            final(self).same_but_errors(&*old(self)),
            final(self).reported_runtime_error() == old(self).reported_runtime_error(),
    {
        proof {
            reveal_strlit("");
        }
        self.report(line, "", message.as_str());
    }

    /// Reports an error found at `token`.
    pub fn log_error(&mut self, token: Token, message: String)
        ensures
            final(self).error_lines() == old(self).error_lines().push(report_line(token.line, location_of(token@), message@)),
            final(self).reported_error(),
            final(self).same_but_errors(&*old(self)),
            final(self).reported_runtime_error() == old(self).reported_runtime_error(),
            final(self).same_but_resolution(&*old(self)),
            final(self).wf() == old(self).wf(),
            final(self).resolve_state() == (ResolveState {
                errors: old(self).resolve_state().errors.push(report_line(token.line, location_of(token@), message@)),
                had_error: true,
                ..old(self).resolve_state()
            }),
    {
        if token.token_type == TokenType::Eof {
            self.report(token.line, "at end", message.as_str());
        } else {
            let location = concat3(" at '", token.lexeme.as_str(), "'");
            self.report(token.line, location.as_str(), message.as_str());
        }
    }

    /// Writes a syntax error, its message and then its line.
    fn parser_error(&mut self, parser_error: ParserError)
        ensures
            final(self).error_lines() == old(self).error_lines().push(
                error_block(parser_error.message@, parser_error.token.line)),
            *final(self) == (Interpreter { errors: final(self).errors, ..*old(self) }),
    {
        let text = error_text(&parser_error.message, parser_error.token.line);
        self.errors.push(text);
        proof {
            assert(self.error_lines() =~= old(self).error_lines().push(
                error_block(parser_error.message@, parser_error.token.line)));
        }
    }

    /// Writes a runtime error, its message and then its line, and notes it.
    fn runtime_error(&mut self, runtime_error: RuntimeError)
        ensures
            final(self).error_lines() == old(self).error_lines().push(
                error_block(runtime_error.message@, runtime_error.token.line)),
            final(self).reported_runtime_error(),
            *final(self) == (Interpreter { errors: final(self).errors, had_runtime_error: true, ..*old(self) }),
    {
        let text = error_text(&runtime_error.message, runtime_error.token.line);
        self.errors.push(text);
        self.had_runtime_error = true;
        proof {
            assert(self.error_lines() =~= old(self).error_lines().push(
                error_block(runtime_error.message@, runtime_error.token.line)));
        }
    }
}

/// The text of an error that carries its line: the message, then the line.
fn error_text(message: &String, line: u32) -> (r: String)
    ensures
        r@ == error_block(message@, line),
{
    let mut text = message.clone();
    text.append("\n[line ");
    push_decimal(&mut text, line as usize);
    text.append("]");
    text
}

/// Why a run gives up: a point from which the interpreter cannot go on.
pub enum Halt {
    /// Scanning would read past the end of the source: a number followed by
    /// a `.` that ends the source.
    ScannerOverrun,
    /// Resolving would fail: a variable is read or assigned outside every
    /// block, or a function literal or an empty expression is met.
    Unresolvable,
}

/// `toks` are the tokens that scanning `src` gives when it finds the
/// lexemes `ls` and ends on line `last`: one for each lexeme, then the end.
pub open spec fn scanned(ar: crate::native_function::Arith, toks: Seq<Token>, src: Seq<char>, ls: Seq<crate::scanner::Lexeme>, last: int) -> bool {
    &&& toks.len() == ls.len() + 1
    &&& crate::scanner::tokens_match(ar, toks.subrange(0, ls.len() as int), src, ls)
    &&& crate::scanner::is_eof_token(toks.last(), last)
}

/// Running the statements `v` in order from `m`, stopping at the first that
/// does not complete normally, can end in `m2` with `r`.
pub open spec fn runs_all(m: Machine, v: Seq<Stmt>, m2: Machine, r: Result<(), RuntimeException>) -> bool {
    exists|d: Deriv| #[trigger] seq_d(d, m, v, m2, r)
}

/// What resolving starts from: nothing resolved, no error.
pub open spec fn fresh_resolution() -> ResolveState {
    ResolveState { locals: Seq::empty(), errors: Seq::empty(), had_error: false }
}

/// Running `v` from `m1` ends in `m3` with `r`, and then `m2` is `m3` with
/// a runtime error written when `r` is one.
pub open spec fn ran(m1: Machine, v: Seq<Stmt>, m3: Machine, r: Result<(), RuntimeException>, m2: Machine) -> bool {
    &&& runs_all(m1, v, m3, r)
    &&& match r {
        Err(RuntimeException::Base(e)) => m2 == Machine {
            errors: m3.errors.push(error_block(e.message@, e.token.line)),
            had_runtime_error: true,
            ..m3
        },
        _ => m2 == m3,
    }
}

/// What running the tokens `toks` does, from `m`: nothing after an earlier
/// error; a syntax error is written; statements that resolving cannot
/// handle halt the run; resolution errors are written; else the statements
/// run, and a runtime error that stops them is written.
pub open spec fn run_tokens(m: Machine, toks: Seq<Token>, m2: Machine, r: Result<(), Halt>) -> bool {
    if m.had_error {
        m2 == m && r is Ok
    } else {
        match crate::parser::p_program(toks, 0) {
            Err((t, msg)) => r is Ok && m2 == Machine { errors: m.errors.push(error_block(msg, t.line)), ..m },
            Ok((sv, _)) => run_statements(m, sv, m2, r),
        }
    }
}

/// What running parsed statements `sv` does, from `m`: statements that
/// resolving cannot handle halt the run; resolution errors are written;
/// else the statements run, and a runtime error that stops them is
/// written.
pub open spec fn run_statements(m: Machine, sv: Seq<StmtView>, m2: Machine, r: Result<(), Halt>) -> bool {
    if !crate::resolver::stmts_resolvable(false, sv) {
        r == Err::<(), Halt>(Halt::Unresolvable) && m2 == m
    } else {
        let st = crate::resolver::applied(fresh_resolution(), crate::resolver::stmts_events(Seq::empty(), sv).1);
        let m1 = Machine { errors: m.errors + st.errors, had_error: st.had_error, ..m };
        r is Ok && if st.had_error {
            m2 == m1
        } else {
            exists|v: Seq<Stmt>, m3: Machine, rr: Result<(), RuntimeException>|
                stmts_view(v) == sv && #[trigger] ran(m1, v, m3, rr, m2)
        }
    }
}

impl Default for Interpreter {
    /// An interpreter whose global scope holds the native function `clock`.
    fn default() -> (r: Self)
        ensures
            r.wf(),
            r.locals_fit(),
            r.env_view().len() == 1,
            r.env_view()[0].dom() == set!["clock"@],
            r.env_view()[0]["clock"@] matches Literal::NativeFunction(f) && f.name@ == "clock"@ && f.arity == 0,
            r.resolved().len() == 0,
            r.loop_depth() == 0,
            r.steps_left() == STEP_LIMIT,
            !r.echoes(),
            !r.reported_error(),
            !r.reported_runtime_error(),
            r.printed().len() == 0,
            r.error_lines().len() == 0,
    {
        let mut environment = Environment::new();
        let clock = Literal::NativeFunction(NativeFunction { name: String::from_str("clock"), arity: 0 });
        environment.define(String::from_str("clock"), clock);
        let r = Self {
            had_error: false,
            had_runtime_error: false,
            environment,
            repl: false,
            loop_count: 0,
            locals: Vec::new(),
            steps: STEP_LIMIT,
            output: Vec::new(),
            errors: Vec::new(),
        };
        proof {
            assert(r.env_view()[0].dom() =~= set!["clock"@]);
            assert(r.printed() =~= Seq::<Seq<char>>::empty());
            assert(r.error_lines() =~= Seq::<Seq<char>>::empty());
        }
        r
    }
}

impl Interpreter {
    /// Runs `stmts` in a fresh scope inside the current one.
    pub fn evaluate_block<H: Host>(&mut self, host: &H, stmts: Vec<Stmt>) -> (r: Result<(), RuntimeException>)
        requires
            old(self).wf(),
            old(self).locals_fit(),
            stmts_ok(stmts@),
        ensures
            final(self).wf(),
            final(self).locals_fit(),
            final(self).resolved() == old(self).resolved(),
            final(self).steps_left() <= old(self).steps_left(),
            final(self).echoes() == old(self).echoes(),
            final(self).loop_depth() >= old(self).loop_depth(),
            (r is Ok || r matches Err(RuntimeException::Break)) ==> final(self).loop_depth() == old(self).loop_depth(),
            final(self).env_view().len() >= old(self).env_view().len(),
            r matches Err(RuntimeException::Break) ==> old(self).loop_depth() > 0,
            runs_block(old(self).machine_on(host), stmts@, final(self).machine_on(host), r),
    {
        self.execute_block(host, &stmts)
    }

    /// Runs the statements in order; stops at the first that does not
    /// complete normally.
    fn interpret<H: Host>(&mut self, host: &H, stmts: &Vec<Stmt>) -> (r: Result<(), RuntimeException>)
        requires
            old(self).wf(),
            old(self).locals_fit(),
            stmts_ok(stmts@),
        ensures
            final(self).wf(),
            final(self).locals_fit(),
            final(self).locals == old(self).locals,
            final(self).steps <= old(self).steps,
            final(self).repl == old(self).repl,
            runs_all(old(self).machine_on(host), stmts@, final(self).machine_on(host), r),
    {
        let ghost m0 = self.machine_on(host);
        let ghost mut ds: Deriv = Deriv::Leaf;
        proof {
            assert(stmts@.take(0) =~= Seq::<Stmt>::empty());
            assert(seq_d(ds, m0, stmts@.take(0), m0, Ok(())));
        }
        let n = stmts.len();
        for i in 0..n
            invariant
                n == stmts@.len(),
                stmts_ok(stmts@),
                self.wf(),
                self.locals_fit(),
                self.locals == old(self).locals,
                self.steps <= old(self).steps,
                self.repl == old(self).repl,
                m0 == old(self).machine_on(host),
                seq_d(ds, m0, stmts@.take(i as int), self.machine_on(host), Ok(())),
        {
            let ghost mi = self.machine_on(host);
            let rs = self.execute(host, &stmts[i]);
            proof {
                let di = choose|d: Deriv| exec_d(d, mi, stmts@[i as int], self.machine_on(host), rs);
                assert(stmts@.take(i + 1).drop_last() =~= stmts@.take(i as int));
                assert(stmts@.take(i + 1).last() == stmts@[i as int]);
                let ds2 = node(ds, di, Deriv::Leaf, Mid { ma: mi, ua: Ok(()), ..blank_mid() });
                assert(seq_d(ds2, m0, stmts@.take(i + 1), self.machine_on(host), rs));
                ds = ds2;
            }
            if let Err(x) = rs {
                proof {
                    let ds3 = lemma_seq_error_extends(ds, m0, stmts@, i + 1, self.machine_on(host), x);
                    assert(seq_d(ds3, m0, stmts@, self.machine_on(host), Err(x)));
                }
                return Err(x);
            }
            proof {
                lemma_unit_ok(rs);
            }
        }
        proof {
            assert(stmts@.take(n as int) =~= stmts@);
        }
        Ok(())
    }

    /// Resolves and runs parsed statements.
    fn run_statements<H: Host>(&mut self, host: &H, statements: Vec<Stmt>) -> (r: Result<(), Halt>)
        requires
            old(self).wf(),
            old(self).locals_fit(),
            !old(self).had_error,
            stmts_ok(statements@),
        ensures
            final(self).wf(),
            final(self).locals_fit(),
            final(self).locals == old(self).locals,
            final(self).repl == old(self).repl,
            run_statements(old(self).machine_on(host), stmts_view(statements@), final(self).machine_on(host), r),
    {
        let ghost m0 = self.machine_on(host);
        let ghost sv = crate::stmt::stmts_view(statements@);
        if !crate::resolver::resolvable(&statements) {
            proof {
                assert(run_statements(m0, sv, self.machine_on(host), Err(Halt::Unresolvable)));
            }
            return Err(Halt::Unresolvable);
        }
        let fresh = Interpreter::new(&self.environment);
        proof {
            assert(fresh.resolved_view() =~= Seq::<(ExprView, u32)>::empty());
            assert(fresh.error_lines() =~= Seq::<Seq<char>>::empty());
            assert(fresh.resolve_state() == fresh_resolution());
        }
        let mut resolver = crate::resolver::Resolver::new(fresh);
        resolver.resolve(clone_stmts(&statements));
        let mut checked = resolver.into_interpreter();
        let ghost st = checked.resolve_state();
        self.errors.append(&mut checked.errors);
        self.had_error = checked.had_error;
        let ghost m1 = self.machine_on(host);
        proof {
            assert(st == crate::resolver::applied(fresh_resolution(), crate::resolver::stmts_events(Seq::empty(), sv).1));
            assert(self.error_lines() =~= m0.errors + st.errors);
            assert(m1 == (Machine { errors: m0.errors + st.errors, had_error: st.had_error, ..m0 }));
        }
        if self.had_error {
            proof {
                assert(run_statements(m0, sv, self.machine_on(host), Ok(())));
            }
            return Ok(());
        }
        let rr = self.interpret(host, &statements);
        let ghost m3 = self.machine_on(host);
        let ghost grr = rr;
        if let Err(err) = rr {
            if let RuntimeException::Base(err) = err {
                let ghost ge = err;
                self.runtime_error(err);
                proof {
                    assert(self.machine_on(host) == (Machine {
                        errors: m3.errors.push(error_block(ge.message@, ge.token.line)),
                        had_runtime_error: true,
                        ..m3
                    }));
                }
            }
        }
        proof {
            assert(ran(m1, statements@, m3, grr, self.machine_on(host)));
            assert(run_statements(m0, sv, self.machine_on(host), Ok(())));
        }
        Ok(())
    }

    /// Scans, parses, resolves and runs `source`, writing what it prints and
    /// the errors it finds to the interpreter's buffers.
    pub fn run<H: Host>(&mut self, host: &H, source: String) -> (r: Result<(), Halt>)
        requires
            old(self).wf(),
            old(self).locals_fit(),
            source@.len() < usize::MAX,
        ensures
            final(self).wf(),
            final(self).locals_fit(),
            final(self).resolved() == old(self).resolved(),
            final(self).echoes() == old(self).echoes(),
            r == Err::<(), Halt>(Halt::ScannerOverrun) <==> crate::scanner::scan_from(source@, 0, 1) is Crash,
            match crate::scanner::scan_from(source@, 0, 1) {
                crate::scanner::ScanOutcome::Failed(_, l, m) => r is Ok && final(self).machine_on(host) == (Machine {
                    errors: old(self).machine_on(host).errors.push(report_line(l as u32, Seq::empty(), m)),
                    had_error: true,
                    ..old(self).machine_on(host)
                }),
                crate::scanner::ScanOutcome::Done(ls, last) => exists|toks: Seq<Token>|
                    #[trigger] scanned(arith_of(host), toks, source@, ls, last) && run_tokens(old(self).machine_on(host), toks, final(self).machine_on(host), r),
                crate::scanner::ScanOutcome::Crash => final(self).machine_on(host) == old(self).machine_on(host),
            },
    {
        let ghost m0 = self.machine_on(host);
        let mut scanner = crate::scanner::Scanner::new(source);
        match scanner.scan_tokens_checked(host) {
            None => {
                return Err(Halt::ScannerOverrun);
            },
            Some(Err(e)) => {
                self.error(e.line as u32, e.message);
                proof {
                    assert(self.machine_on(host) == (Machine {
                        errors: m0.errors.push(report_line(e.line as u32, Seq::empty(), e.message@)),
                        had_error: true,
                        ..m0
                    }));
                }
                return Ok(());
            },
            Some(Ok(())) => {},
        }
        let ghost src = source@;
        let ghost toks = scanner.token_list();
        let tokens = scanner.into_tokens();
        proof {
            if let crate::scanner::ScanOutcome::Done(ls, last) = crate::scanner::scan_from(src, 0, 1) {
                assert forall|i: int| 0 <= i < toks.len()
                    && ((#[trigger] toks[i]).token_type == TokenType::Number || toks[i].token_type == TokenType::String)
                    implies toks[i].literal is Some by {
                    if i < ls.len() {
                        assert(toks.subrange(0, ls.len() as int)[i] == toks[i]);
                        assert(crate::scanner::token_matches(arith_of(host), toks.subrange(0, ls.len() as int)[i], src, ls[i]));
                    }
                }
            }
        }
        let ghost mut ls: Seq<crate::scanner::Lexeme> = Seq::empty();
        let ghost mut last: int = 0;
        proof {
            if let crate::scanner::ScanOutcome::Done(ls0, last0) = crate::scanner::scan_from(src, 0, 1) {
                ls = ls0;
                last = last0;
                assert(toks.subrange(0, 0) =~= Seq::<Token>::empty());
                assert(scanned(arith_of(host), toks, src, ls, last));
            }
        }
        let mut parser = crate::parser::Parser::new(tokens);
        let statements = parser.parse();
        if self.had_error {
            proof {
                assert(run_tokens(m0, toks, self.machine_on(host), Ok(())));
            }
            return Ok(());
        }
        match statements {
            Err(err) => {
                if parser.current > 0 || parser.tokens[parser.current].token_type != TokenType::Eof {
                    parser.synchronize();
                }
                let ghost ge = err;
                self.parser_error(err);
                proof {
                    assert(self.machine_on(host) == (Machine { errors: m0.errors.push(error_block(ge.message@, ge.token.line)), ..m0 }));
                    assert(run_tokens(m0, toks, self.machine_on(host), Ok(())));
                }
            },
            Ok(statements) => {
                let r = self.run_statements(host, statements);
                proof {
                    assert(run_tokens(m0, toks, self.machine_on(host), r));
                }
                return r;
            },
        }
        Ok(())
    }
}

impl Interpreter {
    /// `self` is `before` but for the printed lines.
    pub closed spec fn same_but_output(&self, before: &Self) -> bool {
        *self == (Interpreter { output: self.output, ..*before })
    }

    /// `self` is `before` but for the error lines and the error flags.
    pub closed spec fn same_but_error_state(&self, before: &Self) -> bool {
        *self == (Interpreter { errors: self.errors, had_error: self.had_error, ..*before })
    }

    proof fn lemma_locals_fit_same(a: &Self, b: &Self)
        requires
            a.locals == b.locals,
            a.environment == b.environment,
        ensures
            a.locals_fit() == b.locals_fit(),
    {
        assert(a.locals@ == b.locals@);
        assert(a.environment@ == b.environment@);
    }

    /// Hands over the lines printed so far and forgets them.
    pub fn take_output(&mut self) -> (r: Vec<String>)
        ensures
            r@.map_values(|s: String| s@) == old(self).printed(),
            final(self).printed().len() == 0,
            final(self).same_but_output(&*old(self)),
            final(self).wf() == old(self).wf(),
            final(self).locals_fit() == old(self).locals_fit(),
    {
        let mut r: Vec<String> = Vec::new();
        std::mem::swap(&mut r, &mut self.output);
        proof {
            Self::lemma_locals_fit_same(&*self, &*old(self));
            assert(self.printed() =~= Seq::<Seq<char>>::empty());
        }
        r
    }

    /// Hands over the error lines written so far and forgets them.
    pub fn take_errors(&mut self) -> (r: Vec<String>)
        ensures
            r@.map_values(|s: String| s@) == old(self).error_lines(),
            final(self).error_lines().len() == 0,
            final(self).same_but_error_state(&*old(self)),
            final(self).reported_error() == old(self).reported_error(),
            final(self).wf() == old(self).wf(),
            final(self).locals_fit() == old(self).locals_fit(),
    {
        let mut r: Vec<String> = Vec::new();
        std::mem::swap(&mut r, &mut self.errors);
        proof {
            Self::lemma_locals_fit_same(&*self, &*old(self));
            assert(self.error_lines() =~= Seq::<Seq<char>>::empty());
        }
        r
    }

    /// Whether a lexical, syntax or resolution error was reported.
    pub fn had_error(&self) -> (r: bool)
        ensures
            r == self.reported_error(),
    {
        self.had_error
    }

    /// Whether a runtime error was reported.
    pub fn had_runtime_error(&self) -> (r: bool)
        ensures
            r == self.reported_runtime_error(),
    {
        self.had_runtime_error
    }

    /// Forgets that an error was reported, as a prompt does between lines.
    pub fn clear_error(&mut self)
        ensures
            !final(self).reported_error(),
            final(self).same_but_error_state(&*old(self)),
            final(self).error_lines() == old(self).error_lines(),
            final(self).wf() == old(self).wf(),
            final(self).locals_fit() == old(self).locals_fit(),
    {
        self.had_error = false;
        proof {
            Self::lemma_locals_fit_same(&*self, &*old(self));
        }
    }
}

} // verus!
