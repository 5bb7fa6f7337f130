use vstd::prelude::*;

use crate::expr::{Expr, ExprView};
use crate::interpreter::{location_of, report_line, Interpreter, ResolveState, with_depth};
use crate::stmt::{stmts_view, Stmt, StmtView};
use crate::token::{tokens_view, Token, TokenView};

verus! {

broadcast use vstd::std_specs::vec::group_vec_axioms, vstd::seq::group_seq_axioms;

/// One scope: each name it declares, and whether its declaration is
/// complete (the name is defined).
pub type Scope = Map<Seq<char>, bool>;

/// What resolving records, in order.
pub enum ResolveEvent {
    /// The expression refers to a variable this many scopes out.
    Depth(ExprView, u32),
    /// A local variable is read in its own initializer, at this token.
    SelfRead(TokenView),
}

/// The message for a variable read in its own initializer.
pub open spec fn self_read_message() -> Seq<char> {
    "Can't read local variable in its own initializer."@
}

/// What one event does to the resolution state.
pub open spec fn step(st: ResolveState, e: ResolveEvent) -> ResolveState {
    match e {
        ResolveEvent::Depth(x, d) => ResolveState { locals: with_depth(st.locals, x, d), ..st },
        ResolveEvent::SelfRead(t) => ResolveState {
            errors: st.errors.push(report_line(t.line, location_of(t), self_read_message())),
            had_error: true,
            ..st
        },
    }
}

/// The resolution state after the events, in order.
pub open spec fn applied(st: ResolveState, ev: Seq<ResolveEvent>) -> ResolveState
    decreases ev.len(),
{
    if ev.len() == 0 {
        st
    } else {
        step(applied(st, ev.drop_last()), ev.last())
    }
}

/// Applying two runs of events is applying the first, then the second.
pub proof fn lemma_applied_concat(st: ResolveState, a: Seq<ResolveEvent>, b: Seq<ResolveEvent>)
    ensures
        applied(st, a + b) == applied(applied(st, a), b),
    decreases b.len(),
{
    if b.len() == 0 {
        assert(a + b =~= a);
    } else {
        lemma_applied_concat(st, a, b.drop_last());
        assert((a + b).drop_last() =~= a + b.drop_last());
    }
}

/// The scopes after declaring `name` in the innermost one (nothing without
/// a scope).
pub open spec fn declared(scopes: Seq<Scope>, name: Seq<char>, ready: bool) -> Seq<Scope> {
    if scopes.len() == 0 {
        scopes
    } else {
        scopes.update(scopes.len() - 1, scopes.last().insert(name, ready))
    }
}

/// The scopes without the innermost one (nothing without a scope).
pub open spec fn popped(scopes: Seq<Scope>) -> Seq<Scope> {
    if scopes.len() == 0 {
        scopes
    } else {
        scopes.drop_last()
    }
}

/// The depths of the `k` innermost scopes that declare `name`, innermost
/// first, recorded for `e`.
pub open spec fn local_events(scopes: Seq<Scope>, e: ExprView, name: Seq<char>, k: int) -> Seq<ResolveEvent>
    decreases k,
{
    if k <= 0 || k > scopes.len() {
        Seq::empty()
    } else {
        let rest = local_events(scopes, e, name, k - 1);
        if scopes[scopes.len() - k].contains_key(name) {
            rest.push(ResolveEvent::Depth(e, (k - 1) as u32))
        } else {
            rest
        }
    }
}

/// A read of `name` here is a read in its own initializer.
pub open spec fn reads_own_initializer(scopes: Seq<Scope>, name: Seq<char>) -> bool {
    scopes.len() > 0 && scopes.last().contains_key(name) && !scopes.last()[name]
}

/// The events of resolving the expression `e` against `scopes`.
pub open spec fn expr_events(scopes: Seq<Scope>, e: ExprView) -> Seq<ResolveEvent>
    decreases e,
{
    match e {
        ExprView::Variable(name) => (if reads_own_initializer(scopes, name.lexeme) {
            seq![ResolveEvent::SelfRead(name)]
        } else {
            Seq::empty()
        }) + local_events(scopes, e, name.lexeme, scopes.len() as int),
        ExprView::Assign(name, value) => expr_events(scopes, *value) + local_events(
            scopes,
            e,
            name.lexeme,
            scopes.len() as int,
        ),
        ExprView::Binary(a, _, b) => expr_events(scopes, *a) + expr_events(scopes, *b),
        ExprView::Logical(a, _, b) => expr_events(scopes, *a) + expr_events(scopes, *b),
        ExprView::Call(c, _, args) => expr_events(scopes, *c) + exprs_events(scopes, args),
        ExprView::Grouping(b) => expr_events(scopes, *b),
        ExprView::Unary(_, b) => expr_events(scopes, *b),
        _ => Seq::empty(),
    }
}

/// The events of resolving the expressions of `v` in order.
pub open spec fn exprs_events(scopes: Seq<Scope>, v: Seq<ExprView>) -> Seq<ResolveEvent>
    decreases v,
{
    if v.len() == 0 {
        Seq::empty()
    } else {
        exprs_events(scopes, v.drop_last()) + expr_events(scopes, v.last())
    }
}

/// The scopes after declaring and defining each parameter.
pub open spec fn with_params(scopes: Seq<Scope>, params: Seq<TokenView>) -> Seq<Scope>
    decreases params.len(),
{
    if params.len() == 0 {
        scopes
    } else {
        let p = params.last().lexeme;
        declared(declared(with_params(scopes, params.drop_last()), p, false), p, true)
    }
}

/// The scopes after resolving the statement `s`, and its events.
pub open spec fn stmt_events(scopes: Seq<Scope>, s: StmtView) -> (Seq<Scope>, Seq<ResolveEvent>)
    decreases s,
{
    match s {
        StmtView::Block(v) => {
            let (sc, ev) = stmts_events(scopes.push(Map::empty()), v);
            (popped(sc), ev)
        },
        StmtView::Var(name, init) => {
            let sc1 = declared(scopes, name.lexeme, false);
            let ev = match init {
                Some(e) => expr_events(sc1, e),
                None => Seq::empty(),
            };
            (declared(sc1, name.lexeme, true), ev)
        },
        StmtView::Function(name, params, body) => {
            let sc1 = declared(declared(scopes, name.lexeme, false), name.lexeme, true);
            let (sc2, ev) = stmts_events(with_params(sc1.push(Map::empty()), params), body);
            (popped(sc2), ev)
        },
        StmtView::Expression(e) => (scopes, expr_events(scopes, e)),
        StmtView::Print(e) => (scopes, expr_events(scopes, e)),
        StmtView::If(c, t, el) => {
            let ev1 = expr_events(scopes, c);
            let (sc1, ev2) = stmt_events(scopes, *t);
            match el {
                Some(x) => {
                    let (sc2, ev3) = stmt_events(sc1, *x);
                    (sc2, ev1 + ev2 + ev3)
                },
                None => (sc1, ev1 + ev2),
            }
        },
        StmtView::Return(_, v) => (scopes, match v {
            Some(e) => expr_events(scopes, e),
            None => Seq::empty(),
        }),
        StmtView::While(c, b) => {
            let ev1 = expr_events(scopes, c);
            let (sc1, ev2) = stmt_events(scopes, *b);
            (sc1, ev1 + ev2)
        },
        StmtView::Break(_) => (scopes, Seq::empty()),
    }
}

/// The scopes after resolving the statements of `v` in order, and their
/// events.
pub open spec fn stmts_events(scopes: Seq<Scope>, v: Seq<StmtView>) -> (Seq<Scope>, Seq<ResolveEvent>)
    decreases v,
{
    if v.len() == 0 {
        (scopes, Seq::empty())
    } else {
        let (sc1, ev1) = stmts_events(scopes, v.drop_last());
        let (sc2, ev2) = stmt_events(sc1, v.last());
        (sc2, ev1 + ev2)
    }
}

/// Resolving `e` (inside some scope or not) can go through: it refers to
/// variables only inside some scope, and holds no function literal and no
/// empty expression.
pub open spec fn expr_resolvable(inside: bool, e: ExprView) -> bool
    decreases e,
{
    match e {
        ExprView::Variable(_) => inside,
        ExprView::Assign(_, value) => inside && expr_resolvable(inside, *value),
        ExprView::Binary(a, _, b) => expr_resolvable(inside, *a) && expr_resolvable(inside, *b),
        ExprView::Logical(a, _, b) => expr_resolvable(inside, *a) && expr_resolvable(inside, *b),
        ExprView::Call(c, _, args) => expr_resolvable(inside, *c) && exprs_resolvable(inside, args),
        ExprView::Grouping(b) => expr_resolvable(inside, *b),
        ExprView::Unary(_, b) => expr_resolvable(inside, *b),
        ExprView::Literal(_) => true,
        ExprView::Lambda(_, _) => false,
        ExprView::Empty => false,
    }
}

/// Every expression of `v` is resolvable.
pub open spec fn exprs_resolvable(inside: bool, v: Seq<ExprView>) -> bool
    decreases v,
{
    v.len() == 0 || (exprs_resolvable(inside, v.drop_last()) && expr_resolvable(inside, v.last()))
}

/// Resolving `s` (inside some scope or not) can go through.
pub open spec fn stmt_resolvable(inside: bool, s: StmtView) -> bool
    decreases s,
{
    match s {
        StmtView::Block(v) => stmts_resolvable(true, v),
        StmtView::Var(_, init) => match init {
            Some(e) => expr_resolvable(inside, e),
            None => true,
        },
        StmtView::Function(_, _, body) => stmts_resolvable(true, body),
        StmtView::Expression(e) => expr_resolvable(inside, e),
        StmtView::Print(e) => expr_resolvable(inside, e),
        StmtView::If(c, t, el) => expr_resolvable(inside, c) && stmt_resolvable(inside, *t) && match el {
            Some(x) => stmt_resolvable(inside, *x),
            None => true,
        },
        StmtView::Return(_, v) => match v {
            Some(e) => expr_resolvable(inside, e),
            None => true,
        },
        StmtView::While(c, b) => expr_resolvable(inside, c) && stmt_resolvable(inside, *b),
        StmtView::Break(_) => true,
    }
}

/// Every statement of `v` is resolvable.
pub open spec fn stmts_resolvable(inside: bool, v: Seq<StmtView>) -> bool
    decreases v,
{
    v.len() == 0 || (stmts_resolvable(inside, v.drop_last()) && stmt_resolvable(inside, v.last()))
}

/// Resolving a statement leaves as many scopes open as it found.
pub proof fn lemma_stmt_events_len(scopes: Seq<Scope>, s: StmtView)
    ensures
        stmt_events(scopes, s).0.len() == scopes.len(),
    decreases s,
{
    match s {
        StmtView::Block(v) => {
            lemma_stmts_events_len(scopes.push(Map::empty()), v);
        },
        StmtView::Function(name, params, body) => {
            let sc1 = declared(declared(scopes, name.lexeme, false), name.lexeme, true);
            lemma_with_params_len(sc1.push(Map::empty()), params);
            lemma_stmts_events_len(with_params(sc1.push(Map::empty()), params), body);
        },
        StmtView::If(c, t, el) => {
            lemma_stmt_events_len(scopes, *t);
            if let Some(x) = el {
                lemma_stmt_events_len(stmt_events(scopes, *t).0, *x);
            }
        },
        StmtView::While(c, b) => {
            lemma_stmt_events_len(scopes, *b);
        },
        _ => {},
    }
}

/// Resolving statements leaves as many scopes open as it found.
pub proof fn lemma_stmts_events_len(scopes: Seq<Scope>, v: Seq<StmtView>)
    ensures
        stmts_events(scopes, v).0.len() == scopes.len(),
    decreases v,
{
    if v.len() > 0 {
        lemma_stmts_events_len(scopes, v.drop_last());
        lemma_stmt_events_len(stmts_events(scopes, v.drop_last()).0, v.last());
    }
}

/// Declaring parameters leaves as many scopes open as it found.
pub proof fn lemma_with_params_len(scopes: Seq<Scope>, params: Seq<TokenView>)
    ensures
        with_params(scopes, params).len() == scopes.len(),
    decreases params.len(),
{
    if params.len() > 0 {
        lemma_with_params_len(scopes, params.drop_last());
    }
}

/// `b` has the scopes of `a`, all but the innermost unchanged.
pub open spec fn outer_kept(a: Seq<Scope>, b: Seq<Scope>) -> bool {
    &&& b.len() == a.len()
    &&& forall|i: int| 0 <= i < a.len() - 1 ==> #[trigger] b[i] == a[i]
}

proof fn lemma_declared_outer(scopes: Seq<Scope>, name: Seq<char>, ready: bool)
    ensures
        outer_kept(scopes, declared(scopes, name, ready)),
{
}

proof fn lemma_with_params_outer(scopes: Seq<Scope>, params: Seq<TokenView>)
    ensures
        outer_kept(scopes, with_params(scopes, params)),
    decreases params.len(),
{
    if params.len() > 0 {
        let p = params.last().lexeme;
        let a = with_params(scopes, params.drop_last());
        lemma_with_params_outer(scopes, params.drop_last());
        lemma_declared_outer(a, p, false);
        lemma_declared_outer(declared(a, p, false), p, true);
    }
}

/// Resolving a statement changes no scope but the innermost one: every
/// outer scope comes back as it was.
pub proof fn law_stmt_keeps_outer_scopes(scopes: Seq<Scope>, s: StmtView)
    ensures
        outer_kept(scopes, stmt_events(scopes, s).0),
    decreases s,
{
    match s {
        StmtView::Block(v) => {
            let p = scopes.push(Map::<Seq<char>, bool>::empty());
            law_stmts_keep_outer_scopes(p, v);
            let b = stmts_events(p, v).0;
            assert forall|i: int| 0 <= i < scopes.len() implies #[trigger] b[i] == scopes[i] by {
                assert(b[i] == p[i]);
            }
            assert(popped(b) =~= scopes);
        },
        StmtView::Var(name, init) => {
            lemma_declared_outer(scopes, name.lexeme, false);
            lemma_declared_outer(declared(scopes, name.lexeme, false), name.lexeme, true);
        },
        StmtView::Function(name, params, body) => {
            let sc0 = declared(scopes, name.lexeme, false);
            let sc1 = declared(sc0, name.lexeme, true);
            lemma_declared_outer(scopes, name.lexeme, false);
            lemma_declared_outer(sc0, name.lexeme, true);
            let p = sc1.push(Map::<Seq<char>, bool>::empty());
            lemma_with_params_outer(p, params);
            let q = with_params(p, params);
            law_stmts_keep_outer_scopes(q, body);
            let r = stmts_events(q, body).0;
            assert forall|i: int| 0 <= i < scopes.len() - 1 implies #[trigger] popped(r)[i] == scopes[i] by {
                assert(r[i] == q[i]);
                assert(q[i] == p[i]);
                assert(p[i] == sc1[i]);
                assert(sc1[i] == sc0[i]);
            }
        },
        StmtView::If(c, t, el) => {
            law_stmt_keeps_outer_scopes(scopes, *t);
            let sc1 = stmt_events(scopes, *t).0;
            if let Some(x) = el {
                law_stmt_keeps_outer_scopes(sc1, *x);
                let sc2 = stmt_events(sc1, *x).0;
                assert forall|i: int| 0 <= i < scopes.len() - 1 implies #[trigger] sc2[i] == scopes[i] by {
                    assert(sc2[i] == sc1[i]);
                }
            }
        },
        StmtView::While(c, b) => {
            law_stmt_keeps_outer_scopes(scopes, *b);
        },
        _ => {},
    }
}

/// Resolving statements changes no scope but the innermost one.
pub proof fn law_stmts_keep_outer_scopes(scopes: Seq<Scope>, v: Seq<StmtView>)
    ensures
        outer_kept(scopes, stmts_events(scopes, v).0),
    decreases v,
{
    if v.len() > 0 {
        law_stmts_keep_outer_scopes(scopes, v.drop_last());
        let sc1 = stmts_events(scopes, v.drop_last()).0;
        law_stmt_keeps_outer_scopes(sc1, v.last());
        let sc2 = stmt_events(sc1, v.last()).0;
        assert forall|i: int| 0 <= i < scopes.len() - 1 implies #[trigger] sc2[i] == scopes[i] by {
            assert(sc2[i] == sc1[i]);
        }
    }
}

/// The map a scope's entries stand for (a later entry wins).
pub open spec fn scope_map(b: Seq<(Seq<char>, bool)>) -> Scope
    decreases b.len(),
{
    if b.len() == 0 {
        Map::empty()
    } else {
        scope_map(b.drop_last()).insert(b.last().0, b.last().1)
    }
}

/// Walks statements and records, in an interpreter, how many scopes out
/// each variable it reads or assigns is declared.
pub struct Resolver {
    pub(crate) interpreter: Interpreter,
    pub(crate) scopes: Vec<Vec<(String, bool)>>,
}

impl Resolver {
    /// The open scopes, outermost first.
    pub closed spec fn scope_view(&self) -> Seq<Scope> {
        self.scopes@.map_values(|s: Vec<(String, bool)>| scope_map(s@.map_values(|p: (String, bool)| (p.0@, p.1))))
    }

    /// The interpreter that receives the resolutions and the errors.
    pub closed spec fn interpreter_view(&self) -> Interpreter {
        self.interpreter
    }

    /// A resolver with no scope open.
    pub fn new(interpreter: Interpreter) -> (r: Self)
        ensures
            r.scope_view() == Seq::<Scope>::empty(),
            r.interpreter_view() == interpreter,
    {
        let r = Self { interpreter, scopes: Vec::new() };
        assert(r.scope_view() =~= Seq::<Scope>::empty());
        r
    }

    /// The interpreter, handed back.
    pub fn into_interpreter(self) -> (r: Interpreter)
        ensures
            r == self.interpreter_view(),
    {
        self.interpreter
    }

    fn begin_scope(&mut self)
        ensures
            final(self).scope_view() == old(self).scope_view().push(Map::empty()),
            final(self).interpreter == old(self).interpreter,
    {
        self.scopes.push(Vec::new());
        proof {
            assert(scope_map(Seq::<(Seq<char>, bool)>::empty()) == Map::<Seq<char>, bool>::empty());
            assert(self.scope_view() =~= old(self).scope_view().push(Map::empty()));
        }
    }

    fn end_scope(&mut self)
        ensures
            final(self).scope_view() == popped(old(self).scope_view()),
            final(self).interpreter == old(self).interpreter,
    {
        if self.scopes.len() > 0 {
            self.scopes.pop();
            proof {
                assert(self.scope_view() =~= old(self).scope_view().drop_last());
            }
        }
    }

    /// Enters `name` in the innermost scope with the flag `ready`.
    fn enter(&mut self, name: &Token, ready: bool)
        ensures
            final(self).scope_view() == declared(old(self).scope_view(), name.lexeme@, ready),
            final(self).interpreter == old(self).interpreter,
    {
        if self.scopes.len() == 0 {
            return;
        }
        let last = self.scopes.len() - 1;
        let ghost entries = self.scopes@[last as int]@.map_values(|p: (String, bool)| (p.0@, p.1));
        let mut scope = self.scopes.pop().unwrap();
        scope.push((name.lexeme.clone(), ready));
        proof {
            let e2 = scope@.map_values(|p: (String, bool)| (p.0@, p.1));
            assert(e2.drop_last() =~= entries);
            assert(scope_map(e2) == scope_map(entries).insert(name.lexeme@, ready));
        }
        self.scopes.push(scope);
        proof {
            assert(self.scope_view() =~= declared(old(self).scope_view(), name.lexeme@, ready));
        }
    }

    fn declare(&mut self, name: Token)
        ensures
            final(self).scope_view() == declared(old(self).scope_view(), name.lexeme@, false),
            final(self).interpreter == old(self).interpreter,
    {
        self.enter(&name, false);
    }

    fn define(&mut self, name: Token)
        ensures
            final(self).scope_view() == declared(old(self).scope_view(), name.lexeme@, true),
            final(self).interpreter == old(self).interpreter,
    {
        self.enter(&name, true);
    }

    /// Whether the scope at `index` declares `name`.
    fn scope_has(&self, index: usize, name: &String) -> (r: bool)
        requires
            index < self.scope_view().len(),
        ensures
            r == self.scope_view()[index as int].contains_key(name@),
    {
        let scope = &self.scopes[index];
        let ghost entries = scope@.map_values(|p: (String, bool)| (p.0@, p.1));
        let n = scope.len();
        let mut j: usize = n;
        while j > 0
            invariant
                j <= n,
                n == scope@.len(),
                entries == scope@.map_values(|p: (String, bool)| (p.0@, p.1)),
                self.scope_view()[index as int] == scope_map(entries),
                forall|k: int| j <= k < n ==> scope@[k].0@ != name@,
            decreases j,
        {
            j = j - 1;
            if scope[j].0 == *name {
                proof {
                    lemma_scope_map_has(entries, j as int);
                }
                return true;
            }
        }
        proof {
            lemma_scope_map_lacks(entries, name@);
        }
        false
    }

    /// The flag of `name` in the innermost scope, if it is there.
    fn innermost_flag(&self, name: &String) -> (r: Option<bool>)
        requires
            self.scope_view().len() > 0,
        ensures
            match r {
                Some(b) => self.scope_view().last().contains_key(name@) && self.scope_view().last()[name@] == b,
                None => !self.scope_view().last().contains_key(name@),
            },
    {
        let index = self.scopes.len() - 1;
        let scope = &self.scopes[index];
        let ghost entries = scope@.map_values(|p: (String, bool)| (p.0@, p.1));
        let n = scope.len();
        let mut j: usize = n;
        while j > 0
            invariant
                j <= n,
                n == scope@.len(),
                entries == scope@.map_values(|p: (String, bool)| (p.0@, p.1)),
                self.scope_view().last() == scope_map(entries),
                forall|k: int| j <= k < n ==> scope@[k].0@ != name@,
            decreases j,
        {
            j = j - 1;
            if scope[j].0 == *name {
                proof {
                    lemma_scope_map_has(entries, j as int);
                }
                return Some(scope[j].1);
            }
        }
        proof {
            lemma_scope_map_lacks(entries, name@);
        }
        None
    }

    /// Records, for each open scope that declares `name`, innermost first,
    /// its distance as the depth of `expr`.
    fn resolve_local(&mut self, expr: &Expr, name: &Token)
        requires
            old(self).scope_view().len() > 0,
        ensures
            final(self).scope_view() == old(self).scope_view(),
            final(self).interpreter.resolve_state() == crate::resolver::applied(
                old(self).interpreter.resolve_state(),
                local_events(old(self).scope_view(), expr.view(), name.lexeme@, old(self).scope_view().len() as int),
            ),
            final(self).interpreter.same_but_resolution(&old(self).interpreter),
            final(self).interpreter.wf() == old(self).interpreter.wf(),
    {
        let n = self.scopes.len();
        let ghost sc = self.scope_view();
        let ghost st0 = self.interpreter.resolve_state();
        let mut k: usize = 0;
        proof {
            Interpreter::lemma_resolution_refl(&self.interpreter);
        }
        while k < n
            invariant
                n == self.scopes@.len(),
                k <= n,
                sc == self.scope_view(),
                sc == old(self).scope_view(),
                self.interpreter.resolve_state() == crate::resolver::applied(st0, local_events(sc, expr.view(), name.lexeme@, k as int)),
                st0 == old(self).interpreter.resolve_state(),
                self.interpreter.same_but_resolution(&old(self).interpreter),
                self.interpreter.wf() == old(self).interpreter.wf(),
            decreases n - k,
        {
            let i = n - 1 - k;
            let ghost before = self.interpreter;
            let ghost ev = local_events(sc, expr.view(), name.lexeme@, k as int);
            if self.scope_has(i, &name.lexeme) {
                self.interpreter.resolve(expr.clone(), k as u32);
                proof {
                    Interpreter::lemma_resolution_trans(&old(self).interpreter, &before, &self.interpreter);
                    assert(local_events(sc, expr.view(), name.lexeme@, k + 1) == ev.push(ResolveEvent::Depth(expr.view(), k as u32)));
                    assert(ev.push(ResolveEvent::Depth(expr.view(), k as u32)).drop_last() =~= ev);
                }
            } else {
                assert(local_events(sc, expr.view(), name.lexeme@, k + 1) == ev);
            }
            k = k + 1;
        }
    }
}

proof fn lemma_scope_map_has(b: Seq<(Seq<char>, bool)>, j: int)
    requires
        0 <= j < b.len(),
        forall|k: int| j < k < b.len() ==> b[k].0 != b[j].0,
    ensures
        scope_map(b).contains_key(b[j].0),
        scope_map(b)[b[j].0] == b[j].1,
    decreases b.len(),
{
    if j < b.len() - 1 {
        lemma_scope_map_has(b.drop_last(), j);
    }
}

proof fn lemma_scope_map_lacks(b: Seq<(Seq<char>, bool)>, name: Seq<char>)
    requires
        forall|k: int| 0 <= k < b.len() ==> b[k].0 != name,
    ensures
        !scope_map(b).contains_key(name),
    decreases b.len(),
{
    if b.len() > 0 {
        lemma_scope_map_lacks(b.drop_last(), name);
    }
}

/// Each expression of a resolvable list is resolvable.
pub proof fn lemma_exprs_resolvable(inside: bool, v: Seq<ExprView>)
    requires
        exprs_resolvable(inside, v),
    ensures
        forall|i: int| 0 <= i < v.len() ==> expr_resolvable(inside, #[trigger] v[i]),
    decreases v.len(),
{
    if v.len() > 0 {
        lemma_exprs_resolvable(inside, v.drop_last());
        assert forall|i: int| 0 <= i < v.len() implies expr_resolvable(inside, #[trigger] v[i]) by {
            if i < v.len() - 1 {
                assert(v[i] == v.drop_last()[i]);
            }
        }
    }
}

/// Each statement of a resolvable list is resolvable.
pub proof fn lemma_stmts_resolvable(inside: bool, v: Seq<StmtView>)
    requires
        stmts_resolvable(inside, v),
    ensures
        forall|i: int| 0 <= i < v.len() ==> stmt_resolvable(inside, #[trigger] v[i]),
    decreases v.len(),
{
    if v.len() > 0 {
        lemma_stmts_resolvable(inside, v.drop_last());
        assert forall|i: int| 0 <= i < v.len() implies stmt_resolvable(inside, #[trigger] v[i]) by {
            if i < v.len() - 1 {
                assert(v[i] == v.drop_last()[i]);
            }
        }
    }
}

impl Resolver {
    #[verifier::loop_isolation(false)]
    fn resolve_expr(&mut self, expr: &Expr)
        requires
            expr_resolvable(old(self).scope_view().len() > 0, expr.view()),
        ensures
            final(self).scope_view() == old(self).scope_view(),
            final(self).interpreter.resolve_state() == applied(
                old(self).interpreter.resolve_state(),
                expr_events(old(self).scope_view(), expr.view()),
            ),
            final(self).interpreter.same_but_resolution(&old(self).interpreter),
            final(self).interpreter.wf() == old(self).interpreter.wf(),
        decreases *expr,
    {
        let ghost sc = self.scope_view();
        let ghost st0 = self.interpreter.resolve_state();
        match expr {
            Expr::Variable(name) => {
                let ghost first = if reads_own_initializer(sc, name.lexeme@) {
                    seq![ResolveEvent::SelfRead(name@)]
                } else {
                    Seq::empty()
                };
                proof {
                    Interpreter::lemma_resolution_refl(&self.interpreter);
                }
                if self.scopes.len() > 0 {
                    if let Some(false) = self.innermost_flag(&name.lexeme) {
                        let ghost before = self.interpreter;
                        self.interpreter.log_error(
                            name.clone(),
                            String::from_str("Can't read local variable in its own initializer."),
                        );
                        proof {
                            Interpreter::lemma_resolution_refl(&before);
                            assert(applied(st0, first) == step(applied(st0, first.drop_last()), first.last()));
                            assert(first.drop_last() =~= Seq::<ResolveEvent>::empty());
                        }
                    }
                }
                proof {
                    if !reads_own_initializer(sc, name.lexeme@) {
                        assert(applied(st0, first) == st0);
                    }
                }
                let ghost mid = self.interpreter;
                self.resolve_local(expr, name);
                proof {
                    Interpreter::lemma_resolution_trans(&old(self).interpreter, &mid, &self.interpreter);
                    lemma_applied_concat(st0, first, local_events(sc, expr.view(), name.lexeme@, sc.len() as int));
                }
            },
            Expr::Assign(name, value) => {
                self.resolve_expr(value);
                let ghost mid = self.interpreter;
                let ghost st1 = self.interpreter.resolve_state();
                self.resolve_local(expr, name);
                proof {
                    Interpreter::lemma_resolution_trans(&old(self).interpreter, &mid, &self.interpreter);
                    lemma_applied_concat(st0, expr_events(sc, value.view()), local_events(sc, expr.view(), name.lexeme@, sc.len() as int));
                }
            },
            Expr::Binary(left, _, right) | Expr::Logical(left, _, right) => {
                self.resolve_expr(left);
                let ghost mid = self.interpreter;
                self.resolve_expr(right);
                proof {
                    Interpreter::lemma_resolution_trans(&old(self).interpreter, &mid, &self.interpreter);
                    lemma_applied_concat(st0, expr_events(sc, left.view()), expr_events(sc, right.view()));
                }
            },
            Expr::Call(callee, paren, arguments) => {
                self.resolve_expr(callee);
                let ghost args = crate::expr::exprs_view((**arguments)@);
                let ghost ev0 = expr_events(sc, callee.view());
                proof {
                    assert(expr.view() == ExprView::Call(Box::new(callee.view()), paren@, args));
                    lemma_exprs_resolvable(sc.len() > 0, args);
                    assert(args.take(0) =~= Seq::<ExprView>::empty());
                    assert(ev0 + exprs_events(sc, args.take(0)) =~= ev0);
                }
                let n = arguments.len();
                for i in 0..n
                    invariant
                        n == arguments@.len(),
                        args == crate::expr::exprs_view((**arguments)@),
                        *expr == Expr::Call(*callee, *paren, *arguments),
                        forall|j: int| 0 <= j < args.len() ==> expr_resolvable(sc.len() > 0, #[trigger] args[j]),
                        sc == self.scope_view(),
                        self.interpreter.resolve_state() == applied(st0, ev0 + exprs_events(sc, args.take(i as int))),
                        self.interpreter.same_but_resolution(&old(self).interpreter),
                        self.interpreter.wf() == old(self).interpreter.wf(),
                {
                    assert(i < arguments@.len());
                    assert(decreases_to!(*expr => arguments@[i as int]));
                    assert(args[i as int] == arguments@[i as int].view());
                    let ghost mid = self.interpreter;
                    self.resolve_expr(&arguments[i]);
                    proof {
                        Interpreter::lemma_resolution_trans(&old(self).interpreter, &mid, &self.interpreter);
                        let pre = ev0 + exprs_events(sc, args.take(i as int));
                        lemma_applied_concat(st0, pre, expr_events(sc, args[i as int]));
                        assert(args.take(i + 1).drop_last() =~= args.take(i as int));
                        assert(args.take(i + 1).last() == args[i as int]);
                        assert(pre + expr_events(sc, args[i as int]) =~= ev0 + exprs_events(sc, args.take(i + 1)));
                    }
                }
                proof {
                    assert(args.take(n as int) =~= args);
                }
            },
            Expr::Grouping(inner) | Expr::Unary(_, inner) => {
                self.resolve_expr(inner);
            },
            Expr::Literal(_) => {
                proof {
                    Interpreter::lemma_resolution_refl(&self.interpreter);
                }
            },
            _ => {
                proof {
                    assert(false);
                }
            },
        }
    }
}

impl Resolver {
    fn resolve_stmt(&mut self, stmt: &Stmt)
        requires
            stmt_resolvable(old(self).scope_view().len() > 0, stmt.view()),
        ensures
            final(self).scope_view() == stmt_events(old(self).scope_view(), stmt.view()).0,
            final(self).interpreter.resolve_state() == applied(
                old(self).interpreter.resolve_state(),
                stmt_events(old(self).scope_view(), stmt.view()).1,
            ),
            final(self).interpreter.same_but_resolution(&old(self).interpreter),
            final(self).interpreter.wf() == old(self).interpreter.wf(),
        decreases *stmt, 0int,
    {
        let ghost sc = self.scope_view();
        let ghost st0 = self.interpreter.resolve_state();
        proof {
            Interpreter::lemma_resolution_refl(&self.interpreter);
        }
        match stmt {
            Stmt::Block(stmts) => {
                self.begin_scope();
                self.resolve_stmts(stmts);
                self.end_scope();
            },
            Stmt::Var(name, initializer) => {
                self.declare(name.clone());
                if let Some(expr) = initializer {
                    self.resolve_expr(expr);
                } else {
                    assert(applied(st0, Seq::empty()) == st0);
                }
                self.define(name.clone());
            },
            Stmt::Function(name, params, body) => {
                self.declare(name.clone());
                self.define(name.clone());
                self.resolve_function(params, body);
                proof {
                    assert(stmt.view() == StmtView::Function(name@, tokens_view(params@), stmts_view((**body)@)));
                }
            },
            Stmt::Expression(expr) | Stmt::Print(expr) => {
                self.resolve_expr(expr);
            },
            Stmt::If(condition, then_branch, else_branch) => {
                self.resolve_expr(condition);
                let ghost mid = self.interpreter;
                let ghost ev1 = expr_events(sc, condition.view());
                self.resolve_stmt(then_branch);
                proof {
                    Interpreter::lemma_resolution_trans(&old(self).interpreter, &mid, &self.interpreter);
                    lemma_applied_concat(st0, ev1, stmt_events(sc, then_branch.view()).1);
                }
                proof {
                    lemma_stmt_events_len(sc, then_branch.view());
                }
                if let Some(else_branch) = &**else_branch {
                    let ghost mid2 = self.interpreter;
                    let ghost ev2 = stmt_events(sc, then_branch.view()).1;
                    self.resolve_stmt(else_branch);
                    proof {
                        Interpreter::lemma_resolution_trans(&old(self).interpreter, &mid2, &self.interpreter);
                        lemma_applied_concat(st0, ev1 + ev2, stmt_events(stmt_events(sc, then_branch.view()).0, else_branch.view()).1);
                    }
                }
            },
            Stmt::Return(_, value) => {
                if let Some(expr) = &**value {
                    self.resolve_expr(expr);
                } else {
                    assert(applied(st0, Seq::empty()) == st0);
                }
            },
            Stmt::While(condition, body) => {
                self.resolve_expr(condition);
                let ghost mid = self.interpreter;
                self.resolve_stmt(body);
                proof {
                    Interpreter::lemma_resolution_trans(&old(self).interpreter, &mid, &self.interpreter);
                    lemma_applied_concat(st0, expr_events(sc, condition.view()), stmt_events(sc, body.view()).1);
                }
            },
            Stmt::Break(_) => {
                assert(applied(st0, Seq::empty()) == st0);
            },
        }
    }

    #[verifier::loop_isolation(false)]
    fn resolve_stmts(&mut self, stmts: &Vec<Stmt>)
        requires
            stmts_resolvable(old(self).scope_view().len() > 0, stmts_view(stmts@)),
        ensures
            final(self).scope_view() == stmts_events(old(self).scope_view(), stmts_view(stmts@)).0,
            final(self).interpreter.resolve_state() == applied(
                old(self).interpreter.resolve_state(),
                stmts_events(old(self).scope_view(), stmts_view(stmts@)).1,
            ),
            final(self).interpreter.same_but_resolution(&old(self).interpreter),
            final(self).interpreter.wf() == old(self).interpreter.wf(),
        decreases *stmts, 0int,
    {
        let ghost sc = self.scope_view();
        let ghost st0 = self.interpreter.resolve_state();
        let ghost v = stmts_view(stmts@);
        proof {
            Interpreter::lemma_resolution_refl(&self.interpreter);
            lemma_stmts_resolvable(sc.len() > 0, v);
            assert(v.take(0) =~= Seq::<StmtView>::empty());
        }
        let n = stmts.len();
        for i in 0..n
            invariant
                n == stmts@.len(),
                v == stmts_view(stmts@),
                forall|j: int| 0 <= j < v.len() ==> stmt_resolvable(sc.len() > 0, #[trigger] v[j]),
                self.scope_view() == stmts_events(sc, v.take(i as int)).0,
                self.scope_view().len() == sc.len(),
                self.interpreter.resolve_state() == applied(st0, stmts_events(sc, v.take(i as int)).1),
                self.interpreter.same_but_resolution(&old(self).interpreter),
                self.interpreter.wf() == old(self).interpreter.wf(),
        {
            assert(decreases_to!(*stmts => stmts@[i as int]));
            assert(v[i as int] == stmts@[i as int].view());
            let ghost mid = self.interpreter;
            let ghost sc1 = self.scope_view();
            self.resolve_stmt(&stmts[i]);
            proof {
                Interpreter::lemma_resolution_trans(&old(self).interpreter, &mid, &self.interpreter);
                lemma_stmt_events_len(sc1, v[i as int]);
                let pre = stmts_events(sc, v.take(i as int)).1;
                lemma_applied_concat(st0, pre, stmt_events(sc1, v[i as int]).1);
                assert(v.take(i + 1).drop_last() =~= v.take(i as int));
                assert(v.take(i + 1).last() == v[i as int]);
            }
        }
        proof {
            assert(v.take(n as int) =~= v);
        }
    }

    #[verifier::loop_isolation(false)]
    fn resolve_function(&mut self, params: &Vec<Token>, body: &Box<Vec<Stmt>>)
        requires
            stmts_resolvable(true, stmts_view((**body)@)),
        ensures
            final(self).scope_view() == popped(
                stmts_events(with_params(old(self).scope_view().push(Map::empty()), tokens_view(params@)), stmts_view((**body)@)).0,
            ),
            final(self).interpreter.resolve_state() == applied(
                old(self).interpreter.resolve_state(),
                stmts_events(with_params(old(self).scope_view().push(Map::empty()), tokens_view(params@)), stmts_view((**body)@)).1,
            ),
            final(self).interpreter.same_but_resolution(&old(self).interpreter),
            final(self).interpreter.wf() == old(self).interpreter.wf(),
        decreases *body, 1int,
    {
        let ghost sc0 = old(self).scope_view().push(Map::empty());
        let ghost ps = tokens_view(params@);
        self.begin_scope();
        proof {
            assert(ps.take(0) =~= Seq::<TokenView>::empty());
        }
        let n = params.len();
        for i in 0..n
            invariant
                n == params@.len(),
                ps == tokens_view(params@),
                self.scope_view() == with_params(sc0, ps.take(i as int)),
                self.interpreter == old(self).interpreter,
        {
            self.declare(params[i].clone());
            self.define(params[i].clone());
            proof {
                assert(ps.take(i + 1).drop_last() =~= ps.take(i as int));
                assert(ps.take(i + 1).last() == params@[i as int]@);
            }
        }
        proof {
            assert(ps.take(n as int) =~= ps);
            lemma_with_params_len(sc0, ps);
        }
        self.resolve_stmts(body);
        self.end_scope();
    }

    /// Resolves the statements in order.
    pub fn resolve(&mut self, stmts: Vec<Stmt>)
        requires
            stmts_resolvable(old(self).scope_view().len() > 0, stmts_view(stmts@)),
        ensures
            final(self).scope_view() == stmts_events(old(self).scope_view(), stmts_view(stmts@)).0,
            final(self).interpreter_view().resolve_state() == applied(
                old(self).interpreter_view().resolve_state(),
                stmts_events(old(self).scope_view(), stmts_view(stmts@)).1,
            ),
            final(self).interpreter_view().same_but_resolution(&old(self).interpreter_view()),
            final(self).interpreter_view().wf() == old(self).interpreter_view().wf(),
    {
        self.resolve_stmts(&stmts);
    }
}

/// A list is resolvable when each of its expressions is.
pub proof fn lemma_exprs_resolvable_from_each(inside: bool, v: Seq<ExprView>)
    requires
        forall|i: int| 0 <= i < v.len() ==> expr_resolvable(inside, #[trigger] v[i]),
    ensures
        exprs_resolvable(inside, v),
    decreases v.len(),
{
    if v.len() > 0 {
        assert forall|i: int| 0 <= i < v.drop_last().len() implies expr_resolvable(inside, #[trigger] v.drop_last()[i]) by {
            assert(v.drop_last()[i] == v[i]);
        }
        lemma_exprs_resolvable_from_each(inside, v.drop_last());
        assert(expr_resolvable(inside, v[v.len() - 1]));
    }
}

/// A list is resolvable when each of its statements is.
pub proof fn lemma_stmts_resolvable_from_each(inside: bool, v: Seq<StmtView>)
    requires
        forall|i: int| 0 <= i < v.len() ==> stmt_resolvable(inside, #[trigger] v[i]),
    ensures
        stmts_resolvable(inside, v),
    decreases v.len(),
{
    if v.len() > 0 {
        assert forall|i: int| 0 <= i < v.drop_last().len() implies stmt_resolvable(inside, #[trigger] v.drop_last()[i]) by {
            assert(v.drop_last()[i] == v[i]);
        }
        lemma_stmts_resolvable_from_each(inside, v.drop_last());
        assert(stmt_resolvable(inside, v[v.len() - 1]));
    }
}

/// Whether resolving `expr` (inside some scope or not) can go through.
#[verifier::loop_isolation(false)]
fn expr_is_resolvable(inside: bool, expr: &Expr) -> (r: bool)
    ensures
        r == expr_resolvable(inside, expr.view()),
    decreases *expr,
{
    match expr {
        Expr::Variable(_) => inside,
        Expr::Assign(_, value) => inside && expr_is_resolvable(inside, value),
        Expr::Binary(a, _, b) | Expr::Logical(a, _, b) => expr_is_resolvable(inside, a) && expr_is_resolvable(inside, b),
        Expr::Call(callee, paren, arguments) => {
            let ghost args = crate::expr::exprs_view((**arguments)@);
            proof {
                assert(expr.view() == ExprView::Call(Box::new(callee.view()), paren@, args));
            }
            if !expr_is_resolvable(inside, callee) {
                return false;
            }
            let n = arguments.len();
            for i in 0..n
                invariant
                    n == arguments@.len(),
                    args == crate::expr::exprs_view((**arguments)@),
                    forall|j: int| 0 <= j < i ==> expr_resolvable(inside, #[trigger] args[j]),
            {
                assert(i < arguments@.len());
                assert(decreases_to!(*expr => arguments@[i as int]));
                assert(args[i as int] == arguments@[i as int].view());
                if !expr_is_resolvable(inside, &arguments[i]) {
                    proof {
                        if exprs_resolvable(inside, args) {
                            lemma_exprs_resolvable(inside, args);
                        }
                    }
                    return false;
                }
            }
            proof {
                lemma_exprs_resolvable_from_each(inside, args);
            }
            true
        },
        Expr::Grouping(inner) | Expr::Unary(_, inner) => expr_is_resolvable(inside, inner),
        Expr::Literal(_) => true,
        Expr::Lambda(_, _) | Expr::Empty => false,
    }
}

/// Whether resolving `stmt` (inside some scope or not) can go through.
fn stmt_is_resolvable(inside: bool, stmt: &Stmt) -> (r: bool)
    ensures
        r == stmt_resolvable(inside, stmt.view()),
    decreases *stmt, 0int,
{
    match stmt {
        Stmt::Block(stmts) => stmts_are_resolvable(true, stmts),
        Stmt::Var(_, initializer) => match initializer {
            Some(e) => expr_is_resolvable(inside, e),
            None => true,
        },
        Stmt::Function(name, params, body) => {
            proof {
                assert(stmt.view() == StmtView::Function(name@, tokens_view(params@), stmts_view((**body)@)));
            }
            stmts_are_resolvable(true, &**body)
        },
        Stmt::Expression(e) | Stmt::Print(e) => expr_is_resolvable(inside, e),
        Stmt::If(condition, then_branch, else_branch) => {
            expr_is_resolvable(inside, condition) && stmt_is_resolvable(inside, then_branch) && match &**else_branch {
                Some(x) => stmt_is_resolvable(inside, x),
                None => true,
            }
        },
        Stmt::Return(_, value) => match &**value {
            Some(e) => expr_is_resolvable(inside, e),
            None => true,
        },
        Stmt::While(condition, body) => expr_is_resolvable(inside, condition) && stmt_is_resolvable(inside, body),
        Stmt::Break(_) => true,
    }
}

/// Whether resolving each statement of `stmts` can go through.
#[verifier::loop_isolation(false)]
fn stmts_are_resolvable(inside: bool, stmts: &Vec<Stmt>) -> (r: bool)
    ensures
        r == stmts_resolvable(inside, stmts_view(stmts@)),
    decreases *stmts, 1int,
{
    let ghost v = stmts_view(stmts@);
    let n = stmts.len();
    for i in 0..n
        invariant
            n == stmts@.len(),
            v == stmts_view(stmts@),
            forall|j: int| 0 <= j < i ==> stmt_resolvable(inside, #[trigger] v[j]),
    {
        assert(decreases_to!(*stmts => stmts@[i as int]));
        assert(v[i as int] == stmts@[i as int].view());
        if !stmt_is_resolvable(inside, &stmts[i]) {
            proof {
                if stmts_resolvable(inside, v) {
                    lemma_stmts_resolvable(inside, v);
                }
            }
            return false;
        }
    }
    proof {
        lemma_stmts_resolvable_from_each(inside, v);
    }
    true
}

/// Whether the statements can be resolved from the top level: no variable
/// is read or assigned outside every block, and no function literal or
/// empty expression is met.
pub fn resolvable(stmts: &Vec<Stmt>) -> (r: bool)
    ensures
        r == stmts_resolvable(false, stmts_view(stmts@)),
{
    stmts_are_resolvable(false, stmts)
}

} // verus!
