use vstd::prelude::*;

use crate::stmt::{stmts_view, Stmt, StmtView};
use crate::token::{tokens_view, Literal, Token, TokenView};

verus! {

broadcast use vstd::std_specs::vec::group_vec_axioms, vstd::seq::group_seq_axioms;

/// An expression of the language.
pub enum Expr {
    Literal(Literal),
    Logical(Box<Expr>, Token, Box<Expr>),
    Unary(Token, Box<Expr>),
    Assign(Token, Box<Expr>),
    Binary(Box<Expr>, Token, Box<Expr>),
    Lambda(Vec<Token>, Box<Vec<Stmt>>),
    Call(Box<Expr>, Token, Box<Vec<Expr>>),
    Grouping(Box<Expr>),
    Variable(Token),
    Empty,
}

/// An expression as plain values: lists as sequences, texts as characters.
pub enum ExprView {
    Literal(Literal),
    Logical(Box<ExprView>, TokenView, Box<ExprView>),
    Unary(TokenView, Box<ExprView>),
    Assign(TokenView, Box<ExprView>),
    Binary(Box<ExprView>, TokenView, Box<ExprView>),
    Lambda(Seq<TokenView>, Seq<StmtView>),
    Call(Box<ExprView>, TokenView, Seq<ExprView>),
    Grouping(Box<ExprView>),
    Variable(TokenView),
    Empty,
}

/// The views of a list of expressions.
pub open spec fn exprs_view(v: Seq<Expr>) -> Seq<ExprView>
    decreases v,
{
    Seq::new(v.len(), |i: int| if 0 <= i < v.len() { v[i].view() } else { ExprView::Empty })
}

impl Expr {
    pub open spec fn view(&self) -> ExprView
        decreases *self,
    {
        match self {
            Expr::Literal(l) => ExprView::Literal(*l),
            Expr::Logical(a, t, b) => ExprView::Logical(Box::new(a.view()), t@, Box::new(b.view())),
            Expr::Unary(t, b) => ExprView::Unary(t@, Box::new(b.view())),
            Expr::Assign(t, b) => ExprView::Assign(t@, Box::new(b.view())),
            Expr::Binary(a, t, b) => ExprView::Binary(Box::new(a.view()), t@, Box::new(b.view())),
            Expr::Lambda(ps, body) => ExprView::Lambda(tokens_view(ps@), stmts_view((**body)@)),
            Expr::Call(c, t, args) => ExprView::Call(Box::new(c.view()), t@, exprs_view((**args)@)),
            Expr::Grouping(e) => ExprView::Grouping(Box::new(e.view())),
            Expr::Variable(t) => ExprView::Variable(t@),
            Expr::Empty => ExprView::Empty,
        }
    }
}

/// Two values are the same key: numbers by their bits, strings by their
/// text, native functions by name and arity; functions of the language are
/// never the same key.
pub open spec fn literal_key_eq(a: Literal, b: Literal) -> bool {
    match (a, b) {
        (Literal::Number(x), Literal::Number(y)) => x == y,
        (Literal::String(x), Literal::String(y)) => x@ == y@,
        (Literal::True, Literal::True) => true,
        (Literal::False, Literal::False) => true,
        (Literal::Nil, Literal::Nil) => true,
        (Literal::NativeFunction(f), Literal::NativeFunction(g)) => f.name@ == g.name@ && f.arity == g.arity,
        _ => false,
    }
}

/// Two tokens are the same key: same type, text, line and value.
pub open spec fn token_key_eq(a: TokenView, b: TokenView) -> bool {
    &&& a.token_type == b.token_type
    &&& a.lexeme == b.lexeme
    &&& a.line == b.line
    &&& match (a.literal, b.literal) {
        (None, None) => true,
        (Some(x), Some(y)) => literal_key_eq(x, y),
        _ => false,
    }
}

/// Two expressions are the same key: the same shape with the same tokens
/// and values; an expression holding a function definition is no key.
pub open spec fn expr_key_eq(a: ExprView, b: ExprView) -> bool
    decreases a,
{
    match (a, b) {
        (ExprView::Literal(x), ExprView::Literal(y)) => literal_key_eq(x, y),
        (ExprView::Logical(a1, t1, b1), ExprView::Logical(a2, t2, b2)) => expr_key_eq(*a1, *a2)
            && token_key_eq(t1, t2) && expr_key_eq(*b1, *b2),
        (ExprView::Unary(t1, b1), ExprView::Unary(t2, b2)) => token_key_eq(t1, t2) && expr_key_eq(*b1, *b2),
        (ExprView::Assign(t1, b1), ExprView::Assign(t2, b2)) => token_key_eq(t1, t2) && expr_key_eq(*b1, *b2),
        (ExprView::Binary(a1, t1, b1), ExprView::Binary(a2, t2, b2)) => expr_key_eq(*a1, *a2)
            && token_key_eq(t1, t2) && expr_key_eq(*b1, *b2),
        (ExprView::Call(c1, t1, x1), ExprView::Call(c2, t2, x2)) => expr_key_eq(*c1, *c2) && token_key_eq(t1, t2)
            && x1.len() == x2.len() && forall|i: int| 0 <= i < x1.len() ==> expr_key_eq(#[trigger] x1[i], x2[i]),
        (ExprView::Grouping(b1), ExprView::Grouping(b2)) => expr_key_eq(*b1, *b2),
        (ExprView::Variable(t1), ExprView::Variable(t2)) => token_key_eq(t1, t2),
        (ExprView::Empty, ExprView::Empty) => true,
        _ => false,
    }
}

fn literal_key_equals(a: &Literal, b: &Literal) -> (r: bool)
    ensures
        r == literal_key_eq(*a, *b),
{
    match (a, b) {
        (Literal::Number(x), Literal::Number(y)) => *x == *y,
        (Literal::String(x), Literal::String(y)) => *x == *y,
        (Literal::True, Literal::True) => true,
        (Literal::False, Literal::False) => true,
        (Literal::Nil, Literal::Nil) => true,
        (Literal::NativeFunction(f), Literal::NativeFunction(g)) => f.name == g.name && f.arity == g.arity,
        _ => false,
    }
}

fn token_key_equals(a: &Token, b: &Token) -> (r: bool)
    ensures
        r == token_key_eq(a@, b@),
{
    if a.token_type != b.token_type || a.lexeme != b.lexeme || a.line != b.line {
        return false;
    }
    match (&a.literal, &b.literal) {
        (None, None) => true,
        (Some(x), Some(y)) => literal_key_equals(x, y),
        _ => false,
    }
}

impl Expr {
    /// Whether the two expressions are the same key (see [`expr_key_eq`]).
    #[verifier::loop_isolation(false)]
    pub fn key_equals(&self, other: &Expr) -> (r: bool)
        ensures
            r == expr_key_eq(self.view(), other.view()),
        decreases *self,
    {
        match (self, other) {
            (Expr::Literal(x), Expr::Literal(y)) => literal_key_equals(x, y),
            (Expr::Logical(a1, t1, b1), Expr::Logical(a2, t2, b2)) => a1.key_equals(a2) && token_key_equals(t1, t2)
                && b1.key_equals(b2),
            (Expr::Unary(t1, b1), Expr::Unary(t2, b2)) => token_key_equals(t1, t2) && b1.key_equals(b2),
            (Expr::Assign(t1, b1), Expr::Assign(t2, b2)) => token_key_equals(t1, t2) && b1.key_equals(b2),
            (Expr::Binary(a1, t1, b1), Expr::Binary(a2, t2, b2)) => a1.key_equals(a2) && token_key_equals(t1, t2)
                && b1.key_equals(b2),
            (Expr::Call(c1, t1, x1), Expr::Call(c2, t2, x2)) => {
                assert(self.view() == ExprView::Call(Box::new(c1.view()), t1@, exprs_view(x1@)));
                assert(other.view() == ExprView::Call(Box::new(c2.view()), t2@, exprs_view(x2@)));
                if !c1.key_equals(c2) || !token_key_equals(t1, t2) || x1.len() != x2.len() {
                    return false;
                }
                let n = x1.len();
                for i in 0..n
                    invariant
                        n == x1@.len(),
                        n == x2@.len(),
                        forall|j: int| 0 <= j < i ==> expr_key_eq(#[trigger] exprs_view(x1@)[j], exprs_view(x2@)[j]),
                {
                    assert(decreases_to!(*self => x1@[i as int]));
                    if !x1[i].key_equals(&x2[i]) {
                        assert(exprs_view(x1@)[i as int] == x1@[i as int].view());
                        assert(exprs_view(x2@)[i as int] == x2@[i as int].view());
                        return false;
                    }
                }
                true
            },
            (Expr::Grouping(b1), Expr::Grouping(b2)) => b1.key_equals(b2),
            (Expr::Variable(t1), Expr::Variable(t2)) => token_key_equals(t1, t2),
            (Expr::Empty, Expr::Empty) => true,
            _ => false,
        }
    }
}

/// A copy of a list of tokens.
pub fn clone_tokens(v: &Vec<Token>) -> (r: Vec<Token>)
    ensures
        r@ == v@,
{
    let mut r: Vec<Token> = Vec::new();
    let n = v.len();
    for i in 0..n
        invariant
            n == v@.len(),
            r@ == v@.subrange(0, i as int),
    {
        r.push(v[i].clone());
        assert(r@ =~= v@.subrange(0, i + 1));
    }
    assert(v@.subrange(0, n as int) =~= v@);
    r
}

/// A copy of a list of expressions.
pub fn clone_exprs(v: &Vec<Expr>) -> (r: Vec<Expr>)
    ensures
        exprs_view(r@) == exprs_view(v@),
    decreases *v,
{
    let mut r: Vec<Expr> = Vec::new();
    let n = v.len();
    for i in 0..n
        invariant
            n == v@.len(),
            r@.len() == i,
            forall|j: int| 0 <= j < i ==> (#[trigger] r@[j]).view() == v@[j].view(),
    {
        assert(decreases_to!(*v => v@[i as int]));
        r.push(v[i].clone());
    }
    assert(exprs_view(r@) =~= exprs_view(v@));
    r
}

impl Clone for Expr {
    fn clone(&self) -> (r: Self)
        ensures
            r.view() == self.view(),
        decreases *self,
    {
        match self {
            Expr::Literal(l) => Expr::Literal(l.clone()),
            Expr::Logical(a, t, b) => Expr::Logical(Box::new((**a).clone()), t.clone(), Box::new((**b).clone())),
            Expr::Unary(t, b) => Expr::Unary(t.clone(), Box::new((**b).clone())),
            Expr::Assign(t, b) => Expr::Assign(t.clone(), Box::new((**b).clone())),
            Expr::Binary(a, t, b) => Expr::Binary(Box::new((**a).clone()), t.clone(), Box::new((**b).clone())),
            Expr::Lambda(ps, body) => Expr::Lambda(clone_tokens(ps), Box::new(crate::stmt::clone_stmts(&**body))),
            Expr::Call(c, t, args) => Expr::Call(Box::new((**c).clone()), t.clone(), Box::new(clone_exprs(&**args))),
            Expr::Grouping(e) => Expr::Grouping(Box::new((**e).clone())),
            Expr::Variable(t) => Expr::Variable(t.clone()),
            Expr::Empty => Expr::Empty,
        }
    }
}

} // verus!
