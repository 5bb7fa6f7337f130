use vstd::prelude::*;

use crate::expr::{clone_tokens, Expr, ExprView};
use crate::token::{tokens_view, Token, TokenView};

verus! {

broadcast use vstd::std_specs::vec::group_vec_axioms, vstd::seq::group_seq_axioms;

/// A statement of the language.
pub enum Stmt {
    Block(Vec<Stmt>),
    Expression(Expr),
    Function(Token, Vec<Token>, Box<Vec<Stmt>>),
    Print(Expr),
    Return(Token, Box<Option<Expr>>),
    If(Expr, Box<Stmt>, Box<Option<Stmt>>),
    While(Expr, Box<Stmt>),
    Var(Token, Option<Expr>),
    Break(Token),
}

/// A statement as plain values: lists as sequences, texts as characters.
pub enum StmtView {
    Block(Seq<StmtView>),
    Expression(ExprView),
    Function(TokenView, Seq<TokenView>, Seq<StmtView>),
    Print(ExprView),
    Return(TokenView, Option<ExprView>),
    If(ExprView, Box<StmtView>, Option<Box<StmtView>>),
    While(ExprView, Box<StmtView>),
    Var(TokenView, Option<ExprView>),
    Break(TokenView),
}

/// The views of a list of statements.
pub open spec fn stmts_view(v: Seq<Stmt>) -> Seq<StmtView>
    decreases v,
{
    Seq::new(v.len(), |i: int| if 0 <= i < v.len() { v[i].view() } else { StmtView::Block(Seq::empty()) })
}

impl Stmt {
    pub open spec fn view(&self) -> StmtView
        decreases *self,
    {
        match self {
            Stmt::Block(v) => StmtView::Block(stmts_view(v@)),
            Stmt::Expression(e) => StmtView::Expression(e.view()),
            Stmt::Function(n, ps, body) => StmtView::Function(n@, tokens_view(ps@), stmts_view((**body)@)),
            Stmt::Print(e) => StmtView::Print(e.view()),
            Stmt::Return(t, v) => StmtView::Return(t@, match &**v {
                Some(e) => Some(e.view()),
                None => None,
            }),
            Stmt::If(c, t, e) => StmtView::If(c.view(), Box::new(t.view()), match &**e {
                Some(s) => Some(Box::new(s.view())),
                None => None,
            }),
            Stmt::While(c, b) => StmtView::While(c.view(), Box::new(b.view())),
            Stmt::Var(t, i) => StmtView::Var(t@, match i {
                Some(e) => Some(e.view()),
                None => None,
            }),
            Stmt::Break(t) => StmtView::Break(t@),
        }
    }
}

/// A copy of a list of statements.
pub fn clone_stmts(v: &Vec<Stmt>) -> (r: Vec<Stmt>)
    ensures
        stmts_view(r@) == stmts_view(v@),
    decreases *v,
{
    let mut r: Vec<Stmt> = Vec::new();
    let n = v.len();
    for i in 0..n
        invariant
            n == v@.len(),
            r@.len() == i,
            forall|j: int| 0 <= j < i ==> (#[trigger] r@[j]).view() == v@[j].view(),
    {
        assert(decreases_to!(*v => v@[i as int]));
        r.push(v[i].clone());
    }
    assert(stmts_view(r@) =~= stmts_view(v@));
    r
}

impl Clone for Stmt {
    fn clone(&self) -> (r: Self)
        ensures
            r.view() == self.view(),
        decreases *self,
    {
        match self {
            Stmt::Block(v) => Stmt::Block(clone_stmts(v)),
            Stmt::Expression(e) => Stmt::Expression(e.clone()),
            Stmt::Function(n, ps, body) => Stmt::Function(n.clone(), clone_tokens(ps), Box::new(clone_stmts(&**body))),
            Stmt::Print(e) => Stmt::Print(e.clone()),
            Stmt::Return(t, v) => Stmt::Return(t.clone(), Box::new(match &**v {
                Some(e) => Some(e.clone()),
                None => None,
            })),
            Stmt::If(c, t, e) => Stmt::If(c.clone(), Box::new((**t).clone()), Box::new(match &**e {
                Some(s) => Some(s.clone()),
                None => None,
            })),
            Stmt::While(c, b) => Stmt::While(c.clone(), Box::new((**b).clone())),
            Stmt::Var(t, i) => Stmt::Var(t.clone(), match i {
                Some(e) => Some(e.clone()),
                None => None,
            }),
            Stmt::Break(t) => Stmt::Break(t.clone()),
        }
    }
}

} // verus!
