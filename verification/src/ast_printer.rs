use vstd::prelude::*;

use crate::expr::{Expr, ExprView};
use crate::native_function::{arith_of, Arith, Host};
use crate::token::{literal_text, Literal};

verus! {

broadcast use vstd::std_specs::vec::group_vec_axioms, vstd::seq::group_seq_axioms;

/// The expression can be printed: it holds no function literal and no
/// empty expression.
pub open spec fn printable(e: ExprView) -> bool
    decreases e,
{
    match e {
        ExprView::Literal(_) => true,
        ExprView::Unary(_, r) => printable(*r),
        ExprView::Binary(l, _, r) => printable(*l) && printable(*r),
        ExprView::Grouping(x) => printable(*x),
        ExprView::Variable(_) => true,
        ExprView::Assign(_, v) => printable(*v),
        ExprView::Logical(l, _, r) => printable(*l) && printable(*r),
        ExprView::Call(c, _, args) => printable(*c) && all_printable(args),
        ExprView::Lambda(_, _) => false,
        ExprView::Empty => false,
    }
}

/// Every expression of `v` can be printed.
pub open spec fn all_printable(v: Seq<ExprView>) -> bool
    decreases v,
{
    v.len() == 0 || (all_printable(v.drop_last()) && printable(v.last()))
}

/// The printed form of `e`, a number's text being the host's; `None` where
/// `e` cannot be printed.
pub open spec fn expr_text(ar: Arith, e: ExprView) -> Option<Seq<char>>
    decreases e,
{
    match e {
        ExprView::Literal(l) => Some(literal_text(ar, l)),
        ExprView::Unary(op, r) => match expr_text(ar, *r) {
            Some(t) => Some("("@ + op.lexeme + " "@ + t + ")"@),
            None => None,
        },
        ExprView::Binary(l, op, r) => match (expr_text(ar, *l), expr_text(ar, *r)) {
            (Some(a), Some(b)) => Some("("@ + op.lexeme + " "@ + a + " "@ + b + ")"@),
            _ => None,
        },
        ExprView::Grouping(x) => match expr_text(ar, *x) {
            Some(t) => Some("("@ + "group"@ + " "@ + t + ")"@),
            None => None,
        },
        ExprView::Variable(t) => Some("(var "@ + t.lexeme + ")"@),
        ExprView::Assign(t, v) => match expr_text(ar, *v) {
            Some(a) => Some("(var "@ + t.lexeme + " "@ + a + ")"@),
            None => None,
        },
        ExprView::Logical(l, op, r) => match (expr_text(ar, *l), expr_text(ar, *r)) {
            (Some(a), Some(b)) => Some("("@ + op.lexeme + " "@ + a + " "@ + b + ")"@),
            _ => None,
        },
        ExprView::Call(c, _, args) => match (expr_text(ar, *c), args_text(ar, args)) {
            (Some(a), Some(b)) => Some(a + b + ")"@),
            _ => None,
        },
        _ => None,
    }
}

/// Each argument's printed form followed by a space.
pub open spec fn args_text(ar: Arith, v: Seq<ExprView>) -> Option<Seq<char>>
    decreases v,
{
    if v.len() == 0 {
        Some(Seq::empty())
    } else {
        match (args_text(ar, v.drop_last()), expr_text(ar, v.last())) {
            (Some(a), Some(b)) => Some(a + b + " "@),
            _ => None,
        }
    }
}

/// Writes expressions in a parenthesized prefix form.
pub struct AstPrinter;

impl Default for AstPrinter {
    fn default() -> (r: Self)
        ensures
            r == AstPrinter,
    {
        Self::new()
    }
}

impl AstPrinter {
    pub fn new() -> (r: Self)
        ensures
            r == AstPrinter,
    {
        Self
    }

    /// The parenthesized prefix form of `expr`.
    pub fn print<H: Host>(&self, host: &H, expr: Expr) -> (r: String)
        requires
            printable(expr.view()),
        ensures
            expr_text(arith_of(host), expr.view()) == Some(r@),
    {
        self.output(host, &expr)
    }

    #[verifier::loop_isolation(false)]
    fn output<H: Host>(&self, host: &H, expr: &Expr) -> (r: String)
        requires
            printable(expr.view()),
        ensures
            expr_text(arith_of(host), expr.view()) == Some(r@),
        decreases *expr,
    {
        match expr {
            Expr::Literal(literal) => {
                self.parenthesize_literal(host, literal)
            },
            Expr::Unary(operator, right) => {
                let inner = self.output(host, right);
                parenthesize(&operator.lexeme, &inner, None)
            },
            Expr::Binary(left, operator, right) => {
                let a = self.output(host, left);
                let b = self.output(host, right);
                parenthesize(&operator.lexeme, &a, Some(&b))
            },
            Expr::Grouping(inner) => {
                let a = self.output(host, inner);
                let name = String::from_str("group");
                parenthesize(&name, &a, None)
            },
            Expr::Variable(token) => {
                let mut s = String::from_str("(var ");
                s.append(token.lexeme.as_str());
                s.append(")");
                s
            },
            Expr::Assign(token, value) => {
                let a = self.output(host, value);
                let mut s = String::from_str("(var ");
                s.append(token.lexeme.as_str());
                s.append(" ");
                s.append(a.as_str());
                s.append(")");
                s
            },
            Expr::Logical(left, operator, right) => {
                let a = self.output(host, left);
                let b = self.output(host, right);
                parenthesize(&operator.lexeme, &a, Some(&b))
            },
            Expr::Call(callee, paren, arguments) => {
                let ghost args = crate::expr::exprs_view((**arguments)@);
                proof {
                    assert(expr.view() == ExprView::Call(Box::new(callee.view()), paren@, args));
                    lemma_all_printable(args);
                    assert(args.take(0) =~= Seq::<ExprView>::empty());
                }
                let mut s = self.output(host, callee);
                let ghost ar = arith_of(host);
                let ghost head = s@;
                let n = arguments.len();
                for i in 0..n
                    invariant
                        n == arguments@.len(),
                        ar == arith_of(host),
                        args == crate::expr::exprs_view((**arguments)@),
                        forall|j: int| 0 <= j < args.len() ==> printable(#[trigger] args[j]),
                        expr_text(ar, callee.view()) == Some(head),
                        args_text(ar, args.take(i as int)) matches Some(t) && s@ == head + t,
                {
                    assert(i < arguments@.len());
                    assert(decreases_to!(*expr => arguments@[i as int]));
                    assert(args[i as int] == arguments@[i as int].view());
                    let ghost s0 = s@;
                    let a = self.output(host, &arguments[i]);
                    s.append(a.as_str());
                    s.append(" ");
                    proof {
                        assert(args.take(i + 1).drop_last() =~= args.take(i as int));
                        assert(args.take(i + 1).last() == args[i as int]);
                        let t0 = args_text(ar, args.take(i as int))->0;
                        assert(args_text(ar, args.take(i + 1)) == Some(t0 + a@ + " "@));
                        assert(s@ =~= head + (t0 + a@ + " "@));
                    }
                }
                proof {
                    assert(args.take(n as int) =~= args);
                }
                s.append(")");
                s
            },
            _ => {
                proof {
                    assert(false);
                }
                String::new()
            },
        }
    }

    fn parenthesize_literal<H: Host>(&self, host: &H, literal: &Literal) -> (r: String)
        ensures
            r@ == literal_text(arith_of(host), *literal),
    {
        literal.to_string(host)
    }
}

/// `(name a)`, or `(name a b)` with a second operand.
fn parenthesize(name: &String, a: &String, b: Option<&String>) -> (r: String)
    ensures
        match b {
            Some(b) => r@ == "("@ + name@ + " "@ + a@ + " "@ + b@ + ")"@,
            None => r@ == "("@ + name@ + " "@ + a@ + ")"@,
        },
{
    let mut s = String::from_str("(");
    s.append(name.as_str());
    s.append(" ");
    s.append(a.as_str());
    if let Some(b) = b {
        s.append(" ");
        s.append(b.as_str());
    }
    s.append(")");
    s
}

/// Each expression of a printable list is printable.
proof fn lemma_all_printable(v: Seq<ExprView>)
    requires
        all_printable(v),
    ensures
        forall|i: int| 0 <= i < v.len() ==> printable(#[trigger] v[i]),
    decreases v.len(),
{
    if v.len() > 0 {
        lemma_all_printable(v.drop_last());
        assert forall|i: int| 0 <= i < v.len() implies printable(#[trigger] v[i]) by {
            if i < v.len() - 1 {
                assert(v[i] == v.drop_last()[i]);
            }
        }
    }
}

} // verus!
