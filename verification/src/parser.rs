use vstd::prelude::*;

use crate::error::ParserError;
use crate::interpreter::{expr_ok, expr_view_ok, stmt_ok, stmt_view_ok, stmts_ok};
use crate::expr::{Expr, ExprView};
use crate::stmt::{stmts_view, Stmt, StmtView};
use crate::token::{Literal, Token, TokenType, TokenView};

verus! {

broadcast use vstd::std_specs::vec::group_vec_axioms, vstd::seq::group_seq_axioms;

/// What parsing from a position gives: a result and the position after it,
/// or the token at which parsing failed with its message.
pub type Parsed<T> = Result<(T, int), (Token, Seq<char>)>;

/// The outcome of a parse that could not go on from where its part ended
/// (a part never ends before it starts).
pub open spec fn stuck<T>() -> Parsed<T> {
    Err((arbitrary(), Seq::empty()))
}

/// The token at `pos` is the end of the input.
pub open spec fn at_end(ts: Seq<Token>, pos: int) -> bool {
    ts[pos].token_type == TokenType::Eof
}

/// The token at `pos` is of type `t` and is not the end.
pub open spec fn check(ts: Seq<Token>, pos: int, t: TokenType) -> bool {
    !at_end(ts, pos) && ts[pos].token_type == t
}

/// The token at `pos` is of one of `types` and is not the end.
pub open spec fn matches_any(ts: Seq<Token>, pos: int, types: Seq<TokenType>) -> bool {
    !at_end(ts, pos) && types.contains(ts[pos].token_type)
}

/// The operators of a binary level: 5 `or`, 4 `and`, 3 equality, 2
/// comparison, 1 term, 0 factor.
pub open spec fn level_ops(level: nat) -> Seq<TokenType> {
    if level == 5 {
        seq![TokenType::Or]
    } else if level == 4 {
        seq![TokenType::And]
    } else if level == 3 {
        seq![TokenType::BangEqual, TokenType::EqualEqual]
    } else if level == 2 {
        seq![TokenType::Greater, TokenType::GreaterEqual, TokenType::Less, TokenType::LessEqual, TokenType::Percent]
    } else if level == 1 {
        seq![TokenType::Minus, TokenType::Plus]
    } else {
        seq![TokenType::Slash, TokenType::Star]
    }
}

/// The expression that an operator of a level makes of its operands.
pub open spec fn combine(level: nat, left: ExprView, op: Token, right: ExprView) -> ExprView {
    if level >= 4 {
        ExprView::Logical(Box::new(left), op@, Box::new(right))
    } else {
        ExprView::Binary(Box::new(left), op@, Box::new(right))
    }
}

/// The token `break` that a break statement carries.
pub open spec fn break_token(pos: int) -> TokenView {
    TokenView { token_type: TokenType::Break, lexeme: "break"@, literal: None, line: pos as u32 }
}

/// The end of a consumed token of type `t` at `pos`, with `result`.
pub open spec fn expect<T>(ts: Seq<Token>, pos: int, t: TokenType, message: Seq<char>, result: T) -> Parsed<T> {
    if check(ts, pos, t) {
        Ok((result, pos + 1))
    } else {
        Err((ts[pos], message))
    }
}

/// An operand of a binary level: the next level up, or a unary expression.
pub open spec fn p_operand(ts: Seq<Token>, pos: int, level: nat) -> Parsed<ExprView>
    decreases ts.len() - pos, 3 * level + 2,
{
    if level == 0 {
        p_unary(ts, pos)
    } else {
        p_level(ts, pos, (level - 1) as nat)
    }
}

/// A binary level: an operand followed by operators of the level.
pub open spec fn p_level(ts: Seq<Token>, pos: int, level: nat) -> Parsed<ExprView>
    decreases ts.len() - pos, 3 * level + 4,
{
    match p_operand(ts, pos, level) {
        Ok((e, p1)) => if p1 < pos || p1 >= ts.len() {
            stuck()
        } else {
            p_tail(ts, p1, level, e)
        },
        Err(x) => Err(x),
    }
}

/// The operators of a level and their operands that follow `left`.
pub open spec fn p_tail(ts: Seq<Token>, pos: int, level: nat, left: ExprView) -> Parsed<ExprView>
    decreases ts.len() - pos, 3 * level + 3,
{
    if pos < 0 || pos + 1 >= ts.len() {
        Ok((left, pos))
    } else if matches_any(ts, pos, level_ops(level)) {
        match p_operand(ts, pos + 1, level) {
            Ok((right, p2)) => if p2 < pos + 1 || p2 >= ts.len() {
                stuck()
            } else {
                p_tail(ts, p2, level, combine(level, left, ts[pos], right))
            },
            Err(x) => Err(x),
        }
    } else {
        Ok((left, pos))
    }
}

/// `!` and `-` applied to a primary expression.
pub open spec fn p_unary(ts: Seq<Token>, pos: int) -> Parsed<ExprView>
    decreases ts.len() - pos, 1int,
{
    if pos < 0 || pos + 1 >= ts.len() {
        p_primary(ts, pos)
    } else if matches_any(ts, pos, seq![TokenType::Bang, TokenType::Minus]) {
        match p_unary(ts, pos + 1) {
            Ok((right, p2)) => Ok((ExprView::Unary(ts[pos]@, Box::new(right)), p2)),
            Err(x) => Err(x),
        }
    } else {
        p_primary(ts, pos)
    }
}

/// A literal, a parenthesized expression or a variable.
pub open spec fn p_primary(ts: Seq<Token>, pos: int) -> Parsed<ExprView>
    decreases ts.len() - pos, 0int,
{
    if pos < 0 || pos + 1 >= ts.len() {
        Err((ts[pos], "Expect expression"@))
    } else if matches_any(ts, pos, seq![TokenType::False]) {
        Ok((ExprView::Literal(Literal::False), pos + 1))
    } else if matches_any(ts, pos, seq![TokenType::True]) {
        Ok((ExprView::Literal(Literal::True), pos + 1))
    } else if matches_any(ts, pos, seq![TokenType::Nil]) {
        Ok((ExprView::Literal(Literal::Nil), pos + 1))
    } else if matches_any(ts, pos, seq![TokenType::Number, TokenType::String]) {
        Ok((ExprView::Literal(ts[pos].literal.unwrap()), pos + 1))
    } else if matches_any(ts, pos, seq![TokenType::LeftParen]) {
        match p_expression(ts, pos + 1) {
            Ok((e, p1)) => if p1 < pos + 1 || p1 >= ts.len() {
                stuck()
            } else {
                expect(ts, p1, TokenType::RightParen, "Expect ')' after expression"@, ExprView::Grouping(Box::new(e)))
            },
            Err(x) => Err(x),
        }
    } else if matches_any(ts, pos, seq![TokenType::Identifier]) {
        Ok((ExprView::Variable(ts[pos]@), pos + 1))
    } else {
        Err((ts[pos], "Expect expression"@))
    }
}

/// The token at `pos` can start a primary expression.
pub open spec fn starts_primary(ts: Seq<Token>, pos: int) -> bool {
    !at_end(ts, pos) && {
        let t = ts[pos].token_type;
        t == TokenType::False || t == TokenType::True || t == TokenType::Nil || t == TokenType::Number
            || t == TokenType::String || t == TokenType::LeftParen || t == TokenType::Identifier
    }
}

/// An assignment, or an `or` expression.
pub open spec fn p_assignment(ts: Seq<Token>, pos: int) -> Parsed<ExprView>
    decreases ts.len() - pos, 20int,
{
    match p_level(ts, pos, 5) {
        Ok((e, p1)) => if p1 < pos || p1 >= ts.len() {
            stuck()
        } else if matches_any(ts, p1, seq![TokenType::Equal]) {
            match p_assignment(ts, p1 + 1) {
                Ok((value, p2)) => match e {
                    ExprView::Variable(name) => Ok((ExprView::Assign(name, Box::new(value)), p2)),
                    _ => Err((ts[p1], "Invalid assignment target."@)),
                },
                Err(x) => Err(x),
            }
        } else {
            Ok((e, p1))
        },
        Err(x) => Err(x),
    }
}

/// An expression.
pub open spec fn p_expression(ts: Seq<Token>, pos: int) -> Parsed<ExprView>
    decreases ts.len() - pos, 21int,
{
    p_assignment(ts, pos)
}


/// A declaration: a variable declaration or a statement.
pub open spec fn p_declaration(ts: Seq<Token>, pos: int) -> Parsed<StmtView>
    decreases ts.len() - pos, 30int,
{
    if pos < 0 || pos >= ts.len() {
        stuck()
    } else if matches_any(ts, pos, seq![TokenType::Var]) {
        p_var_declaration(ts, pos + 1)
    } else {
        p_statement(ts, pos)
    }
}

/// The rest of a variable declaration, after `var`.
pub open spec fn p_var_declaration(ts: Seq<Token>, pos: int) -> Parsed<StmtView>
    decreases ts.len() - pos, 29int,
{
    if pos < 0 || pos >= ts.len() {
        stuck()
    } else if !check(ts, pos, TokenType::Identifier) {
        Err((ts[pos], "Expect variable name."@))
    } else if pos + 1 >= ts.len() {
        stuck()
    } else if matches_any(ts, pos + 1, seq![TokenType::Equal]) {
        if pos + 2 >= ts.len() {
            stuck()
        } else {
            match p_expression(ts, pos + 2) {
                Ok((e, p2)) => if p2 < pos + 2 || p2 >= ts.len() {
                    stuck()
                } else {
                    expect(ts, p2, TokenType::Semicolon, "Expect ';' after variable declaration."@,
                        StmtView::Var(ts[pos]@, Some(e)))
                },
                Err(x) => Err(x),
            }
        }
    } else {
        expect(ts, pos + 1, TokenType::Semicolon, "Expect ';' after variable declaration."@,
            StmtView::Var(ts[pos]@, None))
    }
}

/// A statement.
pub open spec fn p_statement(ts: Seq<Token>, pos: int) -> Parsed<StmtView>
    decreases ts.len() - pos, 28int,
{
    if pos < 0 || pos + 1 >= ts.len() {
        p_expr_stmt(ts, pos)
    } else if matches_any(ts, pos, seq![TokenType::For]) {
        p_for(ts, pos + 1)
    } else if matches_any(ts, pos, seq![TokenType::Break]) {
        p_break(ts, pos + 1)
    } else if matches_any(ts, pos, seq![TokenType::If]) {
        p_if(ts, pos + 1)
    } else if matches_any(ts, pos, seq![TokenType::While]) {
        p_while(ts, pos + 1)
    } else if matches_any(ts, pos, seq![TokenType::Print]) {
        p_print(ts, pos + 1)
    } else if matches_any(ts, pos, seq![TokenType::LeftBrace]) {
        match p_block(ts, pos + 1) {
            Ok((ss, p)) => Ok((StmtView::Block(ss), p)),
            Err(x) => Err(x),
        }
    } else {
        p_expr_stmt(ts, pos)
    }
}

/// The rest of a `for` statement, after `for`, as the loop it stands for.
pub open spec fn p_for(ts: Seq<Token>, pos: int) -> Parsed<StmtView>
    decreases ts.len() - pos, 27int,
{
    if pos < 0 || pos >= ts.len() {
        stuck()
    } else if !check(ts, pos, TokenType::LeftParen) {
        Err((ts[pos], "Expect '(' after 'for'."@))
    } else if pos + 1 >= ts.len() {
        stuck()
    } else {
        let p1 = pos + 1;
        let init: Parsed<Option<StmtView>> = if matches_any(ts, p1, seq![TokenType::Semicolon]) {
            Ok((None, p1 + 1))
        } else if matches_any(ts, p1, seq![TokenType::Var]) {
            if p1 + 1 >= ts.len() {
                stuck()
            } else {
                match p_var_declaration(ts, p1 + 1) {
                    Ok((s, p)) => Ok((Some(s), p)),
                    Err(x) => Err(x),
                }
            }
        } else {
            match p_expr_stmt(ts, p1) {
                Ok((s, p)) => Ok((Some(s), p)),
                Err(x) => Err(x),
            }
        };
        match init {
            Ok((i, p2)) => if p2 <= pos || p2 >= ts.len() {
                stuck()
            } else {
                p_for_condition(ts, p2, i)
            },
            Err(x) => Err(x),
        }
    }
}

/// No expression when the token at `pos` is `stop`, else an expression.
pub open spec fn p_optional_expression(ts: Seq<Token>, pos: int, stop: TokenType) -> Parsed<Option<ExprView>>
    decreases ts.len() - pos, 22int,
{
    if !check(ts, pos, stop) {
        match p_expression(ts, pos) {
            Ok((c, p)) => Ok((Some(c), p)),
            Err(x) => Err(x),
        }
    } else {
        Ok((None, pos))
    }
}

/// The condition of a `for` statement and what follows it.
pub open spec fn p_for_condition(ts: Seq<Token>, pos: int, init: Option<StmtView>) -> Parsed<StmtView>
    decreases ts.len() - pos, 26int,
{
    if pos < 0 || pos >= ts.len() {
        stuck()
    } else {
        match p_optional_expression(ts, pos, TokenType::Semicolon) {
            Ok((c, p3)) => if p3 < pos || p3 >= ts.len() {
                stuck()
            } else if !check(ts, p3, TokenType::Semicolon) {
                Err((ts[p3], "Expect ';' after loop condition."@))
            } else {
                p_for_increment(ts, p3 + 1, init, c)
            },
            Err(x) => Err(x),
        }
    }
}

/// The increment and the body of a `for` statement.
pub open spec fn p_for_increment(ts: Seq<Token>, pos: int, init: Option<StmtView>, cond: Option<ExprView>) -> Parsed<StmtView>
    decreases ts.len() - pos, 26int,
{
    if pos < 0 || pos >= ts.len() {
        stuck()
    } else {
        match p_optional_expression(ts, pos, TokenType::RightParen) {
            Ok((i, p5)) => if p5 < pos || p5 >= ts.len() {
                stuck()
            } else if !check(ts, p5, TokenType::RightParen) {
                Err((ts[p5], "Expect ')' after for clauses."@))
            } else {
                match p_statement(ts, p5 + 1) {
                    Ok((body, p7)) => Ok((for_loop(init, cond, i, body), p7)),
                    Err(x) => Err(x),
                }
            },
            Err(x) => Err(x),
        }
    }
}

/// The loop that a `for` statement stands for.
pub open spec fn for_loop(init: Option<StmtView>, cond: Option<ExprView>, incr: Option<ExprView>, body: StmtView) -> StmtView {
    let body1 = match incr {
        Some(i) => StmtView::Block(seq![body, StmtView::Expression(i)]),
        None => body,
    };
    let cond1 = match cond {
        Some(c) => c,
        None => ExprView::Literal(Literal::True),
    };
    let body2 = StmtView::While(cond1, Box::new(body1));
    match init {
        Some(s) => StmtView::Block(seq![s, body2]),
        None => body2,
    }
}

/// The rest of a `while` statement, after `while`.
pub open spec fn p_while(ts: Seq<Token>, pos: int) -> Parsed<StmtView>
    decreases ts.len() - pos, 26int,
{
    if pos < 0 || pos >= ts.len() {
        stuck()
    } else if !check(ts, pos, TokenType::LeftParen) {
        Err((ts[pos], "expect '(' after 'while'."@))
    } else if pos + 1 >= ts.len() {
        stuck()
    } else {
        match p_expression(ts, pos + 1) {
            Ok((c, p2)) => if p2 < pos + 1 || p2 >= ts.len() {
                stuck()
            } else if !check(ts, p2, TokenType::RightParen) {
                Err((ts[p2], "Expect ')' after condition."@))
            } else {
                match p_statement(ts, p2 + 1) {
                    Ok((b, p3)) => Ok((StmtView::While(c, Box::new(b)), p3)),
                    Err(x) => Err(x),
                }
            },
            Err(x) => Err(x),
        }
    }
}

/// The rest of a `break` statement, after `break`.
pub open spec fn p_break(ts: Seq<Token>, pos: int) -> Parsed<StmtView>
    decreases ts.len() - pos, 24int,
{
    if pos < 0 || pos >= ts.len() {
        stuck()
    } else if check(ts, pos, TokenType::Semicolon) {
        Ok((StmtView::Break(break_token(pos + 1)), pos + 1))
    } else {
        Err((ts[pos], "Expect ';' after break keyword."@))
    }
}

/// The rest of an `if` statement, after `if`.
pub open spec fn p_if(ts: Seq<Token>, pos: int) -> Parsed<StmtView>
    decreases ts.len() - pos, 25int,
{
    if pos < 0 || pos >= ts.len() {
        stuck()
    } else if !check(ts, pos, TokenType::LeftParen) {
        Err((ts[pos], "Expect '(' after 'if'."@))
    } else if pos + 1 >= ts.len() {
        stuck()
    } else {
        match p_expression(ts, pos + 1) {
            Ok((c, p2)) => if p2 < pos + 1 || p2 >= ts.len() {
                stuck()
            } else if !check(ts, p2, TokenType::RightParen) {
                Err((ts[p2], "Expect ')' after if condition."@))
            } else {
                match p_statement(ts, p2 + 1) {
                    Ok((t, p3)) => if p3 <= p2 || p3 >= ts.len() {
                        stuck()
                    } else if matches_any(ts, p3, seq![TokenType::Else]) {
                        match p_statement(ts, p3 + 1) {
                            Ok((e, p4)) => Ok((StmtView::If(c, Box::new(t), Some(Box::new(e))), p4)),
                            Err(x) => Err(x),
                        }
                    } else {
                        Ok((StmtView::If(c, Box::new(t), None), p3))
                    },
                    Err(x) => Err(x),
                }
            },
            Err(x) => Err(x),
        }
    }
}

/// An `if` statement keeps what follows its then-branch: when an `else`
/// comes next, its else part is the statement parsed after the `else` and
/// the statement ends where that one does; otherwise it has no else part
/// and ends after its then-branch.
pub proof fn law_if_keeps_its_else(ts: Seq<Token>, pos: int)
    ensures
        p_if(ts, pos) matches Ok((StmtView::If(c, t, el), end)) ==> exists|p2: int, p3: int|
            #[trigger] p_expression(ts, pos + 1) == Ok::<(ExprView, int), (Token, Seq<char>)>((c, p2))
            && p_statement(ts, p2 + 1) == Ok::<(StmtView, int), (Token, Seq<char>)>((*t, p3))
            && if matches_any(ts, p3, seq![TokenType::Else]) {
                p_statement(ts, p3 + 1) matches Ok((e, p4)) && el == Some(Box::new(e)) && end == p4
            } else {
                el is None && end == p3
            },
{
    if p_if(ts, pos) is Ok {
        if let Ok((c, p2)) = p_expression(ts, pos + 1) {
            if let Ok((t, p3)) = p_statement(ts, p2 + 1) {
                assert(p_expression(ts, pos + 1) == Ok::<(ExprView, int), (Token, Seq<char>)>((c, p2)));
            }
        }
    }
}

/// The declarations of a block, after `{`, and its closing `}`.
pub open spec fn p_block(ts: Seq<Token>, pos: int) -> Parsed<Seq<StmtView>>
    decreases ts.len() - pos, 40int,
{
    if pos < 0 || pos >= ts.len() {
        stuck()
    } else if !check(ts, pos, TokenType::RightBrace) && !at_end(ts, pos) {
        match p_declaration(ts, pos) {
            Ok((s, p1)) => if p1 <= pos || p1 >= ts.len() {
                stuck()
            } else {
                match p_block(ts, p1) {
                    Ok((rest, p2)) => Ok((seq![s] + rest, p2)),
                    Err(x) => Err(x),
                }
            },
            Err(x) => Err(x),
        }
    } else {
        expect(ts, pos, TokenType::RightBrace, "Expect '}' after block."@, Seq::empty())
    }
}

/// The rest of a `print` statement, after `print`.
pub open spec fn p_print(ts: Seq<Token>, pos: int) -> Parsed<StmtView>
    decreases ts.len() - pos, 23int,
{
    if pos < 0 || pos >= ts.len() {
        stuck()
    } else {
        match p_expression(ts, pos) {
            Ok((e, p1)) => if p1 < pos || p1 >= ts.len() {
                stuck()
            } else {
                expect(ts, p1, TokenType::Semicolon, "Expected ';' after value."@, StmtView::Print(e))
            },
            Err(x) => Err(x),
        }
    }
}

/// An expression statement.
pub open spec fn p_expr_stmt(ts: Seq<Token>, pos: int) -> Parsed<StmtView>
    decreases ts.len() - pos, 22int,
{
    if pos < 0 || pos >= ts.len() {
        stuck()
    } else {
        match p_expression(ts, pos) {
            Ok((e, p1)) => if p1 < pos || p1 >= ts.len() {
                stuck()
            } else {
                expect(ts, p1, TokenType::Semicolon, "Expect ';' after expression."@, StmtView::Expression(e))
            },
            Err(x) => Err(x),
        }
    }
}

/// The declarations from `pos` to the end of the input.
pub open spec fn p_program(ts: Seq<Token>, pos: int) -> Parsed<Seq<StmtView>>
    decreases ts.len() - pos, 41int,
{
    if pos < 0 || pos >= ts.len() {
        stuck()
    } else if at_end(ts, pos) {
        Ok((Seq::empty(), pos))
    } else {
        match p_declaration(ts, pos) {
            Ok((s, p1)) => if p1 <= pos || p1 >= ts.len() {
                stuck()
            } else {
                match p_program(ts, p1) {
                    Ok((rest, p2)) => Ok((seq![s] + rest, p2)),
                    Err(x) => Err(x),
                }
            },
            Err(x) => Err(x),
        }
    }
}

/// `r` is the statement that the parse `s` describes, and `end` the
/// position after it.
pub open spec fn stmt_outcome(r: Result<Stmt, ParserError>, s: Parsed<StmtView>, end: int) -> bool {
    match s {
        Ok((v, p)) => (r matches Ok(x) && x.view() == v) && end == p,
        Err((t, m)) => r matches Err(err) && err.token == t && err.message@ == m,
    }
}

/// `r` are the statements that the parse `s` describes, and `end` the
/// position after them.
pub open spec fn stmts_outcome(r: Result<Vec<Stmt>, ParserError>, s: Parsed<Seq<StmtView>>, end: int) -> bool {
    match s {
        Ok((v, p)) => (r matches Ok(x) && stmts_view(x@) == v) && end == p,
        Err((t, m)) => r matches Err(err) && err.token == t && err.message@ == m,
    }
}

/// `t` is a keyword that starts a declaration or a statement.
pub open spec fn starts_declaration(t: TokenType) -> bool {
    t == TokenType::Class || t == TokenType::For || t == TokenType::Fun || t == TokenType::If
        || t == TokenType::Print || t == TokenType::Return || t == TokenType::Var || t == TokenType::While
}

/// Where synchronizing goes on from `pos`, once past the first token.
pub open spec fn sync_from(ts: Seq<Token>, pos: int) -> int
    decreases ts.len() - pos,
{
    if pos <= 0 || pos >= ts.len() || at_end(ts, pos) {
        pos
    } else if ts[pos - 1].token_type == TokenType::Semicolon {
        pos
    } else if starts_declaration(ts[pos].token_type) {
        pos
    } else {
        sync_from(ts, pos + 1)
    }
}

/// `r` with the statements `ss` put before those it holds.
pub open spec fn prepend_stmts(ss: Seq<StmtView>, r: Parsed<Seq<StmtView>>) -> Parsed<Seq<StmtView>> {
    match r {
        Ok((rest, p)) => Ok((ss + rest, p)),
        Err(x) => Err(x),
    }
}

proof fn lemma_prepend_stmts(a: Seq<StmtView>, b: Seq<StmtView>, r: Parsed<Seq<StmtView>>)
    ensures
        prepend_stmts(a, prepend_stmts(b, r)) == prepend_stmts(a + b, r),
{
    match r {
        Ok((rest, p)) => {
            assert(a + (b + rest) =~= (a + b) + rest);
        },
        Err(x) => {},
    }
}

/// The view of an optional statement.
pub open spec fn opt_stmt_view(s: Option<Stmt>) -> Option<StmtView> {
    match s {
        Some(x) => Some(x.view()),
        None => None,
    }
}

/// The view of an optional expression.
pub open spec fn opt_expr_view(e: Option<Expr>) -> Option<ExprView> {
    match e {
        Some(x) => Some(x.view()),
        None => None,
    }
}

/// The loop that a `for` statement stands for, built of its parts.
fn desugar_for(initializer: Option<Stmt>, condition: Option<Expr>, increment: Option<Expr>, body: Stmt) -> (r: Stmt)
    ensures
        (initializer matches Some(i) ==> stmt_ok(i)) && (condition matches Some(c) ==> expr_ok(c))
            && (increment matches Some(i) ==> expr_ok(i)) && stmt_ok(body) ==> stmt_ok(r),
        r.view() == for_loop(opt_stmt_view(initializer), opt_expr_view(condition), opt_expr_view(increment), body.view()),
{
    let ghost init_v = opt_stmt_view(initializer);
    let ghost cond_v = opt_expr_view(condition);
    let ghost incr_v = opt_expr_view(increment);
    let ghost body_v = body.view();
    let ghost parts_ok = (init_v matches Some(i) ==> stmt_view_ok(i)) && (cond_v matches Some(c) ==> expr_view_ok(c))
        && (incr_v matches Some(i) ==> expr_view_ok(i)) && stmt_view_ok(body_v);
    let mut body = body;
    if let Some(increment) = increment {
        body = Stmt::Block(two_stmts(body, Stmt::Expression(increment)));
    }
    let ghost body1 = match incr_v {
        Some(i) => StmtView::Block(seq![body_v, StmtView::Expression(i)]),
        None => body_v,
    };
    assert(body.view() == body1);
    let condition = match condition {
        Some(c) => c,
        None => Expr::Literal(Literal::True),
    };
    let ghost cond1 = match cond_v {
        Some(c) => c,
        None => ExprView::Literal(Literal::True),
    };
    assert(condition.view() == cond1);
    body = Stmt::While(condition, Box::new(body));
    assert(body.view() == StmtView::While(cond1, Box::new(body1)));
    proof {
        if parts_ok {
            if let Some(i) = incr_v {
                lemma_pair_ok(body_v, StmtView::Expression(i));
            }
            assert(stmt_view_ok(body1));
            assert(expr_view_ok(cond1));
            assert(stmt_view_ok(StmtView::While(cond1, Box::new(body1))));
            if let Some(i) = init_v {
                lemma_pair_ok(i, body.view());
            }
        }
    }
    if let Some(initializer) = initializer {
        body = Stmt::Block(two_stmts(initializer, body));
    }
    body
}

proof fn lemma_pair_ok(a: StmtView, b: StmtView)
    requires
        stmt_view_ok(a),
        stmt_view_ok(b),
    ensures
        stmt_view_ok(StmtView::Block(seq![a, b])),
{
    let v = seq![a, b];
    assert(v[0] == a && v[1] == b);
    assert(forall|j: int| 0 <= j < v.len() ==> stmt_view_ok(#[trigger] v[j]));
}

/// The list of the statements `a` and `b`.
fn two_stmts(a: Stmt, b: Stmt) -> (r: Vec<Stmt>)
    ensures
        stmts_view(r@) == seq![a.view(), b.view()],
{
    let ghost av = a.view();
    let ghost bv = b.view();
    let r = vec![a, b];
    assert(stmts_view(r@) =~= seq![av, bv]);
    r
}

/// `r` is what the parse `s` describes, and `end` the position after it.
pub open spec fn expr_outcome(r: Result<Expr, ParserError>, s: Parsed<ExprView>, end: int) -> bool {
    match s {
        Ok((e, p)) => (r matches Ok(x) && x.view() == e) && end == p,
        Err((t, m)) => r matches Err(err) && err.token == t && err.message@ == m,
    }
}

/// The list holding `a`.
fn kinds1(a: TokenType) -> (r: Vec<TokenType>)
    ensures
        r@ == seq![a],
{
    let r = vec![a];
    assert(r@ =~= seq![a]);
    r
}

/// The list holding `a` and `b`.
fn kinds2(a: TokenType, b: TokenType) -> (r: Vec<TokenType>)
    ensures
        r@ == seq![a, b],
{
    let r = vec![a, b];
    assert(r@ =~= seq![a, b]);
    r
}

/// The list holding `a` to `e`.
fn kinds5(a: TokenType, b: TokenType, c: TokenType, d: TokenType, e: TokenType) -> (r: Vec<TokenType>)
    ensures
        r@ == seq![a, b, c, d, e],
{
    let r = vec![a, b, c, d, e];
    assert(r@ =~= seq![a, b, c, d, e]);
    r
}

/// Turns tokens into statements by recursive descent.
pub struct Parser {
    pub tokens: Vec<Token>,
    pub current: usize,
}

impl Parser {
    /// The tokens end with an end-of-file token, and the position is among
    /// them.
    pub open spec fn positioned(&self) -> bool {
        &&& self.tokens@.len() > 0
        &&& self.tokens@.last().token_type == TokenType::Eof
        &&& self.current < self.tokens@.len()
    }

    /// The parser is positioned, and every number or string token carries
    /// its value.
    pub open spec fn wf(&self) -> bool {
        &&& self.positioned()
        &&& forall|i: int| 0 <= i < self.tokens@.len()
            && ((#[trigger] self.tokens@[i]).token_type == TokenType::Number || self.tokens@[i].token_type == TokenType::String)
            ==> self.tokens@[i].literal is Some
    }

    /// A parser with no tokens.
    pub fn default() -> (r: Self)
        ensures
            r.tokens@ == Seq::<Token>::empty(),
            r.current == 0,
    {
        Self { tokens: Vec::new(), current: 0 }
    }

    /// A parser at the start of `tokens`.
    pub fn new(tokens: Vec<Token>) -> (r: Self)
        ensures
            r.tokens == tokens,
            r.current == 0,
    {
        Self { tokens, current: 0 }
    }

    fn is_at_end(&self) -> (r: bool)
        requires
            self.current < self.tokens@.len(),
        ensures
            r == at_end(self.tokens@, self.current as int),
    {
        self.tokens[self.current].token_type == TokenType::Eof
    }

    fn peek(&self) -> (r: Token)
        requires
            self.current < self.tokens@.len(),
        ensures
            r == self.tokens@[self.current as int],
    {
        self.tokens[self.current].clone()
    }

    fn previous(&self) -> (r: Token)
        requires
            0 < self.current <= self.tokens@.len(),
        ensures
            r == self.tokens@[self.current - 1],
    {
        self.tokens[self.current - 1].clone()
    }

    fn check(&self, token_type: TokenType) -> (r: bool)
        requires
            self.current < self.tokens@.len(),
        ensures
            r == check(self.tokens@, self.current as int, token_type),
    {
        if self.is_at_end() {
            return false;
        }
        self.tokens[self.current].token_type == token_type
    }

    fn advance(&mut self) -> (r: Token)
        requires
            old(self).positioned(),
            old(self).current > 0 || !at_end(old(self).tokens@, old(self).current as int),
        ensures
            final(self).positioned(),
            final(self).wf() == old(self).wf(),
            final(self).tokens == old(self).tokens,
            final(self).current == if at_end(old(self).tokens@, old(self).current as int) {
                old(self).current as int
            } else {
                old(self).current + 1
            },
            r == final(self).tokens@[final(self).current - 1],
    {
        let n = self.tokens.len();
        if !self.is_at_end() {
            assert(self.current != n - 1);
            self.current = self.current + 1;
        }
        self.previous()
    }

    fn matches(&mut self, types: Vec<TokenType>) -> (r: bool)
        requires
            old(self).wf(),
        ensures
            final(self).wf(),
            final(self).tokens == old(self).tokens,
            r == matches_any(old(self).tokens@, old(self).current as int, types@),
            final(self).current == if r { old(self).current + 1 } else { old(self).current as int },
            r ==> old(self).current + 1 < old(self).tokens@.len(),
    {
        let n = types.len();
        for i in 0..n
            invariant
                self.wf(),
                *self == *old(self),
                n == types@.len(),
                forall|j: int| 0 <= j < i ==> !check(self.tokens@, self.current as int, #[trigger] types@[j]),
        {
            if self.check(types[i]) {
                assert(self.current != self.tokens@.len() - 1);
                self.advance();
                return true;
            }
        }
        proof {
            if matches_any(old(self).tokens@, old(self).current as int, types@) {
                let k = choose|k: int| 0 <= k < types@.len() && types@[k] == self.tokens@[self.current as int].token_type;
                assert(check(self.tokens@, self.current as int, types@[k]));
            }
        }
        false
    }

    fn consume(&mut self, token_type: TokenType, message: &str) -> (r: Result<Token, ParserError>)
        requires
            old(self).wf(),
        ensures
            final(self).wf(),
            final(self).tokens == old(self).tokens,
            match expect(old(self).tokens@, old(self).current as int, token_type, message@, ()) {
                Ok((_, p)) => r == Ok::<Token, ParserError>(old(self).tokens@[old(self).current as int])
                    && final(self).current == p,
                Err((t, m)) => (r matches Err(e) && e.token == t && e.message@ == m)
                    && final(self).current == old(self).current,
            },
    {
        if self.check(token_type) {
            return Ok(self.advance());
        }
        Err(ParserError::new(self.peek(), message.to_string()))
    }

    fn or(&mut self) -> (r: Result<Expr, ParserError>)
        requires
            old(self).wf(),
        ensures
            final(self).wf(),
            final(self).tokens == old(self).tokens,
            final(self).current >= old(self).current,
            expr_outcome(r, p_level(old(self).tokens@, old(self).current as int, 5), final(self).current as int),
            r matches Ok(e) ==> expr_ok(e),
            r is Ok ==> final(self).current > old(self).current,
        decreases old(self).tokens@.len() - old(self).current, 19int,
    {
        let ghost ts = self.tokens@;
        let ghost start = self.current as int;
        let mut expr = self.and()?;
        loop
            invariant
                self.wf(),
                self.tokens@ == ts,
                self.tokens == old(self).tokens,
                start == old(self).current,
                self.current > start,
                expr_ok(expr),
                p_level(ts, start, 5) == p_tail(ts, self.current as int, 5, expr.view()),
            decreases ts.len() - self.current,
        {
            let ghost before = self.current as int;
            let ghost left = expr.view();
            if !self.matches(kinds1(TokenType::Or)) {
                assert(p_tail(ts, before, 5, left) == Ok::<(ExprView, int), (Token, Seq<char>)>((left, before)));
                return Ok(expr);
            }
            let operator = self.previous();
            assert(operator == ts[before]);
            assert(matches_any(ts, before, level_ops(5)));
            assert(p_operand(ts, before + 1, 5) == p_level(ts, before + 1, 4));
            let right = self.and()?;
            expr = Expr::Logical(Box::new(expr), operator, Box::new(right));
            assert(expr.view() == combine(5, left, ts[before], right.view()));
        }
    }

    fn and(&mut self) -> (r: Result<Expr, ParserError>)
        requires
            old(self).wf(),
        ensures
            final(self).wf(),
            final(self).tokens == old(self).tokens,
            final(self).current >= old(self).current,
            expr_outcome(r, p_level(old(self).tokens@, old(self).current as int, 4), final(self).current as int),
            r matches Ok(e) ==> expr_ok(e),
            r is Ok ==> final(self).current > old(self).current,
        decreases old(self).tokens@.len() - old(self).current, 16int,
    {
        let ghost ts = self.tokens@;
        let ghost start = self.current as int;
        let mut expr = self.equality()?;
        loop
            invariant
                self.wf(),
                self.tokens@ == ts,
                self.tokens == old(self).tokens,
                start == old(self).current,
                self.current > start,
                expr_ok(expr),
                p_level(ts, start, 4) == p_tail(ts, self.current as int, 4, expr.view()),
            decreases ts.len() - self.current,
        {
            let ghost before = self.current as int;
            let ghost left = expr.view();
            if !self.matches(kinds1(TokenType::And)) {
                assert(p_tail(ts, before, 4, left) == Ok::<(ExprView, int), (Token, Seq<char>)>((left, before)));
                return Ok(expr);
            }
            let operator = self.previous();
            assert(operator == ts[before]);
            assert(matches_any(ts, before, level_ops(4)));
            assert(p_operand(ts, before + 1, 4) == p_level(ts, before + 1, 3));
            let right = self.equality()?;
            expr = Expr::Logical(Box::new(expr), operator, Box::new(right));
            assert(expr.view() == combine(4, left, ts[before], right.view()));
        }
    }

    fn equality(&mut self) -> (r: Result<Expr, ParserError>)
        requires
            old(self).wf(),
        ensures
            final(self).wf(),
            final(self).tokens == old(self).tokens,
            final(self).current >= old(self).current,
            expr_outcome(r, p_level(old(self).tokens@, old(self).current as int, 3), final(self).current as int),
            r matches Ok(e) ==> expr_ok(e),
            r is Ok ==> final(self).current > old(self).current,
        decreases old(self).tokens@.len() - old(self).current, 13int,
    {
        let ghost ts = self.tokens@;
        let ghost start = self.current as int;
        let mut expr = self.comparison()?;
        loop
            invariant
                self.wf(),
                self.tokens@ == ts,
                self.tokens == old(self).tokens,
                start == old(self).current,
                self.current > start,
                expr_ok(expr),
                p_level(ts, start, 3) == p_tail(ts, self.current as int, 3, expr.view()),
            decreases ts.len() - self.current,
        {
            let ghost before = self.current as int;
            let ghost left = expr.view();
            if !self.matches(kinds2(TokenType::BangEqual, TokenType::EqualEqual)) {
                assert(p_tail(ts, before, 3, left) == Ok::<(ExprView, int), (Token, Seq<char>)>((left, before)));
                return Ok(expr);
            }
            let operator = self.previous();
            assert(operator == ts[before]);
            assert(matches_any(ts, before, level_ops(3)));
            assert(p_operand(ts, before + 1, 3) == p_level(ts, before + 1, 2));
            let right = self.comparison()?;
            expr = Expr::Binary(Box::new(expr), operator, Box::new(right));
            assert(expr.view() == combine(3, left, ts[before], right.view()));
        }
    }

    fn comparison(&mut self) -> (r: Result<Expr, ParserError>)
        requires
            old(self).wf(),
        ensures
            final(self).wf(),
            final(self).tokens == old(self).tokens,
            final(self).current >= old(self).current,
            expr_outcome(r, p_level(old(self).tokens@, old(self).current as int, 2), final(self).current as int),
            r matches Ok(e) ==> expr_ok(e),
            r is Ok ==> final(self).current > old(self).current,
        decreases old(self).tokens@.len() - old(self).current, 10int,
    {
        let ghost ts = self.tokens@;
        let ghost start = self.current as int;
        let mut expr = self.term()?;
        loop
            invariant
                self.wf(),
                self.tokens@ == ts,
                self.tokens == old(self).tokens,
                start == old(self).current,
                self.current > start,
                expr_ok(expr),
                p_level(ts, start, 2) == p_tail(ts, self.current as int, 2, expr.view()),
            decreases ts.len() - self.current,
        {
            let ghost before = self.current as int;
            let ghost left = expr.view();
            if !self.matches(kinds5(TokenType::Greater, TokenType::GreaterEqual, TokenType::Less, TokenType::LessEqual, TokenType::Percent)) {
                assert(p_tail(ts, before, 2, left) == Ok::<(ExprView, int), (Token, Seq<char>)>((left, before)));
                return Ok(expr);
            }
            let operator = self.previous();
            assert(operator == ts[before]);
            assert(matches_any(ts, before, level_ops(2)));
            assert(p_operand(ts, before + 1, 2) == p_level(ts, before + 1, 1));
            let right = self.term()?;
            expr = Expr::Binary(Box::new(expr), operator, Box::new(right));
            assert(expr.view() == combine(2, left, ts[before], right.view()));
        }
    }

    fn term(&mut self) -> (r: Result<Expr, ParserError>)
        requires
            old(self).wf(),
        ensures
            final(self).wf(),
            final(self).tokens == old(self).tokens,
            final(self).current >= old(self).current,
            expr_outcome(r, p_level(old(self).tokens@, old(self).current as int, 1), final(self).current as int),
            r matches Ok(e) ==> expr_ok(e),
            r is Ok ==> final(self).current > old(self).current,
        decreases old(self).tokens@.len() - old(self).current, 7int,
    {
        let ghost ts = self.tokens@;
        let ghost start = self.current as int;
        let mut expr = self.factor()?;
        loop
            invariant
                self.wf(),
                self.tokens@ == ts,
                self.tokens == old(self).tokens,
                start == old(self).current,
                self.current > start,
                expr_ok(expr),
                p_level(ts, start, 1) == p_tail(ts, self.current as int, 1, expr.view()),
            decreases ts.len() - self.current,
        {
            let ghost before = self.current as int;
            let ghost left = expr.view();
            if !self.matches(kinds2(TokenType::Minus, TokenType::Plus)) {
                assert(p_tail(ts, before, 1, left) == Ok::<(ExprView, int), (Token, Seq<char>)>((left, before)));
                return Ok(expr);
            }
            let operator = self.previous();
            assert(operator == ts[before]);
            assert(matches_any(ts, before, level_ops(1)));
            assert(p_operand(ts, before + 1, 1) == p_level(ts, before + 1, 0));
            let right = self.factor()?;
            expr = Expr::Binary(Box::new(expr), operator, Box::new(right));
            assert(expr.view() == combine(1, left, ts[before], right.view()));
        }
    }

    fn factor(&mut self) -> (r: Result<Expr, ParserError>)
        requires
            old(self).wf(),
        ensures
            final(self).wf(),
            final(self).tokens == old(self).tokens,
            final(self).current >= old(self).current,
            expr_outcome(r, p_level(old(self).tokens@, old(self).current as int, 0), final(self).current as int),
            r matches Ok(e) ==> expr_ok(e),
            r is Ok ==> final(self).current > old(self).current,
        decreases old(self).tokens@.len() - old(self).current, 4int,
    {
        let ghost ts = self.tokens@;
        let ghost start = self.current as int;
        let mut expr = self.unary()?;
        loop
            invariant
                self.wf(),
                self.tokens@ == ts,
                self.tokens == old(self).tokens,
                start == old(self).current,
                self.current > start,
                expr_ok(expr),
                p_level(ts, start, 0) == p_tail(ts, self.current as int, 0, expr.view()),
            decreases ts.len() - self.current,
        {
            let ghost before = self.current as int;
            let ghost left = expr.view();
            if !self.matches(kinds2(TokenType::Slash, TokenType::Star)) {
                assert(p_tail(ts, before, 0, left) == Ok::<(ExprView, int), (Token, Seq<char>)>((left, before)));
                return Ok(expr);
            }
            let operator = self.previous();
            assert(operator == ts[before]);
            assert(matches_any(ts, before, level_ops(0)));
            assert(p_operand(ts, before + 1, 0) == p_unary(ts, before + 1));
            let right = self.unary()?;
            expr = Expr::Binary(Box::new(expr), operator, Box::new(right));
            assert(expr.view() == combine(0, left, ts[before], right.view()));
        }
    }

    fn unary(&mut self) -> (r: Result<Expr, ParserError>)
        requires
            old(self).wf(),
        ensures
            final(self).wf(),
            final(self).tokens == old(self).tokens,
            final(self).current >= old(self).current,
            expr_outcome(r, p_unary(old(self).tokens@, old(self).current as int), final(self).current as int),
            r matches Ok(e) ==> expr_ok(e),
            r is Ok ==> final(self).current > old(self).current,
        decreases old(self).tokens@.len() - old(self).current, 1int,
    {
        if self.matches(kinds2(TokenType::Bang, TokenType::Minus)) {
            let operator = self.previous();
            let right = self.unary()?;
            return Ok(Expr::Unary(operator, Box::new(right)));
        }
        self.primary()
    }

    fn primary(&mut self) -> (r: Result<Expr, ParserError>)
        requires
            old(self).wf(),
        ensures
            final(self).wf(),
            final(self).tokens == old(self).tokens,
            final(self).current >= old(self).current,
            expr_outcome(r, p_primary(old(self).tokens@, old(self).current as int), final(self).current as int),
            r matches Ok(e) ==> expr_ok(e),
            r is Ok ==> final(self).current > old(self).current,
            !starts_primary(old(self).tokens@, old(self).current as int) ==> final(self).current == old(self).current,
        decreases old(self).tokens@.len() - old(self).current, 0int,
    {
        if self.matches(kinds1(TokenType::False)) {
            return Ok(Expr::Literal(Literal::False));
        }
        if self.matches(kinds1(TokenType::True)) {
            return Ok(Expr::Literal(Literal::True));
        }
        if self.matches(kinds1(TokenType::Nil)) {
            return Ok(Expr::Literal(Literal::Nil));
        }
        if self.matches(kinds2(TokenType::Number, TokenType::String)) {
            let l = self.previous().literal.unwrap();
            return Ok(Expr::Literal(l));
        }
        if self.matches(kinds1(TokenType::LeftParen)) {
            let expr = self.expression()?;
            self.consume(TokenType::RightParen, "Expect ')' after expression")?;
            return Ok(Expr::Grouping(Box::new(expr)));
        }
        if self.matches(kinds1(TokenType::Identifier)) {
            return Ok(Expr::Variable(self.previous()));
        }
        Err(ParserError::new(self.peek(), "Expect expression".to_string()))
    }

    fn assignment(&mut self) -> (r: Result<Expr, ParserError>)
        requires
            old(self).wf(),
        ensures
            final(self).wf(),
            final(self).tokens == old(self).tokens,
            final(self).current >= old(self).current,
            expr_outcome(r, p_assignment(old(self).tokens@, old(self).current as int), final(self).current as int),
            r matches Ok(e) ==> expr_ok(e),
            r is Ok ==> final(self).current > old(self).current,
        decreases old(self).tokens@.len() - old(self).current, 20int,
    {
        let expr = self.or()?;
        if self.matches(kinds1(TokenType::Equal)) {
            let equals = self.previous();
            let value = self.assignment()?;
            if let Expr::Variable(name) = expr {
                return Ok(Expr::Assign(name, Box::new(value)));
            }
            return Err(ParserError::new(equals, "Invalid assignment target.".to_string()));
        }
        Ok(expr)
    }

    fn expression(&mut self) -> (r: Result<Expr, ParserError>)
        requires
            old(self).wf(),
        ensures
            final(self).wf(),
            final(self).tokens == old(self).tokens,
            final(self).current >= old(self).current,
            expr_outcome(r, p_expression(old(self).tokens@, old(self).current as int), final(self).current as int),
            r matches Ok(e) ==> expr_ok(e),
            r is Ok ==> final(self).current > old(self).current,
        decreases old(self).tokens@.len() - old(self).current, 21int,
    {
        self.assignment()
    }

    fn expression_statement(&mut self) -> (r: Result<Stmt, ParserError>)
        requires
            old(self).wf(),
        ensures
            final(self).wf(),
            final(self).tokens == old(self).tokens,
            final(self).current >= old(self).current,
            stmt_outcome(r, p_expr_stmt(old(self).tokens@, old(self).current as int), final(self).current as int),
            r matches Ok(st) ==> stmt_ok(st),
            r is Ok ==> final(self).current > old(self).current,
        decreases old(self).tokens@.len() - old(self).current, 22int,
    {
        let expr = self.expression()?;
        self.consume(TokenType::Semicolon, "Expect ';' after expression.")?;
        Ok(Stmt::Expression(expr))
    }

    fn print_statement(&mut self) -> (r: Result<Stmt, ParserError>)
        requires
            old(self).wf(),
        ensures
            final(self).wf(),
            final(self).tokens == old(self).tokens,
            final(self).current >= old(self).current,
            stmt_outcome(r, p_print(old(self).tokens@, old(self).current as int), final(self).current as int),
            r matches Ok(st) ==> stmt_ok(st),
            r is Ok ==> final(self).current > old(self).current,
        decreases old(self).tokens@.len() - old(self).current, 23int,
    {
        let value = self.expression()?;
        self.consume(TokenType::Semicolon, "Expected ';' after value.")?;
        Ok(Stmt::Print(value))
    }

    fn break_statement(&mut self) -> (r: Result<Stmt, ParserError>)
        requires
            old(self).wf(),
        ensures
            final(self).wf(),
            final(self).tokens == old(self).tokens,
            final(self).current >= old(self).current,
            stmt_outcome(r, p_break(old(self).tokens@, old(self).current as int), final(self).current as int),
            r matches Ok(st) ==> stmt_ok(st),
            r is Ok ==> final(self).current > old(self).current,
        decreases old(self).tokens@.len() - old(self).current, 24int,
    {
        self.consume(TokenType::Semicolon, "Expect ';' after break keyword.")?;
        let token = Token::new(TokenType::Break, String::from_str("break"), None, self.current as u32);
        Ok(Stmt::Break(token))
    }

    fn var_declaration(&mut self) -> (r: Result<Stmt, ParserError>)
        requires
            old(self).wf(),
        ensures
            final(self).wf(),
            final(self).tokens == old(self).tokens,
            final(self).current >= old(self).current,
            stmt_outcome(r, p_var_declaration(old(self).tokens@, old(self).current as int), final(self).current as int),
            r matches Ok(st) ==> stmt_ok(st),
            r is Ok ==> final(self).current > old(self).current,
        decreases old(self).tokens@.len() - old(self).current, 29int,
    {
        let ghost ts = self.tokens@;
        let ghost pos = self.current as int;
        let name = self.consume(TokenType::Identifier, "Expect variable name.")?;
        assert(pos + 1 < ts.len());
        let mut initializer = None;
        if self.matches(kinds1(TokenType::Equal)) {
            initializer = Some(self.expression()?);
        }
        self.consume(TokenType::Semicolon, "Expect ';' after variable declaration.")?;
        Ok(Stmt::Var(name, initializer))
    }

    fn while_statement(&mut self) -> (r: Result<Stmt, ParserError>)
        requires
            old(self).wf(),
        ensures
            final(self).wf(),
            final(self).tokens == old(self).tokens,
            final(self).current >= old(self).current,
            stmt_outcome(r, p_while(old(self).tokens@, old(self).current as int), final(self).current as int),
            r matches Ok(st) ==> stmt_ok(st),
            r is Ok ==> final(self).current > old(self).current,
        decreases old(self).tokens@.len() - old(self).current, 26int,
    {
        let ghost ts = self.tokens@;
        let ghost pos = self.current as int;
        self.consume(TokenType::LeftParen, "expect '(' after 'while'.")?;
        assert(pos + 1 < ts.len());
        let condition = self.expression()?;
        self.consume(TokenType::RightParen, "Expect ')' after condition.")?;
        let body = self.statement()?;
        Ok(Stmt::While(condition, Box::new(body)))
    }

    fn if_statement(&mut self) -> (r: Result<Stmt, ParserError>)
        requires
            old(self).wf(),
        ensures
            final(self).wf(),
            final(self).tokens == old(self).tokens,
            final(self).current >= old(self).current,
            stmt_outcome(r, p_if(old(self).tokens@, old(self).current as int), final(self).current as int),
            r matches Ok(st) ==> stmt_ok(st),
            r is Ok ==> final(self).current > old(self).current,
        decreases old(self).tokens@.len() - old(self).current, 25int,
    {
        let ghost ts = self.tokens@;
        let ghost pos = self.current as int;
        self.consume(TokenType::LeftParen, "Expect '(' after 'if'.")?;
        assert(pos + 1 < ts.len());
        let condition = self.expression()?;
        self.consume(TokenType::RightParen, "Expect ')' after if condition.")?;
        let then_branch = self.statement()?;
        let mut else_branch = None;
        if self.matches(kinds1(TokenType::Else)) {
            else_branch = Some(self.statement()?);
        }
        Ok(Stmt::If(condition, Box::new(then_branch), Box::new(else_branch)))
    }

    fn block(&mut self) -> (r: Result<Vec<Stmt>, ParserError>)
        requires
            old(self).wf(),
        ensures
            final(self).wf(),
            final(self).tokens == old(self).tokens,
            final(self).current >= old(self).current,
            stmts_outcome(r, p_block(old(self).tokens@, old(self).current as int), final(self).current as int),
            r matches Ok(v) ==> stmts_ok(v@),
            r is Ok ==> final(self).current > old(self).current,
        decreases old(self).tokens@.len() - old(self).current, 40int,
    {
        let ghost ts = self.tokens@;
        let ghost start = self.current as int;
        let mut stmts: Vec<Stmt> = Vec::new();
        while !self.check(TokenType::RightBrace) && !self.is_at_end()
            invariant
                self.wf(),
                self.tokens@ == ts,
                self.tokens == old(self).tokens,
                start == old(self).current,
                self.current >= start,
                stmts_ok(stmts@),
                p_block(ts, start) == prepend_stmts(stmts_view(stmts@), p_block(ts, self.current as int)),
            decreases ts.len() - self.current,
        {
            let ghost before = self.current as int;
            let ghost done = stmts_view(stmts@);
            let s = self.declaration()?;
            let ghost sv = s.view();
            stmts.push(s);
            proof {
                assert(stmts_view(stmts@) =~= done.push(sv));
                lemma_prepend_stmts(done, seq![sv], p_block(ts, self.current as int));
                assert(done + seq![sv] =~= done.push(sv));
            }
        }
        self.consume(TokenType::RightBrace, "Expect '}' after block.")?;
        proof {
            assert(stmts_view(stmts@) + Seq::<StmtView>::empty() =~= stmts_view(stmts@));
        }
        Ok(stmts)
    }

    fn statement(&mut self) -> (r: Result<Stmt, ParserError>)
        requires
            old(self).wf(),
        ensures
            final(self).wf(),
            final(self).tokens == old(self).tokens,
            final(self).current >= old(self).current,
            stmt_outcome(r, p_statement(old(self).tokens@, old(self).current as int), final(self).current as int),
            r matches Ok(st) ==> stmt_ok(st),
            r is Ok ==> final(self).current > old(self).current,
        decreases old(self).tokens@.len() - old(self).current, 28int,
    {
        if self.matches(kinds1(TokenType::For)) {
            return self.for_statement();
        }
        if self.matches(kinds1(TokenType::Break)) {
            return self.break_statement();
        }
        if self.matches(kinds1(TokenType::If)) {
            return self.if_statement();
        }
        if self.matches(kinds1(TokenType::While)) {
            return self.while_statement();
        }
        if self.matches(kinds1(TokenType::Print)) {
            return self.print_statement();
        }
        if self.matches(kinds1(TokenType::LeftBrace)) {
            return Ok(Stmt::Block(self.block()?));
        }
        self.expression_statement()
    }

    fn declaration(&mut self) -> (r: Result<Stmt, ParserError>)
        requires
            old(self).wf(),
        ensures
            final(self).wf(),
            final(self).tokens == old(self).tokens,
            final(self).current >= old(self).current,
            stmt_outcome(r, p_declaration(old(self).tokens@, old(self).current as int), final(self).current as int),
            r matches Ok(st) ==> stmt_ok(st),
            r is Ok ==> final(self).current > old(self).current,
        decreases old(self).tokens@.len() - old(self).current, 30int,
    {
        if self.matches(kinds1(TokenType::Var)) {
            return self.var_declaration();
        }
        self.statement()
    }

    fn optional_expression(&mut self, stop: TokenType) -> (r: Result<Option<Expr>, ParserError>)
        requires
            old(self).wf(),
        ensures
            final(self).wf(),
            final(self).tokens == old(self).tokens,
            final(self).current >= old(self).current,
            match p_optional_expression(old(self).tokens@, old(self).current as int, stop) {
                Ok((v, p)) => (r matches Ok(x) && opt_expr_view(x) == v) && final(self).current == p,
                Err((t, m)) => r matches Err(err) && err.token == t && err.message@ == m,
            },
            r matches Ok(Some(e)) ==> expr_ok(e),
        decreases old(self).tokens@.len() - old(self).current, 22int,
    {
        if !self.check(stop) {
            return Ok(Some(self.expression()?));
        }
        Ok(None)
    }

    fn for_statement(&mut self) -> (r: Result<Stmt, ParserError>)
        requires
            old(self).wf(),
        ensures
            final(self).wf(),
            final(self).tokens == old(self).tokens,
            final(self).current >= old(self).current,
            stmt_outcome(r, p_for(old(self).tokens@, old(self).current as int), final(self).current as int),
            r matches Ok(st) ==> stmt_ok(st),
            r is Ok ==> final(self).current > old(self).current,
        decreases old(self).tokens@.len() - old(self).current, 27int,
    {
        let ghost ts = self.tokens@;
        let ghost pos = self.current as int;
        self.consume(TokenType::LeftParen, "Expect '(' after 'for'.")?;
        assert(pos + 1 < ts.len());
        let mut initializer: Option<Stmt> = None;
        if self.matches(kinds1(TokenType::Semicolon)) {
        } else if self.matches(kinds1(TokenType::Var)) {
            initializer = Some(self.var_declaration()?);
        } else {
            initializer = Some(self.expression_statement()?);
        }
        let ghost init_v = opt_stmt_view(initializer);
        let ghost p2 = self.current as int;
        assert(p_for(ts, pos) == p_for_condition(ts, p2, init_v));
        let condition = self.optional_expression(TokenType::Semicolon)?;
        let ghost cond_v = opt_expr_view(condition);
        self.consume(TokenType::Semicolon, "Expect ';' after loop condition.")?;
        let ghost p4 = self.current as int;
        assert(p_for(ts, pos) == p_for_increment(ts, p4, init_v, cond_v));
        let increment = self.optional_expression(TokenType::RightParen)?;
        let ghost incr_v = opt_expr_view(increment);
        self.consume(TokenType::RightParen, "Expect ')' after for clauses.")?;
        let body = self.statement()?;
        Ok(desugar_for(initializer, condition, increment, body))
    }

    /// Skips tokens up to the start of what is likely the next statement:
    /// just after a `;`, or at a keyword that starts a declaration.
    pub fn synchronize(&mut self)
        requires
            old(self).positioned(),
            old(self).current > 0 || !at_end(old(self).tokens@, old(self).current as int),
        ensures
            final(self).positioned(),
            final(self).wf() == old(self).wf(),
            final(self).tokens == old(self).tokens,
            final(self).current == sync_from(old(self).tokens@, if at_end(old(self).tokens@, old(self).current as int) {
                old(self).current as int
            } else {
                old(self).current + 1
            }),
    {
        self.advance();
        let ghost ts = self.tokens@;
        let ghost p0 = self.current as int;
        while !self.is_at_end()
            invariant
                self.positioned(),
                self.tokens@ == ts,
                self.tokens == old(self).tokens,
                self.current > 0 || at_end(ts, self.current as int),
                p0 == (if at_end(ts, old(self).current as int) { old(self).current as int } else { old(self).current + 1 }),
                sync_from(ts, p0) == sync_from(ts, self.current as int),
            decreases ts.len() - self.current,
        {
            if self.previous().token_type == TokenType::Semicolon {
                return;
            }
            match self.peek().token_type {
                TokenType::Class | TokenType::For | TokenType::Fun | TokenType::If | TokenType::Print
                | TokenType::Return | TokenType::Var | TokenType::While => return,
                _ => {},
            }
            self.advance();
        }
    }

    /// Parses declarations up to the end of the input; stops at the first
    /// syntax error.
    pub fn parse(&mut self) -> (r: Result<Vec<Stmt>, ParserError>)
        requires
            old(self).wf(),
        ensures
            final(self).wf(),
            final(self).tokens == old(self).tokens,
            stmts_outcome(r, p_program(old(self).tokens@, old(self).current as int), final(self).current as int),
            r matches Ok(v) ==> stmts_ok(v@),
    {
        let ghost ts = self.tokens@;
        let ghost start = self.current as int;
        let mut statements: Vec<Stmt> = Vec::new();
        while !self.is_at_end()
            invariant
                self.wf(),
                self.tokens@ == ts,
                self.tokens == old(self).tokens,
                start == old(self).current,
                stmts_ok(statements@),
                p_program(ts, start) == prepend_stmts(stmts_view(statements@), p_program(ts, self.current as int)),
            decreases ts.len() - self.current,
        {
            let ghost done = stmts_view(statements@);
            let statement = self.declaration()?;
            let ghost sv = statement.view();
            statements.push(statement);
            proof {
                assert(stmts_view(statements@) =~= done.push(sv));
                lemma_prepend_stmts(done, seq![sv], p_program(ts, self.current as int));
                assert(done + seq![sv] =~= done.push(sv));
            }
        }
        proof {
            assert(stmts_view(statements@) + Seq::<StmtView>::empty() =~= stmts_view(statements@));
        }
        Ok(statements)
    }
}

} // verus!
