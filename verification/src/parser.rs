//! The parser: each function computes what the rule of the same name in [`crate::grammar`] gives.

use crate::ast;
use crate::ast::{Body, Expr, ExprView, Node, Param, ParamView, Target, TargetView};
use crate::grammar;
use crate::grammar::{Rule, Step, LOOSEST};
use crate::nesting;
use crate::token;
use crate::token::{Bracket, Keyword, Literal, Operator, StringLiteral, Token, TokenView};
use vstd::prelude::*;

verus! {

/// What was read, taken by its view.
pub open spec fn step<T: View>(r: Option<(T, usize)>) -> Step<T::V> {
    match r {
        Some((x, q)) => Some((x@, q as int)),
        None => None,
    }
}

/// What was read of a list, each item taken by its view.
pub open spec fn steps<T: View>(r: Option<(Vec<T>, usize)>) -> Step<Seq<T::V>> {
    match r {
        Some((xs, q)) => Some((token::views(xs@), q as int)),
        None => None,
    }
}

/// A run that began at `start` has come to `q`, with the trees `done` behind it.
pub open spec fn on_the_way<A>(n: int, a: Rule<A>, start: int, done: Seq<A>, q: int) -> bool {
    &&& grammar::run(n, a, start).0 == done + grammar::run(n, a, q).0
    &&& grammar::run(n, a, start).1 == grammar::run(n, a, q).1
}

/// A run begins.
proof fn lemma_run_begin<A>(n: int, a: Rule<A>, start: int)
    ensures
        on_the_way(n, a, start, Seq::empty(), start),
{
    assert(Seq::empty() + grammar::run(n, a, start).0 =~= grammar::run(n, a, start).0);
}

/// A run takes one more item.
proof fn lemma_run_next<A>(n: int, a: Rule<A>, start: int, done: Seq<A>, q: int, x: A, r: int)
    requires
        on_the_way(n, a, start, done, q),
        a(q) == Some((x, r)),
        q < r <= n,
    ensures
        on_the_way(n, a, start, done.push(x), r),
{
    assert(done + (seq![x] + grammar::run(n, a, r).0) =~= done.push(x) + grammar::run(n, a, r).0);
}

/// A run ends.
proof fn lemma_run_end<A>(n: int, a: Rule<A>, start: int, done: Seq<A>, q: int)
    requires
        on_the_way(n, a, start, done, q),
        a(q) is None,
    ensures
        grammar::run(n, a, start) == (done, q),
{
    assert(done + Seq::empty() =~= done);
}

/// Pushing an item pushes its view.
proof fn lemma_views_push<T: View>(xs: Seq<T>, x: T)
    ensures
        token::views(xs.push(x)) == token::views(xs).push(x@),
{
    assert(token::views(xs.push(x)) =~= token::views(xs).push(x@));
}

// ----------------------------------------------------------------------------------------------
// Tokens.
// ----------------------------------------------------------------------------------------------

/// Whether the given token stands at `p`.
fn sees(t: &Vec<Token>, p: usize, x: Token) -> (r: bool)
    ensures
        r == (grammar::at(token::views(t@), p as int) == Some(x@)),
        r ==> p < t.len(),
{
    p < t.len() && t[p].same(&x)
}

/// The identifier at `p`.
fn identifier(t: &Vec<Token>, p: usize) -> (r: Option<(String, usize)>)
    ensures
        step(r) == grammar::identifier(token::views(t@))(p as int),
        r matches Some((_, q)) ==> p < q <= t.len(),
{
    if p < t.len() {
        match &t[p] {
            Token::Identifier(name) => Some((name.clone(), p + 1)),
            _ => None,
        }
    } else {
        None
    }
}

/// The operator at `p`.
fn operator(t: &Vec<Token>, p: usize) -> (r: Option<Operator>)
    ensures
        r == (match grammar::at(token::views(t@), p as int) {
            Some(TokenView::Operator(op)) => Some(op),
            _ => None,
        }),
        r is Some ==> p < t.len(),
{
    if p < t.len() {
        match &t[p] {
            Token::Operator(op) => Some(*op),
            _ => None,
        }
    } else {
        None
    }
}

/// The literal at `p`.
fn literal(t: &Vec<Token>, p: usize) -> (r: Option<(Expr, usize)>)
    ensures
        step(r) == grammar::literal(token::views(t@))(p as int),
        r matches Some((_, q)) ==> p < q <= t.len(),
{
    if p < t.len() {
        match &t[p] {
            Token::Literal(Literal::Integer(n)) => Some((Expr::Integer(*n), p + 1)),
            Token::Literal(Literal::Float(s)) => Some((Expr::Float(s.clone()), p + 1)),
            Token::Literal(Literal::String(StringLiteral::String(s))) => Some(
                (Expr::String(s.clone()), p + 1),
            ),
            _ => None,
        }
    } else {
        None
    }
}

/// An identifier as an expression.
fn named(name: String) -> (r: Expr)
    ensures
        r@ == grammar::named(name@),
{
    if name == "true".to_owned() {
        Expr::Bool(true)
    } else if name == "false".to_owned() {
        Expr::Bool(false)
    } else {
        Expr::Ident(name)
    }
}

/// One or more names.
fn name_list(t: &Vec<Token>, p: usize) -> (r: Option<(Vec<String>, usize)>)
    ensures
        steps(r) == grammar::list1(
            token::views(t@),
            grammar::identifier(token::views(t@)),
        )(p as int),
        r matches Some((_, q)) ==> p < q <= t.len(),
{
    let ghost tv = token::views(t@);
    let ghost n = tv.len() as int;
    let ghost next = grammar::second(
        grammar::token(tv, TokenView::Comma),
        grammar::identifier(tv),
    );
    let (first, start) = match identifier(t, p) {
        Some(x) => x,
        None => return None,
    };
    let ghost head = first@;
    let mut names: Vec<String> = Vec::new();
    names.push(first);
    let mut q: usize = start;
    let ghost mut done: Seq<Seq<char>> = Seq::empty();
    proof {
        lemma_run_begin(n, next, start as int);
        assert(token::views(names@) =~= seq![head] + done);
    }
    loop
        invariant
            tv == token::views(t@),
            n == tv.len(),
            next == grammar::second(
                grammar::token(tv, TokenView::Comma),
                grammar::identifier(tv),
            ),
            start <= q <= t.len(),
            on_the_way(n, next, start as int, done, q as int),
            token::views(names@) == seq![head] + done,
        ensures
            next(q as int) is None,
        decreases t.len() - q,
    {
        if !sees(t, q, Token::Comma) {
            break;
        }
        let (x, r) = match identifier(t, q + 1) {
            Some(x) => x,
            None => break,
        };
        proof {
            lemma_run_next(n, next, start as int, done, q as int, x@, r as int);
            lemma_views_push(names@, x);
            assert((seq![head] + done).push(x@) =~= seq![head] + done.push(x@));
            done = done.push(x@);
        }
        names.push(x);
        q = r;
    }
    proof {
        lemma_run_end(n, next, start as int, done, q as int);
    }
    if sees(t, q, Token::Comma) {
        q = q + 1;
    }
    Some((names, q))
}

// ----------------------------------------------------------------------------------------------
// Expressions.
// ----------------------------------------------------------------------------------------------

/// Any number of expressions with commas between them.
fn expr_list(t: &Vec<Token>, p: usize) -> (r: (Vec<Expr>, usize))
    requires
        p <= t.len(),
    ensures
        steps(Some(r)) == grammar::list(
            token::views(t@),
            grammar::exprs(token::views(t@)),
        )(p as int),
        p <= r.1 <= t.len(),
    decreases t.len() - p, 40nat,
{
    let ghost tv = token::views(t@);
    let ghost n = tv.len() as int;
    let ghost next = grammar::second(grammar::token(tv, TokenView::Comma), grammar::exprs(tv));
    let mut items: Vec<Expr> = Vec::new();
    let (first, start) = match expr(t, p) {
        Some(x) => x,
        None => {
            assert(token::views(items@) =~= Seq::empty());
            return (items, p);
        },
    };
    let ghost head = first@;
    items.push(first);
    let mut q: usize = start;
    let ghost mut done: Seq<ExprView> = Seq::empty();
    proof {
        lemma_run_begin(n, next, start as int);
        assert(token::views(items@) =~= seq![head] + done);
    }
    loop
        invariant
            tv == token::views(t@),
            n == tv.len(),
            next == grammar::second(grammar::token(tv, TokenView::Comma), grammar::exprs(tv)),
            p < start <= q <= t.len(),
            on_the_way(n, next, start as int, done, q as int),
            token::views(items@) == seq![head] + done,
        ensures
            next(q as int) is None,
        decreases t.len() - q,
    {
        if !sees(t, q, Token::Comma) {
            break;
        }
        let (x, r) = match expr(t, q + 1) {
            Some(x) => x,
            None => break,
        };
        proof {
            lemma_run_next(n, next, start as int, done, q as int, x@, r as int);
            lemma_views_push(items@, x);
            assert((seq![head] + done).push(x@) =~= seq![head] + done.push(x@));
            done = done.push(x@);
        }
        items.push(x);
        q = r;
    }
    proof {
        lemma_run_end(n, next, start as int, done, q as int);
    }
    if sees(t, q, Token::Comma) {
        q = q + 1;
    }
    (items, q)
}

/// A body in braces.
fn block(t: &Vec<Token>, p: usize) -> (r: Option<(Body, usize)>)
    requires
        p <= t.len(),
    ensures
        step(r) == grammar::block(token::views(t@), grammar::bodies(token::views(t@)))(p as int),
        r matches Some((_, q)) ==> p < q <= t.len(),
    decreases t.len() - p, 0nat,
{
    if !sees(t, p, Token::StartBracket(Bracket::Brace)) {
        return None;
    }
    let (x, q) = body(t, p + 1);
    if sees(t, q, Token::EndBracket(Bracket::Brace)) {
        Some((x, q + 1))
    } else {
        None
    }
}

/// `else if`, a condition and a block.
fn else_if(t: &Vec<Token>, p: usize) -> (r: Option<((Expr, Body), usize)>)
    requires
        p <= t.len(),
    ensures
        step(r) == grammar::else_if(
            token::views(t@),
            grammar::exprs(token::views(t@)),
            grammar::bodies(token::views(t@)),
        )(p as int),
        r matches Some((_, q)) ==> p < q <= t.len(),
    decreases t.len() - p, 1nat,
{
    if !sees(t, p, Token::Keyword(Keyword::Else)) {
        return None;
    }
    if !sees(t, p + 1, Token::Keyword(Keyword::If)) {
        return None;
    }
    let (condition, q) = match expr(t, p + 2) {
        Some(x) => x,
        None => return None,
    };
    let (x, r) = match block(t, q) {
        Some(x) => x,
        None => return None,
    };
    Some(((condition, x), r))
}

/// `if` and all its branches.
fn if_else(t: &Vec<Token>, p: usize) -> (r: Option<(Expr, usize)>)
    requires
        p <= t.len(),
    ensures
        step(r) == grammar::if_else(
            token::views(t@),
            grammar::exprs(token::views(t@)),
            grammar::bodies(token::views(t@)),
        )(p as int),
        r matches Some((_, q)) ==> p < q <= t.len(),
    decreases t.len() - p, 2nat,
{
    let ghost tv = token::views(t@);
    let ghost n = tv.len() as int;
    let ghost next = grammar::else_if(tv, grammar::exprs(tv), grammar::bodies(tv));
    if !sees(t, p, Token::Keyword(Keyword::If)) {
        return None;
    }
    let (condition, after) = match expr(t, p + 1) {
        Some(x) => x,
        None => return None,
    };
    let (Body(nodes, return_last), start) = match block(t, after) {
        Some(x) => x,
        None => return None,
    };
    let mut else_if_bodies: Vec<(Expr, Body)> = Vec::new();
    let mut q: usize = start;
    proof {
        lemma_run_begin(n, next, start as int);
        assert(token::views(else_if_bodies@) =~= Seq::empty());
    }
    loop
        invariant
            tv == token::views(t@),
            n == tv.len(),
            next == grammar::else_if(tv, grammar::exprs(tv), grammar::bodies(tv)),
            p < start <= q <= t.len(),
            on_the_way(n, next, start as int, token::views(else_if_bodies@), q as int),
        ensures
            next(q as int) is None,
        decreases t.len() - q,
    {
        let (x, r) = match else_if(t, q) {
            Some(x) => x,
            None => break,
        };
        proof {
            let done = token::views(else_if_bodies@);
            lemma_run_next(n, next, start as int, done, q as int, x@, r as int);
            lemma_views_push(else_if_bodies@, x);
        }
        else_if_bodies.push(x);
        q = r;
    }
    proof {
        lemma_run_end(n, next, start as int, token::views(else_if_bodies@), q as int);
    }
    let mut else_body: Option<Body> = None;
    if sees(t, q, Token::Keyword(Keyword::Else)) {
        match block(t, q + 1) {
            Some((x, r)) => {
                else_body = Some(x);
                q = r;
            },
            None => {},
        }
    }
    let condition = Box::new(condition);
    proof {
        ast::lemma_body_view(nodes, return_last);
        ast::lemma_if_view(condition, nodes, else_if_bodies, else_body, return_last);
    }
    Some((Expr::If { condition, body: nodes, else_if_bodies, else_body, return_last }, q))
}

/// The smallest expressions.
fn atom(t: &Vec<Token>, p: usize) -> (r: Option<(Expr, usize)>)
    requires
        p <= t.len(),
    ensures
        step(r) == grammar::atom(
            token::views(t@),
            grammar::exprs(token::views(t@)),
            grammar::bodies(token::views(t@)),
        )(p as int),
        r matches Some((_, q)) ==> p < q <= t.len(),
    decreases t.len() - p, 3nat,
{
    if let Some(x) = literal(t, p) {
        return Some(x);
    }
    if let Some((name, q)) = identifier(t, p) {
        return Some((named(name), q));
    }
    if sees(t, p, Token::StartBracket(Bracket::Paren)) {
        let (x, q) = match expr(t, p + 1) {
            Some(x) => x,
            None => return None,
        };
        return if sees(t, q, Token::EndBracket(Bracket::Paren)) {
            Some((x, q + 1))
        } else {
            None
        };
    }
    if let Some(x) = if_else(t, p) {
        return Some(x);
    }
    if sees(t, p, Token::StartBracket(Bracket::Bracket)) {
        let (items, q) = expr_list(t, p + 1);
        if sees(t, q, Token::EndBracket(Bracket::Bracket)) {
            proof {
                ast::lemma_array_view(items);
            }
            return Some((Expr::Array(items), q + 1));
        }
    }
    None
}

/// An atom and its attributes.
fn attribute(t: &Vec<Token>, p: usize) -> (r: Option<(Expr, usize)>)
    requires
        p <= t.len(),
    ensures
        step(r) == grammar::attribute(
            token::views(t@),
            grammar::exprs(token::views(t@)),
            grammar::bodies(token::views(t@)),
        )(p as int),
        r matches Some((_, q)) ==> p < q <= t.len(),
    decreases t.len() - p, 4nat,
{
    let ghost tv = token::views(t@);
    let ghost n = tv.len() as int;
    let ghost next = grammar::dotted(tv);
    let (first, start) = match atom(t, p) {
        Some(x) => x,
        None => return None,
    };
    let ghost head = first@;
    let mut value: Expr = first;
    let mut q: usize = start;
    let ghost mut done: Seq<Seq<char>> = Seq::empty();
    proof {
        lemma_run_begin(n, next, start as int);
    }
    loop
        invariant
            tv == token::views(t@),
            n == tv.len(),
            next == grammar::dotted(tv),
            p < start <= q <= t.len(),
            on_the_way(n, next, start as int, done, q as int),
            value@ == grammar::attributes(head, done),
        ensures
            next(q as int) is None,
        decreases t.len() - q,
    {
        if !sees(t, q, Token::Dot) {
            break;
        }
        let (name, r) = match identifier(t, q + 1) {
            Some(x) => x,
            None => break,
        };
        proof {
            lemma_run_next(n, next, start as int, done, q as int, name@, r as int);
            assert(done.push(name@).drop_last() =~= done);
            done = done.push(name@);
        }
        value = Expr::Attr(Box::new(value), name);
        q = r;
    }
    proof {
        lemma_run_end(n, next, start as int, done, q as int);
    }
    Some((value, q))
}

/// An attribute expression, perhaps called.
fn call(t: &Vec<Token>, p: usize) -> (r: Option<(Expr, usize)>)
    requires
        p <= t.len(),
    ensures
        step(r) == grammar::call(
            token::views(t@),
            grammar::exprs(token::views(t@)),
            grammar::bodies(token::views(t@)),
        )(p as int),
        r matches Some((_, q)) ==> p < q <= t.len(),
    decreases t.len() - p, 5nat,
{
    let (value, q) = match attribute(t, p) {
        Some(x) => x,
        None => return None,
    };
    if sees(t, q, Token::StartBracket(Bracket::Paren)) {
        let (args, r) = expr_list(t, q + 1);
        if sees(t, r, Token::EndBracket(Bracket::Paren)) {
            let value = Box::new(value);
            let kwargs: Vec<(String, Expr)> = Vec::new();
            proof {
                ast::lemma_call_view(value, args, kwargs);
                assert(token::views(kwargs@) =~= Seq::empty());
            }
            return Some((Expr::Call { value, args, kwargs }, r + 1));
        }
    }
    Some((value, q))
}

/// A call behind prefix operators.
fn unary(t: &Vec<Token>, p: usize) -> (r: Option<(Expr, usize)>)
    requires
        p <= t.len(),
    ensures
        step(r) == grammar::unary(
            token::views(t@),
            grammar::exprs(token::views(t@)),
            grammar::bodies(token::views(t@)),
        )(p as int),
        r matches Some((_, q)) ==> p < q <= t.len(),
    decreases t.len() - p, 6nat,
{
    let ghost tv = token::views(t@);
    let ghost n = tv.len() as int;
    let ghost next = grammar::prefix(tv);
    let mut ops: Vec<Operator> = Vec::new();
    let mut q: usize = p;
    proof {
        lemma_run_begin(n, next, p as int);
    }
    loop
        invariant
            tv == token::views(t@),
            n == tv.len(),
            next == grammar::prefix(tv),
            p <= q <= t.len(),
            on_the_way(n, next, p as int, ops@, q as int),
        ensures
            next(q as int) is None,
        decreases t.len() - q,
    {
        let op = match operator(t, q) {
            Some(op) => op,
            None => break,
        };
        match op {
            Operator::Sub | Operator::Add | Operator::Not | Operator::BitNot => {},
            _ => break,
        }
        proof {
            lemma_run_next(n, next, p as int, ops@, q as int, op, q + 1);
        }
        ops.push(op);
        q = q + 1;
    }
    proof {
        lemma_run_end(n, next, p as int, ops@, q as int);
    }
    let (first, end) = match call(t, q) {
        Some(x) => x,
        None => return None,
    };
    let ghost all = ops@;
    let ghost operand = first@;
    let mut value: Expr = first;
    loop
        invariant
            grammar::prefixed(ops@, value@) == grammar::prefixed(all, operand),
        ensures
            ops@.len() == 0,
        decreases ops.len(),
    {
        let ghost before = ops@;
        let op = match ops.pop() {
            Some(op) => op,
            None => break,
        };
        assert(ops@ =~= before.drop_last());
        value = Expr::UnaryExpr { operator: op, value: Box::new(value) };
    }
    Some((value, end))
}

/// The tier of an operator.
fn tier(op: Operator) -> (r: u8)
    ensures
        r == grammar::tier(op),
{
    match op {
        Operator::Pow => 1,
        Operator::Mul | Operator::Div | Operator::Mod => 2,
        Operator::Add | Operator::Sub => 3,
        Operator::Eq
        | Operator::Ne
        | Operator::Lt
        | Operator::Gt
        | Operator::Le
        | Operator::Ge => 4,
        Operator::And => 5,
        Operator::Or => 6,
        Operator::BitAnd | Operator::BitOr | Operator::BitXor => 7,
        Operator::Not | Operator::BitNot => 0,
    }
}

/// Operands with operators of one tier between them.
fn binary(t: &Vec<Token>, p: usize, level: u8) -> (r: Option<(Expr, usize)>)
    requires
        p <= t.len(),
        level <= LOOSEST,
    ensures
        step(r) == grammar::binary(
            token::views(t@),
            grammar::exprs(token::views(t@)),
            grammar::bodies(token::views(t@)),
            level as nat,
        )(p as int),
        r matches Some((_, q)) ==> p < q <= t.len(),
    decreases t.len() - p, 10 + level,
{
    if level == 0 {
        return unary(t, p);
    }
    let ghost tv = token::views(t@);
    let ghost n = tv.len() as int;
    let ghost operand = grammar::binary(
        tv,
        grammar::exprs(tv),
        grammar::bodies(tv),
        (level - 1) as nat,
    );
    let ghost next = grammar::link(tv, level as nat, operand);
    let (first, start) = match binary(t, p, level - 1) {
        Some(x) => x,
        None => return None,
    };
    let ghost head = first@;
    let mut lhs: Expr = first;
    let mut q: usize = start;
    let ghost mut done: Seq<(Operator, ExprView)> = Seq::empty();
    proof {
        lemma_run_begin(n, next, start as int);
    }
    loop
        invariant
            tv == token::views(t@),
            n == tv.len(),
            0 < level <= LOOSEST,
            operand == grammar::binary(
                tv,
                grammar::exprs(tv),
                grammar::bodies(tv),
                (level - 1) as nat,
            ),
            next == grammar::link(tv, level as nat, operand),
            p < start <= q <= t.len(),
            on_the_way(n, next, start as int, done, q as int),
            lhs@ == grammar::chain(head, done),
        ensures
            next(q as int) is None,
        decreases t.len() - q,
    {
        let op = match operator(t, q) {
            Some(op) => op,
            None => break,
        };
        if tier(op) != level {
            break;
        }
        let (rhs, r) = match binary(t, q + 1, level - 1) {
            Some(x) => x,
            None => break,
        };
        proof {
            lemma_run_next(n, next, start as int, done, q as int, (op, rhs@), r as int);
            assert(done.push((op, rhs@)).drop_last() =~= done);
            done = done.push((op, rhs@));
        }
        lhs = Expr::BinaryExpr { operator: op, lhs: Box::new(lhs), rhs: Box::new(rhs) };
        q = r;
    }
    proof {
        lemma_run_end(n, next, start as int, done, q as int);
    }
    Some((lhs, q))
}

/// An expression.
fn expr(t: &Vec<Token>, p: usize) -> (r: Option<(Expr, usize)>)
    requires
        p <= t.len(),
    ensures
        step(r) == grammar::expr_at(token::views(t@), p as int),
        r matches Some((_, q)) ==> p < q <= t.len(),
    decreases t.len() - p, 20nat,
{
    proof {
        nesting::lemma_expr(token::views(t@), p as int);
    }
    binary(t, p, LOOSEST)
}

// ----------------------------------------------------------------------------------------------
// Statements.
// ----------------------------------------------------------------------------------------------

/// `require` and a list of names.
fn require(t: &Vec<Token>, p: usize) -> (r: Option<(Node, usize)>)
    ensures
        step(r) == grammar::require(token::views(t@))(p as int),
        r matches Some((_, q)) ==> p < q <= t.len(),
{
    if !sees(t, p, Token::Keyword(Keyword::Require)) {
        return None;
    }
    let (names, q) = match name_list(t, p + 1) {
        Some(x) => x,
        None => return None,
    };
    if sees(t, q, Token::Semicolon) {
        Some((Node::Require(names), q + 1))
    } else {
        None
    }
}

/// Names as targets.
fn name_targets(names: Vec<String>) -> (r: Vec<Target>)
    ensures
        token::views(r@) == grammar::name_targets(token::views(names@)),
{
    let mut r: Vec<Target> = Vec::new();
    for i in 0..names.len()
        invariant
            r.len() == i,
            forall|j: int| 0 <= j < i ==> (#[trigger] r[j])@ == TargetView::Ident(names[j]@),
    {
        r.push(Target::Ident(names[i].clone()));
    }
    assert(token::views(r@) =~= grammar::name_targets(token::views(names@)));
    r
}

/// A plain target.
fn plain_target(t: &Vec<Token>, p: usize) -> (r: Option<(Target, usize)>)
    ensures
        step(r) == grammar::plain_target(token::views(t@))(p as int),
        r matches Some((_, q)) ==> p < q <= t.len(),
{
    if let Some((name, q)) = identifier(t, p) {
        return Some((Target::Ident(name), q));
    }
    if !sees(t, p, Token::StartBracket(Bracket::Bracket)) {
        return None;
    }
    let (names, q) = match name_list(t, p + 1) {
        Some(x) => x,
        None => return None,
    };
    if sees(t, q, Token::EndBracket(Bracket::Bracket)) {
        let items = name_targets(names);
        proof {
            ast::lemma_target_array_view(items);
        }
        Some((Target::Array(items), q + 1))
    } else {
        None
    }
}

/// What is assigned to.
fn target(t: &Vec<Token>, p: usize, attributes: bool) -> (r: Option<(Target, usize)>)
    ensures
        step(r) == grammar::target(token::views(t@), attributes)(p as int),
        r matches Some((_, q)) ==> p < q <= t.len(),
{
    if !attributes {
        return plain_target(t, p);
    }
    let ghost tv = token::views(t@);
    let ghost n = tv.len() as int;
    let ghost next = grammar::dotted(tv);
    let (first, start) = match identifier(t, p) {
        Some(x) => x,
        None => return plain_target(t, p),
    };
    let ghost head = first@;
    let mut value: Target = Target::Ident(first);
    let mut q: usize = start;
    let ghost mut done: Seq<Seq<char>> = Seq::empty();
    proof {
        lemma_run_begin(n, next, start as int);
    }
    loop
        invariant
            tv == token::views(t@),
            n == tv.len(),
            next == grammar::dotted(tv),
            p < start <= q <= t.len(),
            on_the_way(n, next, start as int, done, q as int),
            value@ == grammar::path(head, done),
        ensures
            next(q as int) is None,
        decreases t.len() - q,
    {
        if !sees(t, q, Token::Dot) {
            break;
        }
        let (name, r) = match identifier(t, q + 1) {
            Some(x) => x,
            None => break,
        };
        proof {
            lemma_run_next(n, next, start as int, done, q as int, name@, r as int);
            assert(done.push(name@).drop_last() =~= done);
            done = done.push(name@);
        }
        value = Target::Attr(Box::new(value), name);
        q = r;
    }
    proof {
        lemma_run_end(n, next, start as int, done, q as int);
    }
    Some((value, q))
}

/// A target and the `=` behind it.
fn target_eq(t: &Vec<Token>, p: usize, attributes: bool) -> (r: Option<(Target, usize)>)
    ensures
        step(r) == grammar::target_eq(token::views(t@), attributes)(p as int),
        r matches Some((_, q)) ==> p < q <= t.len(),
{
    let (x, q) = match target(t, p, attributes) {
        Some(x) => x,
        None => return None,
    };
    if sees(t, q, Token::Assign) {
        Some((x, q + 1))
    } else {
        None
    }
}

/// One target or more.
fn targets(t: &Vec<Token>, p: usize, attributes: bool) -> (r: Option<(Vec<Target>, usize)>)
    ensures
        steps(r) == grammar::targets(token::views(t@), attributes)(p as int),
        r matches Some((_, q)) ==> p < q <= t.len(),
{
    let ghost tv = token::views(t@);
    let ghost n = tv.len() as int;
    let ghost next = grammar::target_eq(tv, attributes);
    let (first, start) = match target_eq(t, p, attributes) {
        Some(x) => x,
        None => return None,
    };
    let ghost head = first@;
    let mut xs: Vec<Target> = Vec::new();
    xs.push(first);
    let mut q: usize = start;
    let ghost mut done: Seq<TargetView> = Seq::empty();
    proof {
        lemma_run_begin(n, next, start as int);
        assert(token::views(xs@) =~= seq![head] + done);
    }
    loop
        invariant
            tv == token::views(t@),
            n == tv.len(),
            next == grammar::target_eq(tv, attributes),
            p < start <= q <= t.len(),
            on_the_way(n, next, start as int, done, q as int),
            token::views(xs@) == seq![head] + done,
        ensures
            next(q as int) is None,
        decreases t.len() - q,
    {
        let (x, r) = match target_eq(t, q, attributes) {
            Some(x) => x,
            None => break,
        };
        proof {
            lemma_run_next(n, next, start as int, done, q as int, x@, r as int);
            lemma_views_push(xs@, x);
            assert((seq![head] + done).push(x@) =~= seq![head] + done.push(x@));
            done = done.push(x@);
        }
        xs.push(x);
        q = r;
    }
    proof {
        lemma_run_end(n, next, start as int, done, q as int);
    }
    Some((xs, q))
}

/// An assignment.
fn assign(t: &Vec<Token>, p: usize) -> (r: Option<(Node, usize)>)
    requires
        p <= t.len(),
    ensures
        step(r) == grammar::assign(
            token::views(t@),
            grammar::exprs(token::views(t@)),
        )(p as int),
        r matches Some((_, q)) ==> p < q <= t.len(),
    decreases t.len() - p, 50nat,
{
    let mut q: usize = p;
    let let_ = sees(t, q, Token::Keyword(Keyword::Let));
    if let_ {
        q = q + 1;
    }
    let immut = sees(t, q, Token::Keyword(Keyword::Immut));
    if immut {
        q = q + 1;
    }
    let (xs, q) = match targets(t, q, !let_ && !immut) {
        Some(x) => x,
        None => return None,
    };
    let (value, q) = match expr(t, q) {
        Some(x) => x,
        None => return None,
    };
    if sees(t, q, Token::Semicolon) {
        Some((Node::Assign { targets: xs, value, let_, immut, const_: false }, q + 1))
    } else {
        None
    }
}

/// A parameter.
fn param(t: &Vec<Token>, p: usize) -> (r: Option<(Param, usize)>)
    requires
        p <= t.len(),
    ensures
        step(r) == grammar::param(
            token::views(t@),
            grammar::exprs(token::views(t@)),
        )(p as int),
        r matches Some((_, q)) ==> p < q <= t.len(),
    decreases t.len() - p, 50nat,
{
    let (target, q) = match plain_target(t, p) {
        Some(x) => x,
        None => return None,
    };
    if sees(t, q, Token::Assign) {
        if let Some((default, r)) = expr(t, q + 1) {
            return Some((Param { target, default: Some(default) }, r));
        }
    }
    Some((Param { target, default: None }, q))
}

/// Any number of parameters with commas between them.
fn param_list(t: &Vec<Token>, p: usize) -> (r: (Vec<Param>, usize))
    requires
        p <= t.len(),
    ensures
        steps(Some(r)) == grammar::list(
            token::views(t@),
            grammar::param(token::views(t@), grammar::exprs(token::views(t@))),
        )(p as int),
        p <= r.1 <= t.len(),
    decreases t.len() - p, 51nat,
{
    let ghost tv = token::views(t@);
    let ghost n = tv.len() as int;
    let ghost item = grammar::param(tv, grammar::exprs(tv));
    let ghost next = grammar::second(grammar::token(tv, TokenView::Comma), item);
    let mut params: Vec<Param> = Vec::new();
    let (first, start) = match param(t, p) {
        Some(x) => x,
        None => {
            assert(token::views(params@) =~= Seq::empty());
            return (params, p);
        },
    };
    let ghost head = first@;
    params.push(first);
    let mut q: usize = start;
    let ghost mut done: Seq<ParamView> = Seq::empty();
    proof {
        lemma_run_begin(n, next, start as int);
        assert(token::views(params@) =~= seq![head] + done);
    }
    loop
        invariant
            tv == token::views(t@),
            n == tv.len(),
            item == grammar::param(tv, grammar::exprs(tv)),
            next == grammar::second(grammar::token(tv, TokenView::Comma), item),
            p < start <= q <= t.len(),
            on_the_way(n, next, start as int, done, q as int),
            token::views(params@) == seq![head] + done,
        ensures
            next(q as int) is None,
        decreases t.len() - q,
    {
        if !sees(t, q, Token::Comma) {
            break;
        }
        let (x, r) = match param(t, q + 1) {
            Some(x) => x,
            None => break,
        };
        proof {
            lemma_run_next(n, next, start as int, done, q as int, x@, r as int);
            lemma_views_push(params@, x);
            assert((seq![head] + done).push(x@) =~= seq![head] + done.push(x@));
            done = done.push(x@);
        }
        params.push(x);
        q = r;
    }
    proof {
        lemma_run_end(n, next, start as int, done, q as int);
    }
    if sees(t, q, Token::Comma) {
        q = q + 1;
    }
    (params, q)
}

/// A function.
fn func(t: &Vec<Token>, p: usize) -> (r: Option<(Node, usize)>)
    requires
        p <= t.len(),
    ensures
        step(r) == grammar::func(
            token::views(t@),
            grammar::exprs(token::views(t@)),
            grammar::bodies(token::views(t@)),
        )(p as int),
        r matches Some((_, q)) ==> p < q <= t.len(),
    decreases t.len() - p, 52nat,
{
    if !sees(t, p, Token::Keyword(Keyword::Func)) {
        return None;
    }
    let (name, q) = match identifier(t, p + 1) {
        Some(x) => x,
        None => return None,
    };
    if !sees(t, q, Token::StartBracket(Bracket::Paren)) {
        return None;
    }
    let (params, q) = param_list(t, q + 1);
    if !sees(t, q, Token::EndBracket(Bracket::Paren)) {
        return None;
    }
    let (Body(nodes, return_last), q) = match block(t, q + 1) {
        Some(x) => x,
        None => return None,
    };
    proof {
        ast::lemma_body_view(nodes, return_last);
        ast::lemma_func_view(name, params, nodes, return_last);
    }
    Some((Node::Func { name, params, body: nodes, return_last }, q))
}

/// A statement other than an expression.
fn keyword_statement(t: &Vec<Token>, p: usize) -> (r: Option<(Node, usize)>)
    requires
        p <= t.len(),
    ensures
        step(r) == grammar::either(
            grammar::func(
                token::views(t@),
                grammar::exprs(token::views(t@)),
                grammar::bodies(token::views(t@)),
            ),
            grammar::either(
                grammar::assign(token::views(t@), grammar::exprs(token::views(t@))),
                grammar::require(token::views(t@)),
            ),
        )(p as int),
        r matches Some((_, q)) ==> p < q <= t.len(),
    decreases t.len() - p, 53nat,
{
    if let Some(x) = func(t, p) {
        return Some(x);
    }
    if let Some(x) = assign(t, p) {
        return Some(x);
    }
    require(t, p)
}

/// A body. The expression that ends it is read once only: as a statement if it is one, else as
/// the value to return.
pub(crate) fn body(t: &Vec<Token>, p: usize) -> (r: (Body, usize))
    requires
        p <= t.len(),
    ensures
        step(Some(r)) == grammar::body_at(token::views(t@), p as int),
        p <= r.1 <= t.len(),
    decreases t.len() - p, 60nat,
{
    let ghost tv = token::views(t@);
    let ghost n = tv.len() as int;
    let ghost next = grammar::statement(tv, grammar::exprs(tv), grammar::bodies(tv));
    let mut nodes: Vec<Node> = Vec::new();
    let mut q: usize = p;
    proof {
        nesting::lemma_body_at(tv, p as int);
        lemma_run_begin(n, next, p as int);
        assert(token::views(nodes@) =~= Seq::empty());
    }
    loop
        invariant
            tv == token::views(t@),
            n == tv.len(),
            next == grammar::statement(tv, grammar::exprs(tv), grammar::bodies(tv)),
            grammar::body_at(tv, p as int) == grammar::body(
                tv,
                grammar::exprs(tv),
                grammar::bodies(tv),
            )(p as int),
            p <= q <= t.len(),
            on_the_way(n, next, p as int, token::views(nodes@), q as int),
        decreases t.len() - q,
    {
        let ghost done = token::views(nodes@);
        if let Some((node, r)) = keyword_statement(t, q) {
            proof {
                lemma_run_next(n, next, p as int, done, q as int, node@, r as int);
                lemma_views_push(nodes@, node);
            }
            nodes.push(node);
            q = r;
            continue;
        }
        let (x, r) = match expr(t, q) {
            Some(x) => x,
            None => {
                proof {
                    lemma_run_end(n, next, p as int, done, q as int);
                    ast::lemma_body_view(nodes, false);
                }
                return (Body(nodes, false), q);
            },
        };
        let mut end = r;
        let mut ended = true;
        if sees(t, r, Token::Semicolon) {
            end = r + 1;
        } else if let Expr::If { .. } = &x {
        } else {
            ended = r < t.len() && !sees(t, r, Token::EndBracket(Bracket::Brace));
        }
        let node = Node::Expr(x);
        proof {
            lemma_views_push(nodes@, node);
        }
        nodes.push(node);
        if !ended {
            proof {
                lemma_run_end(n, next, p as int, done, q as int);
                ast::lemma_body_view(nodes, true);
            }
            return (Body(nodes, true), r);
        }
        proof {
            lemma_run_next(n, next, p as int, done, q as int, node@, end as int);
        }
        q = end;
    }
}

} // verus!
