//! What holds of token sequences that are put together from others.

use crate::ast;
use crate::ast::{Body, BodyView, Expr, ExprView, NodeView, ParseInterface, TargetView};
use crate::embedding;
use crate::embedding::Window;
use crate::grammar;
use crate::grammar::{Rule, Step};
use crate::laws;
use crate::nesting;
use crate::shape;
use crate::token::{Bracket, Keyword, Operator, TokenView};
use crate::writing;
use vstd::prelude::*;

verus! {

// ----------------------------------------------------------------------------------------------
// Statements behind statements.
// ----------------------------------------------------------------------------------------------

/// The tokens are a body from the first to the last, and end in a semicolon.
pub open spec fn complete(t: Seq<TokenView>) -> bool {
    &&& t.len() > 0
    &&& t.last() == TokenView::Semicolon
    &&& grammar::body_at(t, 0) matches Some((_, q)) && q == t.len()
}

/// Where the statements end there are no more of them, and each takes a token.
proof fn lemma_statements_end(t: Seq<TokenView>, p: int)
    requires
        0 <= p <= t.len(),
    ensures
        ({
            let a = embedding::statements(t);
            let q = grammar::run(t.len() as int, a, p).1;
            &&& p <= q <= t.len()
            &&& a(q) is None
            &&& a(p) matches Some((_, r)) ==> p < r <= t.len()
        }),
{
    reveal(embedding::statements);
    nesting::lemma_statements_end(t, p);
}

/// A body: its statements, and perhaps a value.
proof fn lemma_body_parts(t: Seq<TokenView>, p: int)
    requires
        0 <= p <= t.len(),
    ensures
        ({
            let (xs, m) = grammar::run(t.len() as int, embedding::statements(t), p);
            grammar::body_at(t, p) == match grammar::expr_at(t, m) {
                Some((x, r)) => Some((BodyView(xs.push(NodeView::Expr(x)), true), r)),
                None => Some((BodyView(xs, false), m)),
            }
        }),
{
    reveal(embedding::statements);
    nesting::lemma_body_at(t, p);
}

/// A run takes an item and goes on behind it.
proof fn lemma_run_step<A>(n: int, a: Rule<A>, p: int, x: A, q: int)
    requires
        a(p) == Some((x, q)),
        p < q <= n,
    ensures
        grammar::run(n, a, p) == (seq![x] + grammar::run(n, a, q).0, grammar::run(n, a, q).1),
{
}

/// A run ends where it begins.
proof fn lemma_run_none<A>(n: int, a: Rule<A>, p: int)
    requires
        a(p) is None,
    ensures
        grammar::run(n, a, p) == (Seq::<A>::empty(), p),
{
}

/// The end of complete tokens in a longer sequence.
spec fn ending(a: Seq<TokenView>, s: Seq<TokenView>) -> Window {
    Window { t: a, s, at: 0, n: a.len() - 1 }
}

/// The statements of complete tokens reach to their end, and no value is returned.
proof fn lemma_complete(a: Seq<TokenView>)
    requires
        complete(a),
    ensures
        ({
            let (xs, q) = grammar::run(a.len() as int, embedding::statements(a), 0);
            &&& q == a.len()
            &&& ast::body_of(a) == BodyView(xs, false)
        }),
{
    let w = ending(a, a);
    lemma_body_parts(a, 0);
    lemma_statements_end(a, 0);
    let m = grammar::run(a.len() as int, embedding::statements(a), 0).1;
    nesting::lemma_expr(a, m);
    if m <= w.n {
        embedding::lemma_expr(w, m);
    }
}

/// Behind complete tokens the statements go on.
#[verifier::rlimit(30)]
proof fn lemma_goes_on(a: Seq<TokenView>, s: Seq<TokenView>, p: int)
    requires
        a.len() > 0,
        a.last() == TokenView::Semicolon,
        a.len() <= s.len(),
        a == s.take(a.len() as int),
        0 <= p <= a.len(),
        grammar::run(a.len() as int, embedding::statements(a), p).1 == a.len(),
    ensures
        ({
            let xs = grammar::run(a.len() as int, embedding::statements(a), p).0;
            let (ys, q) = grammar::run(s.len() as int, embedding::statements(s), a.len() as int);
            grammar::run(s.len() as int, embedding::statements(s), p) == (xs + ys, q)
        }),
        p < a.len() ==> embedding::level(a, p, a.len() - 1),
    decreases a.len() - p,
{
    let w = ending(a, s);
    let n = a.len() as int;
    let (ys, r) = grammar::run(s.len() as int, embedding::statements(s), n);
    lemma_statements_end(a, p);
    if p < n {
        assert forall|i: int| 0 <= i < w.n implies #[trigger] w.t[i] == w.s[w.at + i] by {
            assert(s.take(n)[i] == s[i]);
        }
        assert(s.take(n)[n - 1] == s[n - 1]);
        embedding::lemma_statement_at(w, p);
        match embedding::statements(a)(p) {
            Some((x, q)) => {
                lemma_goes_on(a, s, q);
                let (xs, _) = grammar::run(n, embedding::statements(a), q);
                assert(embedding::statements(s)(p) == Some((x, q)));
                lemma_run_step(n, embedding::statements(a), p, x, q);
                lemma_run_step(s.len() as int, embedding::statements(s), p, x, q);
                assert(seq![x] + (xs + ys) =~= (seq![x] + xs) + ys);
            },
            None => {
                lemma_run_none(n, embedding::statements(a), p);
            },
        }
    } else {
        lemma_run_none(n, embedding::statements(a), n);
        assert(Seq::<NodeView>::empty() + ys =~= ys);
    }
}

/// Tokens behind complete ones are read as on their own: the statements of both keep their order,
/// and what is behind decides whether a value is returned.
#[verifier::rlimit(30)]
pub proof fn bodies_join(a: Seq<TokenView>, b: Seq<TokenView>)
    requires
        complete(a),
    ensures
        Body::tree(a + b) == BodyView(Body::tree(a).0 + Body::tree(b).0, Body::tree(b).1),
        !Body::tree(a).1,
{
    let s = a + b;
    let n = a.len() as int;
    lemma_complete(a);
    assert(s.take(n) =~= a);
    lemma_goes_on(a, s, 0);
    let w = Window { t: b, s, at: n, n: b.len() as int };
    embedding::lemma_body_at(w, 0);
    lemma_body_parts(s, 0);
    lemma_body_parts(s, n);
    nesting::lemma_body_at(b, 0);
    let xs = Body::tree(a).0;
    let (ys, q) = grammar::run(s.len() as int, embedding::statements(s), n);
    match grammar::expr_at(s, q) {
        Some((e, _)) => {
            assert((xs + ys).push(NodeView::Expr(e)) =~= xs + ys.push(NodeView::Expr(e)));
        },
        None => {},
    }
}

/// A semicolon begins nothing: there is no empty statement.
pub proof fn semicolon_begins_nothing(t: Seq<TokenView>, p: int)
    requires
        0 <= p <= t.len(),
        grammar::at(t, p) == Some(TokenView::Semicolon),
    ensures
        grammar::statement(t, grammar::exprs(t), grammar::bodies(t))(p) is None,
        grammar::expr_at(t, p) is None,
{
    laws::expr_begins(t, p);
}

/// A semicolon behind complete tokens, or at the beginning, ends the body: what follows it is
/// passed over.
pub proof fn stray_semicolon_ends_body(a: Seq<TokenView>, b: Seq<TokenView>)
    requires
        a.len() == 0 || complete(a),
    ensures
        Body::tree(a.push(TokenView::Semicolon) + b) == Body::tree(a),
{
    let s = a.push(TokenView::Semicolon) + b;
    let n = a.len() as int;
    assert(grammar::at(s, n) == Some(TokenView::Semicolon));
    semicolon_begins_nothing(s, n);
    lemma_body_parts(s, 0);
    assert(embedding::statements(s)(n) is None) by {
        reveal(embedding::statements);
    }
    lemma_run_none(s.len() as int, embedding::statements(s), n);
    if n > 0 {
        lemma_complete(a);
        assert(s.take(n) =~= a);
        lemma_goes_on(a, s, 0);
        let xs = Body::tree(a).0;
        assert(xs + Seq::<NodeView>::empty() =~= xs);
    } else {
        lemma_body_parts(a, 0);
        lemma_statements_end(a, 0);
        laws::expr_begins(a, 0);
        lemma_run_none(0, embedding::statements(a), 0);
    }
}

// ----------------------------------------------------------------------------------------------
// A semicolon behind the last value.
// ----------------------------------------------------------------------------------------------

/// No beginning of the tokens closes more braces than it opens.
pub open spec fn keeps_braces(t: Seq<TokenView>) -> bool {
    forall|p: int| 0 <= p <= t.len() ==> #[trigger] embedding::depth(t, true, p) >= 0
}

/// The tokens, and a semicolon behind them.
spec fn closing(t: Seq<TokenView>) -> Window {
    Window { t, s: t.push(TokenView::Semicolon), at: 0, n: t.len() as int }
}

/// Statements close their brackets.
proof fn lemma_run_is_level(t: Seq<TokenView>, p: int)
    requires
        0 <= p <= t.len(),
    ensures
        ({
            let q = grammar::run(t.len() as int, embedding::statements(t), p).1;
            p <= q <= t.len() && embedding::level(t, p, q)
        }),
    decreases t.len() - p,
{
    let a = embedding::statements(t);
    embedding::lemma_statement_at(closing(t), p);
    match a(p) {
        Some((x, q)) => {
            lemma_run_is_level(t, q);
            lemma_run_step(t.len() as int, a, p, x, q);
        },
        None => {
            lemma_run_none(t.len() as int, a, p);
        },
    }
}

/// The value that a body returns reaches to the end of the tokens.
proof fn lemma_last_value(t: Seq<TokenView>, m: int, x: ExprView, r: int)
    requires
        keeps_braces(t),
        grammar::run(t.len() as int, embedding::statements(t), 0).1 == m,
        grammar::expr_at(t, m) == Some((x, r)),
    ensures
        0 <= m < r == t.len(),
        embedding::level(t, m, r),
        !(x is If),
        embedding::statements(t)(m) is None,
{
    lemma_run_is_level(t, 0);
    lemma_statements_end(t, 0);
    embedding::lemma_expr(closing(t), m);
    let e = grammar::exprs(t);
    assert(e(m) == Some((x, r)));
    assert(grammar::expr_statement(t, e)(m) is None) by {
        reveal(embedding::statements);
    }
    if r < t.len() {
        assert(t[r] == TokenView::EndBracket(Bracket::Brace));
        embedding::lemma_depth(t, r);
        embedding::lemma_depth_begins(t);
        assert(embedding::depth(t, true, r + 1) >= 0);
    }
}

/// With a semicolon behind the tokens the same is assigned, or something is that was read as an
/// expression with `=` behind it.
proof fn lemma_assign_before(t: Seq<TokenView>, p: int)
    requires
        0 <= p <= t.len(),
        embedding::level(t, p, t.len() as int),
    ensures
        ({
            let s = t.push(TokenView::Semicolon);
            let a1 = grammar::assign(t, grammar::exprs(t))(p);
            let a2 = grammar::assign(s, grammar::exprs(s))(p);
            &&& a1 is Some ==> a2 == a1
            &&& a1 is None && a2 is Some ==> (grammar::expr_at(t, p) matches Some((_, r))
                ==> grammar::at(t, r) == Some(TokenView::Assign))
        }),
{
    let w = closing(t);
    let s = w.s;
    let e1 = grammar::exprs(t);
    let e2 = grammar::exprs(s);
    embedding::lemma_pieces(w, p);
    embedding::lemma_unclosed_closes(t, e1, p);
    embedding::lemma_unclosed_closes(s, e2, p);
    laws::expr_begins(t, p);
    laws::target_reads_as_expr(t, true, p);
    if grammar::expr_at(t, p) is Some {
        assert(grammar::modifiers(t)(p) == Some(((None::<TokenView>, None::<TokenView>), p)));
    }
}

/// With a semicolon behind the tokens the same is required.
proof fn lemma_require_before(t: Seq<TokenView>, p: int)
    requires
        0 <= p <= t.len(),
        embedding::level(t, p, t.len() as int),
    ensures
        ({
            let s = t.push(TokenView::Semicolon);
            &&& grammar::require(t)(p) is Some ==> grammar::require(s)(p) == grammar::require(t)(p)
            &&& grammar::require(s)(p) is Some ==> grammar::at(t, p) == Some(
                TokenView::Keyword(Keyword::Require),
            )
        }),
{
    let w = closing(t);
    embedding::lemma_pieces(w, p);
}

/// With a semicolon behind the tokens an expression before the last token is the same statement.
proof fn lemma_expr_before(t: Seq<TokenView>, p: int, x: NodeView, q: int)
    requires
        0 <= p <= t.len(),
        embedding::level(t, p, t.len() as int),
        q < t.len(),
        grammar::expr_statement(t, grammar::exprs(t))(p) == Some((x, q)),
    ensures
        ({
            let s = t.push(TokenView::Semicolon);
            grammar::expr_statement(s, grammar::exprs(s))(p) == Some((x, q))
        }),
        grammar::expr_at(t, p) matches Some((_, r)) && (r == q || t[r] == TokenView::Semicolon),
{
    let w = closing(t);
    let e1 = grammar::exprs(t);
    let e2 = grammar::exprs(w.s);
    embedding::lemma_expr(w, p);
    assert(e1(p) == grammar::expr_at(t, p));
    assert(e2(p) == e1(p));
    match e1(p) {
        Some((_, r)) => {
            assert(r <= q);
            assert(grammar::at(w.s, r) == grammar::at(t, r));
        },
        None => {},
    }
}

/// A statement with another one, or a value, behind it is read the same with a semicolon behind
/// them all.
#[verifier::rlimit(30)]
proof fn lemma_statement_before(t: Seq<TokenView>, p: int, x: NodeView, q: int)
    requires
        0 <= p < q < t.len(),
        embedding::statements(t)(p) == Some((x, q)),
        embedding::level(t, p, t.len() as int),
        t[q] != TokenView::Assign,
    ensures
        embedding::statements(t.push(TokenView::Semicolon))(p) == Some((x, q)),
{
    let s = t.push(TokenView::Semicolon);
    let e1 = grammar::exprs(t);
    let e2 = grammar::exprs(s);
    let f1 = grammar::func(t, e1, grammar::bodies(t))(p);
    let f2 = grammar::func(s, e2, grammar::bodies(s))(p);
    let a1 = grammar::assign(t, e1)(p);
    let a2 = grammar::assign(s, e2)(p);
    let r1 = grammar::require(t)(p);
    let r2 = grammar::require(s)(p);
    let x1 = grammar::expr_statement(t, e1)(p);
    let x2 = grammar::expr_statement(s, e2)(p);
    assert(f2 == f1) by {
        embedding::lemma_pieces(closing(t), p);
    }
    lemma_assign_before(t, p);
    lemma_require_before(t, p);
    if x1 == Some((x, q)) {
        lemma_expr_before(t, p, x, q);
        laws::expr_begins(t, p);
    }
    lemma_first_of(t, p, f1, a1, r1, x1);
    lemma_first_of(s, p, f2, a2, r2, x2);
}

/// A statement is the first of four that applies.
proof fn lemma_first_of(
    t: Seq<TokenView>,
    p: int,
    f: Step<NodeView>,
    a: Step<NodeView>,
    r: Step<NodeView>,
    x: Step<NodeView>,
)
    requires
        f == grammar::func(t, grammar::exprs(t), grammar::bodies(t))(p),
        a == grammar::assign(t, grammar::exprs(t))(p),
        r == grammar::require(t)(p),
        x == grammar::expr_statement(t, grammar::exprs(t))(p),
    ensures
        embedding::statements(t)(p) == (if f is Some {
            f
        } else if a is Some {
            a
        } else if r is Some {
            r
        } else {
            x
        }),
{
    reveal(embedding::statements);
}

/// `=` begins nothing.
proof fn lemma_eq_begins_nothing(t: Seq<TokenView>, p: int)
    requires
        0 <= p <= t.len(),
        grammar::at(t, p) == Some(TokenView::Assign),
    ensures
        embedding::statements(t)(p) is None,
        grammar::expr_at(t, p) is None,
{
    reveal(embedding::statements);
    laws::expr_begins(t, p);
    assert(grammar::modifiers(t)(p) == Some(((None::<TokenView>, None::<TokenView>), p)));
    assert(grammar::targets(t, true)(p) is None);
}

/// The value at the end becomes a statement.
proof fn lemma_value_closed(t: Seq<TokenView>, m: int, x: ExprView)
    requires
        0 <= m < t.len(),
        embedding::statements(t)(m) is None,
        grammar::expr_at(t, m) == Some((x, t.len() as int)),
        embedding::level(t, m, t.len() as int),
    ensures
        embedding::statements(t.push(TokenView::Semicolon))(m) == Some(
            (NodeView::Expr(x), t.len() as int + 1),
        ),
{
    reveal(embedding::statements);
    let w = closing(t);
    let s = w.s;
    embedding::lemma_pieces(w, m);
    embedding::lemma_expr(w, m);
    laws::expr_begins(t, m);
    laws::expr_is_not_assigned(s, m);
    assert(grammar::exprs(s)(m) == Some((x, t.len() as int)));
    assert(grammar::at(s, t.len() as int) == Some(TokenView::Semicolon));
    assert(grammar::at(s, m) == grammar::at(t, m));
}

/// The statements up to the last value, and that value, with a semicolon behind them all.
proof fn lemma_all_closed(t: Seq<TokenView>, p: int, m: int, x: ExprView)
    requires
        0 <= p <= m < t.len(),
        grammar::run(t.len() as int, embedding::statements(t), p).1 == m,
        embedding::statements(t)(m) is None,
        grammar::expr_at(t, m) == Some((x, t.len() as int)),
        embedding::level(t, m, t.len() as int),
    ensures
        ({
            let s = t.push(TokenView::Semicolon);
            let xs = grammar::run(t.len() as int, embedding::statements(t), p).0;
            grammar::run(s.len() as int, embedding::statements(s), p) == (
                xs.push(NodeView::Expr(x)),
                t.len() as int + 1,
            )
        }),
        embedding::level(t, p, m),
    decreases m - p,
{
    let s = t.push(TokenView::Semicolon);
    let n = t.len() as int;
    let a = embedding::statements(t);
    let b = embedding::statements(s);
    match a(p) {
        Some((y, q)) => {
            lemma_statements_end(t, p);
            lemma_run_is_level(t, q);
            lemma_run_step(n, a, p, y, q);
            lemma_all_closed(t, q, m, x);
            embedding::lemma_statement_at(closing(t), p);
            if t[q] == TokenView::Assign {
                lemma_eq_begins_nothing(t, q);
            }
            lemma_statement_before(t, p, y, q);
            lemma_run_step(n + 1, b, p, y, q);
            let xs = grammar::run(n, a, q).0;
            assert((seq![y] + xs).push(NodeView::Expr(x)) =~= seq![y] + xs.push(
                NodeView::Expr(x),
            ));
        },
        None => {
            lemma_run_none(n, a, p);
            lemma_value_closed(t, m, x);
            lemma_statements_end(s, n + 1);
            lemma_run_none(n + 1, b, n + 1);
            lemma_run_step(n + 1, b, m, NodeView::Expr(x), n + 1);
            assert(seq![NodeView::Expr(x)] + Seq::<NodeView>::empty() =~= Seq::<
                NodeView,
            >::empty().push(NodeView::Expr(x)));
        },
    }
}

/// A semicolon behind a body that returns its last value keeps the statements, and nothing is
/// returned.
pub proof fn last_semicolon_discards_value(t: Seq<TokenView>)
    requires
        keeps_braces(t),
        Body::tree(t).1,
    ensures
        Body::tree(t.push(TokenView::Semicolon)) == BodyView(Body::tree(t).0, false),
{
    let s = t.push(TokenView::Semicolon);
    let n = t.len() as int;
    let (xs, m) = grammar::run(n, embedding::statements(t), 0);
    lemma_body_parts(t, 0);
    lemma_body_parts(s, 0);
    match grammar::expr_at(t, m) {
        Some((x, r)) => {
            lemma_last_value(t, m, x, r);
            lemma_all_closed(t, 0, m, x);
            laws::expr_begins(s, n + 1);
        },
        None => {},
    }
}

// ----------------------------------------------------------------------------------------------
// Tokens that are one expression.
// ----------------------------------------------------------------------------------------------

/// The tokens are one expression, from the first to the last.
pub open spec fn is_expr(t: Seq<TokenView>, x: ExprView) -> bool {
    grammar::expr_at(t, 0) == Some((x, t.len() as int))
}

/// Tokens that are a body of one value, and close no brace that they do not open, are that
/// expression.
pub proof fn lone_value_is_expr(t: Seq<TokenView>, x: ExprView)
    requires
        keeps_braces(t),
        Body::tree(t) == BodyView(seq![NodeView::Expr(x)], true),
    ensures
        is_expr(t, x),
{
    let n = t.len() as int;
    let (xs, m) = grammar::run(n, embedding::statements(t), 0);
    lemma_body_parts(t, 0);
    match grammar::expr_at(t, m) {
        Some((y, r)) => {
            assert(xs.push(NodeView::Expr(y)) == seq![NodeView::Expr(x)]);
            assert(xs.push(NodeView::Expr(y)).len() == 1);
            assert(xs.push(NodeView::Expr(y))[0] == NodeView::Expr(y));
            lemma_last_value(t, m, y, r);
            lemma_statements_end(t, 0);
            match embedding::statements(t)(0) {
                Some((z, q)) => {
                    lemma_run_step(n, embedding::statements(t), 0, z, q);
                },
                None => {
                    lemma_run_none(n, embedding::statements(t), 0);
                },
            }
        },
        None => {},
    }
}

/// Tokens without braces close none.
pub proof fn no_braces_keeps_braces(t: Seq<TokenView>)
    requires
        forall|i: int| 0 <= i < t.len() ==> embedding::weight(#[trigger] t[i], true) == 0,
    ensures
        keeps_braces(t),
{
    assert forall|p: int| 0 <= p <= t.len() implies #[trigger] embedding::depth(t, true, p)
        >= 0 by {
        lemma_flat(t, p);
    }
}

proof fn lemma_flat(t: Seq<TokenView>, p: int)
    requires
        forall|i: int| 0 <= i < t.len() ==> embedding::weight(#[trigger] t[i], true) == 0,
        0 <= p <= t.len(),
    ensures
        embedding::depth(t, true, p) == 0,
    decreases p,
{
    if p > 0 {
        lemma_flat(t, p - 1);
        embedding::lemma_depth(t, p - 1);
    } else {
        embedding::lemma_depth_begins(t);
    }
}

/// An expression ends in no semicolon.
proof fn lemma_ends_in_no_semicolon(t: Seq<TokenView>, x: ExprView)
    requires
        is_expr(t, x),
    ensures
        t.len() > 0,
        t.last() != TokenView::Semicolon,
{
    nesting::lemma_expr(t, 0);
    if t.last() == TokenView::Semicolon {
        embedding::lemma_expr(ending(t, t), 0);
    }
}

/// Tokens that are one expression are read as that expression.
pub proof fn whole_expr_is_read(t: Seq<TokenView>, x: ExprView)
    requires
        is_expr(t, x),
    ensures
        Expr::readable(t),
        Expr::tree(t) == x,
{
    let w = closing(t);
    lemma_ends_in_no_semicolon(t, x);
    embedding::lemma_expr(w, 0);
    laws::expr_is_not_assigned(w.s, 0);
    laws::expr_is_what_stands_first(t);
}

/// One expression stands in a longer sequence with something behind it that prolongs no
/// expression: it is read there as on its own.
pub proof fn expr_is_read_within(t: Seq<TokenView>, x: ExprView, s: Seq<TokenView>, p: int)
    requires
        is_expr(t, x),
        writing::stands(s, p, t),
        grammar::at(s, p + t.len()) matches Some(y) ==> embedding::stops(y),
    ensures
        grammar::expr_at(s, p) == Some((x, p + t.len())),
{
    let w = Window { t, s, at: p, n: t.len() as int };
    reveal(writing::stands);
    embedding::lemma_expr(w, 0);
}

/// Parentheses round tokens that are one expression leave no trace in the tree.
pub proof fn parentheses_round_expr(t: Seq<TokenView>, x: ExprView)
    requires
        is_expr(t, x),
    ensures
        is_expr(writing::wrap(Bracket::Paren, t), x),
        Expr::readable(t),
        Expr::tree(t) == x,
        Expr::readable(writing::wrap(Bracket::Paren, t)),
        Expr::tree(writing::wrap(Bracket::Paren, t)) == x,
{
    let s = writing::wrap(Bracket::Paren, t);
    assert(s.take(s.len() as int) =~= s);
    writing::lemma_stands_whole(s, s);
    writing::lemma_stands_wrap(s, 0, Bracket::Paren, t);
    expr_is_read_within(t, x, s, 1);
    laws::parentheses_leave_no_trace(s, 0, x, 1 + t.len() as int);
    whole_expr_is_read(t, x);
    whole_expr_is_read(s, x);
}

/// Parentheses round tokens without braces that are a body of one value leave no trace in the
/// tree.
pub proof fn parentheses_round_value(t: Seq<TokenView>, x: ExprView)
    requires
        forall|i: int| 0 <= i < t.len() ==> embedding::weight(#[trigger] t[i], true) == 0,
        Body::tree(t) == BodyView(seq![NodeView::Expr(x)], true),
    ensures
        Expr::readable(t),
        Expr::tree(t) == x,
        Expr::readable(writing::wrap(Bracket::Paren, t)),
        Expr::tree(writing::wrap(Bracket::Paren, t)) == x,
{
    no_braces_keeps_braces(t);
    lone_value_is_expr(t, x);
    parentheses_round_expr(t, x);
}

// ----------------------------------------------------------------------------------------------
// Assignments.
// ----------------------------------------------------------------------------------------------

/// Tokens that are one statement are a body of it.
proof fn lemma_one_statement(t: Seq<TokenView>, x: NodeView)
    requires
        embedding::statements(t)(0) == Some((x, t.len() as int)),
    ensures
        Body::tree(t) == BodyView(seq![x], false),
{
    let a = embedding::statements(t);
    let n = t.len() as int;
    lemma_body_parts(t, 0);
    lemma_statements_end(t, 0);
    lemma_statements_end(t, n);
    laws::expr_begins(t, n);
    lemma_run_none(n, a, n);
    lemma_run_step(n, a, 0, x, n);
    assert(seq![x] + Seq::<NodeView>::empty() =~= seq![x]);
}

/// Targets, each with its `=` behind it, one expression and a semicolon are an assignment of that
/// expression. An attribute is a target where neither `let` nor `immut` stands before it.
#[verifier::rlimit(30)]
pub proof fn assignment_is_read(
    c: bool,
    let_: bool,
    immut: bool,
    targets: Seq<TargetView>,
    v: Seq<TokenView>,
    value: ExprView,
)
    requires
        shape::are_targets(targets, !let_ && !immut),
        is_expr(v, value),
    ensures
        Body::tree(
            writing::write_head(c, let_, immut, targets) + (v + seq![TokenView::Semicolon]),
        ) == BodyView(
            seq![NodeView::Assign { targets, value, let_, immut, const_: false }],
            false,
        ),
{
    let head = writing::write_head(c, let_, immut, targets);
    let end = seq![TokenView::Semicolon];
    let t = head + (v + end);
    let n = t.len() as int;
    let q = head.len() as int;
    let x = NodeView::Assign { targets, value, let_, immut, const_: false };
    assert(t.take(n) =~= t);
    writing::lemma_stands_whole(t, t);
    writing::lemma_stands_add(t, 0, head, v + end);
    writing::lemma_stands_add(t, q, v, end);
    writing::lemma_stands_one(t, n - 1, TokenView::Semicolon);
    assert(grammar::expr_at(t, q) == Some((value, n - 1))) by {
        expr_is_read_within(v, value, t, q);
    }
    writing::written_targets_are_assigned(t, c, let_, immut, targets, 0, value, n - 1);
    assert(embedding::statements(t)(0) == Some((x, n))) by {
        reveal(embedding::statements);
    }
    lemma_one_statement(t, x);
}

/// A name is an expression.
pub proof fn name_is_expr(name: Seq<char>)
    ensures
        is_expr(seq![TokenView::Identifier(name)], grammar::named(name)),
{
    let t = seq![TokenView::Identifier(name)];
    assert(laws::atoms(t)(0) == Some((grammar::named(name), 1int)));
    laws::atom_alone(t, 0, grammar::named(name), 1);
}

/// `x.y = z;` assigns to an attribute, whatever the names are.
#[verifier::rlimit(30)]
pub proof fn attribute_is_assigned(x: Seq<char>, y: Seq<char>, z: Seq<char>)
    ensures
        Body::tree(
            seq![
                TokenView::Identifier(x),
                TokenView::Dot,
                TokenView::Identifier(y),
                TokenView::Assign,
                TokenView::Identifier(z),
                TokenView::Semicolon,
            ],
        ) == BodyView(
            seq![
                NodeView::Assign {
                    targets: seq![TargetView::Attr(Box::new(TargetView::Ident(x)), y)],
                    value: grammar::named(z),
                    let_: false,
                    immut: false,
                    const_: false,
                },
            ],
            false,
        ),
{
    let object = TargetView::Ident(x);
    let target = TargetView::Attr(Box::new(object), y);
    let targets = seq![target];
    let t = seq![
        TokenView::Identifier(x),
        TokenView::Dot,
        TokenView::Identifier(y),
        TokenView::Assign,
        TokenView::Identifier(z),
        TokenView::Semicolon,
    ];
    let v = seq![TokenView::Identifier(z)];
    name_is_expr(z);
    assert(shape::is_path(object));
    assert(shape::is_path(target));
    assert(writing::write_target(false, object) =~= seq![TokenView::Identifier(x)]);
    assert(writing::write_target(false, target) =~= t.take(3));
    assert(writing::write_targets(false, targets, 1) =~= Seq::empty());
    assert(writing::write_targets(false, targets, 0) =~= t.take(4));
    assert(writing::write_head(false, false, false, targets) =~= t.take(4));
    assignment_is_read(false, false, false, targets, v, grammar::named(z));
    assert(t.take(4) + (v + seq![TokenView::Semicolon]) =~= t);
}

// ----------------------------------------------------------------------------------------------
// Lists.
// ----------------------------------------------------------------------------------------------

/// The items from `i` on with commas between them, and one behind the last if `c`.
pub open spec fn joined(c: bool, items: Seq<Seq<TokenView>>, i: int) -> Seq<TokenView>
    decreases items.len() - i,
{
    if 0 <= i < items.len() {
        items[i] + (writing::comma(c, i, items.len()) + joined(c, items, i + 1))
    } else {
        Seq::empty()
    }
}

/// Each item is one expression.
pub open spec fn are_exprs(items: Seq<Seq<TokenView>>, xs: Seq<ExprView>) -> bool {
    &&& items.len() == xs.len()
    &&& forall|i: int| 0 <= i < items.len() ==> is_expr(#[trigger] items[i], xs[i])
}

pub proof fn lemma_joined(
    t: Seq<TokenView>,
    c: bool,
    items: Seq<Seq<TokenView>>,
    xs: Seq<ExprView>,
    i: int,
    p: int,
)
    requires
        0 <= i <= items.len(),
        are_exprs(items, xs),
        writing::stands(t, p, joined(c, items, i)),
        grammar::at(t, p + joined(c, items, i).len()) matches Some(y) && y is EndBracket,
    ensures
        writing::listed(t, c, grammar::exprs(t), xs, i, p, p + joined(c, items, i).len()),
    decreases items.len() - i,
{
    if i < items.len() {
        let w = items[i];
        let sep = writing::comma(c, i, items.len());
        let rest = joined(c, items, i + 1);
        let q = p + w.len();
        writing::lemma_stands_add(t, p, w, sep + rest);
        writing::lemma_stands_add(t, q, sep, rest);
        if c || i + 1 < items.len() {
            writing::lemma_stands_one(t, q, TokenView::Comma);
            lemma_joined(t, c, items, xs, i + 1, q + 1);
        }
        expr_is_read_within(w, xs[i], t, p);
    }
}

/// A list of expressions, with a closing bracket behind it.
proof fn lemma_joined_list(
    t: Seq<TokenView>,
    c: bool,
    items: Seq<Seq<TokenView>>,
    xs: Seq<ExprView>,
    p: int,
)
    requires
        are_exprs(items, xs),
        writing::stands(t, p, joined(c, items, 0)),
        grammar::at(t, p + joined(c, items, 0).len()) matches Some(y) && y is EndBracket,
    ensures
        grammar::list(t, grammar::exprs(t))(p) == Some((xs, p + joined(c, items, 0).len())),
{
    let q = p + joined(c, items, 0).len();
    let e = grammar::exprs(t);
    lemma_joined(t, c, items, xs, 0, p);
    writing::lemma_stands_in(t, p, joined(c, items, 0));
    assert forall|r: int| #![trigger e(r)] p <= r <= t.len() implies (e(r) matches Some((_, s))
        ==> r < s <= t.len()) by {
        laws::expr_takes_a_token(t, r);
    }
    laws::expr_begins(t, q);
    writing::lemma_listed(t, c, e, xs, p, q);
}

/// Items in square brackets are an array of them in their order, with or without a comma behind
/// the last.
#[verifier::rlimit(30)]
pub proof fn array_of_items(c: bool, items: Seq<Seq<TokenView>>, xs: Seq<ExprView>)
    requires
        are_exprs(items, xs),
    ensures
        ({
            let t = writing::wrap(Bracket::Bracket, joined(c, items, 0));
            &&& is_expr(t, ExprView::Array(xs))
            &&& Expr::readable(t)
            &&& Expr::tree(t) == ExprView::Array(xs)
        }),
{
    let w = joined(c, items, 0);
    let t = writing::wrap(Bracket::Bracket, w);
    let n = t.len() as int;
    let x = ExprView::Array(xs);
    assert(t.take(n) =~= t);
    writing::lemma_stands_whole(t, t);
    writing::lemma_stands_wrap(t, 0, Bracket::Bracket, w);
    lemma_joined_list(t, c, items, xs, 1);
    let e = grammar::exprs(t);
    assert(grammar::within(t, Bracket::Bracket, grammar::list(t, e))(0) == Some((xs, n)));
    assert(grammar::if_else(t, e, grammar::bodies(t))(0) is None);
    assert(laws::atoms(t)(0) == Some((x, n)));
    laws::atom_alone(t, 0, x, n);
    whole_expr_is_read(t, x);
}

/// A name with items in parentheses behind it is a call with them as arguments in their order,
/// with or without a comma behind the last.
#[verifier::rlimit(30)]
pub proof fn call_with_items(
    name: Seq<char>,
    c: bool,
    items: Seq<Seq<TokenView>>,
    xs: Seq<ExprView>,
)
    requires
        are_exprs(items, xs),
    ensures
        ({
            let t = seq![TokenView::Identifier(name)] + writing::wrap(
                Bracket::Paren,
                joined(c, items, 0),
            );
            let x = ExprView::Call {
                value: Box::new(grammar::named(name)),
                args: xs,
                kwargs: Seq::empty(),
            };
            &&& is_expr(t, x)
            &&& Expr::readable(t)
            &&& Expr::tree(t) == x
        }),
{
    let w = joined(c, items, 0);
    let f = seq![TokenView::Identifier(name)];
    let t = f + writing::wrap(Bracket::Paren, w);
    let n = t.len() as int;
    let x = ExprView::Call {
        value: Box::new(grammar::named(name)),
        args: xs,
        kwargs: Seq::empty(),
    };
    assert(t.take(n) =~= t);
    writing::lemma_stands_whole(t, t);
    writing::lemma_stands_add(t, 0, f, writing::wrap(Bracket::Paren, w));
    writing::lemma_stands_one(t, 0, TokenView::Identifier(name));
    writing::lemma_stands_wrap(t, 1, Bracket::Paren, w);
    lemma_joined_list(t, c, items, xs, 2);
    let e = grammar::exprs(t);
    let b = grammar::bodies(t);
    let y = grammar::named(name);
    assert(grammar::run(n, grammar::dotted(t), 1) == (Seq::<Seq<char>>::empty(), 1int));
    assert(grammar::attributes(y, Seq::empty()) == y);
    assert(grammar::attribute(t, e, b)(0) == Some((y, 1int)));
    assert(grammar::arguments(t, e)(1) == Some((xs, n)));
    assert(grammar::call(t, e, b)(0) == Some((x, n)));
    assert(grammar::run(n, grammar::prefix(t), 0) == (Seq::<Operator>::empty(), 0int));
    assert(grammar::prefixed(Seq::empty(), x) == x);
    laws::operand_alone(t, 0, x, n);
    whole_expr_is_read(t, x);
}

/// One comma behind the last item of an array or of an argument list changes nothing.
pub proof fn trailing_comma_changes_nothing(
    name: Seq<char>,
    items: Seq<Seq<TokenView>>,
    xs: Seq<ExprView>,
)
    requires
        are_exprs(items, xs),
    ensures
        ({
            let f = seq![TokenView::Identifier(name)];
            let with = joined(true, items, 0);
            let without = joined(false, items, 0);
            &&& Expr::tree(writing::wrap(Bracket::Bracket, with)) == Expr::tree(
                writing::wrap(Bracket::Bracket, without),
            )
            &&& Expr::tree(f + writing::wrap(Bracket::Paren, with)) == Expr::tree(
                f + writing::wrap(Bracket::Paren, without),
            )
        }),
{
    array_of_items(true, items, xs);
    array_of_items(false, items, xs);
    call_with_items(name, true, items, xs);
    call_with_items(name, false, items, xs);
}

/// With a comma behind the last item there is one token more, and it stands at the end.
pub proof fn trailing_comma_is_one_token(items: Seq<Seq<TokenView>>, i: int)
    requires
        0 <= i < items.len(),
    ensures
        joined(true, items, i) == joined(false, items, i).push(TokenView::Comma),
    decreases items.len() - i,
{
    if i + 1 < items.len() {
        trailing_comma_is_one_token(items, i + 1);
    } else {
        assert(joined(true, items, i + 1) =~= Seq::empty());
        assert(joined(false, items, i + 1) =~= Seq::empty());
    }
    assert(joined(true, items, i) =~= joined(false, items, i).push(TokenView::Comma));
}

} // verus!
