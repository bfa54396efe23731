//! What holds of the grammar as a whole.

use crate::ast;
use crate::ast::{Expr, ExprView, ParseInterface};
use crate::grammar;
use crate::grammar::LOOSEST;
use crate::nesting;
use crate::shape;
use crate::token::{Bracket, Keyword, Operator, TokenView};
use vstd::prelude::*;

verus! {

/// What is nested in an expression is read as it would be read on its own: the rule for
/// expressions holds with itself and the rule for bodies in the nested places.
pub proof fn expr_nests(t: Seq<TokenView>, p: int)
    requires
        0 <= p <= t.len(),
    ensures
        grammar::expr_at(t, p) == grammar::expression(t, grammar::exprs(t), grammar::bodies(t))(p),
{
    nesting::lemma_expr(t, p);
}

/// What is nested in a body is read as it would be read on its own.
pub proof fn body_nests(t: Seq<TokenView>, p: int)
    requires
        0 <= p <= t.len(),
    ensures
        grammar::body_at(t, p) == grammar::body(t, grammar::exprs(t), grammar::bodies(t))(p),
{
    nesting::lemma_body_at(t, p);
}

/// An expression takes at least one token, and none that is not there.
pub proof fn expr_takes_a_token(t: Seq<TokenView>, p: int)
    requires
        0 <= p <= t.len(),
    ensures
        grammar::expr_at(t, p) matches Some((_, q)) ==> p < q <= t.len(),
{
    nesting::lemma_expr(t, p);
}

/// A body begins at every position.
pub proof fn body_always_applies(t: Seq<TokenView>, p: int)
    requires
        0 <= p <= t.len(),
    ensures
        grammar::body_at(t, p) matches Some((_, q)) && p <= q <= t.len(),
{
    nesting::lemma_body_at(t, p);
}

/// Every expression that is read has the shape of one.
pub proof fn expr_has_its_shape(t: Seq<TokenView>, p: int)
    requires
        0 <= p <= t.len(),
    ensures
        grammar::expr_at(t, p) matches Some((x, _)) ==> shape::expr_shape(x),
{
    nesting::lemma_expr(t, p);
}

/// Every body that is read has the shape of one.
pub proof fn body_has_its_shape(t: Seq<TokenView>, p: int)
    requires
        0 <= p <= t.len(),
    ensures
        grammar::body_at(t, p) matches Some((x, _)) && shape::body_shape(x),
{
    nesting::lemma_body_at(t, p);
}

/// The tokens that an expression can begin with.
pub open spec fn begins_expr(x: TokenView) -> bool {
    match x {
        TokenView::Literal(_) | TokenView::Identifier(_) => true,
        TokenView::StartBracket(b) => b is Paren || b is Bracket,
        TokenView::Keyword(k) => k is If,
        TokenView::Operator(op) => grammar::is_prefix(op),
        _ => false,
    }
}

proof fn lemma_binary_begins(t: Seq<TokenView>, level: nat, p: int)
    ensures
        grammar::binary(t, grammar::exprs(t), grammar::bodies(t), level)(p) is Some ==> (
        grammar::at(t, p) matches Some(x) && begins_expr(x)),
    decreases level,
{
    if level > 0 {
        lemma_binary_begins(t, (level - 1) as nat, p);
    }
}

/// No other token begins an expression, and neither does the end of the tokens.
pub proof fn expr_begins(t: Seq<TokenView>, p: int)
    requires
        0 <= p <= t.len(),
    ensures
        grammar::expr_at(t, p) is Some ==> (grammar::at(t, p) matches Some(x) && begins_expr(x)),
{
    nesting::lemma_expr(t, p);
    lemma_binary_begins(t, LOOSEST as nat, p);
}

/// `const` begins nothing: no statement and no expression.
pub proof fn const_begins_nothing(t: Seq<TokenView>, p: int)
    requires
        0 <= p <= t.len(),
        grammar::at(t, p) == Some(TokenView::Keyword(Keyword::Const)),
    ensures
        grammar::statement(t, grammar::exprs(t), grammar::bodies(t))(p) is None,
        grammar::expr_at(t, p) is None,
{
    expr_begins(t, p);
}

/// A body goes on as far as it can: where it ends no further statement begins, and unless it ends
/// in the value that it returns, no expression does.
pub proof fn body_is_longest(t: Seq<TokenView>, p: int)
    requires
        0 <= p <= t.len(),
    ensures
        grammar::body_at(t, p) matches Some((x, q)) && (!x.1 ==> {
            &&& grammar::statement(t, grammar::exprs(t), grammar::bodies(t))(q) is None
            &&& grammar::expr_at(t, q) is None
        }),
{
    nesting::lemma_body_at(t, p);
    nesting::lemma_statements_end(t, p);
}

/// A semicolon behind the last token may be left out.
pub proof fn last_semicolon_is_optional(t: Seq<TokenView>)
    requires
        t.len() > 0,
        t.last() != TokenView::Semicolon,
    ensures
        Expr::readable(t) == Expr::readable(t.push(TokenView::Semicolon)),
        Expr::tree(t) == Expr::tree(t.push(TokenView::Semicolon)),
{
}

/// An expression can be read from tokens exactly where they begin with one and not with an
/// assignment, and it is that expression.
pub proof fn expr_is_what_stands_first(t: Seq<TokenView>)
    requires
        t.len() > 0,
    ensures
        ({
            let c = ast::closed_off(t);
            &&& Expr::readable(t) <==> grammar::expr_at(c, 0) is Some && grammar::assign(
                c,
                grammar::exprs(c),
            )(0) is None
            &&& Expr::readable(t) ==> (grammar::expr_at(c, 0) matches Some((x, _)) && x
                == Expr::tree(t))
        }),
{
    let c = ast::closed_off(t);
    nesting::lemma_body_at(c, 0);
    nesting::lemma_expr(c, 0);
    nesting::lemma_statements_end(c, 0);
    expr_begins(c, 0);
}

// ----------------------------------------------------------------------------------------------
// Operators.
// ----------------------------------------------------------------------------------------------

/// An operator between two operands.
pub open spec fn between(op: Operator, lhs: ExprView, rhs: ExprView) -> ExprView {
    ExprView::BinaryExpr { operator: op, lhs: Box::new(lhs), rhs: Box::new(rhs) }
}

/// The tier of the operator at a position, or 0 if there is none that can stand between operands.
pub open spec fn tier_at(t: Seq<TokenView>, p: int) -> nat {
    match grammar::at(t, p) {
        Some(TokenView::Operator(op)) => grammar::tier(op),
        _ => 0,
    }
}

/// The expressions of a tier, with the rules of the language for what is nested.
pub open spec fn of_tier(t: Seq<TokenView>, level: nat) -> grammar::Rule<ExprView> {
    grammar::binary(t, grammar::exprs(t), grammar::bodies(t), level)
}

/// What is read in one tier is read in a looser one, unless an operator follows.
proof fn lemma_loosen(t: Seq<TokenView>, low: nat, high: nat, p: int, x: ExprView, q: int)
    requires
        low <= high,
        of_tier(t, low)(p) == Some((x, q)),
        tier_at(t, q) <= low || tier_at(t, q) > high,
    ensures
        of_tier(t, high)(p) == Some((x, q)),
    decreases high,
{
    if low < high {
        lemma_loosen(t, low, (high - 1) as nat, p, x, q);
        let link = grammar::link(t, high, of_tier(t, (high - 1) as nat));
        assert(link(q) is None);
        assert(grammar::run(t.len() as int, link, q) == (
            Seq::<(Operator, ExprView)>::empty(),
            q,
        ));
        assert(grammar::chain(x, Seq::empty()) == x);
    }
}

/// Two operands with one operator between them.
proof fn lemma_one_operator(
    t: Seq<TokenView>,
    level: nat,
    p: int,
    x: ExprView,
    q: int,
    op: Operator,
    y: ExprView,
    r: int,
)
    requires
        level > 0,
        0 <= p <= t.len(),
        of_tier(t, (level - 1) as nat)(p) == Some((x, q)),
        grammar::at(t, q) == Some(TokenView::Operator(op)),
        grammar::tier(op) == level,
        of_tier(t, (level - 1) as nat)(q + 1) == Some((y, r)),
        tier_at(t, r) != level,
    ensures
        of_tier(t, level)(p) == Some((between(op, x, y), r)),
{
    let n = t.len() as int;
    let operand = of_tier(t, (level - 1) as nat);
    let link = grammar::link(t, level, operand);
    nesting::lemma_operand(t, (level - 1) as nat, p);
    nesting::lemma_operand(t, (level - 1) as nat, q + 1);
    assert(link(q) == Some(((op, y), r)));
    assert(link(r) is None);
    assert(grammar::run(n, link, r) == (Seq::<(Operator, ExprView)>::empty(), r));
    let links = grammar::run(n, link, q).0;
    assert(links =~= seq![(op, y)]);
    assert(links.drop_last() =~= Seq::empty());
    assert(grammar::chain(x, Seq::empty()) == x);
    assert(grammar::chain(x, links) == between(op, x, y));
}

/// Three operands with two operators of one tier between them.
proof fn lemma_two_operators(
    t: Seq<TokenView>,
    level: nat,
    p: int,
    x: ExprView,
    q: int,
    f: Operator,
    y: ExprView,
    r: int,
    g: Operator,
    z: ExprView,
    s: int,
)
    requires
        level > 0,
        0 <= p <= t.len(),
        of_tier(t, (level - 1) as nat)(p) == Some((x, q)),
        grammar::at(t, q) == Some(TokenView::Operator(f)),
        grammar::tier(f) == level,
        of_tier(t, (level - 1) as nat)(q + 1) == Some((y, r)),
        grammar::at(t, r) == Some(TokenView::Operator(g)),
        grammar::tier(g) == level,
        of_tier(t, (level - 1) as nat)(r + 1) == Some((z, s)),
        tier_at(t, s) != level,
    ensures
        of_tier(t, level)(p) == Some((between(g, between(f, x, y), z), s)),
{
    let n = t.len() as int;
    let operand = of_tier(t, (level - 1) as nat);
    let link = grammar::link(t, level, operand);
    nesting::lemma_operand(t, (level - 1) as nat, p);
    nesting::lemma_operand(t, (level - 1) as nat, q + 1);
    nesting::lemma_operand(t, (level - 1) as nat, r + 1);
    assert(link(q) == Some(((f, y), r)));
    assert(link(r) == Some(((g, z), s)));
    assert(link(s) is None);
    assert(grammar::run(n, link, s) == (Seq::<(Operator, ExprView)>::empty(), s));
    assert(grammar::run(n, link, r).0 =~= seq![(g, z)]);
    let links = grammar::run(n, link, q).0;
    assert(links =~= seq![(f, y), (g, z)]);
    assert(links.drop_last() =~= seq![(f, y)]);
    assert(links.drop_last().drop_last() =~= Seq::empty());
    assert(grammar::chain(x, Seq::empty()) == x);
    assert(grammar::chain(x, links.drop_last()) == between(f, x, y));
    assert(grammar::chain(x, links) == between(g, between(f, x, y), z));
}

/// An operand with no operator behind it is an expression.
pub proof fn operand_alone(t: Seq<TokenView>, p: int, x: ExprView, q: int)
    requires
        0 <= p <= t.len(),
        grammar::unary(t, grammar::exprs(t), grammar::bodies(t))(p) == Some((x, q)),
        tier_at(t, q) == 0,
    ensures
        grammar::expr_at(t, p) == Some((x, q)),
{
    lemma_loosen(t, 0, LOOSEST as nat, p, x, q);
    nesting::lemma_expr(t, p);
}

/// A prefix operator before an operand makes an operand: of several the nearest applies first.
pub proof fn prefix_applies(t: Seq<TokenView>, p: int, op: Operator, x: ExprView, q: int)
    requires
        0 <= p,
        grammar::at(t, p) == Some(TokenView::Operator(op)),
        grammar::is_prefix(op),
        grammar::unary(t, grammar::exprs(t), grammar::bodies(t))(p + 1) == Some((x, q)),
    ensures
        grammar::unary(t, grammar::exprs(t), grammar::bodies(t))(p) == Some(
            (ExprView::UnaryExpr { operator: op, value: Box::new(x) }, q),
        ),
{
    let n = t.len() as int;
    let prefix = grammar::prefix(t);
    let (ops, r) = grammar::run(n, prefix, p + 1);
    assert(prefix(p) == Some((op, p + 1)));
    assert(grammar::run(n, prefix, p) == (seq![op] + ops, r));
    let call = grammar::call(t, grammar::exprs(t), grammar::bodies(t))(r);
    if let Some((y, _)) = call {
        lemma_prefix_outermost(op, ops, y);
    }
}

/// The first of several prefix operators applies last.
proof fn lemma_prefix_outermost(op: Operator, ops: Seq<Operator>, x: ExprView)
    ensures
        grammar::prefixed(seq![op] + ops, x) == (ExprView::UnaryExpr {
            operator: op,
            value: Box::new(grammar::prefixed(ops, x)),
        }),
    decreases ops.len(),
{
    let all = seq![op] + ops;
    if ops.len() > 0 {
        let y = ExprView::UnaryExpr { operator: ops.last(), value: Box::new(x) };
        assert(all.drop_last() =~= seq![op] + ops.drop_last());
        lemma_prefix_outermost(op, ops.drop_last(), y);
    } else {
        assert(all.drop_last() =~= Seq::empty());
        let y = ExprView::UnaryExpr { operator: op, value: Box::new(x) };
        assert(grammar::prefixed(Seq::empty(), y) == y);
        assert(grammar::prefixed(ops, x) == x);
    }
}

/// Two operands with an operator between them are an expression.
pub proof fn operator_joins(
    t: Seq<TokenView>,
    p: int,
    x: ExprView,
    q: int,
    op: Operator,
    y: ExprView,
    r: int,
)
    requires
        0 <= p <= t.len(),
        grammar::unary(t, grammar::exprs(t), grammar::bodies(t))(p) == Some((x, q)),
        grammar::at(t, q) == Some(TokenView::Operator(op)),
        grammar::tier(op) > 0,
        grammar::unary(t, grammar::exprs(t), grammar::bodies(t))(q + 1) == Some((y, r)),
        tier_at(t, r) == 0,
    ensures
        grammar::expr_at(t, p) == Some((between(op, x, y), r)),
{
    let level = grammar::tier(op);
    nesting::lemma_operand(t, 0, p);
    lemma_loosen(t, 0, (level - 1) as nat, p, x, q);
    lemma_loosen(t, 0, (level - 1) as nat, q + 1, y, r);
    lemma_one_operator(t, level, p, x, q, op, y, r);
    lemma_loosen(t, level, LOOSEST as nat, p, between(op, x, y), r);
    nesting::lemma_expr(t, p);
}

/// Of two operators the one of the tighter tier binds first, and of two of the same tier the one
/// on the left.
pub proof fn operators_bind_by_tier(
    t: Seq<TokenView>,
    p: int,
    x: ExprView,
    q: int,
    f: Operator,
    y: ExprView,
    r: int,
    g: Operator,
    z: ExprView,
    s: int,
)
    requires
        0 <= p <= t.len(),
        grammar::unary(t, grammar::exprs(t), grammar::bodies(t))(p) == Some((x, q)),
        grammar::at(t, q) == Some(TokenView::Operator(f)),
        grammar::tier(f) > 0,
        grammar::unary(t, grammar::exprs(t), grammar::bodies(t))(q + 1) == Some((y, r)),
        grammar::at(t, r) == Some(TokenView::Operator(g)),
        grammar::tier(g) > 0,
        grammar::unary(t, grammar::exprs(t), grammar::bodies(t))(r + 1) == Some((z, s)),
        tier_at(t, s) == 0,
    ensures
        grammar::expr_at(t, p) == (if grammar::tier(f) <= grammar::tier(g) {
            Some((between(g, between(f, x, y), z), s))
        } else {
            Some((between(f, x, between(g, y, z)), s))
        }),
{
    let i = grammar::tier(f);
    let j = grammar::tier(g);
    let top = LOOSEST as nat;
    nesting::lemma_operand(t, 0, p);
    nesting::lemma_operand(t, 0, q + 1);
    nesting::lemma_expr(t, p);
    if i < j {
        lemma_loosen(t, 0, (i - 1) as nat, p, x, q);
        lemma_loosen(t, 0, (i - 1) as nat, q + 1, y, r);
        lemma_one_operator(t, i, p, x, q, f, y, r);
        lemma_loosen(t, i, (j - 1) as nat, p, between(f, x, y), r);
        lemma_loosen(t, 0, (j - 1) as nat, r + 1, z, s);
        lemma_one_operator(t, j, p, between(f, x, y), r, g, z, s);
        lemma_loosen(t, j, top, p, between(g, between(f, x, y), z), s);
    } else if i == j {
        lemma_loosen(t, 0, (i - 1) as nat, p, x, q);
        lemma_loosen(t, 0, (i - 1) as nat, q + 1, y, r);
        lemma_loosen(t, 0, (i - 1) as nat, r + 1, z, s);
        lemma_two_operators(t, i, p, x, q, f, y, r, g, z, s);
        lemma_loosen(t, j, top, p, between(g, between(f, x, y), z), s);
    } else {
        lemma_loosen(t, 0, (j - 1) as nat, q + 1, y, r);
        lemma_loosen(t, 0, (j - 1) as nat, r + 1, z, s);
        lemma_one_operator(t, j, q + 1, y, r, g, z, s);
        lemma_loosen(t, j, (i - 1) as nat, q + 1, between(g, y, z), s);
        lemma_loosen(t, 0, (i - 1) as nat, p, x, q);
        lemma_one_operator(t, i, p, x, q, f, between(g, y, z), s);
        lemma_loosen(t, i, top, p, between(f, x, between(g, y, z)), s);
    }
}

// ----------------------------------------------------------------------------------------------
// Parentheses.
// ----------------------------------------------------------------------------------------------

/// The atoms of the language.
pub open spec fn atoms(t: Seq<TokenView>) -> grammar::Rule<ExprView> {
    grammar::atom(t, grammar::exprs(t), grammar::bodies(t))
}

/// What stands at a position does not prolong an atom before it: no dot, no argument list, no
/// operator between operands.
pub open spec fn atom_ends(t: Seq<TokenView>, p: int) -> bool {
    &&& grammar::at(t, p) != Some(TokenView::Dot)
    &&& grammar::at(t, p) != Some(TokenView::StartBracket(Bracket::Paren))
    &&& tier_at(t, p) == 0
}

/// An atom is an operand, with or without prefix operators before it, unless a dot or an argument
/// list follows.
pub proof fn atom_is_operand(t: Seq<TokenView>, p: int, x: ExprView, q: int)
    requires
        atoms(t)(p) == Some((x, q)),
        grammar::at(t, q) != Some(TokenView::Dot),
        grammar::at(t, q) != Some(TokenView::StartBracket(Bracket::Paren)),
    ensures
        grammar::call(t, grammar::exprs(t), grammar::bodies(t))(p) == Some((x, q)),
        grammar::unary(t, grammar::exprs(t), grammar::bodies(t))(p) == Some((x, q)),
{
    let n = t.len() as int;
    let e = grammar::exprs(t);
    let b = grammar::bodies(t);
    let dotted = grammar::dotted(t);
    assert(grammar::run(n, dotted, q) == (Seq::<Seq<char>>::empty(), q));
    assert(grammar::attributes(x, Seq::empty()) == x);
    assert(grammar::attribute(t, e, b)(p) == Some((x, q)));
    assert(grammar::call(t, e, b)(p) == Some((x, q)));
    assert(grammar::prefix(t)(p) is None);
    assert(grammar::run(n, grammar::prefix(t), p) == (Seq::<Operator>::empty(), p));
    assert(grammar::prefixed(Seq::empty(), x) == x);
}

/// An atom that nothing prolongs is an expression.
pub proof fn atom_alone(t: Seq<TokenView>, p: int, x: ExprView, q: int)
    requires
        0 <= p <= t.len(),
        atoms(t)(p) == Some((x, q)),
        atom_ends(t, q),
    ensures
        grammar::expr_at(t, p) == Some((x, q)),
{
    atom_is_operand(t, p, x, q);
    operand_alone(t, p, x, q);
}

/// Names with commas between them are expressions with commas between them.
proof fn lemma_name_run(t: Seq<TokenView>, p: int)
    requires
        0 <= p <= t.len(),
        ({
            let comma = grammar::token(t, TokenView::Comma);
            let q = grammar::run(
                t.len() as int,
                grammar::second(comma, grammar::identifier(t)),
                p,
            ).1;
            let close = Some(TokenView::EndBracket(Bracket::Bracket));
            grammar::at(t, q) == close || grammar::at(t, q) == Some(TokenView::Comma)
                && grammar::at(t, q + 1) == close
        }),
    ensures
        ({
            let n = t.len() as int;
            let comma = grammar::token(t, TokenView::Comma);
            grammar::run(n, grammar::second(comma, grammar::exprs(t)), p).1 == grammar::run(
                n,
                grammar::second(comma, grammar::identifier(t)),
                p,
            ).1
        }),
    decreases t.len() - p,
{
    let n = t.len() as int;
    let comma = grammar::token(t, TokenView::Comma);
    let next = grammar::second(comma, grammar::identifier(t));
    let expr = grammar::second(comma, grammar::exprs(t));
    match next(p) {
        Some((name, q)) => {
            assert(q == p + 2);
            lemma_name_run(t, q);
            assert(atom_ends(t, q));
            assert(atoms(t)(p + 1) == Some((grammar::named(name), q)));
            atom_alone(t, p + 1, grammar::named(name), q);
            assert(expr(p) == Some((grammar::named(name), q)));
        },
        None => {
            assert(expr(p) is None) by {
                if grammar::at(t, p) == Some(TokenView::Comma) {
                    expr_begins(t, p + 1);
                }
            }
        },
    }
}

/// Names in square brackets are an array.
proof fn lemma_name_array(t: Seq<TokenView>, p: int, names: Seq<Seq<char>>, q: int)
    requires
        0 <= p <= t.len(),
        grammar::within(t, Bracket::Bracket, grammar::list1(t, grammar::identifier(t)))(p)
            == Some((names, q)),
    ensures
        atoms(t)(p) matches Some((_, r)) && r == q,
{
    let n = t.len() as int;
    let comma = grammar::token(t, TokenView::Comma);
    let next = grammar::second(comma, grammar::identifier(t));
    let e = grammar::exprs(t);
    let b = grammar::bodies(t);
    let name = names[0];
    assert(grammar::identifier(t)(p + 1) == Some((name, p + 2)));
    lemma_name_run(t, p + 2);
    assert(atom_ends(t, p + 2));
    assert(atoms(t)(p + 1) == Some((grammar::named(name), p + 2)));
    atom_alone(t, p + 1, grammar::named(name), p + 2);
    assert(grammar::list1(t, e)(p + 1) matches Some((_, r)) && r == q - 1);
    assert(grammar::list(t, e)(p + 1) matches Some((_, r)) && r == q - 1);
    assert(grammar::within(t, Bracket::Bracket, grammar::list(t, e))(p) matches Some((_, r)) && r
        == q);
    assert(grammar::if_else(t, e, b)(p) is None);
}

/// A target with its `=` behind it reads as an expression up to there: so an expression with
/// anything else behind it is not assigned to.
pub proof fn target_reads_as_expr(t: Seq<TokenView>, attributes: bool, p: int)
    requires
        0 <= p <= t.len(),
    ensures
        grammar::target_eq(t, attributes)(p) matches Some((_, q)) ==> (grammar::expr_at(
            t,
            p,
        ) matches Some((_, r)) && r + 1 == q && grammar::at(t, r) == Some(TokenView::Assign)),
{
    if let Some((x, q)) = grammar::target_eq(t, attributes)(p) {
        let n = t.len() as int;
        let e = grammar::exprs(t);
        let b = grammar::bodies(t);
        let r = q - 1;
        if let Some((name, _)) = grammar::identifier(t)(p) {
            let names = grammar::run(n, grammar::dotted(t), p + 1).0;
            let y = grammar::attributes(grammar::named(name), names);
            assert(grammar::run(n, grammar::dotted(t), p + 1) == (names, r));
            assert(grammar::atom(t, e, b)(p) == Some((grammar::named(name), p + 1)));
            assert(grammar::attribute(t, e, b)(p) == Some((y, r)));
            assert(grammar::call(t, e, b)(p) == Some((y, r)));
            assert(grammar::run(n, grammar::prefix(t), p) == (Seq::<Operator>::empty(), p));
            assert(grammar::prefixed(Seq::empty(), y) == y);
            operand_alone(t, p, y, r);
        } else {
            let rule = grammar::within(
                t,
                Bracket::Bracket,
                grammar::list1(t, grammar::identifier(t)),
            );
            if let Some((names, _)) = rule(p) {
                lemma_name_array(t, p, names, r);
                if let Some((y, _)) = atoms(t)(p) {
                    atom_alone(t, p, y, r);
                }
            }
        }
    }
}

/// Where an expression stands with something else than `=` behind it, no assignment does.
pub proof fn expr_is_not_assigned(t: Seq<TokenView>, p: int)
    requires
        0 <= p <= t.len(),
        grammar::expr_at(t, p) matches Some((_, q)) && grammar::at(t, q) != Some(
            TokenView::Assign,
        ),
    ensures
        grammar::assign(t, grammar::exprs(t))(p) is None,
        forall|attributes: bool| #[trigger] grammar::target_eq(t, attributes)(p) is None,
{
    target_reads_as_expr(t, true, p);
    target_reads_as_expr(t, false, p);
    expr_begins(t, p);
    assert(grammar::modifiers(t)(p) == Some(((None::<TokenView>, None::<TokenView>), p)));
    assert(grammar::targets(t, true)(p) is None);
}

/// An expression in parentheses is an atom, and the same tree as without them.
pub proof fn parentheses_leave_no_trace(t: Seq<TokenView>, p: int, x: ExprView, q: int)
    requires
        0 <= p,
        grammar::at(t, p) == Some(TokenView::StartBracket(Bracket::Paren)),
        grammar::expr_at(t, p + 1) == Some((x, q)),
        grammar::at(t, q) == Some(TokenView::EndBracket(Bracket::Paren)),
    ensures
        atoms(t)(p) == Some((x, q + 1)),
        atom_ends(t, q + 1) ==> grammar::expr_at(t, p) == Some((x, q + 1)),
{
    let e = grammar::exprs(t);
    assert(grammar::within(t, Bracket::Paren, e)(p) == Some((x, q + 1)));
    assert(atoms(t)(p) == Some((x, q + 1)));
    if atom_ends(t, q + 1) {
        atom_alone(t, p, x, q + 1);
    }
}

} // verus!
