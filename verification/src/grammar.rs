//! The grammar: which token sequences are which trees.
//!
//! A [`Rule`] reads a token sequence from a position on. It either does not apply there, or gives
//! the tree that it reads and the position behind the last token that it takes. Alternatives are
//! ordered: the first that applies is taken, and no other is looked at again. A repetition takes
//! as many items as it can and gives none of them back.

use crate::ast::{BodyView, ExprView, NodeView, ParamView, TargetView};
use crate::token::{Bracket, Keyword, LiteralView, Operator, TokenView};
use vstd::prelude::*;

verus! {

/// What a rule gives at one position: a tree and the position behind it, if it applies.
pub type Step<T> = Option<(T, int)>;

/// A rule: what it gives at each position.
pub type Rule<T> = spec_fn(int) -> Step<T>;

// ----------------------------------------------------------------------------------------------
// Rules made of rules.
// ----------------------------------------------------------------------------------------------

/// The token at a position, if there is one.
pub open spec fn at(t: Seq<TokenView>, p: int) -> Option<TokenView> {
    if 0 <= p < t.len() {
        Some(t[p])
    } else {
        None
    }
}

/// One given token.
pub open spec fn token(t: Seq<TokenView>, x: TokenView) -> Rule<TokenView> {
    |p: int|
        if at(t, p) == Some(x) {
            Some((x, p + 1))
        } else {
            None
        }
}

/// Looks ahead without taking anything: there is a token here, and it is not the given one.
pub open spec fn ahead_not(t: Seq<TokenView>, x: TokenView) -> Rule<()> {
    |p: int|
        match at(t, p) {
            Some(y) if y != x => Some(((), p)),
            _ => None,
        }
}

/// What `a` gives, with its tree taken through `f`.
pub open spec fn map<A, B>(a: Rule<A>, f: spec_fn(A) -> B) -> Rule<B> {
    |p: int|
        match a(p) {
            Some((x, q)) => Some((f(x), q)),
            None => None,
        }
}

/// What `a` gives, where its tree satisfies `f`.
pub open spec fn such_that<A>(a: Rule<A>, f: spec_fn(A) -> bool) -> Rule<A> {
    |p: int|
        match a(p) {
            Some((x, q)) if f(x) => Some((x, q)),
            _ => None,
        }
}

/// `a` and behind it `b`.
pub open spec fn both<A, B>(a: Rule<A>, b: Rule<B>) -> Rule<(A, B)> {
    |p: int|
        match a(p) {
            Some((x, q)) => match b(q) {
                Some((y, r)) => Some(((x, y), r)),
                None => None,
            },
            None => None,
        }
}

/// `a` and behind it `b`, of which only the tree of `a` is kept.
pub open spec fn first<A, B>(a: Rule<A>, b: Rule<B>) -> Rule<A> {
    map(both(a, b), |x: (A, B)| x.0)
}

/// `a` and behind it `b`, of which only the tree of `b` is kept.
pub open spec fn second<A, B>(a: Rule<A>, b: Rule<B>) -> Rule<B> {
    map(both(a, b), |x: (A, B)| x.1)
}

/// `a` and behind it the rule that `f` makes of its tree, whose tree alone is kept.
pub open spec fn bound<A, B>(a: Rule<A>, f: spec_fn(A) -> Rule<B>) -> Rule<B> {
    |p: int|
        match a(p) {
            Some((x, q)) => f(x)(q),
            None => None,
        }
}

/// `a` where it applies, else `b`.
pub open spec fn either<A>(a: Rule<A>, b: Rule<A>) -> Rule<A> {
    |p: int|
        match a(p) {
            Some(x) => Some(x),
            None => b(p),
        }
}

/// `a` where it applies, else nothing.
pub open spec fn optional<A>(a: Rule<A>) -> Rule<Option<A>> {
    |p: int|
        match a(p) {
            Some((x, q)) => Some((Some(x), q)),
            None => Some((None, p)),
        }
}

/// The trees of `a` from `p` on, one behind the other as long as it applies and takes something,
/// and where that ends. No item ends behind `n`.
pub open spec fn run<A>(n: int, a: Rule<A>, p: int) -> (Seq<A>, int)
    decreases n - p,
{
    match a(p) {
        Some((x, q)) if p < q <= n => {
            let (xs, r) = run(n, a, q);
            (seq![x] + xs, r)
        },
        _ => (Seq::empty(), p),
    }
}

/// `a` as many times as it applies.
pub open spec fn many<A>(t: Seq<TokenView>, a: Rule<A>) -> Rule<Seq<A>> {
    |p: int| Some(run(t.len() as int, a, p))
}

/// `a` between a bracket of the given kind and its counterpart.
pub open spec fn within<A>(t: Seq<TokenView>, bracket: Bracket, a: Rule<A>) -> Rule<A> {
    first(
        second(token(t, TokenView::StartBracket(bracket)), a),
        token(t, TokenView::EndBracket(bracket)),
    )
}

/// One or more `a` with a comma between each two, and perhaps one behind the last.
pub open spec fn list1<A>(t: Seq<TokenView>, a: Rule<A>) -> Rule<Seq<A>> {
    map(
        first(
            both(a, many(t, second(token(t, TokenView::Comma), a))),
            optional(token(t, TokenView::Comma)),
        ),
        |x: (A, Seq<A>)| seq![x.0] + x.1,
    )
}

/// Like [`list1`], or nothing at all.
pub open spec fn list<A>(t: Seq<TokenView>, a: Rule<A>) -> Rule<Seq<A>> {
    either(list1(t, a), |p: int| Some((Seq::empty(), p)))
}

// ----------------------------------------------------------------------------------------------
// Expressions. `e` and `b` stand for the expressions and the bodies nested in them.
// ----------------------------------------------------------------------------------------------

/// An identifier, by its name.
pub open spec fn identifier(t: Seq<TokenView>) -> Rule<Seq<char>> {
    |p: int|
        match at(t, p) {
            Some(TokenView::Identifier(name)) => Some((name, p + 1)),
            _ => None,
        }
}

/// An operator out of the given ones.
pub open spec fn operator(t: Seq<TokenView>, f: spec_fn(Operator) -> bool) -> Rule<Operator> {
    |p: int|
        match at(t, p) {
            Some(TokenView::Operator(op)) if f(op) => Some((op, p + 1)),
            _ => None,
        }
}

/// A literal.
pub open spec fn literal(t: Seq<TokenView>) -> Rule<ExprView> {
    |p: int|
        match at(t, p) {
            Some(TokenView::Literal(LiteralView::Integer(n))) => Some((ExprView::Integer(n), p + 1)),
            Some(TokenView::Literal(LiteralView::Float(s))) => Some((ExprView::Float(s), p + 1)),
            Some(TokenView::Literal(LiteralView::String(s))) => Some((ExprView::String(s), p + 1)),
            _ => None,
        }
}

/// What an identifier is as an expression: `true` and `false` are the two truth values.
pub open spec fn named(name: Seq<char>) -> ExprView {
    if name == "true"@ {
        ExprView::Bool(true)
    } else if name == "false"@ {
        ExprView::Bool(false)
    } else {
        ExprView::Ident(name)
    }
}

/// A body in braces.
pub open spec fn block(t: Seq<TokenView>, b: Rule<BodyView>) -> Rule<BodyView> {
    within(t, Bracket::Brace, b)
}

/// `else if`, a condition and a block.
pub open spec fn else_if(t: Seq<TokenView>, e: Rule<ExprView>, b: Rule<BodyView>) -> Rule<
    (ExprView, BodyView),
> {
    both(
        second(
            both(
                token(t, TokenView::Keyword(Keyword::Else)),
                token(t, TokenView::Keyword(Keyword::If)),
            ),
            e,
        ),
        block(t, b),
    )
}

/// `if`, a condition and a block; any number of `else if`; perhaps `else` and a block.
pub open spec fn if_else(t: Seq<TokenView>, e: Rule<ExprView>, b: Rule<BodyView>) -> Rule<
    ExprView,
> {
    map(
        both(
            both(
                both(second(token(t, TokenView::Keyword(Keyword::If)), e), block(t, b)),
                many(t, else_if(t, e, b)),
            ),
            optional(second(token(t, TokenView::Keyword(Keyword::Else)), block(t, b))),
        ),
        |x: (((ExprView, BodyView), Seq<(ExprView, BodyView)>), Option<BodyView>)|
            ExprView::If {
                condition: Box::new(x.0.0.0),
                body: x.0.0.1.0,
                else_if_bodies: x.0.1,
                else_body: x.1,
                return_last: x.0.0.1.1,
            },
    )
}

/// The smallest expressions: a literal, a name, an expression in parentheses, an `if`, an array.
pub open spec fn atom(t: Seq<TokenView>, e: Rule<ExprView>, b: Rule<BodyView>) -> Rule<ExprView> {
    either(
        literal(t),
        either(
            map(identifier(t), |name: Seq<char>| named(name)),
            either(
                within(t, Bracket::Paren, e),
                either(
                    if_else(t, e, b),
                    map(
                        within(t, Bracket::Bracket, list(t, e)),
                        |items: Seq<ExprView>| ExprView::Array(items),
                    ),
                ),
            ),
        ),
    )
}

/// A value and the names of attributes, read from the left.
pub open spec fn attributes(value: ExprView, names: Seq<Seq<char>>) -> ExprView {
    names.fold_left(
        value,
        |value: ExprView, name: Seq<char>| ExprView::Attr(Box::new(value), name),
    )
}

/// The name of an attribute behind a dot.
pub open spec fn dotted(t: Seq<TokenView>) -> Rule<Seq<char>> {
    second(token(t, TokenView::Dot), identifier(t))
}

/// An atom and any number of attribute names, each behind a dot. `true` and `false` are names
/// like any other here.
pub open spec fn attribute(t: Seq<TokenView>, e: Rule<ExprView>, b: Rule<BodyView>) -> Rule<
    ExprView,
> {
    map(
        both(atom(t, e, b), many(t, dotted(t))),
        |x: (ExprView, Seq<Seq<char>>)| attributes(x.0, x.1),
    )
}

/// The arguments of a call.
pub open spec fn arguments(t: Seq<TokenView>, e: Rule<ExprView>) -> Rule<Seq<ExprView>> {
    within(t, Bracket::Paren, list(t, e))
}

/// An attribute expression, perhaps called, once at most.
pub open spec fn call(t: Seq<TokenView>, e: Rule<ExprView>, b: Rule<BodyView>) -> Rule<ExprView> {
    map(
        both(attribute(t, e, b), optional(arguments(t, e))),
        |x: (ExprView, Option<Seq<ExprView>>)|
            match x.1 {
                Some(args) => ExprView::Call { value: Box::new(x.0), args, kwargs: Seq::empty() },
                None => x.0,
            },
    )
}

/// The operators that stand before their operand.
pub open spec fn is_prefix(op: Operator) -> bool {
    op is Sub || op is Add || op is Not || op is BitNot
}

/// One prefix operator.
pub open spec fn prefix(t: Seq<TokenView>) -> Rule<Operator> {
    operator(t, |op: Operator| is_prefix(op))
}

/// Prefix operators and what they apply to, the nearest first.
pub open spec fn prefixed(ops: Seq<Operator>, value: ExprView) -> ExprView {
    ops.fold_right(
        |operator: Operator, value: ExprView|
            ExprView::UnaryExpr { operator, value: Box::new(value) },
        value,
    )
}

/// A call behind any number of prefix operators.
pub open spec fn unary(t: Seq<TokenView>, e: Rule<ExprView>, b: Rule<BodyView>) -> Rule<ExprView> {
    map(
        both(many(t, prefix(t)), call(t, e, b)),
        |x: (Seq<Operator>, ExprView)| prefixed(x.0, x.1),
    )
}

/// How loosely an operator binds between its operands: the tightest have tier 1. The others have
/// tier 0: they never stand between two operands.
pub open spec fn tier(op: Operator) -> nat {
    match op {
        Operator::Pow => 1,
        Operator::Mul | Operator::Div | Operator::Mod => 2,
        Operator::Add | Operator::Sub => 3,
        Operator::Eq
        | Operator::Ne
        | Operator::Lt
        | Operator::Gt
        | Operator::Le
        | Operator::Ge => 4,
        Operator::And => 5,
        Operator::Or => 6,
        Operator::BitAnd | Operator::BitOr | Operator::BitXor => 7,
        Operator::Not | Operator::BitNot => 0,
    }
}

/// The tier of the loosest operators.
pub const LOOSEST: u8 = 7;

/// Operands and operators in turn, read from the left.
pub open spec fn chain(first: ExprView, rest: Seq<(Operator, ExprView)>) -> ExprView {
    rest.fold_left(
        first,
        |lhs: ExprView, x: (Operator, ExprView)|
            ExprView::BinaryExpr { operator: x.0, lhs: Box::new(lhs), rhs: Box::new(x.1) },
    )
}

/// An operator of the given tier and its right operand.
pub open spec fn link(t: Seq<TokenView>, level: nat, operand: Rule<ExprView>) -> Rule<
    (Operator, ExprView),
> {
    both(operator(t, |op: Operator| tier(op) == level), operand)
}

/// Expressions whose operators outside brackets have the given tier or a tighter one: operands
/// of the tiers below, with operators of this tier between them. All operators associate to the
/// left.
pub open spec fn binary(
    t: Seq<TokenView>,
    e: Rule<ExprView>,
    b: Rule<BodyView>,
    level: nat,
) -> Rule<ExprView>
    decreases level,
{
    if level == 0 {
        unary(t, e, b)
    } else {
        let operand = binary(t, e, b, (level - 1) as nat);
        map(
            both(operand, many(t, link(t, level, operand))),
            |x: (ExprView, Seq<(Operator, ExprView)>)| chain(x.0, x.1),
        )
    }
}

/// An expression.
pub open spec fn expression(t: Seq<TokenView>, e: Rule<ExprView>, b: Rule<BodyView>) -> Rule<
    ExprView,
> {
    binary(t, e, b, LOOSEST as nat)
}

// ----------------------------------------------------------------------------------------------
// Statements.
// ----------------------------------------------------------------------------------------------

/// `require` and a list of names.
pub open spec fn require(t: Seq<TokenView>) -> Rule<NodeView> {
    map(
        first(
            second(token(t, TokenView::Keyword(Keyword::Require)), list1(t, identifier(t))),
            token(t, TokenView::Semicolon),
        ),
        |names: Seq<Seq<char>>| NodeView::Require(names),
    )
}

/// What may stand before an assignment: perhaps `let`, and perhaps `immut`. `const` may not.
pub open spec fn modifiers(t: Seq<TokenView>) -> Rule<(Option<TokenView>, Option<TokenView>)> {
    both(
        optional(token(t, TokenView::Keyword(Keyword::Let))),
        optional(token(t, TokenView::Keyword(Keyword::Immut))),
    )
}

/// Names as targets.
pub open spec fn name_targets(names: Seq<Seq<char>>) -> Seq<TargetView> {
    names.map_values(|name: Seq<char>| TargetView::Ident(name))
}

/// A plain target: a name or a list of names in square brackets.
pub open spec fn plain_target(t: Seq<TokenView>) -> Rule<TargetView> {
    either(
        map(identifier(t), |name: Seq<char>| TargetView::Ident(name)),
        map(
            within(t, Bracket::Bracket, list1(t, identifier(t))),
            |names: Seq<Seq<char>>| TargetView::Array(name_targets(names)),
        ),
    )
}

/// A name and the names of attributes, read from the left, as a target.
pub open spec fn path(name: Seq<char>, names: Seq<Seq<char>>) -> TargetView {
    names.fold_left(
        TargetView::Ident(name),
        |value: TargetView, name: Seq<char>| TargetView::Attr(Box::new(value), name),
    )
}

/// What is assigned to: a plain target or, where `attributes` are allowed, an attribute.
pub open spec fn target(t: Seq<TokenView>, attributes: bool) -> Rule<TargetView> {
    if attributes {
        either(
            map(
                both(identifier(t), many(t, dotted(t))),
                |x: (Seq<char>, Seq<Seq<char>>)| path(x.0, x.1),
            ),
            plain_target(t),
        )
    } else {
        plain_target(t)
    }
}

/// A target and the `=` behind it.
pub open spec fn target_eq(t: Seq<TokenView>, attributes: bool) -> Rule<TargetView> {
    first(target(t, attributes), token(t, TokenView::Assign))
}

/// One target or more, each with its own `=` behind it.
pub open spec fn targets(t: Seq<TokenView>, attributes: bool) -> Rule<Seq<TargetView>> {
    map(
        both(target_eq(t, attributes), many(t, target_eq(t, attributes))),
        |x: (TargetView, Seq<TargetView>)| seq![x.0] + x.1,
    )
}

/// An assignment behind its modifiers: the targets, the value and a semicolon. An attribute is a
/// target only where neither `let` nor `immut` stands before it.
pub open spec fn assignment(t: Seq<TokenView>, e: Rule<ExprView>, let_: bool, immut: bool) -> Rule<
    NodeView,
> {
    map(
        first(both(targets(t, !let_ && !immut), e), token(t, TokenView::Semicolon)),
        |x: (Seq<TargetView>, ExprView)|
            NodeView::Assign { targets: x.0, value: x.1, let_, immut, const_: false },
    )
}

/// An assignment.
pub open spec fn assign(t: Seq<TokenView>, e: Rule<ExprView>) -> Rule<NodeView> {
    bound(
        modifiers(t),
        |m: (Option<TokenView>, Option<TokenView>)| assignment(t, e, m.0 is Some, m.1 is Some),
    )
}

/// A parameter: a target, and perhaps its default value.
pub open spec fn param(t: Seq<TokenView>, e: Rule<ExprView>) -> Rule<ParamView> {
    map(
        both(
            plain_target(t),
            optional(second(token(t, TokenView::Assign), e)),
        ),
        |x: (TargetView, Option<ExprView>)| ParamView { target: x.0, default: x.1 },
    )
}

/// A function.
pub open spec fn func(t: Seq<TokenView>, e: Rule<ExprView>, b: Rule<BodyView>) -> Rule<NodeView> {
    map(
        both(
            both(
                second(token(t, TokenView::Keyword(Keyword::Func)), identifier(t)),
                within(t, Bracket::Paren, list(t, param(t, e))),
            ),
            block(t, b),
        ),
        |x: ((Seq<char>, Seq<ParamView>), BodyView)|
            NodeView::Func { name: x.0.0, params: x.0.1, body: x.1.0, return_last: x.1.1 },
    )
}

/// An expression as a statement. It ends in a semicolon, or is an `if`, or has some token behind
/// it that does not close the block.
pub open spec fn expr_statement(t: Seq<TokenView>, e: Rule<ExprView>) -> Rule<NodeView> {
    map(
        either(
            first(e, token(t, TokenView::Semicolon)),
            either(
                such_that(e, |x: ExprView| x is If),
                first(e, ahead_not(t, TokenView::EndBracket(Bracket::Brace))),
            ),
        ),
        |x: ExprView| NodeView::Expr(x),
    )
}

/// A statement.
pub open spec fn statement(t: Seq<TokenView>, e: Rule<ExprView>, b: Rule<BodyView>) -> Rule<
    NodeView,
> {
    either(func(t, e, b), either(assign(t, e), either(require(t), expr_statement(t, e))))
}

/// A body: any number of statements, and perhaps an expression whose value is returned.
pub open spec fn body(t: Seq<TokenView>, e: Rule<ExprView>, b: Rule<BodyView>) -> Rule<BodyView> {
    map(
        both(many(t, statement(t, e, b)), optional(e)),
        |x: (Seq<NodeView>, Option<ExprView>)|
            match x.1 {
                Some(last) => BodyView(x.0.push(NodeView::Expr(last)), true),
                None => BodyView(x.0, false),
            },
    )
}

// ----------------------------------------------------------------------------------------------
// Nesting.
// ----------------------------------------------------------------------------------------------

/// Expressions, at positions behind `p` only.
pub open spec fn exprs_behind(t: Seq<TokenView>, p: int) -> Rule<ExprView>
    decreases t.len() - p, 0nat,
{
    |q: int|
        if p < q <= t.len() {
            expr_at(t, q)
        } else {
            None
        }
}

/// Bodies, at positions behind `p` only.
pub open spec fn bodies_behind(t: Seq<TokenView>, p: int) -> Rule<BodyView>
    decreases t.len() - p, 0nat,
{
    |q: int|
        if p < q <= t.len() {
            body_at(t, q)
        } else {
            None
        }
}

/// The expression at a position: what is nested in it lies behind that position.
pub open spec fn expr_at(t: Seq<TokenView>, p: int) -> Step<ExprView>
    decreases t.len() - p, 1nat,
{
    expression(t, exprs_behind(t, p), bodies_behind(t, p))(p)
}

/// Expressions, from `p` on.
pub open spec fn exprs_from(t: Seq<TokenView>, p: int) -> Rule<ExprView>
    decreases t.len() - p, 2nat,
{
    |q: int|
        if p <= q <= t.len() {
            expr_at(t, q)
        } else {
            None
        }
}

/// The body at a position: the bodies nested in it lie behind that position, and its expressions
/// from there on.
pub open spec fn body_at(t: Seq<TokenView>, p: int) -> Step<BodyView>
    decreases t.len() - p, 3nat,
{
    body(t, exprs_from(t, p), bodies_behind(t, p))(p)
}

/// The rule for expressions.
pub open spec fn exprs(t: Seq<TokenView>) -> Rule<ExprView> {
    |p: int| expr_at(t, p)
}

/// The rule for bodies.
pub open spec fn bodies(t: Seq<TokenView>) -> Rule<BodyView> {
    |p: int| body_at(t, p)
}

} // verus!
