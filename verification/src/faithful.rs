//! A view keeps all that a value holds, in its order, and what is read from tokens is what stands
//! in them.

use crate::ast::{
    Body, Expr, ExprView, Node, NodeView, Param, ParseInterface, Target,
    TargetView,
};
use crate::grammar;
use crate::nesting;
use crate::token::{Literal, LiteralView, StringLiteral, Token, TokenView};
use vstd::prelude::*;

verus! {

/// The items of a sequence are the views of those of another, one by one.
pub open spec fn shows<T: View>(v: Seq<T::V>, s: Seq<T>) -> bool {
    v.len() == s.len() && forall|i: int| 0 <= i < s.len() ==> #[trigger] v[i] == s[i]@
}

/// The view of a token.
pub proof fn token_is_shown(x: Token)
    ensures
        match x {
            Token::Identifier(name) => x@ == TokenView::Identifier(name@),
            Token::Literal(Literal::Integer(n)) => x@ == TokenView::Literal(
                LiteralView::Integer(n),
            ),
            Token::Literal(Literal::Float(s)) => x@ == TokenView::Literal(LiteralView::Float(s@)),
            Token::Literal(Literal::String(StringLiteral::String(s))) => x@ == TokenView::Literal(
                LiteralView::String(s@),
            ),
            Token::Operator(op) => x@ == TokenView::Operator(op),
            Token::Keyword(k) => x@ == TokenView::Keyword(k),
            Token::StartBracket(b) => x@ == TokenView::StartBracket(b),
            Token::EndBracket(b) => x@ == TokenView::EndBracket(b),
            Token::Comma => x@ == TokenView::Comma,
            Token::Dot => x@ == TokenView::Dot,
            Token::Semicolon => x@ == TokenView::Semicolon,
            Token::Assign => x@ == TokenView::Assign,
        },
{
}

/// The views of tokens.
pub proof fn tokens_are_shown(s: Seq<Token>)
    ensures
        shows(crate::token::views(s), s),
{
}

/// The view of an expression.
pub proof fn expr_is_shown(x: Expr)
    ensures
        match x {
            Expr::Integer(n) => x@ == ExprView::Integer(n),
            Expr::Float(s) => x@ == ExprView::Float(s@),
            Expr::String(s) => x@ == ExprView::String(s@),
            Expr::Bool(b) => x@ == ExprView::Bool(b),
            Expr::Ident(name) => x@ == ExprView::Ident(name@),
            Expr::Array(items) => x@ matches ExprView::Array(v) && shows(v, items@),
            Expr::UnaryExpr { operator, value } => x@ == (ExprView::UnaryExpr {
                operator,
                value: Box::new((*value)@),
            }),
            Expr::BinaryExpr { operator, lhs, rhs } => x@ == (ExprView::BinaryExpr {
                operator,
                lhs: Box::new((*lhs)@),
                rhs: Box::new((*rhs)@),
            }),
            Expr::Attr(value, name) => x@ == ExprView::Attr(Box::new((*value)@), name@),
            Expr::Call { value, args, kwargs } => x@ matches ExprView::Call {
                value: v,
                args: a,
                kwargs: k,
            } && *v == (*value)@ && shows(a, args@) && shows(k, kwargs@),
            Expr::If { condition, body, else_if_bodies, else_body, return_last } => x@ matches
            ExprView::If { condition: c, body: b, else_if_bodies: e, else_body: l, return_last: r }
                && *c == (*condition)@ && shows(b, body@) && shows(e, else_if_bodies@) && r
                == return_last && match else_body {
                Some(y) => l == Some(y@),
                None => l is None,
            },
        },
{
}

/// The view of a target.
pub proof fn target_is_shown(x: Target)
    ensures
        match x {
            Target::Ident(name) => x@ == TargetView::Ident(name@),
            Target::Array(items) => x@ matches TargetView::Array(v) && shows(v, items@),
            Target::Attr(value, name) => x@ == TargetView::Attr(Box::new((*value)@), name@),
        },
{
}

/// The view of a parameter.
pub proof fn param_is_shown(x: Param)
    ensures
        x@.target == x.target@,
        match x.default {
            Some(e) => x@.default == Some(e@),
            None => x@.default is None,
        },
{
}

/// The view of a statement.
pub proof fn node_is_shown(x: Node)
    ensures
        match x {
            Node::Module(nodes) => x@ matches NodeView::Module(v) && shows(v, nodes@),
            Node::Func { name, params, body, return_last } => x@ matches NodeView::Func {
                name: n,
                params: p,
                body: b,
                return_last: r,
            } && n == name@ && shows(p, params@) && shows(b, body@) && r == return_last,
            Node::Expr(e) => x@ == NodeView::Expr(e@),
            Node::Assign { targets, value, let_, immut, const_ } => x@ matches NodeView::Assign {
                targets: v,
                value: e,
                let_: l,
                immut: i,
                const_: c,
            } && shows(v, targets@) && e == value@ && l == let_ && i == immut && c == const_,
            Node::Return(Some(e)) => x@ == NodeView::Return(Some(e@)),
            Node::Return(None) => x@ == NodeView::Return(None),
            Node::Require(names) => x@ matches NodeView::Require(v) && shows(v, names@),
        },
{
}

/// The view of a body.
pub proof fn body_is_shown(x: Body)
    ensures
        shows(x@.0, x.0@),
        x@.1 == x.1,
{
}

/// A body is read from every sequence of tokens: the one that it begins with.
pub proof fn body_is_what_stands_first(t: Seq<TokenView>)
    ensures
        Body::readable(t),
        grammar::body_at(t, 0) matches Some((x, _)) && Body::tree(t) == x,
{
    nesting::lemma_body_at(t, 0);
}

/// An expression is the first statement of the body that is read from the same tokens, with a
/// semicolon behind them if there is none: it is read just where that statement is one.
pub proof fn expr_is_first_of_body(t: Seq<TokenView>)
    ensures
        t.len() == 0 ==> !Expr::readable(t),
        t.len() > 0 ==> ({
            let s = if t[t.len() - 1] == TokenView::Semicolon {
                t
            } else {
                t.push(TokenView::Semicolon)
            };
            let nodes = Body::tree(s).0;
            &&& Expr::readable(t) == (nodes.len() > 0 && nodes[0] is Expr)
            &&& Expr::readable(t) ==> nodes[0] == NodeView::Expr(Expr::tree(t))
        }),
{
}

} // verus!
