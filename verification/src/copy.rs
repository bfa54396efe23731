//! Copies of trees.

use crate::ast;
use crate::ast::{Body, Expr, Node, Param, Target};
use crate::token;
use vstd::prelude::*;

verus! {

/// A copy of an expression.
fn copy_expr(x: &Expr) -> (r: Expr)
    ensures
        r@ == x@,
    decreases x,
{
    match x {
        Expr::Integer(n) => Expr::Integer(*n),
        Expr::Float(text) => Expr::Float(text.clone()),
        Expr::String(text) => Expr::String(text.clone()),
        Expr::Bool(b) => Expr::Bool(*b),
        Expr::Ident(name) => Expr::Ident(name.clone()),
        Expr::Array(items) => {
            let items2 = copy_exprs(items);
            proof {
                ast::lemma_array_view(*items);
                ast::lemma_array_view(items2);
            }
            Expr::Array(items2)
        },
        Expr::UnaryExpr { operator, value } => Expr::UnaryExpr {
            operator: *operator,
            value: Box::new(copy_expr(&**value)),
        },
        Expr::BinaryExpr { operator, lhs, rhs } => Expr::BinaryExpr {
            operator: *operator,
            lhs: Box::new(copy_expr(&**lhs)),
            rhs: Box::new(copy_expr(&**rhs)),
        },
        Expr::Attr(value, name) => Expr::Attr(Box::new(copy_expr(&**value)), name.clone()),
        Expr::Call { value, args, kwargs } => {
            let value2 = Box::new(copy_expr(&**value));
            let args2 = copy_exprs(args);
            let kwargs2 = copy_kwargs(kwargs);
            proof {
                ast::lemma_call_view(*value, *args, *kwargs);
                ast::lemma_call_view(value2, args2, kwargs2);
            }
            Expr::Call { value: value2, args: args2, kwargs: kwargs2 }
        },
        Expr::If { condition, body, else_if_bodies, else_body, return_last } => {
            let condition2 = Box::new(copy_expr(&**condition));
            let body2 = copy_nodes(body);
            let branches = copy_branches(else_if_bodies);
            let last = match else_body {
                Some(b) => Some(copy_body(b)),
                None => None,
            };
            proof {
                ast::lemma_if_view(*condition, *body, *else_if_bodies, *else_body, *return_last);
                ast::lemma_if_view(condition2, body2, branches, last, *return_last);
            }
            Expr::If {
                condition: condition2,
                body: body2,
                else_if_bodies: branches,
                else_body: last,
                return_last: *return_last,
            }
        },
    }
}

/// A copy of a target.
fn copy_target(x: &Target) -> (r: Target)
    ensures
        r@ == x@,
    decreases x,
{
    match x {
        Target::Ident(name) => Target::Ident(name.clone()),
        Target::Array(items) => {
            let items2 = copy_targets(items);
            proof {
                ast::lemma_target_array_view(*items);
                ast::lemma_target_array_view(items2);
            }
            Target::Array(items2)
        },
        Target::Attr(value, name) => Target::Attr(Box::new(copy_target(&**value)), name.clone()),
    }
}

/// A copy of a parameter.
fn copy_param(x: &Param) -> (r: Param)
    ensures
        r@ == x@,
    decreases x,
{
    Param {
        target: copy_target(&x.target),
        default: match &x.default {
            Some(e) => Some(copy_expr(e)),
            None => None,
        },
    }
}

/// A copy of a statement.
fn copy_node(x: &Node) -> (r: Node)
    ensures
        r@ == x@,
    decreases x,
{
    match x {
        Node::Module(nodes) => {
            let nodes2 = copy_nodes(nodes);
            proof {
                ast::lemma_module_view(*nodes);
                ast::lemma_module_view(nodes2);
            }
            Node::Module(nodes2)
        },
        Node::Func { name, params, body, return_last } => {
            let name2 = name.clone();
            let params2 = copy_params(params);
            let body2 = copy_nodes(body);
            proof {
                ast::lemma_func_view(*name, *params, *body, *return_last);
                ast::lemma_func_view(name2, params2, body2, *return_last);
            }
            Node::Func { name: name2, params: params2, body: body2, return_last: *return_last }
        },
        Node::Expr(e) => Node::Expr(copy_expr(e)),
        Node::Assign { targets, value, let_, immut, const_ } => Node::Assign {
            targets: copy_targets(targets),
            value: copy_expr(value),
            let_: *let_,
            immut: *immut,
            const_: *const_,
        },
        Node::Return(value) => Node::Return(
            match value {
                Some(e) => Some(copy_expr(e)),
                None => None,
            },
        ),
        Node::Require(names) => Node::Require(copy_names(names)),
    }
}

/// A copy of a body.
fn copy_body(x: &Body) -> (r: Body)
    ensures
        r@ == x@,
    decreases x,
{
    let nodes = copy_nodes(&x.0);
    proof {
        ast::lemma_body_view(x.0, x.1);
        ast::lemma_body_view(nodes, x.1);
    }
    Body(nodes, x.1)
}

/// Copies of expressions.
fn copy_exprs(items: &Vec<Expr>) -> (r: Vec<Expr>)
    ensures
        token::views(r@) == token::views(items@),
    decreases items,
{
    let mut r: Vec<Expr> = Vec::new();
    let mut i: usize = 0;
    while i < items.len()
        invariant
            i <= items.len(),
            token::views(r@) == token::views(items@.take(i as int)),
        decreases items.len() - i,
    {
        let x = copy_expr(&items[i]);
        proof {
            assert(token::views(r@.push(x)) =~= token::views(r@).push(x@));
            assert(token::views(items@.take(i + 1)) =~= token::views(items@.take(i as int)).push(
                items@[i as int]@,
            ));
        }
        r.push(x);
        i = i + 1;
    }
    assert(items@.take(i as int) =~= items@);
    r
}

/// Copies of keyword arguments.
fn copy_kwargs(items: &Vec<(String, Expr)>) -> (r: Vec<(String, Expr)>)
    ensures
        token::views(r@) == token::views(items@),
    decreases items,
{
    let mut r: Vec<(String, Expr)> = Vec::new();
    let mut i: usize = 0;
    while i < items.len()
        invariant
            i <= items.len(),
            token::views(r@) == token::views(items@.take(i as int)),
        decreases items.len() - i,
    {
        let x = (items[i].0.clone(), copy_expr(&items[i].1));
        proof {
            assert(token::views(r@.push(x)) =~= token::views(r@).push(x@));
            assert(token::views(items@.take(i + 1)) =~= token::views(items@.take(i as int)).push(
                items@[i as int]@,
            ));
        }
        r.push(x);
        i = i + 1;
    }
    assert(items@.take(i as int) =~= items@);
    r
}

/// Copies of the branches of an `if`.
fn copy_branches(items: &Vec<(Expr, Body)>) -> (r: Vec<(Expr, Body)>)
    ensures
        token::views(r@) == token::views(items@),
    decreases items,
{
    let mut r: Vec<(Expr, Body)> = Vec::new();
    let mut i: usize = 0;
    while i < items.len()
        invariant
            i <= items.len(),
            token::views(r@) == token::views(items@.take(i as int)),
        decreases items.len() - i,
    {
        let x = (copy_expr(&items[i].0), copy_body(&items[i].1));
        proof {
            assert(token::views(r@.push(x)) =~= token::views(r@).push(x@));
            assert(token::views(items@.take(i + 1)) =~= token::views(items@.take(i as int)).push(
                items@[i as int]@,
            ));
        }
        r.push(x);
        i = i + 1;
    }
    assert(items@.take(i as int) =~= items@);
    r
}

/// Copies of statements.
fn copy_nodes(items: &Vec<Node>) -> (r: Vec<Node>)
    ensures
        token::views(r@) == token::views(items@),
    decreases items,
{
    let mut r: Vec<Node> = Vec::new();
    let mut i: usize = 0;
    while i < items.len()
        invariant
            i <= items.len(),
            token::views(r@) == token::views(items@.take(i as int)),
        decreases items.len() - i,
    {
        let x = copy_node(&items[i]);
        proof {
            assert(token::views(r@.push(x)) =~= token::views(r@).push(x@));
            assert(token::views(items@.take(i + 1)) =~= token::views(items@.take(i as int)).push(
                items@[i as int]@,
            ));
        }
        r.push(x);
        i = i + 1;
    }
    assert(items@.take(i as int) =~= items@);
    r
}

/// Copies of parameters.
fn copy_params(items: &Vec<Param>) -> (r: Vec<Param>)
    ensures
        token::views(r@) == token::views(items@),
    decreases items,
{
    let mut r: Vec<Param> = Vec::new();
    let mut i: usize = 0;
    while i < items.len()
        invariant
            i <= items.len(),
            token::views(r@) == token::views(items@.take(i as int)),
        decreases items.len() - i,
    {
        let x = copy_param(&items[i]);
        proof {
            assert(token::views(r@.push(x)) =~= token::views(r@).push(x@));
            assert(token::views(items@.take(i + 1)) =~= token::views(items@.take(i as int)).push(
                items@[i as int]@,
            ));
        }
        r.push(x);
        i = i + 1;
    }
    assert(items@.take(i as int) =~= items@);
    r
}

/// Copies of targets.
fn copy_targets(items: &Vec<Target>) -> (r: Vec<Target>)
    ensures
        token::views(r@) == token::views(items@),
    decreases items,
{
    let mut r: Vec<Target> = Vec::new();
    let mut i: usize = 0;
    while i < items.len()
        invariant
            i <= items.len(),
            token::views(r@) == token::views(items@.take(i as int)),
        decreases items.len() - i,
    {
        let x = copy_target(&items[i]);
        proof {
            assert(token::views(r@.push(x)) =~= token::views(r@).push(x@));
            assert(token::views(items@.take(i + 1)) =~= token::views(items@.take(i as int)).push(
                items@[i as int]@,
            ));
        }
        r.push(x);
        i = i + 1;
    }
    assert(items@.take(i as int) =~= items@);
    r
}

/// Copies of names.
fn copy_names(items: &Vec<String>) -> (r: Vec<String>)
    ensures
        token::views(r@) == token::views(items@),
{
    let mut r: Vec<String> = Vec::new();
    let mut i: usize = 0;
    while i < items.len()
        invariant
            i <= items.len(),
            token::views(r@) == token::views(items@.take(i as int)),
        decreases items.len() - i,
    {
        let x = items[i].clone();
        proof {
            assert(token::views(r@.push(x)) =~= token::views(r@).push(x@));
            assert(token::views(items@.take(i + 1)) =~= token::views(items@.take(i as int)).push(
                items@[i as int]@,
            ));
        }
        r.push(x);
        i = i + 1;
    }
    assert(items@.take(i as int) =~= items@);
    r
}

impl Clone for Expr {
    fn clone(&self) -> (r: Self)
        ensures
            r@ == self@,
    {
        copy_expr(self)
    }
}

impl Clone for Target {
    fn clone(&self) -> (r: Self)
        ensures
            r@ == self@,
    {
        copy_target(self)
    }
}

impl Clone for Param {
    fn clone(&self) -> (r: Self)
        ensures
            r@ == self@,
    {
        copy_param(self)
    }
}

impl Clone for Node {
    fn clone(&self) -> (r: Self)
        ensures
            r@ == self@,
    {
        copy_node(self)
    }
}

impl Clone for Body {
    fn clone(&self) -> (r: Self)
        ensures
            r@ == self@,
    {
        copy_body(self)
    }
}

} // verus!
