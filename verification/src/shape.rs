//! The shape of the trees that the grammar yields: fewer than the tree types could hold.

use crate::ast::{BodyView, ExprView, NodeView, ParamView, TargetView};
use crate::grammar;
use vstd::prelude::*;

verus! {

/// A name as a target.
pub open spec fn is_name(x: TargetView) -> bool {
    x is Ident
}

/// One target or more, each a name: none is an attribute, and none is nested.
pub open spec fn are_names(xs: Seq<TargetView>) -> bool {
    xs.len() >= 1 && forall|i: int| 0 <= i < xs.len() ==> is_name(#[trigger] xs[i])
}

/// A plain target: a name or a list of names.
pub open spec fn is_plain_target(x: TargetView) -> bool {
    match x {
        TargetView::Ident(_) => true,
        TargetView::Array(xs) => are_names(xs),
        TargetView::Attr(..) => false,
    }
}

/// A name, or an attribute of one, or an attribute of that, and so on.
pub open spec fn is_path(x: TargetView) -> bool
    decreases x,
{
    match x {
        TargetView::Ident(_) => true,
        TargetView::Array(_) => false,
        TargetView::Attr(value, _) => is_path(*value),
    }
}

/// What is assigned to: a plain target or, where `attributes` are allowed, a path.
pub open spec fn is_target(x: TargetView, attributes: bool) -> bool {
    is_plain_target(x) || attributes && is_path(x)
}

/// One target or more.
pub open spec fn are_targets(xs: Seq<TargetView>, attributes: bool) -> bool {
    xs.len() >= 1 && forall|i: int| 0 <= i < xs.len() ==> is_target(#[trigger] xs[i], attributes)
}

/// The last statement is an expression whose value can be returned. An `if` cannot: it is a
/// statement wherever it stands.
pub open spec fn ends_in_value(nodes: Seq<NodeView>) -> bool {
    nodes.len() >= 1 && match nodes.last() {
        NodeView::Expr(e) => !(e is If),
        _ => false,
    }
}

/// The shape of an expression: no identifier is a truth value, each operator stands where it may,
/// and no call has keyword arguments.
pub open spec fn expr_shape(x: ExprView) -> bool
    decreases x,
{
    match x {
        ExprView::Integer(_)
        | ExprView::Float(_)
        | ExprView::String(_)
        | ExprView::Bool(_) => true,
        ExprView::Ident(name) => name != "true"@ && name != "false"@,
        ExprView::Array(items) => forall|i: int|
            0 <= i < items.len() ==> expr_shape(#[trigger] items[i]),
        ExprView::UnaryExpr { operator, value } => grammar::is_prefix(operator) && expr_shape(
            *value,
        ),
        ExprView::BinaryExpr { operator, lhs, rhs } => {
            &&& grammar::tier(operator) != 0
            &&& expr_shape(*lhs)
            &&& expr_shape(*rhs)
        },
        ExprView::Attr(value, _) => expr_shape(*value),
        ExprView::Call { value, args, kwargs } => {
            &&& expr_shape(*value)
            &&& forall|i: int| 0 <= i < args.len() ==> expr_shape(#[trigger] args[i])
            &&& kwargs.len() == 0
        },
        ExprView::If { condition, body, else_if_bodies, else_body, return_last } => {
            &&& expr_shape(*condition)
            &&& forall|i: int| 0 <= i < body.len() ==> node_shape(#[trigger] body[i])
            &&& return_last ==> ends_in_value(body)
            &&& forall|i: int|
                #![trigger else_if_bodies[i]]
                0 <= i < else_if_bodies.len() ==> {
                    &&& expr_shape(else_if_bodies[i].0)
                    &&& body_shape(else_if_bodies[i].1)
                }
            &&& match else_body {
                Some(b) => body_shape(b),
                None => true,
            }
        },
    }
}

/// The shape of a parameter.
pub open spec fn param_shape(x: ParamView) -> bool
    decreases x,
{
    &&& is_plain_target(x.target)
    &&& match x.default {
        Some(e) => expr_shape(e),
        None => true,
    }
}

/// The shape of a statement: a function, an expression, an assignment that is not constant and
/// has no attribute as a target beside `let` or `immut`, or a requirement of at least one name.
/// Modules and returns do not occur.
pub open spec fn node_shape(x: NodeView) -> bool
    decreases x,
{
    match x {
        NodeView::Module(_) => false,
        NodeView::Func { name, params, body, return_last } => {
            &&& forall|i: int| 0 <= i < params.len() ==> param_shape(#[trigger] params[i])
            &&& forall|i: int| 0 <= i < body.len() ==> node_shape(#[trigger] body[i])
            &&& return_last ==> ends_in_value(body)
        },
        NodeView::Expr(e) => expr_shape(e),
        NodeView::Assign { targets, value, let_, immut, const_ } => {
            &&& are_targets(targets, !let_ && !immut)
            &&& expr_shape(value)
            &&& !const_
        },
        NodeView::Return(_) => false,
        NodeView::Require(names) => names.len() >= 1,
    }
}

/// The shape of a body.
pub open spec fn body_shape(x: BodyView) -> bool
    decreases x,
{
    &&& forall|i: int| 0 <= i < x.0.len() ==> node_shape(#[trigger] x.0[i])
    &&& x.1 ==> ends_in_value(x.0)
}

} // verus!
