//! One way to write each tree down in tokens, and that it is read back as it was: so every tree
//! of the shape that the grammar yields is one that it does yield.

use crate::ast;
use crate::ast::{
    Body, BodyView, Expr, ExprView, NodeView, ParamView, ParseInterface, TargetView,
};
use crate::grammar;
use crate::grammar::Rule;
use crate::laws;
use crate::nesting;
use crate::shape;
use crate::token::{Bracket, Keyword, LiteralView, Operator, TokenView};
use vstd::prelude::*;

verus! {

// ----------------------------------------------------------------------------------------------
// Writing. Throughout, `c` says whether lists have a comma behind their last item.
// ----------------------------------------------------------------------------------------------

/// Tokens between brackets.
pub open spec fn wrap(bracket: Bracket, w: Seq<TokenView>) -> Seq<TokenView> {
    seq![TokenView::StartBracket(bracket)] + w + seq![TokenView::EndBracket(bracket)]
}

/// The comma behind item `i` of `n`.
pub open spec fn comma(c: bool, i: int, n: nat) -> Seq<TokenView> {
    if c || i + 1 < n {
        seq![TokenView::Comma]
    } else {
        Seq::empty()
    }
}

/// An expression. All but the simplest stand in brackets, so that nothing behind them can be taken
/// for a part of them.
pub open spec fn write_expr(c: bool, x: ExprView) -> Seq<TokenView>
    decreases x, 0nat,
{
    match x {
        ExprView::Integer(n) => seq![TokenView::Literal(LiteralView::Integer(n))],
        ExprView::Float(s) => seq![TokenView::Literal(LiteralView::Float(s))],
        ExprView::String(s) => seq![TokenView::Literal(LiteralView::String(s))],
        ExprView::Bool(b) => seq![
            TokenView::Identifier(
                if b {
                    "true"@
                } else {
                    "false"@
                },
            ),
        ],
        ExprView::Ident(name) => seq![TokenView::Identifier(name)],
        ExprView::Array(items) => wrap(Bracket::Bracket, write_exprs(c, items, 0)),
        ExprView::UnaryExpr { operator, value } => wrap(
            Bracket::Paren,
            seq![TokenView::Operator(operator)] + write_expr(c, *value),
        ),
        ExprView::BinaryExpr { operator, lhs, rhs } => wrap(
            Bracket::Paren,
            write_expr(c, *lhs) + (seq![TokenView::Operator(operator)] + write_expr(c, *rhs)),
        ),
        ExprView::Attr(value, name) => wrap(
            Bracket::Paren,
            write_expr(c, *value) + seq![TokenView::Dot, TokenView::Identifier(name)],
        ),
        ExprView::Call { value, args, kwargs } => wrap(
            Bracket::Paren,
            write_expr(c, *value) + wrap(Bracket::Paren, write_exprs(c, args, 0)),
        ),
        ExprView::If { condition, body, else_if_bodies, else_body, return_last } => wrap(
            Bracket::Paren,
            seq![TokenView::Keyword(Keyword::If)] + (write_expr(c, *condition) + (wrap(
                Bracket::Brace,
                write_nodes(c, body, return_last, 0),
            ) + (write_else_ifs(c, else_if_bodies, 0) + match else_body {
                Some(b) => seq![TokenView::Keyword(Keyword::Else)] + wrap(
                    Bracket::Brace,
                    write_nodes(c, b.0, b.1, 0),
                ),
                None => Seq::empty(),
            }))),
        ),
    }
}

/// The expressions of a list from item `i` on.
pub open spec fn write_exprs(c: bool, items: Seq<ExprView>, i: int) -> Seq<TokenView>
    decreases items, items.len() - i,
{
    if 0 <= i < items.len() {
        write_expr(c, items[i]) + (comma(c, i, items.len()) + write_exprs(c, items, i + 1))
    } else {
        Seq::empty()
    }
}

/// The branches of an `if` from `i` on.
pub open spec fn write_else_ifs(c: bool, items: Seq<(ExprView, BodyView)>, i: int) -> Seq<TokenView>
    decreases items, items.len() - i,
{
    if 0 <= i < items.len() {
        seq![TokenView::Keyword(Keyword::Else), TokenView::Keyword(Keyword::If)] + (write_expr(
            c,
            items[i].0,
        ) + (wrap(Bracket::Brace, write_nodes(c, items[i].1.0, items[i].1.1, 0)) + write_else_ifs(
            c,
            items,
            i + 1,
        )))
    } else {
        Seq::empty()
    }
}

/// The statements of a body from `i` on. The value that is returned has no semicolon.
pub open spec fn write_nodes(c: bool, nodes: Seq<NodeView>, return_last: bool, i: int) -> Seq<
    TokenView,
>
    decreases nodes, nodes.len() - i,
{
    if 0 <= i < nodes.len() {
        if return_last && i + 1 == nodes.len() {
            match nodes[i] {
                NodeView::Expr(x) => write_expr(c, x),
                _ => Seq::empty(),
            }
        } else {
            write_node(c, nodes[i]) + write_nodes(c, nodes, return_last, i + 1)
        }
    } else {
        Seq::empty()
    }
}

/// Names in a list, from `i` on.
pub open spec fn write_names(c: bool, names: Seq<Seq<char>>, i: int) -> Seq<TokenView>
    decreases names.len() - i,
{
    if 0 <= i < names.len() {
        seq![TokenView::Identifier(names[i])] + (comma(c, i, names.len()) + write_names(
            c,
            names,
            i + 1,
        ))
    } else {
        Seq::empty()
    }
}

/// The name that a plain target is.
pub open spec fn name_of(x: TargetView) -> Seq<char> {
    x->Ident_0
}

/// The names that targets are.
pub open spec fn names_of(xs: Seq<TargetView>) -> Seq<Seq<char>> {
    xs.map_values(|x: TargetView| name_of(x))
}

/// A target.
pub open spec fn write_target(c: bool, x: TargetView) -> Seq<TokenView>
    decreases x,
{
    match x {
        TargetView::Ident(name) => seq![TokenView::Identifier(name)],
        TargetView::Array(xs) => wrap(Bracket::Bracket, write_names(c, names_of(xs), 0)),
        TargetView::Attr(value, name) => write_target(c, *value) + seq![
            TokenView::Dot,
            TokenView::Identifier(name),
        ],
    }
}

/// The targets of an assignment from `i` on, each with `=` behind it.
pub open spec fn write_targets(c: bool, xs: Seq<TargetView>, i: int) -> Seq<TokenView>
    decreases xs.len() - i,
{
    if 0 <= i < xs.len() {
        write_target(c, xs[i]) + (seq![TokenView::Assign] + write_targets(c, xs, i + 1))
    } else {
        Seq::empty()
    }
}

/// A parameter.
pub open spec fn write_param(c: bool, x: ParamView) -> Seq<TokenView>
    decreases x, 0nat,
{
    write_target(c, x.target) + match x.default {
        Some(e) => seq![TokenView::Assign] + write_expr(c, e),
        None => Seq::empty(),
    }
}

/// The parameters of a function from `i` on.
pub open spec fn write_params(c: bool, params: Seq<ParamView>, i: int) -> Seq<TokenView>
    decreases params, params.len() - i,
{
    if 0 <= i < params.len() {
        write_param(c, params[i]) + (comma(c, i, params.len()) + write_params(c, params, i + 1))
    } else {
        Seq::empty()
    }
}

/// A keyword, where it is wanted.
pub open spec fn write_if(wanted: bool, k: Keyword) -> Seq<TokenView> {
    if wanted {
        seq![TokenView::Keyword(k)]
    } else {
        Seq::empty()
    }
}

/// The modifiers and the targets of an assignment.
pub open spec fn write_head(c: bool, let_: bool, immut: bool, xs: Seq<TargetView>) -> Seq<
    TokenView,
> {
    write_if(let_, Keyword::Let) + (write_if(immut, Keyword::Immut) + write_targets(c, xs, 0))
}

/// A statement.
pub open spec fn write_node(c: bool, x: NodeView) -> Seq<TokenView>
    decreases x, 0nat,
{
    match x {
        NodeView::Func { name, params, body, return_last } => seq![
            TokenView::Keyword(Keyword::Func),
            TokenView::Identifier(name),
        ] + (wrap(Bracket::Paren, write_params(c, params, 0)) + wrap(
            Bracket::Brace,
            write_nodes(c, body, return_last, 0),
        )),
        NodeView::Expr(e) => write_expr(c, e) + seq![TokenView::Semicolon],
        NodeView::Assign { targets, value, let_, immut, const_ } => write_head(
            c,
            let_,
            immut,
            targets,
        ) + (write_expr(c, value) + seq![TokenView::Semicolon]),
        NodeView::Require(names) => seq![TokenView::Keyword(Keyword::Require)] + (write_names(
            c,
            names,
            0,
        ) + seq![TokenView::Semicolon]),
        NodeView::Module(_) | NodeView::Return(_) => Seq::empty(),
    }
}

/// A body.
pub open spec fn write_body(c: bool, x: BodyView) -> Seq<TokenView> {
    write_nodes(c, x.0, x.1, 0)
}

// ----------------------------------------------------------------------------------------------
// Reading what was written.
// ----------------------------------------------------------------------------------------------

/// The tokens `w` stand in `t` from `p` on.
#[verifier::opaque]
pub open spec fn stands(t: Seq<TokenView>, p: int, w: Seq<TokenView>) -> bool {
    &&& 0 <= p
    &&& p + w.len() <= t.len()
    &&& forall|i: int| 0 <= i < w.len() ==> t[p + i] == #[trigger] w[i]
}

pub proof fn lemma_stands_add(t: Seq<TokenView>, p: int, v: Seq<TokenView>, w: Seq<TokenView>)
    requires
        stands(t, p, v + w),
    ensures
        stands(t, p, v),
        stands(t, p + v.len(), w),
        0 <= p,
{
    reveal(stands);
    assert forall|i: int| 0 <= i < v.len() implies t[p + i] == #[trigger] v[i] by {
        assert((v + w)[i] == v[i]);
    }
    assert forall|i: int| 0 <= i < w.len() implies t[p + v.len() + i] == #[trigger] w[i] by {
        assert((v + w)[v.len() + i] == w[i]);
    }
}

pub proof fn lemma_stands_one(t: Seq<TokenView>, p: int, x: TokenView)
    requires
        stands(t, p, seq![x]),
    ensures
        grammar::at(t, p) == Some(x),
{
    reveal(stands);
    assert(seq![x][0] == x);
}

pub proof fn lemma_stands_two(t: Seq<TokenView>, p: int, x: TokenView, y: TokenView)
    requires
        stands(t, p, seq![x, y]),
    ensures
        grammar::at(t, p) == Some(x),
        grammar::at(t, p + 1) == Some(y),
{
    reveal(stands);
    assert(seq![x, y][0] == x);
    assert(seq![x, y][1] == y);
}

/// What stands in the sequence lies in it.
pub proof fn lemma_stands_in(t: Seq<TokenView>, p: int, w: Seq<TokenView>)
    requires
        stands(t, p, w),
    ensures
        0 <= p,
        p + w.len() <= t.len(),
{
    reveal(stands);
}

pub proof fn lemma_stands_wrap(t: Seq<TokenView>, p: int, bracket: Bracket, w: Seq<TokenView>)
    requires
        stands(t, p, wrap(bracket, w)),
    ensures
        grammar::at(t, p) == Some(TokenView::StartBracket(bracket)),
        stands(t, p + 1, w),
        grammar::at(t, p + 1 + w.len()) == Some(TokenView::EndBracket(bracket)),
        wrap(bracket, w).len() == w.len() + 2,
{
    let open = seq![TokenView::StartBracket(bracket)];
    let close = seq![TokenView::EndBracket(bracket)];
    lemma_stands_add(t, p, open + w, close);
    lemma_stands_add(t, p, open, w);
    lemma_stands_one(t, p, TokenView::StartBracket(bracket));
    lemma_stands_one(t, p + 1 + w.len(), TokenView::EndBracket(bracket));
}

/// From `p` to `end` the rule `a` gives the items from `i` on, with commas between them, and one
/// behind the last if `c`.
pub open spec fn listed<A>(
    t: Seq<TokenView>,
    c: bool,
    a: Rule<A>,
    items: Seq<A>,
    i: int,
    p: int,
    end: int,
) -> bool
    decreases items.len() - i,
{
    if 0 <= i < items.len() {
        a(p) matches Some((x, q)) && x == items[i] && if c || i + 1 < items.len() {
            grammar::at(t, q) == Some(TokenView::Comma) && listed(t, c, a, items, i + 1, q + 1, end)
        } else {
            q == end
        }
    } else {
        p == end
    }
}

proof fn lemma_listed_rest<A>(
    t: Seq<TokenView>,
    c: bool,
    a: Rule<A>,
    items: Seq<A>,
    i: int,
    p: int,
    end: int,
)
    requires
        0 <= i < items.len(),
        0 <= p <= t.len(),
        listed(t, c, a, items, i, p, end),
        forall|q: int|
            #![trigger a(q)]
            p <= q <= t.len() ==> (a(q) matches Some((_, r)) ==> q < r <= t.len()),
        a(end) is None,
        grammar::at(t, end) != Some(TokenView::Comma),
    ensures
        ({
            let next = grammar::second(grammar::token(t, TokenView::Comma), a);
            a(p) matches Some((x, q)) && {
                &&& p < q <= end <= t.len()
                &&& grammar::run(t.len() as int, next, q) == (
                    items.skip(i + 1),
                    if c {
                        end - 1
                    } else {
                        end
                    },
                )
                &&& c ==> grammar::at(t, end - 1) == Some(TokenView::Comma)
            }
        }),
    decreases items.len() - i,
{
    let n = t.len() as int;
    let next = grammar::second(grammar::token(t, TokenView::Comma), a);
    let (x, q) = a(p)->0;
    if i + 1 < items.len() {
        lemma_listed_rest(t, c, a, items, i + 1, q + 1, end);
        let (y, r) = a(q + 1)->0;
        assert(next(q) == Some((y, r)));
        let (xs, s) = grammar::run(n, next, r);
        assert(grammar::run(n, next, q) == (seq![y] + xs, s));
        assert(listed(t, c, a, items, i + 1, q + 1, end));
        assert(y == items[i + 1]);
        assert(xs == items.skip(i + 2));
        assert(items.skip(i + 1) =~= seq![y] + xs);
        assert(q < end);
    } else {
        assert(items.skip(i + 1) =~= Seq::empty());
        if c {
            assert(listed(t, c, a, items, i + 1, q + 1, end));
        }
        assert(next(q) is None);
        assert(grammar::run(n, next, q) == (Seq::<A>::empty(), q));
    }
}

/// What is listed is a list.
pub proof fn lemma_listed<A>(
    t: Seq<TokenView>,
    c: bool,
    a: Rule<A>,
    items: Seq<A>,
    p: int,
    end: int,
)
    requires
        0 <= p <= t.len(),
        listed(t, c, a, items, 0, p, end),
        forall|q: int|
            #![trigger a(q)]
            p <= q <= t.len() ==> (a(q) matches Some((_, r)) ==> q < r <= t.len()),
        a(end) is None,
        grammar::at(t, end) != Some(TokenView::Comma),
    ensures
        grammar::list(t, a)(p) == Some((items, end)),
        items.len() > 0 ==> grammar::list1(t, a)(p) == Some((items, end)),
{
    if items.len() > 0 {
        lemma_listed_rest(t, c, a, items, 0, p, end);
        let (x, q) = a(p)->0;
        assert(seq![x] + items.skip(1) =~= items);
    } else {
        assert(items =~= Seq::empty());
    }
}

/// The atom that is read at a position.
#[verifier::opaque]
spec fn reads_atom(t: Seq<TokenView>, p: int, x: ExprView, q: int) -> bool {
    0 <= p <= t.len() && laws::atoms(t)(p) == Some((x, q))
}

/// The expression that is read at a position.
#[verifier::opaque]
spec fn reads_expr(t: Seq<TokenView>, p: int, x: ExprView, q: int) -> bool {
    0 <= p <= t.len() && grammar::expr_at(t, p) == Some((x, q))
}

/// The list of expressions that is read at a position.
#[verifier::opaque]
spec fn reads_exprs(t: Seq<TokenView>, p: int, items: Seq<ExprView>, q: int) -> bool {
    grammar::list(t, grammar::exprs(t))(p) == Some((items, q))
}

/// The list of parameters that is read at a position.
#[verifier::opaque]
spec fn reads_params(t: Seq<TokenView>, p: int, params: Seq<ParamView>, q: int) -> bool {
    grammar::list(t, grammar::param(t, grammar::exprs(t)))(p) == Some((params, q))
}

/// The body in braces that is read at a position.
#[verifier::opaque]
spec fn reads_block(t: Seq<TokenView>, p: int, x: BodyView, q: int) -> bool {
    grammar::block(t, grammar::bodies(t))(p) == Some((x, q))
}

/// The body that is read at a position.
#[verifier::opaque]
spec fn reads_body(t: Seq<TokenView>, p: int, x: BodyView, q: int) -> bool {
    grammar::body_at(t, p) == Some((x, q))
}

/// The statement that is read at a position.
#[verifier::opaque]
spec fn reads_node(t: Seq<TokenView>, p: int, x: NodeView, q: int) -> bool {
    p < q <= t.len() && grammar::statement(t, grammar::exprs(t), grammar::bodies(t))(p) == Some(
        (x, q),
    )
}

/// The branches from `i` on are what is read at a position, and no more of them.
#[verifier::opaque]
spec fn reads_branches(
    t: Seq<TokenView>,
    p: int,
    items: Seq<(ExprView, BodyView)>,
    i: int,
    q: int,
) -> bool {
    let branch = grammar::else_if(t, grammar::exprs(t), grammar::bodies(t));
    p <= q <= t.len() && grammar::run(t.len() as int, branch, p) == (items.skip(i), q)
}

/// The statements from `i` on are what is read at a position, the value that is returned among
/// them, and no more of them.
#[verifier::opaque]
spec fn reads_nodes(
    t: Seq<TokenView>,
    p: int,
    nodes: Seq<NodeView>,
    return_last: bool,
    i: int,
    end: int,
) -> bool {
    let a = grammar::statement(t, grammar::exprs(t), grammar::bodies(t));
    in_turn(t.len() as int, a, grammar::exprs(t), p, nodes, return_last, i, end)
}

/// The statements from `i` on are what `a` gives, one behind the other, and then `e` gives the
/// value that is returned, or nothing.
spec fn in_turn(
    n: int,
    a: Rule<NodeView>,
    e: Rule<ExprView>,
    p: int,
    nodes: Seq<NodeView>,
    return_last: bool,
    i: int,
    end: int,
) -> bool {
    let (xs, q) = grammar::run(n, a, p);
    if return_last {
        &&& xs == nodes.subrange(i, nodes.len() - 1)
        &&& nodes.last() matches NodeView::Expr(x) && e(q) == Some((x, end))
    } else {
        &&& xs == nodes.skip(i)
        &&& q == end
        &&& e(q) is None
    }
}

proof fn lemma_in_turn(
    n: int,
    a: Rule<NodeView>,
    e: Rule<ExprView>,
    p: int,
    nodes: Seq<NodeView>,
    return_last: bool,
    i: int,
    q: int,
    end: int,
)
    requires
        0 <= i < nodes.len(),
        return_last ==> i + 1 < nodes.len(),
        p < q <= n,
        a(p) == Some((nodes[i], q)),
        in_turn(n, a, e, q, nodes, return_last, i + 1, end),
    ensures
        in_turn(n, a, e, p, nodes, return_last, i, end),
{
    let last = nodes.len() - 1;
    let (xs, r) = grammar::run(n, a, q);
    assert(grammar::run(n, a, p) == (seq![nodes[i]] + xs, r));
    if return_last {
        assert(nodes.subrange(i, last) =~= seq![nodes[i]] + nodes.subrange(i + 1, last));
    } else {
        assert(nodes.skip(i) =~= seq![nodes[i]] + nodes.skip(i + 1));
    }
}

/// A single token that is an atom.
proof fn lemma_leaf(t: Seq<TokenView>, c: bool, x: ExprView, p: int)
    requires
        x is Integer || x is Float || x is String || x is Bool || x is Ident,
        shape::expr_shape(x),
        stands(t, p, write_expr(c, x)),
    ensures
        reads_atom(t, p, x, p + 1),
        write_expr(c, x).len() == 1,
{
    reveal(reads_atom);
    lemma_stands_in(t, p, write_expr(c, x));
    match x {
        ExprView::Integer(n) => {
            lemma_stands_one(t, p, TokenView::Literal(LiteralView::Integer(n)));
        },
        ExprView::Float(s) => {
            lemma_stands_one(t, p, TokenView::Literal(LiteralView::Float(s)));
        },
        ExprView::String(s) => {
            lemma_stands_one(t, p, TokenView::Literal(LiteralView::String(s)));
        },
        ExprView::Bool(b) => {
            reveal_strlit("true");
            reveal_strlit("false");
            assert("true"@.len() == 4);
            assert("false"@.len() == 5);
            let name = if b {
                "true"@
            } else {
                "false"@
            };
            lemma_stands_one(t, p, TokenView::Identifier(name));
        },
        ExprView::Ident(name) => {
            lemma_stands_one(t, p, TokenView::Identifier(name));
        },
        _ => {},
    }
}

/// An atom that nothing prolongs.
proof fn lemma_alone(t: Seq<TokenView>, p: int, x: ExprView, q: int)
    requires
        reads_atom(t, p, x, q),
        laws::atom_ends(t, q),
    ensures
        reads_expr(t, p, x, q),
{
    reveal(reads_atom);
    reveal(reads_expr);
    laws::atom_alone(t, p, x, q);
}

/// An expression in parentheses.
proof fn lemma_parens(t: Seq<TokenView>, p: int, x: ExprView, q: int)
    requires
        0 <= p,
        grammar::at(t, p) == Some(TokenView::StartBracket(Bracket::Paren)),
        reads_expr(t, p + 1, x, q),
        grammar::at(t, q) == Some(TokenView::EndBracket(Bracket::Paren)),
    ensures
        reads_atom(t, p, x, q + 1),
{
    reveal(reads_atom);
    reveal(reads_expr);
    laws::parentheses_leave_no_trace(t, p, x, q);
}

/// An operator between two atoms.
proof fn lemma_between(
    t: Seq<TokenView>,
    p: int,
    x: ExprView,
    q: int,
    op: Operator,
    y: ExprView,
    r: int,
)
    requires
        reads_atom(t, p, x, q),
        grammar::at(t, q) == Some(TokenView::Operator(op)),
        grammar::tier(op) > 0,
        reads_atom(t, q + 1, y, r),
        laws::atom_ends(t, r),
    ensures
        reads_expr(t, p, laws::between(op, x, y), r),
{
    reveal(reads_atom);
    reveal(reads_expr);
    laws::atom_is_operand(t, p, x, q);
    laws::atom_is_operand(t, q + 1, y, r);
    laws::operator_joins(t, p, x, q, op, y, r);
}

/// An expression without an opening bracket: a call that nothing prolongs.
proof fn lemma_call_alone(t: Seq<TokenView>, p: int, x: ExprView, q: int)
    requires
        0 <= p <= t.len(),
        grammar::call(t, grammar::exprs(t), grammar::bodies(t))(p) == Some((x, q)),
        grammar::prefix(t)(p) is None,
        laws::tier_at(t, q) == 0,
    ensures
        grammar::expr_at(t, p) == Some((x, q)),
{
    let n = t.len() as int;
    assert(grammar::run(n, grammar::prefix(t), p) == (Seq::<Operator>::empty(), p));
    assert(grammar::prefixed(Seq::empty(), x) == x);
    laws::operand_alone(t, p, x, q);
}

/// A prefix operator and an atom.
proof fn lemma_prefixed(t: Seq<TokenView>, p: int, op: Operator, x: ExprView, q: int)
    requires
        0 <= p,
        grammar::at(t, p) == Some(TokenView::Operator(op)),
        grammar::is_prefix(op),
        reads_atom(t, p + 1, x, q),
        laws::atom_ends(t, q),
    ensures
        reads_expr(t, p, ExprView::UnaryExpr { operator: op, value: Box::new(x) }, q),
{
    reveal(reads_atom);
    reveal(reads_expr);
    let n = t.len() as int;
    let prefix = grammar::prefix(t);
    laws::atom_is_operand(t, p + 1, x, q);
    assert(prefix(p) == Some((op, p + 1)));
    assert(prefix(p + 1) is None);
    assert(grammar::run(n, prefix, p + 1) == (Seq::<Operator>::empty(), p + 1));
    let ops = grammar::run(n, prefix, p).0;
    assert(ops =~= seq![op]);
    assert(ops.drop_last() =~= Seq::empty());
    let y = ExprView::UnaryExpr { operator: op, value: Box::new(x) };
    assert(grammar::prefixed(Seq::empty(), y) == y);
    assert(grammar::prefixed(ops, x) == y);
    laws::operand_alone(t, p, y, q);
}

/// An atom and the name of an attribute.
proof fn lemma_attribute(t: Seq<TokenView>, p: int, x: ExprView, q: int, name: Seq<char>)
    requires
        reads_atom(t, p, x, q),
        grammar::at(t, q) == Some(TokenView::Dot),
        grammar::at(t, q + 1) == Some(TokenView::Identifier(name)),
        laws::atom_ends(t, q + 2),
    ensures
        reads_expr(t, p, ExprView::Attr(Box::new(x), name), q + 2),
{
    reveal(reads_atom);
    reveal(reads_expr);
    let n = t.len() as int;
    let dotted = grammar::dotted(t);
    assert(dotted(q) == Some((name, q + 2)));
    assert(grammar::run(n, dotted, q + 2) == (Seq::<Seq<char>>::empty(), q + 2));
    let names = grammar::run(n, dotted, q).0;
    assert(names =~= seq![name]);
    assert(names.drop_last() =~= Seq::empty());
    let y = ExprView::Attr(Box::new(x), name);
    assert(grammar::attributes(x, Seq::empty()) == x);
    assert(grammar::attributes(x, names) == y);
    let e = grammar::exprs(t);
    let b = grammar::bodies(t);
    assert(grammar::attribute(t, e, b)(p) == Some((y, q + 2)));
    assert(grammar::arguments(t, e)(q + 2) is None);
    lemma_call_alone(t, p, y, q + 2);
}

/// An atom and arguments.
proof fn lemma_call(t: Seq<TokenView>, p: int, x: ExprView, q: int, args: Seq<ExprView>, r: int)
    requires
        reads_atom(t, p, x, q),
        grammar::at(t, q) == Some(TokenView::StartBracket(Bracket::Paren)),
        reads_exprs(t, q + 1, args, r),
        grammar::at(t, r) == Some(TokenView::EndBracket(Bracket::Paren)),
        laws::tier_at(t, r + 1) == 0,
    ensures
        reads_expr(
            t,
            p,
            ExprView::Call { value: Box::new(x), args, kwargs: Seq::empty() },
            r + 1,
        ),
{
    reveal(reads_atom);
    reveal(reads_expr);
    reveal(reads_exprs);
    let n = t.len() as int;
    let e = grammar::exprs(t);
    let b = grammar::bodies(t);
    let dotted = grammar::dotted(t);
    assert(grammar::run(n, dotted, q) == (Seq::<Seq<char>>::empty(), q));
    assert(grammar::attributes(x, Seq::empty()) == x);
    assert(grammar::attribute(t, e, b)(p) == Some((x, q)));
    assert(grammar::arguments(t, e)(q) == Some((args, r + 1)));
    lemma_call_alone(
        t,
        p,
        ExprView::Call { value: Box::new(x), args, kwargs: Seq::empty() },
        r + 1,
    );
}

/// A body in braces.
proof fn lemma_block(t: Seq<TokenView>, p: int, x: BodyView, q: int)
    requires
        grammar::at(t, p) == Some(TokenView::StartBracket(Bracket::Brace)),
        reads_body(t, p + 1, x, q),
        grammar::at(t, q) == Some(TokenView::EndBracket(Bracket::Brace)),
    ensures
        reads_block(t, p, x, q + 1),
{
    reveal(reads_body);
    reveal(reads_block);
}

/// A branch of an `if`, and those behind it.
proof fn lemma_branch(
    t: Seq<TokenView>,
    p: int,
    items: Seq<(ExprView, BodyView)>,
    i: int,
    q: int,
    r: int,
    s: int,
)
    requires
        0 <= i < items.len(),
        0 <= p,
        grammar::at(t, p) == Some(TokenView::Keyword(Keyword::Else)),
        grammar::at(t, p + 1) == Some(TokenView::Keyword(Keyword::If)),
        reads_expr(t, p + 2, items[i].0, q),
        reads_block(t, q, items[i].1, r),
        p < r,
        reads_branches(t, r, items, i + 1, s),
    ensures
        reads_branches(t, p, items, i, s),
{
    reveal(reads_expr);
    reveal(reads_block);
    reveal(reads_branches);
    let branch = grammar::else_if(t, grammar::exprs(t), grammar::bodies(t));
    assert(branch(p) == Some((items[i], r)));
    assert(items.skip(i) =~= seq![items[i]] + items.skip(i + 1));
}

/// No more branches of an `if`.
proof fn lemma_no_branch(t: Seq<TokenView>, p: int, items: Seq<(ExprView, BodyView)>)
    requires
        0 <= p <= t.len(),
        grammar::at(t, p) != Some(TokenView::Keyword(Keyword::Else)) || grammar::at(t, p + 1)
            != Some(TokenView::Keyword(Keyword::If)),
    ensures
        reads_branches(t, p, items, items.len() as int, p),
{
    reveal(reads_branches);
    let branch = grammar::else_if(t, grammar::exprs(t), grammar::bodies(t));
    assert(branch(p) is None);
    assert(items.skip(items.len() as int) =~= Seq::empty());
}

/// An `if` with all that belongs to it.
proof fn lemma_if(
    t: Seq<TokenView>,
    p: int,
    condition: ExprView,
    q: int,
    body: BodyView,
    r: int,
    branches: Seq<(ExprView, BodyView)>,
    s: int,
    last: Option<BodyView>,
    u: int,
)
    requires
        grammar::at(t, p) == Some(TokenView::Keyword(Keyword::If)),
        reads_expr(t, p + 1, condition, q),
        reads_block(t, q, body, r),
        reads_branches(t, r, branches, 0, s),
        match last {
            Some(b) => {
                &&& grammar::at(t, s) == Some(TokenView::Keyword(Keyword::Else))
                &&& reads_block(t, s + 1, b, u)
            },
            None => grammar::at(t, s) != Some(TokenView::Keyword(Keyword::Else)) && u == s,
        },
    ensures
        reads_atom(
            t,
            p,
            ExprView::If {
                condition: Box::new(condition),
                body: body.0,
                else_if_bodies: branches,
                else_body: last,
                return_last: body.1,
            },
            u,
        ),
{
    reveal(reads_atom);
    reveal(reads_expr);
    reveal(reads_block);
    reveal(reads_branches);
    assert(branches.skip(0) =~= branches);
    let e = grammar::exprs(t);
    let b = grammar::bodies(t);
    let x = ExprView::If {
        condition: Box::new(condition),
        body: body.0,
        else_if_bodies: branches,
        else_body: last,
        return_last: body.1,
    };
    assert(grammar::if_else(t, e, b)(p) == Some((x, u)));
    assert(grammar::literal(t)(p) is None);
    assert(grammar::within(t, Bracket::Paren, e)(p) is None);
}

/// An array.
proof fn lemma_array(t: Seq<TokenView>, p: int, items: Seq<ExprView>, q: int)
    requires
        grammar::at(t, p) == Some(TokenView::StartBracket(Bracket::Bracket)),
        reads_exprs(t, p + 1, items, q),
        grammar::at(t, q) == Some(TokenView::EndBracket(Bracket::Bracket)),
    ensures
        reads_atom(t, p, ExprView::Array(items), q + 1),
{
    reveal(reads_atom);
    reveal(reads_exprs);
    let e = grammar::exprs(t);
    let b = grammar::bodies(t);
    assert(grammar::within(t, Bracket::Bracket, grammar::list(t, e))(p) == Some((items, q + 1)));
    assert(grammar::literal(t)(p) is None);
    assert(grammar::identifier(t)(p) is None);
    assert(grammar::within(t, Bracket::Paren, e)(p) is None);
    assert(grammar::if_else(t, e, b)(p) is None);
}

/// The rule for statements.
pub open spec fn statements(t: Seq<TokenView>) -> Rule<NodeView> {
    grammar::statement(t, grammar::exprs(t), grammar::bodies(t))
}

/// A body has no more statements at its end.
pub open spec fn body_ends(t: Seq<TokenView>, p: int) -> bool {
    grammar::at(t, p) is None || grammar::at(t, p) == Some(TokenView::EndBracket(Bracket::Brace))
}

/// An atom that nothing prolongs, with no `=` behind it, begins no other statement.
proof fn lemma_no_other_statement(t: Seq<TokenView>, p: int, x: ExprView, q: int)
    requires
        0 <= p <= t.len(),
        laws::atoms(t)(p) == Some((x, q)),
        laws::atom_ends(t, q),
        grammar::at(t, q) != Some(TokenView::Assign),
    ensures
        grammar::func(t, grammar::exprs(t), grammar::bodies(t))(p) is None,
        grammar::assign(t, grammar::exprs(t))(p) is None,
        grammar::require(t)(p) is None,
{
    laws::atom_alone(t, p, x, q);
    laws::expr_is_not_assigned(t, p);
}

/// An atom and a semicolon are a statement.
proof fn lemma_expr_statement(t: Seq<TokenView>, p: int, x: ExprView, q: int)
    requires
        p <= q,
        reads_atom(t, p, x, q),
        grammar::at(t, q) == Some(TokenView::Semicolon),
    ensures
        reads_node(t, p, NodeView::Expr(x), q + 1),
{
    reveal(reads_atom);
    reveal(reads_node);
    lemma_no_other_statement(t, p, x, q);
    laws::atom_alone(t, p, x, q);
}

/// An atom at the end of a body is the value that is returned, unless it is an `if`.
proof fn lemma_last_value(t: Seq<TokenView>, nodes: Seq<NodeView>, p: int, x: ExprView, q: int)
    requires
        nodes.len() > 0,
        nodes.last() == NodeView::Expr(x),
        !(x is If),
        reads_atom(t, p, x, q),
        body_ends(t, q),
    ensures
        reads_nodes(t, p, nodes, true, nodes.len() - 1, q),
{
    reveal(reads_atom);
    reveal(reads_nodes);
    lemma_no_other_statement(t, p, x, q);
    laws::atom_alone(t, p, x, q);
    assert(statements(t)(p) is None);
    assert(nodes.subrange(nodes.len() - 1, nodes.len() - 1) =~= Seq::empty());
}

/// No more statements.
proof fn lemma_no_statement(t: Seq<TokenView>, nodes: Seq<NodeView>, p: int)
    requires
        0 <= p <= t.len(),
        body_ends(t, p),
    ensures
        reads_nodes(t, p, nodes, false, nodes.len() as int, p),
{
    reveal(reads_nodes);
    laws::expr_begins(t, p);
    assert(statements(t)(p) is None);
    assert(nodes.skip(nodes.len() as int) =~= Seq::empty());
}

/// A statement, and those behind it.
proof fn lemma_statement(
    t: Seq<TokenView>,
    nodes: Seq<NodeView>,
    return_last: bool,
    i: int,
    p: int,
    q: int,
    end: int,
)
    requires
        0 <= i < nodes.len(),
        return_last ==> i + 1 < nodes.len(),
        reads_node(t, p, nodes[i], q),
        reads_nodes(t, q, nodes, return_last, i + 1, end),
    ensures
        reads_nodes(t, p, nodes, return_last, i, end),
{
    reveal(reads_node);
    reveal(reads_nodes);
    let n = t.len() as int;
    let e = grammar::exprs(t);
    lemma_in_turn(n, statements(t), e, p, nodes, return_last, i, q, end);
}

/// Statements make a body.
proof fn lemma_whole_body(
    t: Seq<TokenView>,
    nodes: Seq<NodeView>,
    return_last: bool,
    p: int,
    end: int,
)
    requires
        0 <= p <= t.len(),
        return_last ==> nodes.len() > 0,
        reads_nodes(t, p, nodes, return_last, 0, end),
    ensures
        reads_body(t, p, BodyView(nodes, return_last), end),
{
    reveal(reads_nodes);
    reveal(reads_body);
    nesting::lemma_body_at(t, p);
    if return_last {
        assert(nodes.subrange(0, nodes.len() - 1).push(nodes.last()) =~= nodes);
    } else {
        assert(nodes.skip(0) =~= nodes);
    }
}

/// Names in a list.
proof fn lemma_names(t: Seq<TokenView>, c: bool, names: Seq<Seq<char>>, i: int, p: int)
    requires
        0 <= i <= names.len(),
        stands(t, p, write_names(c, names, i)),
    ensures
        listed(
            t,
            c,
            grammar::identifier(t),
            names,
            i,
            p,
            p + write_names(c, names, i).len(),
        ),
    decreases names.len() - i,
{
    if i < names.len() {
        let rest = write_names(c, names, i + 1);
        let sep = comma(c, i, names.len());
        lemma_stands_add(t, p, seq![TokenView::Identifier(names[i])], sep + rest);
        lemma_stands_one(t, p, TokenView::Identifier(names[i]));
        lemma_stands_add(t, p + 1, sep, rest);
        if c || i + 1 < names.len() {
            lemma_stands_one(t, p + 1, TokenView::Comma);
            lemma_names(t, c, names, i + 1, p + 2);
        }
    }
}

/// A list of names, with something else than a name or a comma behind it.
proof fn lemma_name_list(t: Seq<TokenView>, c: bool, names: Seq<Seq<char>>, p: int)
    requires
        names.len() > 0,
        stands(t, p, write_names(c, names, 0)),
        grammar::identifier(t)(p + write_names(c, names, 0).len()) is None,
        grammar::at(t, p + write_names(c, names, 0).len()) != Some(TokenView::Comma),
    ensures
        grammar::list1(t, grammar::identifier(t))(p) == Some(
            (names, p + write_names(c, names, 0).len()),
        ),
{
    lemma_names(t, c, names, 0, p);
    lemma_listed(t, c, grammar::identifier(t), names, p, p + write_names(c, names, 0).len());
}

/// A requirement.
proof fn lemma_require(t: Seq<TokenView>, c: bool, names: Seq<Seq<char>>, p: int)
    requires
        names.len() > 0,
        stands(t, p, write_node(c, NodeView::Require(names))),
    ensures
        reads_node(
            t,
            p,
            NodeView::Require(names),
            p + write_node(c, NodeView::Require(names)).len(),
        ),
{
    reveal(reads_node);
    let w = write_names(c, names, 0);
    let q = p + 1 + w.len();
    lemma_stands_add(
        t,
        p,
        seq![TokenView::Keyword(Keyword::Require)],
        w + seq![TokenView::Semicolon],
    );
    lemma_stands_one(t, p, TokenView::Keyword(Keyword::Require));
    lemma_stands_add(t, p + 1, w, seq![TokenView::Semicolon]);
    lemma_stands_one(t, q, TokenView::Semicolon);
    lemma_name_list(t, c, names, p + 1);
    let e = grammar::exprs(t);
    assert(grammar::require(t)(p) == Some((NodeView::Require(names), q + 1)));
    assert(grammar::func(t, e, grammar::bodies(t))(p) is None);
    assert(grammar::modifiers(t)(p) == Some(((None::<TokenView>, None::<TokenView>), p)));
    assert(grammar::targets(t, true)(p) is None);
    assert(grammar::assign(t, e)(p) is None);
}

/// A plain target.
proof fn lemma_plain_target(t: Seq<TokenView>, c: bool, x: TargetView, p: int)
    requires
        shape::is_plain_target(x),
        stands(t, p, write_target(c, x)),
    ensures
        grammar::plain_target(t)(p) == Some((x, p + write_target(c, x).len())),
        write_target(c, x).len() > 0,
        grammar::at(t, p) matches Some(y) && !(y is Keyword),
{
    match x {
        TargetView::Ident(name) => {
            lemma_stands_one(t, p, TokenView::Identifier(name));
        },
        TargetView::Array(xs) => {
            let names = names_of(xs);
            let w = write_names(c, names, 0);
            let names_rule = grammar::list1(t, grammar::identifier(t));
            let q = p + 1 + w.len();
            lemma_stands_wrap(t, p, Bracket::Bracket, w);
            lemma_name_list(t, c, names, p + 1);
            assert(grammar::name_targets(names) =~= xs) by {
                assert forall|i: int| 0 <= i < xs.len() implies #[trigger] grammar::name_targets(
                    names,
                )[i] == xs[i] by {
                    assert(shape::is_name(xs[i]));
                }
            }
            assert(grammar::within(t, Bracket::Bracket, names_rule)(p) == Some((names, q + 1)));
            assert(grammar::identifier(t)(p) is None);
        },
        TargetView::Attr(..) => {},
    }
}

/// The name that a path begins with.
pub open spec fn root(x: TargetView) -> Seq<char>
    decreases x,
{
    match x {
        TargetView::Ident(name) => name,
        TargetView::Array(_) => Seq::empty(),
        TargetView::Attr(value, _) => root(*value),
    }
}

/// The names of attributes in a path.
pub open spec fn fields(x: TargetView) -> Seq<Seq<char>>
    decreases x,
{
    match x {
        TargetView::Attr(value, name) => fields(*value).push(name),
        _ => Seq::empty(),
    }
}

proof fn lemma_path_of(x: TargetView)
    requires
        shape::is_path(x),
    ensures
        grammar::path(root(x), fields(x)) == x,
    decreases x,
{
    if let TargetView::Attr(value, name) = x {
        lemma_path_of(*value);
        assert(fields(x).drop_last() =~= fields(*value));
    }
}

/// A path is read name by name, with the names of `rest` behind it.
proof fn lemma_path_written(t: Seq<TokenView>, c: bool, x: TargetView, p: int, rest: Seq<Seq<char>>)
    requires
        shape::is_path(x),
        stands(t, p, write_target(c, x)),
        ({
            let (names, r) = grammar::run(
                t.len() as int,
                grammar::dotted(t),
                p + write_target(c, x).len(),
            );
            names == rest
        }),
    ensures
        grammar::at(t, p) == Some(TokenView::Identifier(root(x))),
        write_target(c, x).len() > 0,
        grammar::run(t.len() as int, grammar::dotted(t), p + 1) == (
            fields(x) + rest,
            grammar::run(t.len() as int, grammar::dotted(t), p + write_target(c, x).len()).1,
        ),
    decreases x,
{
    let n = t.len() as int;
    let dotted = grammar::dotted(t);
    match x {
        TargetView::Ident(name) => {
            lemma_stands_one(t, p, TokenView::Identifier(name));
            assert(fields(x) + rest =~= rest);
        },
        TargetView::Array(_) => {},
        TargetView::Attr(value, name) => {
            let w = write_target(c, *value);
            let two = seq![TokenView::Dot, TokenView::Identifier(name)];
            let q = p + w.len();
            lemma_stands_in(t, p, write_target(c, x));
            lemma_stands_add(t, p, w, two);
            lemma_stands_two(t, q, TokenView::Dot, TokenView::Identifier(name));
            assert(dotted(q) == Some((name, q + 2)));
            let (names, r) = grammar::run(n, dotted, q + 2);
            assert(grammar::run(n, dotted, q) == (seq![name] + rest, r));
            lemma_path_written(t, c, *value, p, seq![name] + rest);
            assert(fields(*value) + (seq![name] + rest) =~= fields(x) + rest);
        },
    }
}

/// A target, with `=` behind it.
proof fn lemma_target(t: Seq<TokenView>, c: bool, x: TargetView, attributes: bool, p: int)
    requires
        shape::is_target(x, attributes),
        stands(t, p, write_target(c, x) + seq![TokenView::Assign]),
    ensures
        grammar::target_eq(t, attributes)(p) == Some((x, p + write_target(c, x).len() + 1)),
        grammar::at(t, p) matches Some(y) && !(y is Keyword),
{
    let n = t.len() as int;
    let w = write_target(c, x);
    let q = p + w.len();
    let dotted = grammar::dotted(t);
    lemma_stands_add(t, p, w, seq![TokenView::Assign]);
    lemma_stands_one(t, q, TokenView::Assign);
    assert(grammar::run(n, dotted, q) == (Seq::<Seq<char>>::empty(), q));
    if shape::is_path(x) {
        lemma_path_written(t, c, x, p, Seq::empty());
        lemma_path_of(x);
        assert(fields(x) + Seq::empty() =~= fields(x));
        if shape::is_plain_target(x) {
            lemma_plain_target(t, c, x, p);
        }
    } else {
        lemma_plain_target(t, c, x, p);
    }
    assert(grammar::target(t, attributes)(p) == Some((x, q)));
}

proof fn lemma_targets_from(
    t: Seq<TokenView>,
    c: bool,
    xs: Seq<TargetView>,
    attributes: bool,
    i: int,
    p: int,
)
    requires
        0 <= i <= xs.len(),
        shape::are_targets(xs, attributes),
        stands(t, p, write_targets(c, xs, i)),
        grammar::target_eq(t, attributes)(p + write_targets(c, xs, i).len()) is None,
    ensures
        grammar::run(t.len() as int, grammar::target_eq(t, attributes), p) == (
            xs.skip(i),
            p + write_targets(c, xs, i).len(),
        ),
        i < xs.len() ==> (grammar::at(t, p) matches Some(y) && !(y is Keyword)),
    decreases xs.len() - i,
{
    if i < xs.len() {
        let w = write_target(c, xs[i]);
        let eq = seq![TokenView::Assign];
        let rest = write_targets(c, xs, i + 1);
        assert(write_targets(c, xs, i) =~= (w + eq) + rest);
        lemma_stands_in(t, p, write_targets(c, xs, i));
        lemma_stands_add(t, p, w + eq, rest);
        lemma_target(t, c, xs[i], attributes, p);
        lemma_targets_from(t, c, xs, attributes, i + 1, p + w.len() + 1);
        lemma_one_more(
            t.len() as int,
            grammar::target_eq(t, attributes),
            p,
            xs,
            i,
            p + w.len() + 1,
            p + write_targets(c, xs, i).len(),
        );
    } else {
        assert(xs.skip(i) =~= Seq::empty());
    }
}

/// A run takes an item and goes on behind it.
pub proof fn lemma_one_more<A>(n: int, a: Rule<A>, p: int, xs: Seq<A>, i: int, q: int, r: int)
    requires
        0 <= i < xs.len(),
        a(p) == Some((xs[i], q)),
        p < q <= n,
        grammar::run(n, a, q) == (xs.skip(i + 1), r),
    ensures
        grammar::run(n, a, p) == (xs.skip(i), r),
{
    assert(xs.skip(i) =~= seq![xs[i]] + xs.skip(i + 1));
}

/// Targets, with a value behind them.
proof fn lemma_targets(t: Seq<TokenView>, c: bool, xs: Seq<TargetView>, attributes: bool, p: int)
    requires
        shape::are_targets(xs, attributes),
        stands(t, p, write_targets(c, xs, 0)),
        grammar::target_eq(t, attributes)(p + write_targets(c, xs, 0).len()) is None,
    ensures
        grammar::targets(t, attributes)(p) == Some((xs, p + write_targets(c, xs, 0).len())),
        grammar::at(t, p) matches Some(y) && !(y is Keyword),
{
    let n = t.len() as int;
    let a = grammar::target_eq(t, attributes);
    let w = write_target(c, xs[0]) + seq![TokenView::Assign];
    let rest = write_targets(c, xs, 1);
    let q = p + w.len();
    assert(write_targets(c, xs, 0) =~= w + rest);
    lemma_stands_add(t, p, w, rest);
    lemma_target(t, c, xs[0], attributes, p);
    lemma_targets_from(t, c, xs, attributes, 1, q);
    assert(seq![xs[0]] + xs.skip(1) =~= xs);
}

/// The keyword, where it is wanted.
pub open spec fn given(wanted: bool, k: Keyword) -> Option<TokenView> {
    if wanted {
        Some(TokenView::Keyword(k))
    } else {
        None
    }
}

/// Modifiers, with something else than a keyword behind them.
proof fn lemma_modifiers(t: Seq<TokenView>, let_: bool, immut: bool, p: int)
    requires
        ({
            let a = write_if(let_, Keyword::Let);
            let b = write_if(immut, Keyword::Immut);
            &&& stands(t, p, a)
            &&& stands(t, p + a.len(), b)
            &&& grammar::at(t, p + a.len() + b.len()) matches Some(y) && !(y is Keyword)
        }),
    ensures
        grammar::modifiers(t)(p) == Some(
            (
                (given(let_, Keyword::Let), given(immut, Keyword::Immut)),
                p + write_if(let_, Keyword::Let).len() + write_if(immut, Keyword::Immut).len(),
            ),
        ),
        grammar::at(t, p) != Some(TokenView::Keyword(Keyword::Func)),
{
    let a = write_if(let_, Keyword::Let);
    if let_ {
        lemma_stands_one(t, p, TokenView::Keyword(Keyword::Let));
    }
    if immut {
        lemma_stands_one(t, p + a.len(), TokenView::Keyword(Keyword::Immut));
    }
}

/// The parts of an assignment.
proof fn lemma_assign_parts(
    t: Seq<TokenView>,
    p: int,
    let_: bool,
    immut: bool,
    p2: int,
    xs: Seq<TargetView>,
    q: int,
    value: ExprView,
    r: int,
)
    requires
        grammar::at(t, p) != Some(TokenView::Keyword(Keyword::Func)),
        grammar::modifiers(t)(p) == Some(
            ((given(let_, Keyword::Let), given(immut, Keyword::Immut)), p2),
        ),
        grammar::targets(t, !let_ && !immut)(p2) == Some((xs, q)),
        grammar::expr_at(t, q) == Some((value, r)),
        grammar::at(t, r) == Some(TokenView::Semicolon),
    ensures
        statements(t)(p) == Some(
            (NodeView::Assign { targets: xs, value, let_, immut, const_: false }, r + 1),
        ),
{
    let e = grammar::exprs(t);
    let x = NodeView::Assign { targets: xs, value, let_, immut, const_: false };
    assert(e(q) == Some((value, r)));
    assert(grammar::func(t, e, grammar::bodies(t))(p) is None);
    assert(grammar::assignment(t, e, let_, immut)(p2) == Some((x, r + 1)));
    assert(grammar::assign(t, e)(p) == Some((x, r + 1)));
}

/// An assignment.
#[verifier::rlimit(30)]
proof fn lemma_assign(
    t: Seq<TokenView>,
    c: bool,
    let_: bool,
    immut: bool,
    xs: Seq<TargetView>,
    p: int,
    q: int,
    value: ExprView,
    r: int,
)
    requires
        shape::are_targets(xs, !let_ && !immut),
        stands(t, p, write_head(c, let_, immut, xs)),
        q == p + write_head(c, let_, immut, xs).len(),
        q <= r,
        reads_expr(t, q, value, r),
        grammar::at(t, r) == Some(TokenView::Semicolon),
    ensures
        reads_node(
            t,
            p,
            NodeView::Assign { targets: xs, value, let_, immut, const_: false },
            r + 1,
        ),
{
    let a = write_if(let_, Keyword::Let);
    let b = write_if(immut, Keyword::Immut);
    let w = write_targets(c, xs, 0);
    let p1 = p + a.len();
    let p2 = p1 + b.len();
    lemma_stands_in(t, p, write_head(c, let_, immut, xs));
    lemma_stands_add(t, p, a, b + w);
    lemma_stands_add(t, p1, b, w);
    assert(grammar::expr_at(t, q) == Some((value, r))) by {
        reveal(reads_expr);
    }
    laws::expr_is_not_assigned(t, q);
    lemma_targets(t, c, xs, !let_ && !immut, p2);
    lemma_modifiers(t, let_, immut, p);
    lemma_assign_parts(t, p, let_, immut, p2, xs, q, value, r);
    reveal(reads_node);
}

/// Modifiers and targets that were written, with an expression and a semicolon behind them, are an
/// assignment of it.
pub proof fn written_targets_are_assigned(
    t: Seq<TokenView>,
    c: bool,
    let_: bool,
    immut: bool,
    xs: Seq<TargetView>,
    p: int,
    value: ExprView,
    r: int,
)
    requires
        shape::are_targets(xs, !let_ && !immut),
        stands(t, p, write_head(c, let_, immut, xs)),
        grammar::expr_at(t, p + write_head(c, let_, immut, xs).len()) == Some((value, r)),
        grammar::at(t, r) == Some(TokenView::Semicolon),
    ensures
        grammar::statement(t, grammar::exprs(t), grammar::bodies(t))(p) == Some(
            (NodeView::Assign { targets: xs, value, let_, immut, const_: false }, r + 1),
        ),
{
    let q = p + write_head(c, let_, immut, xs).len();
    lemma_stands_in(t, p, write_head(c, let_, immut, xs));
    nesting::lemma_expr(t, q);
    assert(reads_expr(t, q, value, r)) by {
        reveal(reads_expr);
    }
    lemma_assign(t, c, let_, immut, xs, p, q, value, r);
    reveal(reads_node);
}

/// The rule for parameters.
pub open spec fn params_of(t: Seq<TokenView>) -> Rule<ParamView> {
    grammar::param(t, grammar::exprs(t))
}

/// A function.
proof fn lemma_func(
    t: Seq<TokenView>,
    p: int,
    name: Seq<char>,
    params: Seq<ParamView>,
    q: int,
    body: BodyView,
    r: int,
)
    requires
        grammar::at(t, p) == Some(TokenView::Keyword(Keyword::Func)),
        grammar::at(t, p + 1) == Some(TokenView::Identifier(name)),
        grammar::at(t, p + 2) == Some(TokenView::StartBracket(Bracket::Paren)),
        reads_params(t, p + 3, params, q),
        grammar::at(t, q) == Some(TokenView::EndBracket(Bracket::Paren)),
        reads_block(t, q + 1, body, r),
        p < r <= t.len(),
    ensures
        reads_node(
            t,
            p,
            NodeView::Func { name, params, body: body.0, return_last: body.1 },
            r,
        ),
{
    reveal(reads_params);
    reveal(reads_block);
    reveal(reads_node);
    let list = grammar::list(t, params_of(t));
    assert(grammar::within(t, Bracket::Paren, list)(p + 2) == Some((params, q + 1)));
    let x = NodeView::Func { name, params, body: body.0, return_last: body.1 };
    assert(grammar::func(t, grammar::exprs(t), grammar::bodies(t))(p) == Some((x, r)));
}

/// An expression that was written is read back: it is an atom.
#[verifier::spinoff_prover]
proof fn lemma_expr(t: Seq<TokenView>, c: bool, x: ExprView, p: int)
    requires
        shape::expr_shape(x),
        stands(t, p, write_expr(c, x)),
    ensures
        reads_atom(t, p, x, p + write_expr(c, x).len()),
        write_expr(c, x).len() > 0,
    decreases x, 1nat,
{
    let w = write_expr(c, x);
    let q = p + w.len() - 1;
    match x {
        ExprView::Integer(_)
        | ExprView::Float(_)
        | ExprView::String(_)
        | ExprView::Bool(_)
        | ExprView::Ident(_) => {
            lemma_leaf(t, c, x, p);
        },
        ExprView::Array(items) => {
            lemma_stands_wrap(t, p, Bracket::Bracket, write_exprs(c, items, 0));
            lemma_expr_list(t, c, items, p + 1);
            lemma_array(t, p, items, q);
        },
        ExprView::UnaryExpr { operator, value } => {
            let v = write_expr(c, *value);
            let op = seq![TokenView::Operator(operator)];
            lemma_stands_wrap(t, p, Bracket::Paren, op + v);
            lemma_stands_add(t, p + 1, op, v);
            lemma_stands_one(t, p + 1, TokenView::Operator(operator));
            lemma_expr(t, c, *value, p + 2);
            lemma_prefixed(t, p + 1, operator, *value, q);
            lemma_parens(t, p, x, q);
        },
        ExprView::BinaryExpr { operator, lhs, rhs } => {
            let v = write_expr(c, *lhs);
            let op = seq![TokenView::Operator(operator)];
            let u = write_expr(c, *rhs);
            lemma_stands_wrap(t, p, Bracket::Paren, v + (op + u));
            lemma_stands_add(t, p + 1, v, op + u);
            let r = p + 1 + v.len();
            lemma_stands_add(t, r, op, u);
            lemma_stands_one(t, r, TokenView::Operator(operator));
            lemma_expr(t, c, *lhs, p + 1);
            lemma_expr(t, c, *rhs, r + 1);
            lemma_between(t, p + 1, *lhs, r, operator, *rhs, q);
            lemma_parens(t, p, x, q);
        },
        ExprView::Attr(value, name) => {
            let v = write_expr(c, *value);
            let dotted = seq![TokenView::Dot, TokenView::Identifier(name)];
            lemma_stands_wrap(t, p, Bracket::Paren, v + dotted);
            lemma_stands_add(t, p + 1, v, dotted);
            let r = p + 1 + v.len();
            lemma_stands_two(t, r, TokenView::Dot, TokenView::Identifier(name));
            lemma_expr(t, c, *value, p + 1);
            lemma_attribute(t, p + 1, *value, r, name);
            lemma_parens(t, p, x, q);
        },
        ExprView::Call { value, args, kwargs } => {
            let v = write_expr(c, *value);
            let u = write_exprs(c, args, 0);
            lemma_stands_wrap(t, p, Bracket::Paren, v + wrap(Bracket::Paren, u));
            lemma_stands_add(t, p + 1, v, wrap(Bracket::Paren, u));
            let r = p + 1 + v.len();
            lemma_stands_wrap(t, r, Bracket::Paren, u);
            lemma_expr(t, c, *value, p + 1);
            lemma_expr_list(t, c, args, r + 1);
            lemma_call(t, p + 1, *value, r, args, q - 1);
            assert(kwargs =~= Seq::empty());
            lemma_parens(t, p, x, q);
        },
        ExprView::If { condition, body, else_if_bodies, else_body, return_last } => {
            lemma_if_written(t, c, x, p);
            lemma_alone(t, p + 1, x, q);
            lemma_parens(t, p, x, q);
        },
    }
}

/// An `if` that was written is read back between its parentheses.
#[verifier::spinoff_prover]
proof fn lemma_if_written(t: Seq<TokenView>, c: bool, x: ExprView, p: int)
    requires
        x is If,
        shape::expr_shape(x),
        stands(t, p, write_expr(c, x)),
    ensures
        ({
            let q = p + write_expr(c, x).len() - 1;
            &&& grammar::at(t, p) == Some(TokenView::StartBracket(Bracket::Paren))
            &&& reads_atom(t, p + 1, x, q)
            &&& grammar::at(t, q) == Some(TokenView::EndBracket(Bracket::Paren))
            &&& write_expr(c, x).len() > 1
            &&& 0 <= p
        }),
    decreases x, 0nat,
{
    match x {
        ExprView::If { condition, body, else_if_bodies, else_body, return_last } => {
            let w0 = seq![TokenView::Keyword(Keyword::If)];
            let w1 = write_expr(c, *condition);
            let nodes = write_nodes(c, body, return_last, 0);
            let w2 = wrap(Bracket::Brace, nodes);
            let w3 = write_else_ifs(c, else_if_bodies, 0);
            let w4 = match else_body {
                Some(b) => seq![TokenView::Keyword(Keyword::Else)] + wrap(
                    Bracket::Brace,
                    write_nodes(c, b.0, b.1, 0),
                ),
                None => Seq::empty(),
            };
            let p1 = p + 2;
            let p2 = p1 + w1.len();
            let p3 = p2 + w2.len();
            let p4 = p3 + w3.len();
            let q = p4 + w4.len();
            lemma_stands_wrap(t, p, Bracket::Paren, w0 + (w1 + (w2 + (w3 + w4))));
            lemma_stands_add(t, p + 1, w0, w1 + (w2 + (w3 + w4)));
            lemma_stands_one(t, p + 1, TokenView::Keyword(Keyword::If));
            lemma_stands_add(t, p1, w1, w2 + (w3 + w4));
            lemma_stands_add(t, p2, w2, w3 + w4);
            lemma_stands_add(t, p3, w3, w4);
            lemma_stands_wrap(t, p2, Bracket::Brace, nodes);
            lemma_expr(t, c, *condition, p1);
            lemma_alone(t, p1, *condition, p2);
            lemma_nodes_body(t, c, body, return_last, p2 + 1);
            lemma_block(t, p2, BodyView(body, return_last), p3 - 1);
            match else_body {
                Some(b) => {
                    let inner = write_nodes(c, b.0, b.1, 0);
                    let kw = seq![TokenView::Keyword(Keyword::Else)];
                    lemma_stands_add(t, p4, kw, wrap(Bracket::Brace, inner));
                    lemma_stands_one(t, p4, TokenView::Keyword(Keyword::Else));
                    lemma_stands_wrap(t, p4 + 1, Bracket::Brace, inner);
                    assert(shape::body_shape(b));
                    lemma_nodes_body(t, c, b.0, b.1, p4 + 2);
                    lemma_block(t, p4 + 1, b, q - 1);
                },
                None => {},
            }
            lemma_else_ifs(t, c, else_if_bodies, 0, p3);
            lemma_if(
                t,
                p + 1,
                *condition,
                p2,
                BodyView(body, return_last),
                p3,
                else_if_bodies,
                p4,
                else_body,
                q,
            );
        },
        _ => {},
    }
}

/// The branches of an `if` that were written are read back.
proof fn lemma_else_ifs(
    t: Seq<TokenView>,
    c: bool,
    items: Seq<(ExprView, BodyView)>,
    i: int,
    p: int,
)
    requires
        0 <= i <= items.len(),
        forall|j: int|
            #![trigger items[j]]
            0 <= j < items.len() ==> shape::expr_shape(items[j].0) && shape::body_shape(items[j].1),
        stands(t, p, write_else_ifs(c, items, i)),
        ({
            let end = p + write_else_ifs(c, items, i).len();
            ||| grammar::at(t, end) != Some(TokenView::Keyword(Keyword::Else))
            ||| grammar::at(t, end + 1) != Some(TokenView::Keyword(Keyword::If))
        }),
    ensures
        reads_branches(t, p, items, i, p + write_else_ifs(c, items, i).len()),
    decreases items, items.len() - i,
{
    if i < items.len() {
        let kws = seq![TokenView::Keyword(Keyword::Else), TokenView::Keyword(Keyword::If)];
        let w1 = write_expr(c, items[i].0);
        let nodes = write_nodes(c, items[i].1.0, items[i].1.1, 0);
        let w2 = wrap(Bracket::Brace, nodes);
        let rest = write_else_ifs(c, items, i + 1);
        lemma_stands_add(t, p, kws, w1 + (w2 + rest));
        lemma_stands_two(
            t,
            p,
            TokenView::Keyword(Keyword::Else),
            TokenView::Keyword(Keyword::If),
        );
        let p1 = p + 2;
        let p2 = p1 + w1.len();
        let p3 = p2 + w2.len();
        lemma_stands_add(t, p1, w1, w2 + rest);
        lemma_stands_add(t, p2, w2, rest);
        lemma_stands_wrap(t, p2, Bracket::Brace, nodes);
        lemma_expr(t, c, items[i].0, p1);
        lemma_alone(t, p1, items[i].0, p2);
        lemma_nodes_body(t, c, items[i].1.0, items[i].1.1, p2 + 1);
        lemma_block(t, p2, items[i].1, p3 - 1);
        lemma_else_ifs(t, c, items, i + 1, p3);
        lemma_branch(t, p, items, i, p2, p3, p3 + rest.len());
    } else {
        lemma_stands_in(t, p, write_else_ifs(c, items, i));
        lemma_no_branch(t, p, items);
    }
}

/// Expressions that were written in a list are read back.
proof fn lemma_exprs(t: Seq<TokenView>, c: bool, items: Seq<ExprView>, i: int, p: int)
    requires
        0 <= i <= items.len(),
        forall|j: int| 0 <= j < items.len() ==> shape::expr_shape(#[trigger] items[j]),
        stands(t, p, write_exprs(c, items, i)),
        laws::atom_ends(t, p + write_exprs(c, items, i).len()),
    ensures
        listed(t, c, grammar::exprs(t), items, i, p, p + write_exprs(c, items, i).len()),
    decreases items, items.len() - i,
{
    if i < items.len() {
        let w = write_expr(c, items[i]);
        let sep = comma(c, i, items.len());
        let rest = write_exprs(c, items, i + 1);
        lemma_stands_add(t, p, w, sep + rest);
        let q = p + w.len();
        lemma_stands_add(t, q, sep, rest);
        lemma_expr(t, c, items[i], p);
        if c || i + 1 < items.len() {
            lemma_stands_one(t, q, TokenView::Comma);
            lemma_exprs(t, c, items, i + 1, q + 1);
        }
        lemma_alone(t, p, items[i], q);
        reveal(reads_expr);
    }
}

/// A list of expressions, with a closing bracket behind it.
proof fn lemma_expr_list(t: Seq<TokenView>, c: bool, items: Seq<ExprView>, p: int)
    requires
        forall|j: int| 0 <= j < items.len() ==> shape::expr_shape(#[trigger] items[j]),
        stands(t, p, write_exprs(c, items, 0)),
        grammar::at(t, p + write_exprs(c, items, 0).len()) matches Some(x) && x is EndBracket,
    ensures
        reads_exprs(t, p, items, p + write_exprs(c, items, 0).len()),
    decreases items, items.len() + 1,
{
    let q = p + write_exprs(c, items, 0).len();
    let e = grammar::exprs(t);
    lemma_exprs(t, c, items, 0, p);
    lemma_stands_in(t, p, write_exprs(c, items, 0));
    reveal(reads_exprs);
    assert forall|r: int| #![trigger e(r)] p <= r <= t.len() implies (e(r) matches Some((_, s))
        ==> r < s <= t.len()) by {
        laws::expr_takes_a_token(t, r);
    }
    laws::expr_begins(t, q);
    lemma_listed(t, c, e, items, p, q);
}

/// Parameters that were written in a list are read back.
proof fn lemma_params(t: Seq<TokenView>, c: bool, params: Seq<ParamView>, i: int, p: int)
    requires
        0 <= i <= params.len(),
        forall|j: int| 0 <= j < params.len() ==> shape::param_shape(#[trigger] params[j]),
        stands(t, p, write_params(c, params, i)),
        grammar::at(t, p + write_params(c, params, i).len()) == Some(
            TokenView::EndBracket(Bracket::Paren),
        ),
    ensures
        listed(t, c, params_of(t), params, i, p, p + write_params(c, params, i).len()),
    decreases params, params.len() - i,
{
    if i < params.len() {
        let x = params[i];
        let w = write_param(c, x);
        let sep = comma(c, i, params.len());
        let rest = write_params(c, params, i + 1);
        lemma_stands_add(t, p, w, sep + rest);
        let q = p + w.len();
        lemma_stands_add(t, q, sep, rest);
        if c || i + 1 < params.len() {
            lemma_stands_one(t, q, TokenView::Comma);
            lemma_params(t, c, params, i + 1, q + 1);
        }
        lemma_param(t, c, params[i], p);
    }
}

/// A parameter, with a comma or a closing bracket behind it.
proof fn lemma_param(t: Seq<TokenView>, c: bool, x: ParamView, p: int)
    requires
        shape::param_shape(x),
        stands(t, p, write_param(c, x)),
        grammar::at(t, p + write_param(c, x).len()) matches Some(y) && (y is Comma
            || y is EndBracket),
    ensures
        params_of(t)(p) == Some((x, p + write_param(c, x).len())),
    decreases x, 0nat,
{
    let w1 = write_target(c, x.target);
    let q = p + w1.len();
    let r = p + write_param(c, x).len();
    match x.default {
        Some(e) => {
            let eq = seq![TokenView::Assign];
            let w2 = write_expr(c, e);
            lemma_stands_add(t, p, w1, eq + w2);
            lemma_stands_add(t, q, eq, w2);
            lemma_stands_one(t, q, TokenView::Assign);
            lemma_expr(t, c, e, q + 1);
            lemma_alone(t, q + 1, e, r);
            reveal(reads_expr);
        },
        None => {
            lemma_stands_add(t, p, w1, Seq::empty());
        },
    }
    lemma_plain_target(t, c, x.target, p);
}

/// A list of parameters, with a closing bracket behind it.
proof fn lemma_param_list(t: Seq<TokenView>, c: bool, params: Seq<ParamView>, p: int)
    requires
        forall|j: int| 0 <= j < params.len() ==> shape::param_shape(#[trigger] params[j]),
        stands(t, p, write_params(c, params, 0)),
        grammar::at(t, p + write_params(c, params, 0).len()) == Some(
            TokenView::EndBracket(Bracket::Paren),
        ),
    ensures
        reads_params(t, p, params, p + write_params(c, params, 0).len()),
    decreases params, params.len() + 1,
{
    let q = p + write_params(c, params, 0).len();
    let a = params_of(t);
    lemma_params(t, c, params, 0, p);
    lemma_stands_in(t, p, write_params(c, params, 0));
    reveal(reads_params);
    assert forall|r: int| #![trigger a(r)] p <= r <= t.len() implies (a(r) matches Some((_, s))
        ==> r < s <= t.len()) by {
        nesting::lemma_parameter(t, r);
    }
    assert(a(q) is None);
    lemma_listed(t, c, a, params, p, q);
}

/// A statement that was written is read back.
proof fn lemma_node(t: Seq<TokenView>, c: bool, x: NodeView, p: int)
    requires
        shape::node_shape(x),
        stands(t, p, write_node(c, x)),
    ensures
        reads_node(t, p, x, p + write_node(c, x).len()),
        write_node(c, x).len() > 0,
    decreases x, 0nat,
{
    match x {
        NodeView::Func { name, params, body, return_last } => {
            let head = seq![TokenView::Keyword(Keyword::Func), TokenView::Identifier(name)];
            let w1 = write_params(c, params, 0);
            let w2 = write_nodes(c, body, return_last, 0);
            lemma_stands_add(
                t,
                p,
                head,
                wrap(Bracket::Paren, w1) + wrap(Bracket::Brace, w2),
            );
            lemma_stands_two(
                t,
                p,
                TokenView::Keyword(Keyword::Func),
                TokenView::Identifier(name),
            );
            lemma_stands_add(t, p + 2, wrap(Bracket::Paren, w1), wrap(Bracket::Brace, w2));
            lemma_stands_wrap(t, p + 2, Bracket::Paren, w1);
            let q = p + 3 + w1.len();
            lemma_stands_wrap(t, q + 1, Bracket::Brace, w2);
            let r = q + 2 + w2.len();
            lemma_param_list(t, c, params, p + 3);
            lemma_nodes_body(t, c, body, return_last, q + 2);
            lemma_block(t, q + 1, BodyView(body, return_last), r);
            lemma_func(t, p, name, params, q, BodyView(body, return_last), r + 1);
        },
        NodeView::Expr(e) => {
            let w = write_expr(c, e);
            lemma_stands_add(t, p, w, seq![TokenView::Semicolon]);
            lemma_stands_one(t, p + w.len(), TokenView::Semicolon);
            lemma_expr(t, c, e, p);
            lemma_expr_statement(t, p, e, p + w.len());
        },
        NodeView::Assign { targets, value, let_, immut, const_ } => {
            let head = write_head(c, let_, immut, targets);
            let v = write_expr(c, value);
            let end = seq![TokenView::Semicolon];
            lemma_stands_add(t, p, head, v + end);
            let q = p + head.len();
            lemma_stands_add(t, q, v, end);
            let r = q + v.len();
            lemma_stands_one(t, r, TokenView::Semicolon);
            lemma_expr(t, c, value, q);
            lemma_alone(t, q, value, r);
            lemma_assign(t, c, let_, immut, targets, p, q, value, r);
        },
        NodeView::Require(names) => {
            lemma_require(t, c, names, p);
        },
        NodeView::Module(_) | NodeView::Return(_) => {},
    }
}

/// Statements that were written are read back.
proof fn lemma_nodes(
    t: Seq<TokenView>,
    c: bool,
    nodes: Seq<NodeView>,
    return_last: bool,
    i: int,
    p: int,
)
    requires
        0 <= i <= nodes.len(),
        forall|j: int| 0 <= j < nodes.len() ==> shape::node_shape(#[trigger] nodes[j]),
        return_last ==> i < nodes.len() && shape::ends_in_value(nodes),
        stands(t, p, write_nodes(c, nodes, return_last, i)),
        body_ends(t, p + write_nodes(c, nodes, return_last, i).len()),
    ensures
        reads_nodes(
            t,
            p,
            nodes,
            return_last,
            i,
            p + write_nodes(c, nodes, return_last, i).len(),
        ),
    decreases nodes, nodes.len() - i,
{
    let end = p + write_nodes(c, nodes, return_last, i).len();
    if i == nodes.len() {
        lemma_stands_in(t, p, write_nodes(c, nodes, return_last, i));
        lemma_no_statement(t, nodes, p);
    } else if return_last && i + 1 == nodes.len() {
        match nodes[i] {
            NodeView::Expr(e) => {
                lemma_expr(t, c, e, p);
                lemma_last_value(t, nodes, p, e, end);
            },
            _ => {},
        }
    } else {
        let w = write_node(c, nodes[i]);
        lemma_stands_add(t, p, w, write_nodes(c, nodes, return_last, i + 1));
        lemma_node(t, c, nodes[i], p);
        lemma_nodes(t, c, nodes, return_last, i + 1, p + w.len());
        lemma_statement(t, nodes, return_last, i, p, p + w.len(), end);
    }
}

/// A body that was written is read back.
proof fn lemma_nodes_body(
    t: Seq<TokenView>,
    c: bool,
    nodes: Seq<NodeView>,
    return_last: bool,
    p: int,
)
    requires
        forall|j: int| 0 <= j < nodes.len() ==> shape::node_shape(#[trigger] nodes[j]),
        return_last ==> shape::ends_in_value(nodes),
        stands(t, p, write_nodes(c, nodes, return_last, 0)),
        body_ends(t, p + write_nodes(c, nodes, return_last, 0).len()),
    ensures
        reads_body(
            t,
            p,
            BodyView(nodes, return_last),
            p + write_nodes(c, nodes, return_last, 0).len(),
        ),
    decreases nodes, nodes.len() + 1,
{
    let w = write_nodes(c, nodes, return_last, 0);
    lemma_stands_in(t, p, w);
    lemma_nodes(t, c, nodes, return_last, 0, p);
    lemma_whole_body(t, nodes, return_last, p, p + w.len());
}

// ----------------------------------------------------------------------------------------------
// What was written comes back.
// ----------------------------------------------------------------------------------------------

/// An expression that was written is read as it was, wherever it stands, unless what is behind it
/// prolongs it.
pub proof fn written_expr_is_read(t: Seq<TokenView>, c: bool, x: ExprView, p: int)
    requires
        shape::expr_shape(x),
        stands(t, p, write_expr(c, x)),
        laws::atom_ends(t, p + write_expr(c, x).len()),
    ensures
        grammar::expr_at(t, p) == Some((x, p + write_expr(c, x).len())),
{
    lemma_expr(t, c, x, p);
    lemma_alone(t, p, x, p + write_expr(c, x).len());
    reveal(reads_expr);
}

/// A body that was written is read as it was, wherever it stands with a closing brace or nothing
/// behind it.
pub proof fn written_body_is_read(t: Seq<TokenView>, c: bool, x: BodyView, p: int)
    requires
        shape::body_shape(x),
        stands(t, p, write_body(c, x)),
        body_ends(t, p + write_body(c, x).len()),
    ensures
        grammar::body_at(t, p) == Some((x, p + write_body(c, x).len())),
{
    lemma_nodes_body(t, c, x.0, x.1, p);
    reveal(reads_body);
}

pub proof fn lemma_stands_whole(t: Seq<TokenView>, w: Seq<TokenView>)
    requires
        w.len() <= t.len(),
        w == t.take(w.len() as int),
    ensures
        stands(t, 0, w),
{
    reveal(stands);
    assert forall|i: int| 0 <= i < w.len() implies t[0 + i] == #[trigger] w[i] by {
        assert(t.take(w.len() as int)[i] == t[i]);
    }
}

proof fn lemma_last_token(c: bool, x: ExprView)
    ensures
        write_expr(c, x).len() > 0,
        write_expr(c, x).last() != TokenView::Semicolon,
{
}

proof fn lemma_atom_comes_back(w: Seq<TokenView>, x: ExprView)
    requires
        w.len() > 0,
        w.last() != TokenView::Semicolon,
        reads_atom(w.push(TokenView::Semicolon), 0, x, w.len() as int),
    ensures
        Expr::readable(w),
        Expr::tree(w) == x,
{
    let t = w.push(TokenView::Semicolon);
    reveal(reads_atom);
    lemma_no_other_statement(t, 0, x, w.len() as int);
    laws::atom_alone(t, 0, x, w.len() as int);
    laws::expr_is_what_stands_first(w);
}

/// Every expression of the right shape comes back from the tokens that it was written in, with or
/// without commas at the end of its lists.
pub proof fn expr_comes_back(c: bool, x: ExprView)
    requires
        shape::expr_shape(x),
    ensures
        Expr::readable(write_expr(c, x)),
        Expr::tree(write_expr(c, x)) == x,
{
    let w = write_expr(c, x);
    let t = w.push(TokenView::Semicolon);
    assert(t.take(w.len() as int) =~= w);
    lemma_stands_whole(t, w);
    lemma_expr(t, c, x, 0);
    lemma_last_token(c, x);
    lemma_atom_comes_back(w, x);
}

/// Every body of the right shape comes back from the tokens that it was written in, with or
/// without commas at the end of its lists.
pub proof fn body_comes_back(c: bool, x: BodyView)
    requires
        shape::body_shape(x),
    ensures
        Body::tree(write_body(c, x)) == x,
{
    let w = write_body(c, x);
    assert(w.take(w.len() as int) =~= w);
    lemma_stands_whole(w, w);
    written_body_is_read(w, c, x, 0);
}

/// The expressions that can be read are those of the right shape, and no others.
pub proof fn exprs_are_those_of_the_shape(x: ExprView)
    ensures
        shape::expr_shape(x) <==> exists|t: Seq<TokenView>|
            Expr::readable(t) && #[trigger] Expr::tree(t) == x,
{
    if shape::expr_shape(x) {
        expr_comes_back(false, x);
        assert(Expr::tree(write_expr(false, x)) == x);
    }
    if exists|t: Seq<TokenView>| Expr::readable(t) && #[trigger] Expr::tree(t) == x {
        let t = choose|t: Seq<TokenView>| Expr::readable(t) && #[trigger] Expr::tree(t) == x;
        laws::expr_is_what_stands_first(t);
        laws::expr_has_its_shape(ast::closed_off(t), 0);
    }
}

/// The bodies that can be read are those of the right shape, and no others.
pub proof fn bodies_are_those_of_the_shape(x: BodyView)
    ensures
        shape::body_shape(x) <==> exists|t: Seq<TokenView>| #[trigger] Body::tree(t) == x,
{
    if shape::body_shape(x) {
        body_comes_back(false, x);
        assert(Body::tree(write_body(false, x)) == x);
    }
    if exists|t: Seq<TokenView>| #[trigger] Body::tree(t) == x {
        let t = choose|t: Seq<TokenView>| #[trigger] Body::tree(t) == x;
        laws::body_has_its_shape(t, 0);
    }
}

} // verus!
