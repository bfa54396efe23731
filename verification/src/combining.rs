//! Expressions that are put together from others: what tokens are read as, wherever they stand,
//! from what their parts are read as.

use crate::ast::{Expr, ExprView, ParseInterface};
use crate::derivation;
use crate::grammar;
use crate::joining;
use crate::laws;
use crate::token::{Bracket, LiteralView, Operator, TokenView};
use crate::writing;
use vstd::prelude::*;

verus! {

/// The token here is neither a dot nor an opening parenthesis.
pub open spec fn unprolonged(s: Seq<TokenView>, p: int) -> bool {
    &&& !derivation::sees(s, p, TokenView::Dot)
    &&& !derivation::sees(s, p, TokenView::StartBracket(Bracket::Paren))
}

/// The token here is no operator of a rank from one to `k`.
pub open spec fn unjoined(s: Seq<TokenView>, k: nat, p: int) -> bool {
    0 <= p < s.len() ==> (s[p] matches TokenView::Operator(op) ==> derivation::rank(op) == 0
        || derivation::rank(op) > k)
}

/// The expression that one token is.
pub open spec fn leaf(w: TokenView) -> Option<ExprView> {
    match w {
        TokenView::Literal(LiteralView::Integer(n)) => Some(ExprView::Integer(n)),
        TokenView::Literal(LiteralView::Float(s)) => Some(ExprView::Float(s)),
        TokenView::Literal(LiteralView::String(s)) => Some(ExprView::String(s)),
        TokenView::Identifier(name) => Some(
            if name == seq!['t', 'r', 'u', 'e'] {
                ExprView::Bool(true)
            } else if name == seq!['f', 'a', 'l', 's', 'e'] {
                ExprView::Bool(false)
            } else {
                ExprView::Ident(name)
            },
        ),
        _ => None,
    }
}

/// Tokens that are one expression whatever stands round them: a literal, a name, or one expression
/// in parentheses.
pub open spec fn is_closed(w: Seq<TokenView>, x: ExprView) -> bool {
    ||| w.len() == 1 && leaf(w[0]) == Some(x)
    ||| exists|e: Seq<TokenView>|
        w == #[trigger] writing::wrap(Bracket::Paren, e) && joining::is_expr(e, x)
}

/// Wherever they stand, closed tokens are an atom.
proof fn lemma_closed(w: Seq<TokenView>, x: ExprView, s: Seq<TokenView>, p: int)
    requires
        is_closed(w, x),
        writing::stands(s, p, w),
    ensures
        laws::atoms(s)(p) == Some((x, p + w.len())),
        0 <= p < s.len(),
        w.len() > 0,
{
    writing::lemma_stands_in(s, p, w);
    if w.len() == 1 && leaf(w[0]) == Some(x) {
        assert(w =~= seq![w[0]]);
        writing::lemma_stands_one(s, p, w[0]);
        match w[0] {
            TokenView::Literal(l) => {
                derivation::literal_is_atom(s, p, l);
            },
            TokenView::Identifier(name) => {
                derivation::name_is_atom(s, p, name);
            },
            _ => {},
        }
    } else {
        let e = choose|e: Seq<TokenView>|
            w == #[trigger] writing::wrap(Bracket::Paren, e) && joining::is_expr(e, x);
        writing::lemma_stands_wrap(s, p, Bracket::Paren, e);
        joining::expr_is_read_within(e, x, s, p + 1);
        derivation::parenthesized_is_atom(s, p);
    }
}

/// Tokens that are one operand wherever they stand, unless what is behind prolongs it.
pub open spec fn is_operand(w: Seq<TokenView>, x: ExprView) -> bool {
    forall|s: Seq<TokenView>, p: int| #[trigger]
        writing::stands(s, p, w) && unprolonged(s, p + w.len()) ==> derivation::operands(s)(p)
            == Some((x, p + w.len()))
}

/// Names, a dot before each.
pub open spec fn dots(names: Seq<Seq<char>>) -> Seq<TokenView>
    decreases names.len(),
{
    if names.len() == 0 {
        Seq::empty()
    } else {
        dots(names.drop_last()) + seq![TokenView::Dot, TokenView::Identifier(names.last())]
    }
}

proof fn lemma_dots(s: Seq<TokenView>, p: int, names: Seq<Seq<char>>)
    requires
        writing::stands(s, p, dots(names)),
    ensures
        derivation::dotted_at(s, names, p),
        dots(names).len() == 2 * names.len(),
    decreases names.len(),
{
    if names.len() > 0 {
        let rest = names.drop_last();
        let two = seq![TokenView::Dot, TokenView::Identifier(names.last())];
        writing::lemma_stands_add(s, p, dots(rest), two);
        lemma_dots(s, p, rest);
        let q = p + 2 * rest.len();
        writing::lemma_stands_two(s, q, TokenView::Dot, TokenView::Identifier(names.last()));
        assert forall|i: int| 0 <= i < names.len() implies derivation::dot_name_at(
            s,
            p + 2 * i,
            #[trigger] names[i],
        ) by {
            if i < rest.len() {
                assert(rest[i] == names[i]);
            }
        }
    }
}

/// Closed tokens with any number of dotted names behind them, read in one place.
proof fn lemma_postfix(
    w: Seq<TokenView>,
    x: ExprView,
    names: Seq<Seq<char>>,
    s: Seq<TokenView>,
    p: int,
)
    requires
        is_closed(w, x),
        writing::stands(s, p, w + dots(names)),
        !derivation::sees(s, p + w.len() + dots(names).len(), TokenView::Dot),
    ensures
        derivation::attrs(s)(p) == Some(
            (derivation::attribute_of(x, names), p + w.len() + dots(names).len()),
        ),
{
    writing::lemma_stands_add(s, p, w, dots(names));
    lemma_closed(w, x, s, p);
    lemma_dots(s, p + w.len(), names);
    derivation::dotted_names_are_attributes(s, p, x, p + w.len(), names);
}

/// Closed tokens with any number of dotted names behind them are the attribute of an attribute and
/// so on, with all the names.
pub proof fn attribute_is_operand(w: Seq<TokenView>, x: ExprView, names: Seq<Seq<char>>)
    requires
        is_closed(w, x),
    ensures
        is_operand(w + dots(names), derivation::attribute_of(x, names)),
{
    let v = w + dots(names);
    let y = derivation::attribute_of(x, names);
    assert forall|s: Seq<TokenView>, p: int| #[trigger]
        writing::stands(s, p, v) && unprolonged(s, p + v.len()) implies derivation::operands(s)(p)
        == Some((y, p + v.len())) by {
        lemma_postfix(w, x, names, s, p);
        derivation::uncalled_is_itself(s, p, y, p + v.len());
        derivation::call_is_operand(s, p, y, p + v.len());
    }
}

/// Each dotted name makes an attribute of all that stands before it.
pub proof fn last_name_is_outermost(x: ExprView, names: Seq<Seq<char>>, name: Seq<char>)
    ensures
        derivation::attribute_of(x, names.push(name)) == ExprView::Attr(
            Box::new(derivation::attribute_of(x, names)),
            name,
        ),
        derivation::attribute_of(x, Seq::empty()) == x,
        dots(names.push(name)) == dots(names) + seq![
            TokenView::Dot,
            TokenView::Identifier(name),
        ],
{
    assert(names.push(name).drop_last() =~= names);
}

/// Closed tokens with any number of dotted names behind them, and items in parentheses behind
/// that, are a call of the attribute with just these arguments in their order.
pub proof fn call_is_operand(
    w: Seq<TokenView>,
    x: ExprView,
    names: Seq<Seq<char>>,
    c: bool,
    items: Seq<Seq<TokenView>>,
    args: Seq<ExprView>,
)
    requires
        is_closed(w, x),
        joining::are_exprs(items, args),
    ensures
        is_operand(
            (w + dots(names)) + writing::wrap(Bracket::Paren, joining::joined(c, items, 0)),
            ExprView::Call {
                value: Box::new(derivation::attribute_of(x, names)),
                args,
                kwargs: Seq::empty(),
            },
        ),
{
    let v = w + dots(names);
    let list = joining::joined(c, items, 0);
    let u = v + writing::wrap(Bracket::Paren, list);
    let value = derivation::attribute_of(x, names);
    let y = ExprView::Call { value: Box::new(value), args, kwargs: Seq::empty() };
    assert forall|s: Seq<TokenView>, p: int| #[trigger]
        writing::stands(s, p, u) && unprolonged(s, p + u.len()) implies derivation::operands(s)(p)
        == Some((y, p + u.len())) by {
        let q = p + v.len();
        writing::lemma_stands_add(s, p, v, writing::wrap(Bracket::Paren, list));
        writing::lemma_stands_wrap(s, q, Bracket::Paren, list);
        writing::lemma_stands_in(s, q + 1, list);
        lemma_postfix(w, x, names, s, p);
        joining::lemma_joined(s, c, items, args, 0, q + 1);
        let r = q + 1 + list.len();
        derivation::called_with_items(s, p, value, q, c, args, r);
        derivation::call_is_operand(s, p, y, r + 1);
    }
}

/// A prefix operator before an operand applies to all of it.
pub proof fn prefixed_is_operand(op: Operator, w: Seq<TokenView>, x: ExprView)
    requires
        op is Sub || op is Add || op is Not || op is BitNot,
        is_operand(w, x),
    ensures
        is_operand(
            seq![TokenView::Operator(op)] + w,
            ExprView::UnaryExpr { operator: op, value: Box::new(x) },
        ),
{
    let u = seq![TokenView::Operator(op)] + w;
    let y = ExprView::UnaryExpr { operator: op, value: Box::new(x) };
    assert forall|s: Seq<TokenView>, p: int| #[trigger]
        writing::stands(s, p, u) && unprolonged(s, p + u.len()) implies derivation::operands(s)(p)
        == Some((y, p + u.len())) by {
        writing::lemma_stands_add(s, p, seq![TokenView::Operator(op)], w);
        writing::lemma_stands_one(s, p, TokenView::Operator(op));
        assert(writing::stands(s, p + 1, w));
        derivation::prefix_is_operand(s, p, op, x, p + u.len());
    }
}

// ----------------------------------------------------------------------------------------------
// Operators between operands.
// ----------------------------------------------------------------------------------------------

/// From `p` to `q` stand an operand of the rank below and operators of rank `k` with their right
/// operands, which make the given tree.
pub open spec fn chain_at(s: Seq<TokenView>, k: nat, p: int, x: ExprView, q: int) -> bool {
    exists|first: ExprView, m: int, links: Seq<(Operator, ExprView)>| #[trigger]
        chain_with(s, k, p, first, m, links, x, q)
}

/// The same, with its parts.
pub open spec fn chain_with(
    s: Seq<TokenView>,
    k: nat,
    p: int,
    first: ExprView,
    m: int,
    links: Seq<(Operator, ExprView)>,
    x: ExprView,
    q: int,
) -> bool {
    &&& derivation::of_rank(s, (k - 1) as nat)(p) == Some((first, m))
    &&& derivation::links_at(s, k, links, 0, m, q)
    &&& x == derivation::joined_left(first, links)
}

/// Tokens that are one expression with operators of rank `k` at most, wherever they stand, unless
/// what is behind prolongs it or is an operator of a lower rank.
pub open spec fn is_ranked(w: Seq<TokenView>, k: nat, x: ExprView) -> bool {
    forall|s: Seq<TokenView>, p: int| #[trigger]
        writing::stands(s, p, w) && unprolonged(s, p + w.len()) && unjoined(
            s,
            (k - 1) as nat,
            p + w.len(),
        ) ==> chain_at(s, k, p, x, p + w.len())
}

/// A chain that no further operator of its rank prolongs is what is read.
proof fn lemma_chain_ends(s: Seq<TokenView>, k: nat, p: int, x: ExprView, q: int)
    requires
        k > 0,
        chain_at(s, k, p, x, q),
        unjoined(s, k, q),
    ensures
        derivation::of_rank(s, k)(p) == Some((x, q)),
{
    let (first, m, links) = choose|first: ExprView, m: int, links: Seq<(Operator, ExprView)>|
        #[trigger]
        chain_with(s, k, p, first, m, links, x, q);
    derivation::operators_join_from_the_left(s, k, p, first, m, links, q);
}

proof fn lemma_no_links(s: Seq<TokenView>, k: nat, p: int, x: ExprView, q: int)
    requires
        k > 0,
        derivation::of_rank(s, (k - 1) as nat)(p) == Some((x, q)),
    ensures
        chain_at(s, k, p, x, q),
{
    let links = Seq::<(Operator, ExprView)>::empty();
    assert(derivation::joined_left(x, links) == x);
    assert(chain_with(s, k, p, x, q, links, x, q));
}

/// An operand is an expression with operators of the lowest rank at most.
pub proof fn operand_is_ranked(w: Seq<TokenView>, x: ExprView)
    requires
        is_operand(w, x),
    ensures
        is_ranked(w, 1, x),
{
    assert forall|s: Seq<TokenView>, p: int| #[trigger]
        writing::stands(s, p, w) && unprolonged(s, p + w.len()) && unjoined(
            s,
            0,
            p + w.len(),
        ) implies chain_at(s, 1, p, x, p + w.len()) by {
        derivation::lowest_rank_is_operand(s, p);
        lemma_no_links(s, 1, p, x, p + w.len());
    }
}

/// What has operators of one rank at most has operators of the next rank at most.
pub proof fn ranked_is_ranked_higher(w: Seq<TokenView>, k: nat, x: ExprView)
    requires
        k > 0,
        is_ranked(w, k, x),
    ensures
        is_ranked(w, k + 1, x),
{
    assert forall|s: Seq<TokenView>, p: int| #[trigger]
        writing::stands(s, p, w) && unprolonged(s, p + w.len()) && unjoined(
            s,
            k,
            p + w.len(),
        ) implies chain_at(s, k + 1, p, x, p + w.len()) by {
        lemma_chain_ends(s, k, p, x, p + w.len());
        lemma_no_links(s, k + 1, p, x, p + w.len());
    }
}

/// One more operator with its operand.
proof fn lemma_links_push(
    t: Seq<TokenView>,
    k: nat,
    links: Seq<(Operator, ExprView)>,
    i: int,
    p: int,
    q: int,
    op: Operator,
    y: ExprView,
    r: int,
)
    requires
        0 <= i <= links.len(),
        derivation::links_at(t, k, links, i, p, q),
        derivation::sees(t, q, TokenView::Operator(op)),
        derivation::rank(op) == k,
        derivation::of_rank(t, (k - 1) as nat)(q + 1) == Some((y, r)),
    ensures
        derivation::links_at(t, k, links.push((op, y)), i, p, r),
    decreases links.len() - i,
{
    let more = links.push((op, y));
    if i < links.len() {
        assert(more[i] == links[i]);
        let (_, m) = derivation::of_rank(t, (k - 1) as nat)(p + 1)->0;
        lemma_links_push(t, k, links, i + 1, m, q, op, y, r);
    } else {
        assert(more[i] == (op, y));
        assert(derivation::links_at(t, k, more, i + 1, r, r));
    }
}

/// An operator of rank `k` between what has operators of that rank at most, on its left, and what
/// has only operators of lower ranks, on its right, joins them: so it takes all of its left side,
/// however many operators are there.
pub proof fn operator_takes_its_left_side(
    k: nat,
    a: Seq<TokenView>,
    x: ExprView,
    op: Operator,
    b: Seq<TokenView>,
    y: ExprView,
)
    requires
        k > 0,
        derivation::rank(op) == k,
        is_ranked(a, k, x),
        k == 1 ==> is_operand(b, y),
        k > 1 ==> is_ranked(b, (k - 1) as nat, y),
    ensures
        is_ranked(
            a + (seq![TokenView::Operator(op)] + b),
            k,
            ExprView::BinaryExpr { operator: op, lhs: Box::new(x), rhs: Box::new(y) },
        ),
{
    let o = seq![TokenView::Operator(op)];
    let u = a + (o + b);
    let z = ExprView::BinaryExpr { operator: op, lhs: Box::new(x), rhs: Box::new(y) };
    let low = (k - 1) as nat;
    assert forall|s: Seq<TokenView>, p: int| #[trigger]
        writing::stands(s, p, u) && unprolonged(s, p + u.len()) && unjoined(
            s,
            low,
            p + u.len(),
        ) implies chain_at(s, k, p, z, p + u.len()) by {
        let q = p + a.len();
        let r = p + u.len();
        writing::lemma_stands_add(s, p, a, o + b);
        writing::lemma_stands_add(s, q, o, b);
        writing::lemma_stands_one(s, q, TokenView::Operator(op));
        assert(writing::stands(s, p, a));
        assert(unprolonged(s, q));
        assert(unjoined(s, low, q));
        assert(chain_at(s, k, p, x, q));
        assert(writing::stands(s, q + 1, b));
        if k == 1 {
            derivation::lowest_rank_is_operand(s, q + 1);
        } else {
            assert(unjoined(s, (low - 1) as nat, r));
            assert(chain_at(s, low, q + 1, y, r));
            lemma_chain_ends(s, low, q + 1, y, r);
        }
        assert(derivation::of_rank(s, low)(q + 1) == Some((y, r)));
        let (first, m, links) = choose|
            first: ExprView,
            m: int,
            links: Seq<(Operator, ExprView)>,
        | #[trigger]
            chain_with(s, k, p, first, m, links, x, q);
        lemma_links_push(s, k, links, 0, m, q, op, y, r);
        let more = links.push((op, y));
        assert(more.drop_last() =~= links);
        assert(derivation::joined_left(first, more) == z);
        assert(chain_with(s, k, p, first, m, more, z, r));
    }
}

/// What has operators of any rank is an expression, on its own and wherever it stands with
/// something behind it that does not prolong it; and it is read from just these tokens.
pub proof fn ranked_is_expr(w: Seq<TokenView>, x: ExprView)
    requires
        is_ranked(w, 7, x),
    ensures
        joining::is_expr(w, x),
        Expr::readable(w),
        Expr::tree(w) == x,
        forall|s: Seq<TokenView>, p: int| #[trigger]
            writing::stands(s, p, w) && unprolonged(s, p + w.len()) && unjoined(s, 7, p + w.len())
                ==> grammar::expr_at(s, p) == Some((x, p + w.len())),
{
    assert forall|s: Seq<TokenView>, p: int| #[trigger]
        writing::stands(s, p, w) && unprolonged(s, p + w.len()) && unjoined(
            s,
            7,
            p + w.len(),
        ) implies grammar::expr_at(s, p) == Some((x, p + w.len())) by {
        writing::lemma_stands_in(s, p, w);
        assert(unjoined(s, 6, p + w.len()));
        assert(chain_at(s, 7, p, x, p + w.len()));
        lemma_chain_ends(s, 7, p, x, p + w.len());
        derivation::highest_rank_is_expr(s, p);
    }
    assert(w.take(w.len() as int) =~= w);
    writing::lemma_stands_whole(w, w);
    assert(unprolonged(w, w.len() as int));
    assert(unjoined(w, 7, w.len() as int));
    joining::whole_expr_is_read(w, x);
}

/// An operand is an expression, and it is read from just its tokens.
pub proof fn operand_is_expr(w: Seq<TokenView>, x: ExprView)
    requires
        is_operand(w, x),
    ensures
        is_ranked(w, 7, x),
        joining::is_expr(w, x),
        Expr::readable(w),
        Expr::tree(w) == x,
{
    operand_is_ranked(w, x);
    ranked_is_ranked_higher(w, 1, x);
    ranked_is_ranked_higher(w, 2, x);
    ranked_is_ranked_higher(w, 3, x);
    ranked_is_ranked_higher(w, 4, x);
    ranked_is_ranked_higher(w, 5, x);
    ranked_is_ranked_higher(w, 6, x);
    ranked_is_expr(w, x);
}

/// What has operators of one rank at most has operators of any higher rank at most.
proof fn lemma_ranked_up(w: Seq<TokenView>, j: nat, k: nat, x: ExprView)
    requires
        0 < j <= k,
        is_ranked(w, j, x),
    ensures
        is_ranked(w, k, x),
    decreases k - j,
{
    if j < k {
        ranked_is_ranked_higher(w, j, x);
        lemma_ranked_up(w, j + 1, k, x);
    }
}

/// The first tokens, and each operator with the tokens behind it.
pub open spec fn spread(
    first: Seq<TokenView>,
    ops: Seq<Operator>,
    rest: Seq<Seq<TokenView>>,
) -> Seq<TokenView>
    decreases ops.len(),
{
    if ops.len() == 0 {
        first
    } else {
        spread(first, ops.drop_last(), rest.drop_last()) + (seq![TokenView::Operator(ops.last())]
            + rest.last())
    }
}

/// The operators with the trees behind them.
pub open spec fn links_of(ops: Seq<Operator>, ys: Seq<ExprView>) -> Seq<(Operator, ExprView)> {
    Seq::new(ops.len(), |i: int| (ops[i], ys[i]))
}

/// Any number of operands with operators of one rank between them are joined from the left, all of
/// them, and the tree is read from just these tokens.
pub proof fn operators_of_one_rank_join(
    k: nat,
    first: Seq<TokenView>,
    x: ExprView,
    ops: Seq<Operator>,
    rest: Seq<Seq<TokenView>>,
    ys: Seq<ExprView>,
)
    requires
        0 < k <= 7,
        is_operand(first, x),
        ops.len() == rest.len() == ys.len(),
        forall|i: int| 0 <= i < ops.len() ==> derivation::rank(#[trigger] ops[i]) == k,
        forall|i: int| 0 <= i < rest.len() ==> is_operand(#[trigger] rest[i], ys[i]),
    ensures
        is_ranked(spread(first, ops, rest), k, derivation::joined_left(x, links_of(ops, ys))),
        Expr::readable(spread(first, ops, rest)),
        Expr::tree(spread(first, ops, rest)) == derivation::joined_left(x, links_of(ops, ys)),
{
    lemma_one_rank(k, first, x, ops, rest, ys);
    let w = spread(first, ops, rest);
    let z = derivation::joined_left(x, links_of(ops, ys));
    lemma_ranked_up(w, k, 7, z);
    ranked_is_expr(w, z);
}

proof fn lemma_one_rank(
    k: nat,
    first: Seq<TokenView>,
    x: ExprView,
    ops: Seq<Operator>,
    rest: Seq<Seq<TokenView>>,
    ys: Seq<ExprView>,
)
    requires
        k > 0,
        is_operand(first, x),
        ops.len() == rest.len() == ys.len(),
        forall|i: int| 0 <= i < ops.len() ==> derivation::rank(#[trigger] ops[i]) == k,
        forall|i: int| 0 <= i < rest.len() ==> is_operand(#[trigger] rest[i], ys[i]),
    ensures
        is_ranked(spread(first, ops, rest), k, derivation::joined_left(x, links_of(ops, ys))),
    decreases ops.len(),
{
    let links = links_of(ops, ys);
    if ops.len() == 0 {
        assert(links =~= Seq::empty());
        operand_is_ranked(first, x);
        lemma_ranked_up(first, 1, k, x);
    } else {
        let n = ops.len() - 1;
        let ops0 = ops.drop_last();
        let rest0 = rest.drop_last();
        let ys0 = ys.drop_last();
        assert forall|i: int| 0 <= i < ops0.len() implies derivation::rank(#[trigger] ops0[i])
            == k by {
            assert(ops0[i] == ops[i]);
        }
        assert forall|i: int| 0 <= i < rest0.len() implies is_operand(
            #[trigger] rest0[i],
            ys0[i],
        ) by {
            assert(rest0[i] == rest[i]);
        }
        lemma_one_rank(k, first, x, ops0, rest0, ys0);
        let a = spread(first, ops0, rest0);
        let z = derivation::joined_left(x, links_of(ops0, ys0));
        assert(links.drop_last() =~= links_of(ops0, ys0));
        assert(links.last() == (ops[n], ys[n]));
        assert(is_operand(rest[n], ys[n]));
        assert(derivation::rank(ops[n]) == k);
        if k > 1 {
            operand_is_ranked(rest[n], ys[n]);
            lemma_ranked_up(rest[n], 1, (k - 1) as nat, ys[n]);
        }
        operator_takes_its_left_side(k, a, z, ops[n], rest[n], ys[n]);
    }
}

} // verus!
