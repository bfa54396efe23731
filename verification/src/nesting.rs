//! How the rules of the grammar hang together: a rule looks at what is nested in it only behind
//! the place where it begins, so it may be read with the unrestricted rules for what is nested.

use crate::ast::{BodyView, ExprView, NodeView, ParamView, TargetView};
use crate::grammar;
use crate::grammar::Rule;
use crate::shape;
use crate::token::{Bracket, Keyword, Operator, TokenView};
use vstd::prelude::*;

verus! {

/// From `f` to `n` two rules give the same, take at least `k` tokens, do not leave the sequence
/// of `n` tokens, and give trees that satisfy `ok`.
pub open spec fn agree<A>(
    n: int,
    a1: Rule<A>,
    a2: Rule<A>,
    f: int,
    k: int,
    ok: spec_fn(A) -> bool,
) -> bool {
    forall|p: int|
        #![trigger a1(p)]
        #![trigger a2(p)]
        f <= p <= n ==> {
            &&& a1(p) == a2(p)
            &&& a1(p) matches Some((x, q)) ==> p + k <= q <= n && ok(x)
        }
}

/// Any tree.
pub open spec fn any_tree<A>() -> spec_fn(A) -> bool {
    |x: A| true
}

/// Both trees of a pair.
pub open spec fn pair_of<A, B>(oka: spec_fn(A) -> bool, okb: spec_fn(B) -> bool) -> spec_fn(
    (A, B),
) -> bool {
    |x: (A, B)| oka(x.0) && okb(x.1)
}

/// All trees of a sequence.
pub open spec fn all_of<A>(ok: spec_fn(A) -> bool) -> spec_fn(Seq<A>) -> bool {
    |xs: Seq<A>| forall|i: int| 0 <= i < xs.len() ==> ok(#[trigger] xs[i])
}

/// All trees of a sequence, which has one.
pub open spec fn some_of<A>(ok: spec_fn(A) -> bool) -> spec_fn(Seq<A>) -> bool {
    |xs: Seq<A>| xs.len() >= 1 && forall|i: int| 0 <= i < xs.len() ==> ok(#[trigger] xs[i])
}

/// The tree, if there is one.
pub open spec fn option_of<A>(ok: spec_fn(A) -> bool) -> spec_fn(Option<A>) -> bool {
    |x: Option<A>|
        match x {
            Some(y) => ok(y),
            None => true,
        }
}

pub open spec fn exprs_ok() -> spec_fn(ExprView) -> bool {
    |x: ExprView| shape::expr_shape(x)
}

pub open spec fn bodies_ok() -> spec_fn(BodyView) -> bool {
    |x: BodyView| shape::body_shape(x)
}

pub open spec fn nodes_ok() -> spec_fn(NodeView) -> bool {
    |x: NodeView| shape::node_shape(x)
}

pub open spec fn params_ok() -> spec_fn(ParamView) -> bool {
    |x: ParamView| shape::param_shape(x)
}

// ----------------------------------------------------------------------------------------------
// Rules made of rules.
// ----------------------------------------------------------------------------------------------

proof fn lemma_both<A, B>(
    n: int,
    a1: Rule<A>,
    a2: Rule<A>,
    b1: Rule<B>,
    b2: Rule<B>,
    f: int,
    k: int,
    l: int,
    oka: spec_fn(A) -> bool,
    okb: spec_fn(B) -> bool,
)
    requires
        agree(n, a1, a2, f, k, oka),
        agree(n, b1, b2, f + k, l, okb),
    ensures
        agree(n, grammar::both(a1, b1), grammar::both(a2, b2), f, k + l, pair_of(oka, okb)),
        agree(n, grammar::first(a1, b1), grammar::first(a2, b2), f, k + l, oka),
        agree(n, grammar::second(a1, b1), grammar::second(a2, b2), f, k + l, okb),
{
}

proof fn lemma_optional<A>(
    n: int,
    a1: Rule<A>,
    a2: Rule<A>,
    f: int,
    k: int,
    ok: spec_fn(A) -> bool,
)
    requires
        agree(n, a1, a2, f, k, ok),
        k >= 0,
    ensures
        agree(n, grammar::optional(a1), grammar::optional(a2), f, 0, option_of(ok)),
{
}

proof fn lemma_run<A>(
    n: int,
    a1: Rule<A>,
    a2: Rule<A>,
    f: int,
    k: int,
    ok: spec_fn(A) -> bool,
    p: int,
)
    requires
        agree(n, a1, a2, f, k, ok),
        k >= 0,
        f <= p <= n,
    ensures
        grammar::run(n, a1, p) == grammar::run(n, a2, p),
        p <= grammar::run(n, a1, p).1 <= n,
        all_of(ok)(grammar::run(n, a1, p).0),
        k >= 1 ==> a1(grammar::run(n, a1, p).1) is None,
    decreases n - p,
{
    if let Some((x, q)) = a1(p) {
        if p < q <= n {
            lemma_run(n, a1, a2, f, k, ok, q);
        }
    }
}

proof fn lemma_many<A>(
    t: Seq<TokenView>,
    a1: Rule<A>,
    a2: Rule<A>,
    f: int,
    k: int,
    ok: spec_fn(A) -> bool,
)
    requires
        agree(t.len() as int, a1, a2, f, k, ok),
        k >= 0,
    ensures
        agree(t.len() as int, grammar::many(t, a1), grammar::many(t, a2), f, 0, all_of(ok)),
{
    let n = t.len() as int;
    assert forall|p: int| f <= p <= n implies {
        &&& #[trigger] grammar::many(t, a1)(p) == grammar::many(t, a2)(p)
        &&& grammar::many(t, a1)(p) matches Some((x, q)) ==> p <= q <= n && all_of(ok)(x)
    } by {
        lemma_run(n, a1, a2, f, k, ok, p);
    }
    assert forall|p: int| f <= p <= n implies {
        &&& grammar::many(t, a1)(p) == #[trigger] grammar::many(t, a2)(p)
        &&& grammar::many(t, a1)(p) matches Some((x, q)) ==> p <= q <= n && all_of(ok)(x)
    } by {
        lemma_run(n, a1, a2, f, k, ok, p);
    }
}

proof fn lemma_token(t: Seq<TokenView>, x: TokenView, f: int)
    requires
        0 <= f,
    ensures
        agree(
            t.len() as int,
            grammar::token(t, x),
            grammar::token(t, x),
            f,
            1,
            any_tree::<TokenView>(),
        ),
{
}

proof fn lemma_within<A>(
    t: Seq<TokenView>,
    bracket: Bracket,
    a1: Rule<A>,
    a2: Rule<A>,
    f: int,
    k: int,
    ok: spec_fn(A) -> bool,
)
    requires
        0 <= f,
        k >= 0,
        agree(t.len() as int, a1, a2, f + 1, k, ok),
    ensures
        agree(
            t.len() as int,
            grammar::within(t, bracket, a1),
            grammar::within(t, bracket, a2),
            f,
            2 + k,
            ok,
        ),
{
    let n = t.len() as int;
    let open = grammar::token(t, TokenView::StartBracket(bracket));
    let close = grammar::token(t, TokenView::EndBracket(bracket));
    lemma_token(t, TokenView::StartBracket(bracket), f);
    lemma_token(t, TokenView::EndBracket(bracket), f + 1 + k);
    lemma_both(n, open, open, a1, a2, f, 1, k, any_tree(), ok);
    lemma_both(
        n,
        grammar::second(open, a1),
        grammar::second(open, a2),
        close,
        close,
        f,
        1 + k,
        1,
        ok,
        any_tree(),
    );
}

proof fn lemma_list<A>(
    t: Seq<TokenView>,
    a1: Rule<A>,
    a2: Rule<A>,
    f: int,
    ok: spec_fn(A) -> bool,
)
    requires
        0 <= f,
        agree(t.len() as int, a1, a2, f, 1, ok),
    ensures
        agree(t.len() as int, grammar::list1(t, a1), grammar::list1(t, a2), f, 1, some_of(ok)),
        agree(t.len() as int, grammar::list(t, a1), grammar::list(t, a2), f, 0, all_of(ok)),
{
    let n = t.len() as int;
    let comma = grammar::token(t, TokenView::Comma);
    lemma_token(t, TokenView::Comma, f);
    lemma_both(n, comma, comma, a1, a2, f, 1, 1, any_tree(), ok);
    let next1 = grammar::second(comma, a1);
    let next2 = grammar::second(comma, a2);
    lemma_many(t, next1, next2, f, 2, ok);
    lemma_both(
        n,
        a1,
        a2,
        grammar::many(t, next1),
        grammar::many(t, next2),
        f,
        1,
        0,
        ok,
        all_of(ok),
    );
    lemma_optional(n, comma, comma, f, 1, any_tree());
    lemma_both(
        n,
        grammar::both(a1, grammar::many(t, next1)),
        grammar::both(a2, grammar::many(t, next2)),
        grammar::optional(comma),
        grammar::optional(comma),
        f,
        1,
        0,
        pair_of(ok, all_of(ok)),
        option_of(any_tree()),
    );
    assert(agree(n, grammar::list1(t, a1), grammar::list1(t, a2), f, 1, some_of(ok)));
}

// ----------------------------------------------------------------------------------------------
// Expressions.
// ----------------------------------------------------------------------------------------------

/// Behind `f`, two rules for expressions and two rules for bodies give the same, and trees of the
/// right shape.
pub open spec fn nested(
    t: Seq<TokenView>,
    e1: Rule<ExprView>,
    e2: Rule<ExprView>,
    b1: Rule<BodyView>,
    b2: Rule<BodyView>,
    f: int,
) -> bool {
    &&& 0 <= f
    &&& agree(t.len() as int, e1, e2, f + 1, 1, exprs_ok())
    &&& agree(t.len() as int, b1, b2, f + 1, 0, bodies_ok())
}

proof fn lemma_identifier(t: Seq<TokenView>, f: int)
    requires
        0 <= f,
    ensures
        agree(
            t.len() as int,
            grammar::identifier(t),
            grammar::identifier(t),
            f,
            1,
            any_tree::<Seq<char>>(),
        ),
{
}

proof fn lemma_dotted(t: Seq<TokenView>, f: int)
    requires
        0 <= f,
    ensures
        agree(
            t.len() as int,
            grammar::dotted(t),
            grammar::dotted(t),
            f,
            2,
            any_tree::<Seq<char>>(),
        ),
{
}

proof fn lemma_else_if(
    t: Seq<TokenView>,
    e1: Rule<ExprView>,
    e2: Rule<ExprView>,
    b1: Rule<BodyView>,
    b2: Rule<BodyView>,
    f: int,
)
    requires
        nested(t, e1, e2, b1, b2, f),
    ensures
        agree(
            t.len() as int,
            grammar::else_if(t, e1, b1),
            grammar::else_if(t, e2, b2),
            f,
            5,
            pair_of(exprs_ok(), bodies_ok()),
        ),
{
    let n = t.len() as int;
    let kw_else = grammar::token(t, TokenView::Keyword(Keyword::Else));
    let kw_if = grammar::token(t, TokenView::Keyword(Keyword::If));
    lemma_token(t, TokenView::Keyword(Keyword::Else), f);
    lemma_token(t, TokenView::Keyword(Keyword::If), f + 1);
    lemma_both(n, kw_else, kw_else, kw_if, kw_if, f, 1, 1, any_tree(), any_tree());
    let head = grammar::both(kw_else, kw_if);
    lemma_both(n, head, head, e1, e2, f, 2, 1, pair_of(any_tree(), any_tree()), exprs_ok());
    lemma_within(t, Bracket::Brace, b1, b2, f, 0, bodies_ok());
    lemma_both(
        n,
        grammar::second(head, e1),
        grammar::second(head, e2),
        grammar::block(t, b1),
        grammar::block(t, b2),
        f,
        3,
        2,
        exprs_ok(),
        bodies_ok(),
    );
}

proof fn lemma_if_else(
    t: Seq<TokenView>,
    e1: Rule<ExprView>,
    e2: Rule<ExprView>,
    b1: Rule<BodyView>,
    b2: Rule<BodyView>,
    f: int,
)
    requires
        nested(t, e1, e2, b1, b2, f),
    ensures
        agree(
            t.len() as int,
            grammar::if_else(t, e1, b1),
            grammar::if_else(t, e2, b2),
            f,
            1,
            exprs_ok(),
        ),
{
    let n = t.len() as int;
    let kw_else = grammar::token(t, TokenView::Keyword(Keyword::Else));
    let kw_if = grammar::token(t, TokenView::Keyword(Keyword::If));
    let block1 = grammar::block(t, b1);
    let block2 = grammar::block(t, b2);
    lemma_token(t, TokenView::Keyword(Keyword::Else), f);
    lemma_token(t, TokenView::Keyword(Keyword::If), f);
    lemma_within(t, Bracket::Brace, b1, b2, f, 0, bodies_ok());
    lemma_both(n, kw_if, kw_if, e1, e2, f, 1, 1, any_tree(), exprs_ok());
    let head1 = grammar::second(kw_if, e1);
    let head2 = grammar::second(kw_if, e2);
    lemma_both(n, head1, head2, block1, block2, f, 2, 2, exprs_ok(), bodies_ok());
    let part1 = grammar::both(head1, block1);
    let part2 = grammar::both(head2, block2);
    lemma_else_if(t, e1, e2, b1, b2, f);
    let more1 = grammar::many(t, grammar::else_if(t, e1, b1));
    let more2 = grammar::many(t, grammar::else_if(t, e2, b2));
    let more_ok = pair_of(exprs_ok(), bodies_ok());
    lemma_many(t, grammar::else_if(t, e1, b1), grammar::else_if(t, e2, b2), f, 5, more_ok);
    lemma_both(n, part1, part2, more1, more2, f, 4, 0, more_ok, all_of(more_ok));
    lemma_both(n, kw_else, kw_else, block1, block2, f, 1, 2, any_tree(), bodies_ok());
    let tail1 = grammar::second(kw_else, block1);
    let tail2 = grammar::second(kw_else, block2);
    lemma_optional(n, tail1, tail2, f, 3, bodies_ok());
    lemma_both(
        n,
        grammar::both(part1, more1),
        grammar::both(part2, more2),
        grammar::optional(tail1),
        grammar::optional(tail2),
        f,
        4,
        0,
        pair_of(more_ok, all_of(more_ok)),
        option_of(bodies_ok()),
    );
}

proof fn lemma_atom(
    t: Seq<TokenView>,
    e1: Rule<ExprView>,
    e2: Rule<ExprView>,
    b1: Rule<BodyView>,
    b2: Rule<BodyView>,
    f: int,
)
    requires
        nested(t, e1, e2, b1, b2, f),
    ensures
        agree(
            t.len() as int,
            grammar::atom(t, e1, b1),
            grammar::atom(t, e2, b2),
            f,
            1,
            exprs_ok(),
        ),
{
    let n = t.len() as int;
    lemma_within(t, Bracket::Paren, e1, e2, f, 1, exprs_ok());
    lemma_if_else(t, e1, e2, b1, b2, f);
    lemma_list(t, e1, e2, f + 1, exprs_ok());
    lemma_within(
        t,
        Bracket::Bracket,
        grammar::list(t, e1),
        grammar::list(t, e2),
        f,
        0,
        all_of(exprs_ok()),
    );
}

proof fn lemma_attribute(
    t: Seq<TokenView>,
    e1: Rule<ExprView>,
    e2: Rule<ExprView>,
    b1: Rule<BodyView>,
    b2: Rule<BodyView>,
    f: int,
)
    requires
        nested(t, e1, e2, b1, b2, f),
    ensures
        agree(
            t.len() as int,
            grammar::attribute(t, e1, b1),
            grammar::attribute(t, e2, b2),
            f,
            1,
            exprs_ok(),
        ),
{
    let n = t.len() as int;
    lemma_atom(t, e1, e2, b1, b2, f);
    let next = grammar::dotted(t);
    lemma_dotted(t, f);
    lemma_many(t, next, next, f, 2, any_tree());
    lemma_both(
        n,
        grammar::atom(t, e1, b1),
        grammar::atom(t, e2, b2),
        grammar::many(t, next),
        grammar::many(t, next),
        f,
        1,
        0,
        exprs_ok(),
        all_of(any_tree()),
    );
    assert forall|x: ExprView, names: Seq<Seq<char>>| shape::expr_shape(x) implies
        shape::expr_shape(#[trigger] grammar::attributes(x, names)) by {
        lemma_attributes(x, names);
    }
}

proof fn lemma_attributes(x: ExprView, names: Seq<Seq<char>>)
    requires
        shape::expr_shape(x),
    ensures
        shape::expr_shape(grammar::attributes(x, names)),
    decreases names.len(),
{
    if names.len() > 0 {
        lemma_attributes(x, names.drop_last());
    }
}

proof fn lemma_call(
    t: Seq<TokenView>,
    e1: Rule<ExprView>,
    e2: Rule<ExprView>,
    b1: Rule<BodyView>,
    b2: Rule<BodyView>,
    f: int,
)
    requires
        nested(t, e1, e2, b1, b2, f),
    ensures
        agree(
            t.len() as int,
            grammar::call(t, e1, b1),
            grammar::call(t, e2, b2),
            f,
            1,
            exprs_ok(),
        ),
{
    let n = t.len() as int;
    lemma_attribute(t, e1, e2, b1, b2, f);
    lemma_list(t, e1, e2, f + 1, exprs_ok());
    lemma_within(
        t,
        Bracket::Paren,
        grammar::list(t, e1),
        grammar::list(t, e2),
        f,
        0,
        all_of(exprs_ok()),
    );
    lemma_optional(
        n,
        grammar::arguments(t, e1),
        grammar::arguments(t, e2),
        f,
        2,
        all_of(exprs_ok()),
    );
    lemma_both(
        n,
        grammar::attribute(t, e1, b1),
        grammar::attribute(t, e2, b2),
        grammar::optional(grammar::arguments(t, e1)),
        grammar::optional(grammar::arguments(t, e2)),
        f,
        1,
        0,
        exprs_ok(),
        option_of(all_of(exprs_ok())),
    );
}

proof fn lemma_prefixed(ops: Seq<Operator>, x: ExprView)
    requires
        shape::expr_shape(x),
        forall|i: int| 0 <= i < ops.len() ==> grammar::is_prefix(#[trigger] ops[i]),
    ensures
        shape::expr_shape(grammar::prefixed(ops, x)),
    decreases ops.len(),
{
    if ops.len() > 0 {
        let y = ExprView::UnaryExpr { operator: ops.last(), value: Box::new(x) };
        lemma_prefixed(ops.drop_last(), y);
    }
}

/// Prefix operators.
pub open spec fn prefixes_ok() -> spec_fn(Operator) -> bool {
    |op: Operator| grammar::is_prefix(op)
}

proof fn lemma_unary(
    t: Seq<TokenView>,
    e1: Rule<ExprView>,
    e2: Rule<ExprView>,
    b1: Rule<BodyView>,
    b2: Rule<BodyView>,
    f: int,
)
    requires
        nested(t, e1, e2, b1, b2, f),
    ensures
        agree(
            t.len() as int,
            grammar::unary(t, e1, b1),
            grammar::unary(t, e2, b2),
            f,
            1,
            exprs_ok(),
        ),
{
    let n = t.len() as int;
    let prefix = grammar::prefix(t);
    assert(agree(n, prefix, prefix, f, 1, prefixes_ok()));
    lemma_many(t, prefix, prefix, f, 1, prefixes_ok());
    lemma_call(t, e1, e2, b1, b2, f);
    lemma_both(
        n,
        grammar::many(t, prefix),
        grammar::many(t, prefix),
        grammar::call(t, e1, b1),
        grammar::call(t, e2, b2),
        f,
        0,
        1,
        all_of(prefixes_ok()),
        exprs_ok(),
    );
    assert forall|ops: Seq<Operator>, x: ExprView|
        all_of(prefixes_ok())(ops) && shape::expr_shape(x) implies shape::expr_shape(
        #[trigger] grammar::prefixed(ops, x),
    ) by {
        assert forall|i: int| 0 <= i < ops.len() implies grammar::is_prefix(#[trigger] ops[i]) by {
            assert(prefixes_ok()(ops[i]));
        }
        lemma_prefixed(ops, x);
    }
}

/// An operator of the given tier and its right operand.
pub open spec fn links_ok(level: nat) -> spec_fn((Operator, ExprView)) -> bool {
    |x: (Operator, ExprView)| grammar::tier(x.0) == level && shape::expr_shape(x.1)
}

proof fn lemma_chain(x: ExprView, rest: Seq<(Operator, ExprView)>, level: nat)
    requires
        level > 0,
        shape::expr_shape(x),
        all_of(links_ok(level))(rest),
    ensures
        shape::expr_shape(grammar::chain(x, rest)),
    decreases rest.len(),
{
    if rest.len() > 0 {
        assert forall|i: int| 0 <= i < rest.drop_last().len() implies links_ok(level)(
            #[trigger] rest.drop_last()[i],
        ) by {
            assert(rest.drop_last()[i] == rest[i]);
        }
        lemma_chain(x, rest.drop_last(), level);
        assert(links_ok(level)(rest[rest.len() - 1]));
    }
}

proof fn lemma_binary(
    t: Seq<TokenView>,
    e1: Rule<ExprView>,
    e2: Rule<ExprView>,
    b1: Rule<BodyView>,
    b2: Rule<BodyView>,
    level: nat,
    f: int,
)
    requires
        nested(t, e1, e2, b1, b2, f),
    ensures
        agree(
            t.len() as int,
            grammar::binary(t, e1, b1, level),
            grammar::binary(t, e2, b2, level),
            f,
            1,
            exprs_ok(),
        ),
    decreases level,
{
    let n = t.len() as int;
    if level == 0 {
        lemma_unary(t, e1, e2, b1, b2, f);
    } else {
        let lower = (level - 1) as nat;
        let operand1 = grammar::binary(t, e1, b1, lower);
        let operand2 = grammar::binary(t, e2, b2, lower);
        lemma_binary(t, e1, e2, b1, b2, lower, f);
        let link1 = grammar::link(t, level, operand1);
        let link2 = grammar::link(t, level, operand2);
        assert(agree(n, link1, link2, f, 2, links_ok(level)));
        lemma_many(t, link1, link2, f, 2, links_ok(level));
        lemma_both(
            n,
            operand1,
            operand2,
            grammar::many(t, link1),
            grammar::many(t, link2),
            f,
            1,
            0,
            exprs_ok(),
            all_of(links_ok(level)),
        );
        assert forall|x: ExprView, rest: Seq<(Operator, ExprView)>|
            shape::expr_shape(x) && all_of(links_ok(level))(rest) implies shape::expr_shape(
            #[trigger] grammar::chain(x, rest),
        ) by {
            lemma_chain(x, rest, level);
        }
    }
}

// ----------------------------------------------------------------------------------------------
// Statements. Their expressions may begin where they begin themselves.
// ----------------------------------------------------------------------------------------------

/// Like [`nested`], with the expressions from `f` on.
pub open spec fn stated(
    t: Seq<TokenView>,
    e1: Rule<ExprView>,
    e2: Rule<ExprView>,
    b1: Rule<BodyView>,
    b2: Rule<BodyView>,
    f: int,
) -> bool {
    &&& 0 <= f
    &&& agree(t.len() as int, e1, e2, f, 1, exprs_ok())
    &&& agree(t.len() as int, b1, b2, f + 1, 0, bodies_ok())
}

proof fn lemma_require(t: Seq<TokenView>, f: int)
    requires
        0 <= f,
    ensures
        agree(t.len() as int, grammar::require(t), grammar::require(t), f, 1, nodes_ok()),
{
    let n = t.len() as int;
    let kw = grammar::token(t, TokenView::Keyword(Keyword::Require));
    let semicolon = grammar::token(t, TokenView::Semicolon);
    let names = grammar::list1(t, grammar::identifier(t));
    lemma_token(t, TokenView::Keyword(Keyword::Require), f);
    lemma_token(t, TokenView::Semicolon, f);
    lemma_identifier(t, f + 1);
    lemma_list(t, grammar::identifier(t), grammar::identifier(t), f + 1, any_tree());
    lemma_both(n, kw, kw, names, names, f, 1, 1, any_tree(), some_of(any_tree()));
    let head = grammar::second(kw, names);
    lemma_both(n, head, head, semicolon, semicolon, f, 2, 1, some_of(any_tree()), any_tree());
}

/// A plain target.
pub open spec fn plain_targets_ok() -> spec_fn(TargetView) -> bool {
    |x: TargetView| shape::is_plain_target(x)
}

proof fn lemma_plain_target(t: Seq<TokenView>, f: int)
    requires
        0 <= f,
    ensures
        agree(
            t.len() as int,
            grammar::plain_target(t),
            grammar::plain_target(t),
            f,
            1,
            plain_targets_ok(),
        ),
{
    let name = grammar::identifier(t);
    let names = grammar::list1(t, name);
    lemma_identifier(t, f);
    lemma_list(t, name, name, f + 1, any_tree());
    lemma_within(t, Bracket::Bracket, names, names, f, 1, some_of(any_tree()));
}

/// A target.
pub open spec fn targets_ok(attributes: bool) -> spec_fn(TargetView) -> bool {
    |x: TargetView| shape::is_target(x, attributes)
}

proof fn lemma_path(name: Seq<char>, names: Seq<Seq<char>>)
    ensures
        shape::is_path(grammar::path(name, names)),
    decreases names.len(),
{
    if names.len() > 0 {
        lemma_path(name, names.drop_last());
    }
}

proof fn lemma_target(t: Seq<TokenView>, attributes: bool, f: int)
    requires
        0 <= f,
    ensures
        agree(
            t.len() as int,
            grammar::target(t, attributes),
            grammar::target(t, attributes),
            f,
            1,
            targets_ok(attributes),
        ),
{
    let n = t.len() as int;
    let name = grammar::identifier(t);
    let dotted = grammar::dotted(t);
    let more = grammar::many(t, dotted);
    lemma_plain_target(t, f);
    lemma_identifier(t, f);
    lemma_dotted(t, f);
    lemma_many(t, dotted, dotted, f, 2, any_tree());
    lemma_both(n, name, name, more, more, f, 1, 0, any_tree(), all_of(any_tree()));
    assert forall|name: Seq<char>, names: Seq<Seq<char>>| shape::is_path(
        #[trigger] grammar::path(name, names),
    ) by {
        lemma_path(name, names);
    }
}

proof fn lemma_target_eq(t: Seq<TokenView>, attributes: bool, f: int)
    requires
        0 <= f,
    ensures
        agree(
            t.len() as int,
            grammar::target_eq(t, attributes),
            grammar::target_eq(t, attributes),
            f,
            2,
            targets_ok(attributes),
        ),
{
    let n = t.len() as int;
    let target = grammar::target(t, attributes);
    let eq = grammar::token(t, TokenView::Assign);
    lemma_target(t, attributes, f);
    lemma_token(t, TokenView::Assign, f + 1);
    lemma_both(n, target, target, eq, eq, f, 1, 1, targets_ok(attributes), any_tree());
}

proof fn lemma_targets(t: Seq<TokenView>, attributes: bool, f: int)
    requires
        0 <= f,
    ensures
        agree(
            t.len() as int,
            grammar::targets(t, attributes),
            grammar::targets(t, attributes),
            f,
            2,
            some_of(targets_ok(attributes)),
        ),
{
    let n = t.len() as int;
    let one = grammar::target_eq(t, attributes);
    let ok = targets_ok(attributes);
    lemma_target_eq(t, attributes, f);
    lemma_many(t, one, one, f, 2, ok);
    let more = grammar::many(t, one);
    lemma_both(n, one, one, more, more, f, 2, 0, ok, all_of(ok));
}

proof fn lemma_assignment(
    t: Seq<TokenView>,
    e1: Rule<ExprView>,
    e2: Rule<ExprView>,
    let_: bool,
    immut: bool,
    f: int,
)
    requires
        0 <= f,
        agree(t.len() as int, e1, e2, f, 1, exprs_ok()),
    ensures
        agree(
            t.len() as int,
            grammar::assignment(t, e1, let_, immut),
            grammar::assignment(t, e2, let_, immut),
            f,
            1,
            nodes_ok(),
        ),
{
    let n = t.len() as int;
    let attributes = !let_ && !immut;
    let targets = grammar::targets(t, attributes);
    let ok = some_of(targets_ok(attributes));
    let semicolon = grammar::token(t, TokenView::Semicolon);
    lemma_targets(t, attributes, f);
    lemma_token(t, TokenView::Semicolon, f);
    lemma_both(n, targets, targets, e1, e2, f, 2, 1, ok, exprs_ok());
    let left1 = grammar::both(targets, e1);
    let left2 = grammar::both(targets, e2);
    lemma_both(n, left1, left2, semicolon, semicolon, f, 3, 1, pair_of(ok, exprs_ok()), any_tree());
    assert forall|xs: Seq<TargetView>| #[trigger] ok(xs) implies shape::are_targets(
        xs,
        attributes,
    ) by {
        assert forall|i: int| 0 <= i < xs.len() implies shape::is_target(
            #[trigger] xs[i],
            attributes,
        ) by {
            assert(targets_ok(attributes)(xs[i]));
        }
    }
}

proof fn lemma_assign(t: Seq<TokenView>, e1: Rule<ExprView>, e2: Rule<ExprView>, f: int)
    requires
        0 <= f,
        agree(t.len() as int, e1, e2, f, 1, exprs_ok()),
    ensures
        agree(t.len() as int, grammar::assign(t, e1), grammar::assign(t, e2), f, 1, nodes_ok()),
{
    lemma_assignment(t, e1, e2, false, false, f);
    lemma_assignment(t, e1, e2, false, true, f);
    lemma_assignment(t, e1, e2, true, false, f);
    lemma_assignment(t, e1, e2, true, true, f);
}

proof fn lemma_param(t: Seq<TokenView>, e1: Rule<ExprView>, e2: Rule<ExprView>, f: int)
    requires
        0 <= f,
        agree(t.len() as int, e1, e2, f, 1, exprs_ok()),
    ensures
        agree(t.len() as int, grammar::param(t, e1), grammar::param(t, e2), f, 1, params_ok()),
{
    let n = t.len() as int;
    let eq = grammar::token(t, TokenView::Assign);
    lemma_token(t, TokenView::Assign, f);
    lemma_plain_target(t, f);
    let target = grammar::plain_target(t);
    lemma_both(n, eq, eq, e1, e2, f, 1, 1, any_tree(), exprs_ok());
    let default1 = grammar::second(eq, e1);
    let default2 = grammar::second(eq, e2);
    lemma_optional(n, default1, default2, f, 2, exprs_ok());
    lemma_both(
        n,
        target,
        target,
        grammar::optional(default1),
        grammar::optional(default2),
        f,
        1,
        0,
        plain_targets_ok(),
        option_of(exprs_ok()),
    );
}

proof fn lemma_func(
    t: Seq<TokenView>,
    e1: Rule<ExprView>,
    e2: Rule<ExprView>,
    b1: Rule<BodyView>,
    b2: Rule<BodyView>,
    f: int,
)
    requires
        stated(t, e1, e2, b1, b2, f),
    ensures
        agree(
            t.len() as int,
            grammar::func(t, e1, b1),
            grammar::func(t, e2, b2),
            f,
            1,
            nodes_ok(),
        ),
{
    let n = t.len() as int;
    let kw = grammar::token(t, TokenView::Keyword(Keyword::Func));
    let name = grammar::identifier(t);
    lemma_token(t, TokenView::Keyword(Keyword::Func), f);
    lemma_identifier(t, f);
    lemma_both(n, kw, kw, name, name, f, 1, 1, any_tree(), any_tree());
    let head = grammar::second(kw, name);
    let param1 = grammar::param(t, e1);
    let param2 = grammar::param(t, e2);
    lemma_param(t, e1, e2, f);
    lemma_list(t, param1, param2, f + 1, params_ok());
    let list1 = grammar::list(t, param1);
    let list2 = grammar::list(t, param2);
    lemma_within(t, Bracket::Paren, list1, list2, f, 0, all_of(params_ok()));
    let params1 = grammar::within(t, Bracket::Paren, list1);
    let params2 = grammar::within(t, Bracket::Paren, list2);
    lemma_both(n, head, head, params1, params2, f, 2, 2, any_tree(), all_of(params_ok()));
    lemma_within(t, Bracket::Brace, b1, b2, f, 0, bodies_ok());
    lemma_both(
        n,
        grammar::both(head, params1),
        grammar::both(head, params2),
        grammar::block(t, b1),
        grammar::block(t, b2),
        f,
        4,
        2,
        pair_of(any_tree(), all_of(params_ok())),
        bodies_ok(),
    );
}

proof fn lemma_statement(
    t: Seq<TokenView>,
    e1: Rule<ExprView>,
    e2: Rule<ExprView>,
    b1: Rule<BodyView>,
    b2: Rule<BodyView>,
    f: int,
)
    requires
        stated(t, e1, e2, b1, b2, f),
    ensures
        agree(
            t.len() as int,
            grammar::statement(t, e1, b1),
            grammar::statement(t, e2, b2),
            f,
            1,
            nodes_ok(),
        ),
{
    let n = t.len() as int;
    lemma_func(t, e1, e2, b1, b2, f);
    lemma_assign(t, e1, e2, f);
    lemma_require(t, f);
    let plain1 = grammar::expr_statement(t, e1);
    let plain2 = grammar::expr_statement(t, e2);
    assert(agree(n, plain1, plain2, f, 1, nodes_ok()));
}

proof fn lemma_body(
    t: Seq<TokenView>,
    e1: Rule<ExprView>,
    e2: Rule<ExprView>,
    b1: Rule<BodyView>,
    b2: Rule<BodyView>,
    f: int,
)
    requires
        stated(t, e1, e2, b1, b2, f),
    ensures
        agree(
            t.len() as int,
            grammar::body(t, e1, b1),
            grammar::body(t, e2, b2),
            f,
            0,
            bodies_ok(),
        ),
{
    let n = t.len() as int;
    let statement1 = grammar::statement(t, e1, b1);
    let statement2 = grammar::statement(t, e2, b2);
    lemma_statement(t, e1, e2, b1, b2, f);
    lemma_many(t, statement1, statement2, f, 1, nodes_ok());
    lemma_optional(n, e1, e2, f, 1, exprs_ok());
    lemma_both(
        n,
        grammar::many(t, statement1),
        grammar::many(t, statement2),
        grammar::optional(e1),
        grammar::optional(e2),
        f,
        0,
        0,
        all_of(nodes_ok()),
        option_of(exprs_ok()),
    );
    // Where the statements end, an `if` would have been one more.
    assert forall|p: int| f <= p <= n implies !(e1(#[trigger] grammar::run(n, statement1, p).1)
        matches Some((ExprView::If { .. }, _))) by {
        lemma_run(n, statement1, statement2, f, 1, nodes_ok(), p);
        assert(grammar::expr_statement(t, e1)(grammar::run(n, statement1, p).1) is None);
    }
}

// ----------------------------------------------------------------------------------------------
// The rules for what is nested.
// ----------------------------------------------------------------------------------------------

/// What the grammar gives for an expression: the rule for expressions, with that rule itself for
/// what is nested. It takes a token at least, and has the right shape.
pub proof fn lemma_expr(t: Seq<TokenView>, p: int)
    requires
        0 <= p <= t.len(),
    ensures
        grammar::expr_at(t, p) == grammar::expression(t, grammar::exprs(t), grammar::bodies(t))(p),
        grammar::expr_at(t, p) matches Some((x, q)) ==> {
            &&& p < q <= t.len()
            &&& shape::expr_shape(x)
        },
    decreases t.len() - p, 0nat,
{
    let n = t.len() as int;
    let e1 = grammar::exprs_behind(t, p);
    let b1 = grammar::bodies_behind(t, p);
    let e2 = grammar::exprs(t);
    let b2 = grammar::bodies(t);
    assert forall|q: int| p + 1 <= q <= n implies {
        &&& e1(q) == grammar::expr_at(t, q)
        &&& e2(q) == grammar::expr_at(t, q)
        &&& #[trigger] grammar::expr_at(t, q) matches Some((x, r)) ==> q + 1 <= r <= n
            && shape::expr_shape(x)
    } by {
        lemma_expr(t, q);
    }
    assert forall|q: int| p + 1 <= q <= n implies {
        &&& b1(q) == grammar::body_at(t, q)
        &&& b2(q) == grammar::body_at(t, q)
        &&& #[trigger] grammar::body_at(t, q) matches Some((x, r)) ==> q <= r <= n
            && shape::body_shape(x)
    } by {
        lemma_body_at(t, q);
    }
    lemma_binary(t, e1, e2, b1, b2, grammar::LOOSEST as nat, p);
}

/// What the grammar gives for a body: the rule for bodies, with the rules themselves for what is
/// nested. It always applies, and has the right shape.
pub proof fn lemma_body_at(t: Seq<TokenView>, p: int)
    requires
        0 <= p <= t.len(),
    ensures
        grammar::body_at(t, p) == grammar::body(t, grammar::exprs(t), grammar::bodies(t))(p),
        grammar::body_at(t, p) matches Some((x, q)) && p <= q <= t.len() && shape::body_shape(x),
    decreases t.len() - p, 1nat,
{
    let n = t.len() as int;
    let e1 = grammar::exprs_from(t, p);
    let b1 = grammar::bodies_behind(t, p);
    let e2 = grammar::exprs(t);
    let b2 = grammar::bodies(t);
    assert forall|q: int| p <= q <= n implies {
        &&& e1(q) == grammar::expr_at(t, q)
        &&& e2(q) == grammar::expr_at(t, q)
        &&& #[trigger] grammar::expr_at(t, q) matches Some((x, r)) ==> q + 1 <= r <= n
            && shape::expr_shape(x)
    } by {
        lemma_expr(t, q);
    }
    assert forall|q: int| p + 1 <= q <= n implies {
        &&& b1(q) == grammar::body_at(t, q)
        &&& b2(q) == grammar::body_at(t, q)
        &&& #[trigger] grammar::body_at(t, q) matches Some((x, r)) ==> q <= r <= n
            && shape::body_shape(x)
    } by {
        lemma_body_at(t, q);
    }
    lemma_body(t, e1, e2, b1, b2, p);
}

/// The rules for what is nested keep to the sequence and give trees of the right shape.
proof fn lemma_rules(t: Seq<TokenView>)
    ensures
        agree(t.len() as int, grammar::exprs(t), grammar::exprs(t), 0, 1, exprs_ok()),
        agree(t.len() as int, grammar::bodies(t), grammar::bodies(t), 0, 0, bodies_ok()),
{
    let n = t.len() as int;
    let e = grammar::exprs(t);
    let b = grammar::bodies(t);
    assert forall|q: int| 0 <= q <= n implies {
        &&& e(q) == grammar::expr_at(t, q)
        &&& #[trigger] grammar::expr_at(t, q) matches Some((x, r)) ==> q + 1 <= r <= n
            && shape::expr_shape(x)
    } by {
        lemma_expr(t, q);
    }
    assert forall|q: int| 0 <= q <= n implies {
        &&& b(q) == grammar::body_at(t, q)
        &&& #[trigger] grammar::body_at(t, q) matches Some((x, r)) ==> q <= r <= n
            && shape::body_shape(x)
    } by {
        lemma_body_at(t, q);
    }
}

/// An expression of any tier takes at least one token, and none that is not there.
pub proof fn lemma_operand(t: Seq<TokenView>, level: nat, p: int)
    requires
        0 <= p <= t.len(),
    ensures
        grammar::binary(t, grammar::exprs(t), grammar::bodies(t), level)(p) matches Some((_, q))
            ==> p < q <= t.len(),
{
    let e = grammar::exprs(t);
    let b = grammar::bodies(t);
    lemma_rules(t);
    lemma_binary(t, e, e, b, b, level, 0);
}

/// A parameter takes at least one token, and none that is not there.
pub proof fn lemma_parameter(t: Seq<TokenView>, p: int)
    requires
        0 <= p <= t.len(),
    ensures
        grammar::param(t, grammar::exprs(t))(p) matches Some((_, q)) ==> p < q <= t.len(),
{
    lemma_rules(t);
    lemma_param(t, grammar::exprs(t), grammar::exprs(t), 0);
}

/// A target with its `=` takes two tokens at least, and none that is not there.
pub proof fn lemma_target_eq_at(t: Seq<TokenView>, attributes: bool, p: int)
    requires
        0 <= p <= t.len(),
    ensures
        grammar::target_eq(t, attributes)(p) matches Some((_, q)) ==> p + 2 <= q <= t.len(),
{
    lemma_target_eq(t, attributes, 0);
}

/// Statements are taken as long as there are any.
pub proof fn lemma_statements_end(t: Seq<TokenView>, p: int)
    requires
        0 <= p <= t.len(),
    ensures
        ({
            let a = grammar::statement(t, grammar::exprs(t), grammar::bodies(t));
            let q = grammar::run(t.len() as int, a, p).1;
            &&& p <= q <= t.len()
            &&& a(q) is None
            &&& a(p) matches Some((_, r)) ==> p < r <= t.len()
        }),
{
    let n = t.len() as int;
    let e = grammar::exprs(t);
    let b = grammar::bodies(t);
    lemma_rules(t);
    lemma_statement(t, e, e, b, b, 0);
    lemma_run(n, grammar::statement(t, e, b), grammar::statement(t, e, b), 0, 1, nodes_ok(), p);
}

} // verus!
