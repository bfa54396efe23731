//! The rules of inference read backwards: what was read as a whole is made of parts that were
//! there, so nothing is read that is not well formed.

use crate::ast::{BodyView, ExprView, NodeView, ParamView, TargetView};
use crate::derivation;
use crate::grammar;
use crate::grammar::Rule;
use crate::laws;
use crate::nesting;
use crate::token::{Bracket, Keyword, TokenView};
use crate::writing;
use vstd::prelude::*;

verus! {

// ----------------------------------------------------------------------------------------------
// Lists.
// ----------------------------------------------------------------------------------------------

/// A list with one more item before it.
proof fn lemma_listed_shift<A>(
    t: Seq<TokenView>,
    a: Rule<A>,
    x: A,
    ys: Seq<A>,
    i: int,
    p: int,
    end: int,
)
    requires
        0 <= i <= ys.len(),
        writing::listed(t, false, a, ys, i, p, end),
    ensures
        writing::listed(t, false, a, seq![x] + ys, i + 1, p, end),
    decreases ys.len() - i,
{
    let items = seq![x] + ys;
    if i < ys.len() {
        assert(items[i + 1] == ys[i]);
        let (_, q) = a(p)->0;
        if i + 1 < ys.len() {
            lemma_listed_shift(t, a, x, ys, i + 1, q + 1, end);
        }
    }
}

/// A list with a comma behind it.
proof fn lemma_listed_comma<A>(
    t: Seq<TokenView>,
    a: Rule<A>,
    items: Seq<A>,
    i: int,
    p: int,
    end: int,
)
    requires
        0 <= i < items.len(),
        writing::listed(t, false, a, items, i, p, end),
        grammar::at(t, end) == Some(TokenView::Comma),
    ensures
        writing::listed(t, true, a, items, i, p, end + 1),
    decreases items.len() - i,
{
    let (_, q) = a(p)->0;
    if i + 1 < items.len() {
        lemma_listed_comma(t, a, items, i + 1, q + 1, end);
    } else {
        assert(writing::listed(t, true, a, items, i + 1, q + 1, end + 1));
    }
}

/// Items behind the first, each behind a comma.
proof fn lemma_run_listed<A>(t: Seq<TokenView>, a: Rule<A>, p: int, x: A, q: int)
    requires
        a(p) == Some((x, q)),
    ensures
        ({
            let next = grammar::second(grammar::token(t, TokenView::Comma), a);
            let (ys, m) = grammar::run(t.len() as int, next, q);
            writing::listed(t, false, a, seq![x] + ys, 0, p, m)
        }),
    decreases t.len() - q,
{
    let n = t.len() as int;
    let next = grammar::second(grammar::token(t, TokenView::Comma), a);
    let (ys, m) = grammar::run(n, next, q);
    let items = seq![x] + ys;
    assert(items[0] == x);
    match next(q) {
        Some((y, r)) if q < r <= n => {
            assert(a(q + 1) == Some((y, r)));
            let zs = grammar::run(n, next, r).0;
            assert(ys == seq![y] + zs);
            lemma_run_listed(t, a, q + 1, y, r);
            lemma_listed_shift(t, a, x, ys, 0, q + 1, m);
        },
        _ => {
            assert(ys.len() == 0);
            assert(items.len() == 1);
        },
    }
}

/// What was read as a list is items with commas between them, and perhaps one behind the last.
proof fn lemma_list<A>(t: Seq<TokenView>, a: Rule<A>, p: int, items: Seq<A>, end: int)
    requires
        grammar::list(t, a)(p) == Some((items, end)),
    ensures
        exists|c: bool| #[trigger] writing::listed(t, c, a, items, 0, p, end),
        grammar::list1(t, a)(p) is Some ==> items.len() > 0,
{
    match a(p) {
        Some((x, q)) => {
            let next = grammar::second(grammar::token(t, TokenView::Comma), a);
            let (ys, m) = grammar::run(t.len() as int, next, q);
            lemma_run_listed(t, a, p, x, q);
            assert(grammar::list1(t, a)(p) == Some((items, end)));
            assert(items == seq![x] + ys);
            if grammar::at(t, m) == Some(TokenView::Comma) {
                lemma_listed_comma(t, a, items, 0, p, m);
                assert(writing::listed(t, true, a, items, 0, p, end));
            } else {
                assert(writing::listed(t, false, a, items, 0, p, end));
            }
        },
        None => {
            assert(grammar::list1(t, a)(p) is None);
            assert(writing::listed(t, false, a, items, 0, p, end));
        },
    }
}

// ----------------------------------------------------------------------------------------------
// Expressions.
// ----------------------------------------------------------------------------------------------

/// What begins with a square bracket, if anything, is an array of all items up to the closing one.
pub proof fn array_has_items(t: Seq<TokenView>, p: int, x: ExprView, q: int)
    requires
        derivation::sees(t, p, TokenView::StartBracket(Bracket::Bracket)),
        laws::atoms(t)(p) == Some((x, q)),
    ensures
        derivation::sees(t, q - 1, TokenView::EndBracket(Bracket::Bracket)),
        exists|c: bool, items: Seq<ExprView>|
            x == ExprView::Array(items) && #[trigger] derivation::items_at(
                t,
                c,
                items,
                p + 1,
                q - 1,
            ),
{
    let e = grammar::exprs(t);
    let b = grammar::bodies(t);
    let list = grammar::list(t, e);
    assert(grammar::literal(t)(p) is None);
    assert(grammar::identifier(t)(p) is None);
    assert(grammar::within(t, Bracket::Paren, e)(p) is None);
    assert(grammar::if_else(t, e, b)(p) is None);
    match list(p + 1) {
        Some((items, r)) => {
            lemma_list(t, e, p + 1, items, r);
            assert(grammar::at(t, r) == Some(TokenView::EndBracket(Bracket::Bracket)));
            assert(q == r + 1);
            let c = choose|c: bool| #[trigger] writing::listed(t, c, e, items, 0, p + 1, r);
            assert(derivation::items_at(t, c, items, p + 1, q - 1));
        },
        None => {},
    }
}

/// What is called, if anything, has all arguments up to the closing parenthesis; and what is not
/// called is itself.
pub proof fn call_has_arguments(t: Seq<TokenView>, p: int, v: ExprView, q: int, x: ExprView, r: int)
    requires
        derivation::attrs(t)(p) == Some((v, q)),
        derivation::calls(t)(p) == Some((x, r)),
        0 <= q,
    ensures
        (x == v && r == q) || {
            &&& derivation::sees(t, q, TokenView::StartBracket(Bracket::Paren))
            &&& derivation::sees(t, r - 1, TokenView::EndBracket(Bracket::Paren))
            &&& exists|c: bool, items: Seq<ExprView>|
                x == (ExprView::Call { value: Box::new(v), args: items, kwargs: Seq::empty() })
                    && #[trigger] derivation::items_at(t, c, items, q + 1, r - 1)
        },
{
    let e = grammar::exprs(t);
    let list = grammar::list(t, e);
    match grammar::arguments(t, e)(q) {
        Some((args, s)) => {
            assert(grammar::at(t, q) == Some(TokenView::StartBracket(Bracket::Paren)));
            match list(q + 1) {
                Some((items, m)) => {
                    assert(items == args && s == m + 1);
                    lemma_list(t, e, q + 1, items, m);
                    let c = choose|c: bool| #[trigger] writing::listed(t, c, e, items, 0, q + 1, m);
                    assert(derivation::items_at(t, c, items, q + 1, r - 1));
                },
                None => {},
            }
        },
        None => {},
    }
}

// ----------------------------------------------------------------------------------------------
// Statements.
// ----------------------------------------------------------------------------------------------

/// Names that were read in a list.
proof fn lemma_names(
    t: Seq<TokenView>,
    c: bool,
    names: Seq<Seq<char>>,
    i: int,
    p: int,
    end: int,
)
    requires
        0 <= i <= names.len(),
        writing::listed(t, c, grammar::identifier(t), names, i, p, end),
    ensures
        derivation::names_at(t, c, names, i, p, end),
    decreases names.len() - i,
{
    if i < names.len() {
        if c || i + 1 < names.len() {
            lemma_names(t, c, names, i + 1, p + 2, end);
        }
    }
}

proof fn lemma_name_list(t: Seq<TokenView>, p: int, names: Seq<Seq<char>>, end: int)
    requires
        grammar::list1(t, grammar::identifier(t))(p) == Some((names, end)),
    ensures
        names.len() > 0,
        exists|c: bool| #[trigger] derivation::names_at(t, c, names, 0, p, end),
{
    let a = grammar::identifier(t);
    assert(grammar::list(t, a)(p) == Some((names, end)));
    lemma_list(t, a, p, names, end);
    let c = choose|c: bool| #[trigger] writing::listed(t, c, a, names, 0, p, end);
    lemma_names(t, c, names, 0, p, end);
}

/// What begins with `require`, if anything, is names up to a semicolon.
pub proof fn require_has_names(t: Seq<TokenView>, p: int, x: NodeView, q: int)
    requires
        derivation::sees(t, p, TokenView::Keyword(Keyword::Require)),
        derivation::statements(t)(p) == Some((x, q)),
    ensures
        derivation::sees(t, q - 1, TokenView::Semicolon),
        exists|c: bool, names: Seq<Seq<char>>|
            x == NodeView::Require(names) && names.len() > 0 && #[trigger] derivation::names_at(
                t,
                c,
                names,
                0,
                p + 1,
                q - 1,
            ),
{
    let e = grammar::exprs(t);
    nesting::lemma_statements_end(t, p);
    laws::expr_begins(t, p);
    assert(e(p) is None);
    assert(grammar::func(t, e, grammar::bodies(t))(p) is None);
    assert(grammar::modifiers(t)(p) == Some(((None::<TokenView>, None::<TokenView>), p)));
    assert(grammar::targets(t, true)(p) is None);
    assert(grammar::assign(t, e)(p) is None);
    assert(grammar::expr_statement(t, e)(p) is None);
    assert(grammar::require(t)(p) == Some((x, q)));
    match grammar::list1(t, grammar::identifier(t))(p + 1) {
        Some((names, r)) => {
            lemma_name_list(t, p + 1, names, r);
            assert(q == r + 1);
            let c = choose|c: bool| #[trigger] derivation::names_at(t, c, names, 0, p + 1, r);
            assert(derivation::names_at(t, c, names, 0, p + 1, q - 1));
        },
        None => {},
    }
}

/// What was read as a plain target.
proof fn lemma_plain_target(t: Seq<TokenView>, p: int, x: TargetView, q: int)
    requires
        grammar::plain_target(t)(p) == Some((x, q)),
    ensures
        derivation::plain_target_at(t, x, p, q),
{
    if grammar::identifier(t)(p) is None {
        let rule = grammar::list1(t, grammar::identifier(t));
        match rule(p + 1) {
            Some((names, r)) => {
                lemma_name_list(t, p + 1, names, r);
                let c = choose|c: bool| #[trigger] derivation::names_at(t, c, names, 0, p + 1, r);
                assert(grammar::name_targets(names) =~= derivation::names_target(names)->Array_0);
                assert(derivation::bracketed_names_at(t, c, names, x, p, q));
            },
            None => {},
        }
    }
}

/// One dotted name before others.
proof fn lemma_dotted_cons(t: Seq<TokenView>, name: Seq<char>, rest: Seq<Seq<char>>, p: int)
    requires
        derivation::sees(t, p, TokenView::Dot),
        derivation::sees(t, p + 1, TokenView::Identifier(name)),
        derivation::dotted_at(t, rest, p + 2),
    ensures
        derivation::dotted_at(t, seq![name] + rest, p),
{
    let names = seq![name] + rest;
    assert forall|i: int| 0 <= i < names.len() implies derivation::dot_name_at(
        t,
        p + 2 * i,
        #[trigger] names[i],
    ) by {
        if i > 0 {
            assert(names[i] == rest[i - 1]);
            assert(p + 2 * i == p + 2 + 2 * (i - 1));
        } else {
            assert(names[i] == name);
        }
    }
}

/// Dotted names that were read in a row.
proof fn lemma_dotted(t: Seq<TokenView>, p: int)
    ensures
        ({
            let (names, q) = grammar::run(t.len() as int, grammar::dotted(t), p);
            &&& derivation::dotted_at(t, names, p)
            &&& q == p + 2 * names.len()
        }),
    decreases t.len() - p,
{
    let n = t.len() as int;
    let a = grammar::dotted(t);
    let (names, q) = grammar::run(n, a, p);
    match a(p) {
        Some((name, r)) if p < r <= n => {
            lemma_dotted(t, r);
            let (rest, end) = grammar::run(n, a, r);
            assert(end == r + 2 * rest.len());
            assert(q == end);
            assert(r == p + 2);
            assert(names == seq![name] + rest);
            assert(names.len() == 1 + rest.len());
            lemma_dotted_cons(t, name, rest, p);
        },
        _ => {
            assert(names =~= Seq::empty());
            assert(derivation::dotted_at(t, names, p));
        },
    }
}

/// What was read as a target with its `=`.
proof fn lemma_target(t: Seq<TokenView>, attributes: bool, p: int, x: TargetView, q: int)
    requires
        grammar::target_eq(t, attributes)(p) == Some((x, q)),
    ensures
        derivation::target_at(t, attributes, x, p, q),
{
    let n = t.len() as int;
    assert(grammar::target(t, attributes)(p) == Some((x, q - 1)));
    if attributes && grammar::identifier(t)(p) is Some {
        let name = t[p]->Identifier_0;
        let (names, r) = grammar::run(n, grammar::dotted(t), p + 1);
        lemma_dotted(t, p + 1);
        derivation::lemma_target_of(name, names);
        assert(derivation::path_at(t, name, names, x, p, q - 1));
    } else {
        lemma_plain_target(t, p, x, q - 1);
    }
}

/// Targets that were read in a row, with one more before them.
proof fn lemma_targets_shift(
    t: Seq<TokenView>,
    attributes: bool,
    x: TargetView,
    ys: Seq<TargetView>,
    i: int,
    p: int,
    end: int,
)
    requires
        0 <= i <= ys.len(),
        derivation::targets_at(t, attributes, ys, i, p, end),
    ensures
        derivation::targets_at(t, attributes, seq![x] + ys, i + 1, p, end),
    decreases ys.len() - i,
{
    let xs = seq![x] + ys;
    if i < ys.len() {
        assert(xs[i + 1] == ys[i]);
        let q = choose|q: int| #[trigger]
            derivation::target_at(t, attributes, ys[i], p, q) && derivation::targets_at(
                t,
                attributes,
                ys,
                i + 1,
                q,
                end,
            );
        lemma_targets_shift(t, attributes, x, ys, i + 1, q, end);
        assert(derivation::target_at(t, attributes, xs[i + 1], p, q));
    }
}

proof fn lemma_targets(t: Seq<TokenView>, attributes: bool, p: int)
    ensures
        ({
            let (xs, q) = grammar::run(t.len() as int, grammar::target_eq(t, attributes), p);
            derivation::targets_at(t, attributes, xs, 0, p, q)
        }),
    decreases t.len() - p,
{
    let n = t.len() as int;
    let a = grammar::target_eq(t, attributes);
    let (xs, q) = grammar::run(n, a, p);
    match a(p) {
        Some((x, r)) if p < r <= n => {
            lemma_targets(t, attributes, r);
            let rest = grammar::run(n, a, r).0;
            assert(xs == seq![x] + rest);
            lemma_target(t, attributes, p, x, r);
            lemma_targets_shift(t, attributes, x, rest, 0, r, q);
            assert(xs[0] == x);
            assert(derivation::target_at(t, attributes, xs[0], p, r));
        },
        _ => {
            assert(xs.len() == 0);
        },
    }
}

/// The parts of an assignment: the modifiers that stand there, one target or more, each with its
/// `=`, one expression and a semicolon.
pub open spec fn assignment_at(
    t: Seq<TokenView>,
    p: int,
    let_: bool,
    immut: bool,
    targets: Seq<TargetView>,
    q: int,
    value: ExprView,
    end: int,
) -> bool {
    let p1 = p + (if let_ {
        1int
    } else {
        0
    });
    let p2 = p1 + (if immut {
        1int
    } else {
        0
    });
    &&& let_ == derivation::sees(t, p, TokenView::Keyword(Keyword::Let))
    &&& immut == derivation::sees(t, p1, TokenView::Keyword(Keyword::Immut))
    &&& targets.len() > 0
    &&& derivation::targets_at(t, !let_ && !immut, targets, 0, p2, q)
    &&& grammar::expr_at(t, q) == Some((value, end - 1))
    &&& derivation::sees(t, end - 1, TokenView::Semicolon)
}

/// What is read as an assignment is one, with the flags of the modifiers that stand there, and it
/// is not constant.
pub proof fn assignment_has_parts(t: Seq<TokenView>, p: int, x: NodeView, end: int)
    requires
        grammar::assign(t, grammar::exprs(t))(p) == Some((x, end)),
    ensures
        exists|let_: bool, immut: bool, targets: Seq<TargetView>, q: int, value: ExprView|
            x == (NodeView::Assign { targets, value, let_, immut, const_: false })
                && #[trigger] assignment_at(t, p, let_, immut, targets, q, value, end),
{
    let n = t.len() as int;
    let e = grammar::exprs(t);
    let let_ = derivation::sees(t, p, TokenView::Keyword(Keyword::Let));
    let p1 = p + (if let_ {
        1int
    } else {
        0
    });
    let immut = derivation::sees(t, p1, TokenView::Keyword(Keyword::Immut));
    let p2 = p1 + (if immut {
        1int
    } else {
        0
    });
    let attributes = !let_ && !immut;
    let a = grammar::target_eq(t, attributes);
    assert(grammar::modifiers(t)(p) matches Some((m, q)) && q == p2 && m.0 is Some == let_ && m.1
        is Some == immut);
    assert(grammar::assignment(t, e, let_, immut)(p2) == Some((x, end)));
    assert(grammar::both(grammar::targets(t, attributes), e)(p2) is Some);
    match grammar::targets(t, attributes)(p2) {
        Some((xs, q)) => {
            assert(a(p2) is Some);
            match a(p2) {
                Some((y, r)) => {
                    let rest = grammar::run(n, a, r).0;
                    assert(xs == seq![y] + rest);
                    lemma_target(t, attributes, p2, y, r);
                    lemma_targets(t, attributes, r);
                    lemma_targets_shift(t, attributes, y, rest, 0, r, q);
                    assert(xs[0] == y);
                    assert(derivation::target_at(t, attributes, xs[0], p2, r));
                    assert(derivation::targets_at(t, attributes, xs, 0, p2, q));
                    match e(q) {
                        Some((value, s)) => {
                            assert(end == s + 1);
                            assert(x == NodeView::Assign {
                                targets: xs,
                                value,
                                let_,
                                immut,
                                const_: false,
                            });
                            assert(assignment_at(t, p, let_, immut, xs, q, value, end));
                        },
                        None => {},
                    }
                },
                None => {},
            }
        },
        None => {},
    }
}

/// What begins with `let` or `immut`, if anything, is an assignment.
pub proof fn modified_is_assignment(t: Seq<TokenView>, p: int)
    requires
        derivation::sees(t, p, TokenView::Keyword(Keyword::Let)) || derivation::sees(
            t,
            p,
            TokenView::Keyword(Keyword::Immut),
        ),
    ensures
        derivation::statements(t)(p) == grammar::assign(t, grammar::exprs(t))(p),
{
    let e = grammar::exprs(t);
    laws::expr_begins(t, p);
    assert(e(p) is None);
    assert(grammar::func(t, e, grammar::bodies(t))(p) is None);
    assert(grammar::require(t)(p) is None);
    assert(grammar::expr_statement(t, e)(p) is None);
}

/// What begins with an expression is an assignment where there is one, and else that expression.
pub proof fn assignment_goes_first(t: Seq<TokenView>, p: int)
    requires
        0 <= p <= t.len(),
        grammar::expr_at(t, p) is Some,
        grammar::assign(t, grammar::exprs(t))(p) is Some,
    ensures
        derivation::statements(t)(p) == grammar::assign(t, grammar::exprs(t))(p),
{
    laws::expr_begins(t, p);
    let e = grammar::exprs(t);
    assert(grammar::func(t, e, grammar::bodies(t))(p) is None);
}

/// The parts of a function: a name, parameters in parentheses and a block.
pub open spec fn func_at(
    t: Seq<TokenView>,
    p: int,
    name: Seq<char>,
    c: bool,
    params: Seq<ParamView>,
    q: int,
    body: BodyView,
    end: int,
) -> bool {
    &&& derivation::sees(t, p + 1, TokenView::Identifier(name))
    &&& derivation::sees(t, p + 2, TokenView::StartBracket(Bracket::Paren))
    &&& writing::listed(t, c, derivation::params(t), params, 0, p + 3, q)
    &&& derivation::sees(t, q, TokenView::EndBracket(Bracket::Paren))
    &&& derivation::block_at(t, q + 1, body, end)
}

/// What begins with `func`, if anything, is a function with all its parts.
pub proof fn func_has_parts(t: Seq<TokenView>, p: int, x: NodeView, end: int)
    requires
        derivation::sees(t, p, TokenView::Keyword(Keyword::Func)),
        derivation::statements(t)(p) == Some((x, end)),
    ensures
        exists|name: Seq<char>, c: bool, params: Seq<ParamView>, q: int, body: BodyView|
            x == (NodeView::Func { name, params, body: body.0, return_last: body.1 })
                && #[trigger] func_at(t, p, name, c, params, q, body, end),
{
    let e = grammar::exprs(t);
    let b = grammar::bodies(t);
    let a = derivation::params(t);
    laws::expr_begins(t, p);
    assert(e(p) is None);
    assert(grammar::require(t)(p) is None);
    assert(grammar::modifiers(t)(p) == Some(((None::<TokenView>, None::<TokenView>), p)));
    assert(grammar::targets(t, true)(p) is None);
    assert(grammar::assign(t, e)(p) is None);
    assert(grammar::expr_statement(t, e)(p) is None);
    assert(grammar::func(t, e, b)(p) == Some((x, end)));
    let list = grammar::within(t, Bracket::Paren, grammar::list(t, a));
    let name_rule = grammar::second(
        grammar::token(t, TokenView::Keyword(Keyword::Func)),
        grammar::identifier(t),
    );
    assert(grammar::both(grammar::both(name_rule, list), grammar::block(t, b))(p) is Some);
    assert(grammar::both(name_rule, list)(p) is Some);
    assert(name_rule(p) matches Some((_, q)) && q == p + 2);
    assert(list(p + 2) is Some);
    match grammar::list(t, a)(p + 3) {
        Some((items, q)) => {
            lemma_list(t, a, p + 3, items, q);
            let c = choose|c: bool| #[trigger] writing::listed(t, c, a, items, 0, p + 3, q);
            assert(grammar::within(t, Bracket::Paren, grammar::list(t, a))(p + 2) == Some(
                (items, q + 1),
            ));
            match grammar::block(t, b)(q + 1) {
                Some((body, r)) => {
                    assert(b(q + 2) == Some((body, r - 1)));
                    assert(r == end);
                    assert(derivation::block_at(t, q + 1, body, end));
                    let name = t[p + 1]->Identifier_0;
                    assert(x == NodeView::Func {
                        name,
                        params: items,
                        body: body.0,
                        return_last: body.1,
                    });
                    assert(func_at(t, p, name, c, items, q, body, end));
                },
                None => {},
            }
        },
        None => {},
    }
}

/// A parameter begins with a plain target, and has nothing else but perhaps a default.
pub proof fn parameter_has_a_target(t: Seq<TokenView>, p: int, x: ParamView, end: int)
    requires
        derivation::params(t)(p) == Some((x, end)),
    ensures
        exists|q: int| #[trigger]
            derivation::plain_target_at(t, x.target, p, q) && match x.default {
                Some(e) => derivation::sees(t, q, TokenView::Assign) && grammar::expr_at(t, q + 1)
                    == Some((e, end)),
                None => q == end,
            },
{
    match grammar::plain_target(t)(p) {
        Some((y, q)) => {
            lemma_plain_target(t, p, y, q);
            assert(grammar::exprs(t)(q + 1) == grammar::expr_at(t, q + 1));
            assert(derivation::plain_target_at(t, x.target, p, q));
        },
        None => {},
    }
}

} // verus!
