//! The grammar as rules of inference: what is read at a place, from what is read at the places
//! behind it. Each law goes from the tokens and the parts to the whole, so that together they fix
//! the tree of every program.

use crate::ast::{BodyView, ExprView, NodeView, ParamView, TargetView};
use crate::grammar;
use crate::grammar::{Rule, LOOSEST};
use crate::laws;
use crate::nesting;
use crate::token::{Bracket, Keyword, LiteralView, Operator, TokenView};
use crate::writing;
use vstd::prelude::*;

verus! {

// ----------------------------------------------------------------------------------------------
// The rules of the language, with each other for what is nested.
// ----------------------------------------------------------------------------------------------

/// Atoms with their attributes.
pub open spec fn attrs(t: Seq<TokenView>) -> Rule<ExprView> {
    grammar::attribute(t, grammar::exprs(t), grammar::bodies(t))
}

/// Atoms with their attributes, perhaps called.
pub open spec fn calls(t: Seq<TokenView>) -> Rule<ExprView> {
    grammar::call(t, grammar::exprs(t), grammar::bodies(t))
}

/// Operands: calls behind prefix operators.
pub open spec fn operands(t: Seq<TokenView>) -> Rule<ExprView> {
    grammar::unary(t, grammar::exprs(t), grammar::bodies(t))
}

/// Statements.
pub open spec fn statements(t: Seq<TokenView>) -> Rule<NodeView> {
    grammar::statement(t, grammar::exprs(t), grammar::bodies(t))
}

/// Parameters.
pub open spec fn params(t: Seq<TokenView>) -> Rule<ParamView> {
    grammar::param(t, grammar::exprs(t))
}

/// The token at a place is the given one.
pub open spec fn sees(t: Seq<TokenView>, p: int, x: TokenView) -> bool {
    0 <= p < t.len() && t[p] == x
}

/// The token at a place is an identifier.
pub open spec fn sees_name(t: Seq<TokenView>, p: int) -> bool {
    0 <= p < t.len() && t[p] is Identifier
}

/// A dot stands here, with the given name behind it.
pub open spec fn dot_name_at(t: Seq<TokenView>, p: int, name: Seq<char>) -> bool {
    sees(t, p, TokenView::Dot) && sees(t, p + 1, TokenView::Identifier(name))
}

/// The given names stand here, one behind the other, a dot before each.
pub open spec fn dotted_at(t: Seq<TokenView>, names: Seq<Seq<char>>, p: int) -> bool {
    forall|i: int| 0 <= i < names.len() ==> dot_name_at(t, p + 2 * i, #[trigger] names[i])
}

/// No further attribute begins here.
pub open spec fn dots_end(t: Seq<TokenView>, p: int) -> bool {
    !(sees(t, p, TokenView::Dot) && sees_name(t, p + 1))
}

// ----------------------------------------------------------------------------------------------
// Atoms.
// ----------------------------------------------------------------------------------------------

/// A literal is the expression with its value.
pub proof fn literal_is_atom(t: Seq<TokenView>, p: int, l: LiteralView)
    requires
        sees(t, p, TokenView::Literal(l)),
    ensures
        l matches LiteralView::Integer(n) ==> laws::atoms(t)(p) == Some(
            (ExprView::Integer(n), p + 1),
        ),
        l matches LiteralView::Float(s) ==> laws::atoms(t)(p) == Some((ExprView::Float(s), p + 1)),
        l matches LiteralView::String(s) ==> laws::atoms(t)(p) == Some(
            (ExprView::String(s), p + 1),
        ),
{
}

/// A name is itself, but for the two truth values.
pub proof fn name_is_atom(t: Seq<TokenView>, p: int, name: Seq<char>)
    requires
        sees(t, p, TokenView::Identifier(name)),
    ensures
        laws::atoms(t)(p) == Some(
            (
                if name == seq!['t', 'r', 'u', 'e'] {
                    ExprView::Bool(true)
                } else if name == seq!['f', 'a', 'l', 's', 'e'] {
                    ExprView::Bool(false)
                } else {
                    ExprView::Ident(name)
                },
                p + 1,
            ),
        ),
{
    reveal_strlit("true");
    reveal_strlit("false");
    assert("true"@ =~= seq!['t', 'r', 'u', 'e']);
    assert("false"@ =~= seq!['f', 'a', 'l', 's', 'e']);
}

/// Parentheses hold one expression, and leave no trace.
pub proof fn parenthesized_is_atom(t: Seq<TokenView>, p: int)
    requires
        sees(t, p, TokenView::StartBracket(Bracket::Paren)),
    ensures
        match grammar::expr_at(t, p + 1) {
            Some((x, q)) => laws::atoms(t)(p) == (if sees(
                t,
                q,
                TokenView::EndBracket(Bracket::Paren),
            ) {
                Some((x, q + 1))
            } else {
                None
            }),
            None => laws::atoms(t)(p) is None,
        },
{
    let e = grammar::exprs(t);
    let b = grammar::bodies(t);
    assert(e(p + 1) == grammar::expr_at(t, p + 1));
    assert(grammar::literal(t)(p) is None);
    assert(grammar::identifier(t)(p) is None);
    assert(grammar::if_else(t, e, b)(p) is None);
    assert(grammar::within(t, Bracket::Bracket, grammar::list(t, e))(p) is None);
    nesting::lemma_expr(t, p + 1);
}

/// Expressions with commas between them, from `p` to a closing bracket at `q`.
pub open spec fn items_at(
    t: Seq<TokenView>,
    c: bool,
    items: Seq<ExprView>,
    p: int,
    q: int,
) -> bool {
    &&& 0 <= p <= t.len()
    &&& writing::listed(t, c, grammar::exprs(t), items, 0, p, q)
    &&& 0 <= q < t.len()
    &&& t[q] is EndBracket
}

proof fn lemma_items(t: Seq<TokenView>, c: bool, items: Seq<ExprView>, p: int, q: int)
    requires
        items_at(t, c, items, p, q),
    ensures
        grammar::list(t, grammar::exprs(t))(p) == Some((items, q)),
{
    let e = grammar::exprs(t);
    assert forall|r: int| #![trigger e(r)] p <= r <= t.len() implies (e(r) matches Some((_, s))
        ==> r < s <= t.len()) by {
        laws::expr_takes_a_token(t, r);
    }
    laws::expr_begins(t, q);
    writing::lemma_listed(t, c, e, items, p, q);
}

/// Square brackets hold the items of an array.
pub proof fn bracketed_is_array(
    t: Seq<TokenView>,
    c: bool,
    items: Seq<ExprView>,
    p: int,
    q: int,
)
    requires
        sees(t, p, TokenView::StartBracket(Bracket::Bracket)),
        items_at(t, c, items, p + 1, q),
        sees(t, q, TokenView::EndBracket(Bracket::Bracket)),
    ensures
        laws::atoms(t)(p) == Some((ExprView::Array(items), q + 1)),
{
    let e = grammar::exprs(t);
    let b = grammar::bodies(t);
    lemma_items(t, c, items, p + 1, q);
    assert(grammar::within(t, Bracket::Bracket, grammar::list(t, e))(p) == Some((items, q + 1)));
    assert(grammar::literal(t)(p) is None);
    assert(grammar::identifier(t)(p) is None);
    assert(grammar::within(t, Bracket::Paren, e)(p) is None);
    assert(grammar::if_else(t, e, b)(p) is None);
}

/// A body in braces, from the opening one at `p` to behind the closing one.
pub open spec fn block_at(t: Seq<TokenView>, p: int, x: BodyView, q: int) -> bool {
    &&& sees(t, p, TokenView::StartBracket(Bracket::Brace))
    &&& grammar::body_at(t, p + 1) == Some((x, q - 1))
    &&& sees(t, q - 1, TokenView::EndBracket(Bracket::Brace))
}

/// The branches from `i` on, each `else if`, a condition and a block.
pub open spec fn branches_at(
    t: Seq<TokenView>,
    items: Seq<(ExprView, BodyView)>,
    i: int,
    p: int,
    end: int,
) -> bool
    decreases items.len() - i,
{
    if 0 <= i < items.len() {
        &&& sees(t, p, TokenView::Keyword(Keyword::Else))
        &&& sees(t, p + 1, TokenView::Keyword(Keyword::If))
        &&& grammar::expr_at(t, p + 2) matches Some((c, q)) && c == items[i].0 && exists|r: int|
            #[trigger] block_at(t, q, items[i].1, r) && branches_at(t, items, i + 1, r, end)
    } else {
        p == end
    }
}

/// A body in braces stands here.
pub open spec fn block_begins(t: Seq<TokenView>, p: int) -> bool {
    &&& sees(t, p, TokenView::StartBracket(Bracket::Brace))
    &&& grammar::body_at(t, p + 1) matches Some((_, q)) && sees(
        t,
        q,
        TokenView::EndBracket(Bracket::Brace),
    )
}

/// `else if`, a condition and a block stand here.
pub open spec fn branch_begins(t: Seq<TokenView>, p: int) -> bool {
    &&& sees(t, p, TokenView::Keyword(Keyword::Else))
    &&& sees(t, p + 1, TokenView::Keyword(Keyword::If))
    &&& grammar::expr_at(t, p + 2) matches Some((_, q)) && block_begins(t, q)
}

proof fn lemma_no_block(t: Seq<TokenView>, p: int)
    requires
        !block_begins(t, p),
    ensures
        grammar::block(t, grammar::bodies(t))(p) is None,
{
    assert(grammar::bodies(t)(p + 1) == grammar::body_at(t, p + 1));
}

proof fn lemma_block(t: Seq<TokenView>, p: int, x: BodyView, q: int)
    requires
        block_at(t, p, x, q),
    ensures
        grammar::block(t, grammar::bodies(t))(p) == Some((x, q)),
        p < q <= t.len(),
{
    nesting::lemma_body_at(t, p + 1);
    assert(grammar::bodies(t)(p + 1) == Some((x, q - 1)));
}

proof fn lemma_branches(
    t: Seq<TokenView>,
    items: Seq<(ExprView, BodyView)>,
    i: int,
    p: int,
    end: int,
)
    requires
        0 <= i <= items.len(),
        branches_at(t, items, i, p, end),
        !branch_begins(t, end),
    ensures
        grammar::run(
            t.len() as int,
            grammar::else_if(t, grammar::exprs(t), grammar::bodies(t)),
            p,
        ) == (items.skip(i), end),
    decreases items.len() - i,
{
    let n = t.len() as int;
    let e = grammar::exprs(t);
    let b = grammar::bodies(t);
    let a = grammar::else_if(t, e, b);
    if i < items.len() {
        let (c, q) = grammar::expr_at(t, p + 2)->0;
        let r = choose|r: int| #[trigger]
            block_at(t, q, items[i].1, r) && branches_at(t, items, i + 1, r, end);
        nesting::lemma_expr(t, p + 2);
        lemma_block(t, q, items[i].1, r);
        lemma_branches(t, items, i + 1, r, end);
        assert(e(p + 2) == Some((c, q)));
        assert(a(p) == Some((items[i], r)));
        writing::lemma_one_more(n, a, p, items, i, r, end);
    } else {
        assert(a(p) is None) by {
            assert(e(p + 2) == grammar::expr_at(t, p + 2));
            if let Some((_, q)) = e(p + 2) {
                if !block_begins(t, q) {
                    lemma_no_block(t, q);
                }
            }
        }
        assert(items.skip(i) =~= Seq::empty());
    }
}

/// `if`, a condition and a block; the branches with `else if`; and a block behind `else`, or none.
pub proof fn if_is_atom(
    t: Seq<TokenView>,
    p: int,
    condition: ExprView,
    q: int,
    body: BodyView,
    r: int,
    branches: Seq<(ExprView, BodyView)>,
    s: int,
    last: Option<BodyView>,
    end: int,
)
    requires
        sees(t, p, TokenView::Keyword(Keyword::If)),
        grammar::expr_at(t, p + 1) == Some((condition, q)),
        block_at(t, q, body, r),
        branches_at(t, branches, 0, r, s),
        !branch_begins(t, s),
        match last {
            Some(x) => sees(t, s, TokenView::Keyword(Keyword::Else)) && block_at(t, s + 1, x, end),
            None => end == s && !(sees(t, s, TokenView::Keyword(Keyword::Else)) && block_begins(
                t,
                s + 1,
            )),
        },
    ensures
        laws::atoms(t)(p) == Some(
            (
                ExprView::If {
                    condition: Box::new(condition),
                    body: body.0,
                    else_if_bodies: branches,
                    else_body: last,
                    return_last: body.1,
                },
                end,
            ),
        ),
{
    let e = grammar::exprs(t);
    let b = grammar::bodies(t);
    assert(e(p + 1) == Some((condition, q)));
    lemma_block(t, q, body, r);
    lemma_branches(t, branches, 0, r, s);
    assert(branches.skip(0) =~= branches);
    match last {
        Some(x) => {
            lemma_block(t, s + 1, x, end);
        },
        None => {
            if !block_begins(t, s + 1) {
                lemma_no_block(t, s + 1);
            }
        },
    }
    let tail = grammar::second(
        grammar::token(t, TokenView::Keyword(Keyword::Else)),
        grammar::block(t, b),
    );
    assert(grammar::optional(tail)(s) == Some((last, end)));
    let x = ExprView::If {
        condition: Box::new(condition),
        body: body.0,
        else_if_bodies: branches,
        else_body: last,
        return_last: body.1,
    };
    assert(grammar::if_else(t, e, b)(p) == Some((x, end)));
    assert(grammar::literal(t)(p) is None);
    assert(grammar::identifier(t)(p) is None);
    assert(grammar::within(t, Bracket::Paren, e)(p) is None);
}

/// `if` without a condition and a block behind it is nothing.
pub proof fn bare_if_is_nothing(t: Seq<TokenView>, p: int)
    requires
        sees(t, p, TokenView::Keyword(Keyword::If)),
        !(grammar::expr_at(t, p + 1) matches Some((_, q)) && block_begins(t, q)),
    ensures
        laws::atoms(t)(p) is None,
{
    let e = grammar::exprs(t);
    let b = grammar::bodies(t);
    assert(e(p + 1) == grammar::expr_at(t, p + 1));
    if let Some((_, q)) = e(p + 1) {
        lemma_no_block(t, q);
    }
    assert(grammar::if_else(t, e, b)(p) is None);
    assert(grammar::literal(t)(p) is None);
    assert(grammar::identifier(t)(p) is None);
    assert(grammar::within(t, Bracket::Paren, e)(p) is None);
    assert(grammar::within(t, Bracket::Bracket, grammar::list(t, e))(p) is None);
}

/// Nothing else is an atom.
pub proof fn atom_begins(t: Seq<TokenView>, p: int)
    ensures
        laws::atoms(t)(p) is Some ==> 0 <= p < t.len() && {
            ||| t[p] is Literal
            ||| t[p] is Identifier
            ||| t[p] == TokenView::StartBracket(Bracket::Paren)
            ||| t[p] == TokenView::StartBracket(Bracket::Bracket)
            ||| t[p] == TokenView::Keyword(Keyword::If)
        },
{
}

/// Without an atom there is nothing to have an attribute or to be called.
pub proof fn nothing_without_an_atom(t: Seq<TokenView>, p: int)
    ensures
        attrs(t)(p) is Some == laws::atoms(t)(p) is Some,
        calls(t)(p) is Some == laws::atoms(t)(p) is Some,
{
}

// ----------------------------------------------------------------------------------------------
// Attributes, calls and prefix operators.
// ----------------------------------------------------------------------------------------------

/// The attribute of the attribute of the value, and so on: the last name is outermost.
pub open spec fn attribute_of(x: ExprView, names: Seq<Seq<char>>) -> ExprView
    decreases names.len(),
{
    if names.len() == 0 {
        x
    } else {
        ExprView::Attr(Box::new(attribute_of(x, names.drop_last())), names.last())
    }
}

proof fn lemma_attributes(x: ExprView, names: Seq<Seq<char>>)
    ensures
        grammar::attributes(x, names) == attribute_of(x, names),
    decreases names.len(),
{
    if names.len() > 0 {
        lemma_attributes(x, names.drop_last());
    }
}

proof fn lemma_dotted_run(t: Seq<TokenView>, names: Seq<Seq<char>>, i: int, p: int)
    requires
        0 <= i <= names.len(),
        dotted_at(t, names, p),
        dots_end(t, p + 2 * names.len()),
    ensures
        grammar::run(t.len() as int, grammar::dotted(t), p + 2 * i) == (
            names.skip(i),
            p + 2 * names.len(),
        ),
    decreases names.len() - i,
{
    let n = t.len() as int;
    let a = grammar::dotted(t);
    if i < names.len() {
        lemma_dotted_run(t, names, i + 1, p);
        let q = p + 2 * i;
        assert(dot_name_at(t, q, names[i]));
        assert(a(q) == Some((names[i], q + 2)));
        writing::lemma_one_more(n, a, q, names, i, q + 2, p + 2 * names.len());
    } else {
        assert(a(p + 2 * i) is None);
        assert(names.skip(i) =~= Seq::empty());
    }
}

/// An atom with any number of dotted names behind it is the attribute of an attribute and so on,
/// with every name in it, the first innermost.
pub proof fn dotted_names_are_attributes(
    t: Seq<TokenView>,
    p: int,
    x: ExprView,
    q: int,
    names: Seq<Seq<char>>,
)
    requires
        laws::atoms(t)(p) == Some((x, q)),
        dotted_at(t, names, q),
        dots_end(t, q + 2 * names.len()),
    ensures
        attrs(t)(p) == Some((attribute_of(x, names), q + 2 * names.len())),
{
    lemma_dotted_run(t, names, 0, q);
    assert(names.skip(0) =~= names);
    lemma_attributes(x, names);
}

/// Without an argument list behind it, what is called is itself.
pub proof fn uncalled_is_itself(t: Seq<TokenView>, p: int, x: ExprView, q: int)
    requires
        attrs(t)(p) == Some((x, q)),
        !sees(t, q, TokenView::StartBracket(Bracket::Paren)),
    ensures
        calls(t)(p) == Some((x, q)),
{
    assert(grammar::arguments(t, grammar::exprs(t))(q) is None);
}

/// With items in parentheses behind it, a value of any kind is called with all of them, in their
/// order, and with nothing else. What is behind them is not looked at.
pub proof fn called_with_items(
    t: Seq<TokenView>,
    p: int,
    x: ExprView,
    q: int,
    c: bool,
    items: Seq<ExprView>,
    r: int,
)
    requires
        attrs(t)(p) == Some((x, q)),
        sees(t, q, TokenView::StartBracket(Bracket::Paren)),
        items_at(t, c, items, q + 1, r),
        sees(t, r, TokenView::EndBracket(Bracket::Paren)),
    ensures
        calls(t)(p) == Some(
            (ExprView::Call { value: Box::new(x), args: items, kwargs: Seq::empty() }, r + 1),
        ),
{
    lemma_items(t, c, items, q + 1, r);
    assert(grammar::arguments(t, grammar::exprs(t))(q) == Some((items, r + 1)));
}

/// A call is an operand.
pub proof fn call_is_operand(t: Seq<TokenView>, p: int, x: ExprView, q: int)
    requires
        calls(t)(p) == Some((x, q)),
    ensures
        operands(t)(p) == Some((x, q)),
{
    let n = t.len() as int;
    assert(!(grammar::at(t, p) matches Some(TokenView::Operator(_))));
    assert(grammar::prefix(t)(p) is None);
    assert(grammar::run(n, grammar::prefix(t), p) == (Seq::<Operator>::empty(), p));
    assert(grammar::prefixed(Seq::empty(), x) == x);
}

/// A minus, a plus, a not or a bitwise not before an operand applies to it, and makes an operand.
pub proof fn prefix_is_operand(t: Seq<TokenView>, p: int, op: Operator, x: ExprView, q: int)
    requires
        sees(t, p, TokenView::Operator(op)),
        op is Sub || op is Add || op is Not || op is BitNot,
        operands(t)(p + 1) == Some((x, q)),
    ensures
        operands(t)(p) == Some((ExprView::UnaryExpr { operator: op, value: Box::new(x) }, q)),
{
    laws::prefix_applies(t, p, op, x, q);
}

/// An operand is a call, or an operand behind one of the four prefix operators.
pub proof fn operand_begins(t: Seq<TokenView>, p: int)
    ensures
        operands(t)(p) is Some ==> {
            ||| calls(t)(p) is Some
            ||| {
                &&& 0 <= p < t.len()
                &&& t[p] matches TokenView::Operator(op) && (op is Sub || op is Add || op is Not
                    || op is BitNot)
                &&& operands(t)(p + 1) is Some
            }
        },
{
    let n = t.len() as int;
    let prefix = grammar::prefix(t);
    match prefix(p) {
        Some((op, q)) => {
            let (ops, r) = grammar::run(n, prefix, p + 1);
            assert(grammar::run(n, prefix, p) == (seq![op] + ops, r));
        },
        None => {
            assert(grammar::run(n, prefix, p) == (Seq::<Operator>::empty(), p));
        },
    }
}

// ----------------------------------------------------------------------------------------------
// Operators between operands.
// ----------------------------------------------------------------------------------------------

/// How loosely an operator binds: powers first, then products, sums, comparisons, `&&`, `||`, and
/// bitwise operators last.
pub open spec fn rank(op: Operator) -> nat {
    if op is Pow {
        1
    } else if op is Mul || op is Div || op is Mod {
        2
    } else if op is Add || op is Sub {
        3
    } else if op is Eq || op is Ne || op is Lt || op is Gt || op is Le || op is Ge {
        4
    } else if op is And {
        5
    } else if op is Or {
        6
    } else if op is BitAnd || op is BitOr || op is BitXor {
        7
    } else {
        0
    }
}

/// What is read with operators of rank `k` at most.
pub open spec fn of_rank(t: Seq<TokenView>, k: nat) -> Rule<ExprView> {
    laws::of_tier(t, k)
}

/// An operator of rank `k` stands here, with an operand of the rank below behind it.
pub open spec fn link_begins(t: Seq<TokenView>, k: nat, p: int) -> bool {
    &&& 0 <= p < t.len()
    &&& t[p] matches TokenView::Operator(op) && rank(op) == k
    &&& of_rank(t, (k - 1) as nat)(p + 1) is Some
}

/// Operators of rank `k`, each with its right operand behind it, from the `i`-th on.
pub open spec fn links_at(
    t: Seq<TokenView>,
    k: nat,
    links: Seq<(Operator, ExprView)>,
    i: int,
    p: int,
    end: int,
) -> bool
    decreases links.len() - i,
{
    if 0 <= i < links.len() {
        &&& sees(t, p, TokenView::Operator(links[i].0))
        &&& rank(links[i].0) == k
        &&& of_rank(t, (k - 1) as nat)(p + 1) matches Some((y, q)) && y == links[i].1 && links_at(
            t,
            k,
            links,
            i + 1,
            q,
            end,
        )
    } else {
        p == end
    }
}

/// All operands joined from the left: the last operator is outermost.
pub open spec fn joined_left(x: ExprView, links: Seq<(Operator, ExprView)>) -> ExprView
    decreases links.len(),
{
    if links.len() == 0 {
        x
    } else {
        ExprView::BinaryExpr {
            operator: links.last().0,
            lhs: Box::new(joined_left(x, links.drop_last())),
            rhs: Box::new(links.last().1),
        }
    }
}

proof fn lemma_rank(op: Operator)
    ensures
        grammar::tier(op) == rank(op),
{
}

proof fn lemma_joined_left(x: ExprView, links: Seq<(Operator, ExprView)>)
    ensures
        grammar::chain(x, links) == joined_left(x, links),
    decreases links.len(),
{
    if links.len() > 0 {
        lemma_joined_left(x, links.drop_last());
    }
}

proof fn lemma_links(
    t: Seq<TokenView>,
    k: nat,
    links: Seq<(Operator, ExprView)>,
    i: int,
    p: int,
    end: int,
)
    requires
        k > 0,
        0 <= i <= links.len(),
        links_at(t, k, links, i, p, end),
        !link_begins(t, k, end),
    ensures
        grammar::run(
            t.len() as int,
            grammar::link(t, k, of_rank(t, (k - 1) as nat)),
            p,
        ) == (links.skip(i), end),
    decreases links.len() - i,
{
    let n = t.len() as int;
    let operand = of_rank(t, (k - 1) as nat);
    let a = grammar::link(t, k, operand);
    if i < links.len() {
        let (y, q) = operand(p + 1)->0;
        nesting::lemma_operand(t, (k - 1) as nat, p + 1);
        lemma_rank(links[i].0);
        lemma_links(t, k, links, i + 1, q, end);
        assert(a(p) == Some((links[i], q)));
        writing::lemma_one_more(n, a, p, links, i, q, end);
    } else {
        if let Some(TokenView::Operator(op)) = grammar::at(t, p) {
            lemma_rank(op);
        }
        assert(a(p) is None);
        assert(links.skip(i) =~= Seq::empty());
    }
}

/// An operand with any number of operators of one rank behind it, each with an operand of the rank
/// below: all of them are joined from the left.
pub proof fn operators_join_from_the_left(
    t: Seq<TokenView>,
    k: nat,
    p: int,
    x: ExprView,
    q: int,
    links: Seq<(Operator, ExprView)>,
    end: int,
)
    requires
        k > 0,
        of_rank(t, (k - 1) as nat)(p) == Some((x, q)),
        links_at(t, k, links, 0, q, end),
        !link_begins(t, k, end),
    ensures
        of_rank(t, k)(p) == Some((joined_left(x, links), end)),
{
    lemma_links(t, k, links, 0, q, end);
    assert(links.skip(0) =~= links);
    lemma_joined_left(x, links);
}

/// Without a first operand there is nothing.
pub proof fn nothing_without_an_operand(t: Seq<TokenView>, k: nat, p: int)
    requires
        k > 0,
    ensures
        of_rank(t, k)(p) is Some == of_rank(t, (k - 1) as nat)(p) is Some,
{
}

/// What has no operators outside brackets is an operand.
pub proof fn lowest_rank_is_operand(t: Seq<TokenView>, p: int)
    ensures
        of_rank(t, 0)(p) == operands(t)(p),
{
}

/// What is read with all operators is an expression.
pub proof fn highest_rank_is_expr(t: Seq<TokenView>, p: int)
    requires
        0 <= p <= t.len(),
    ensures
        grammar::expr_at(t, p) == of_rank(t, 7)(p),
{
    nesting::lemma_expr(t, p);
    assert(LOOSEST == 7);
}

// ----------------------------------------------------------------------------------------------
// Statements.
// ----------------------------------------------------------------------------------------------

/// Names with commas between them, from `p` to a token at `q` that is neither a name nor a comma.
pub open spec fn names_at(
    t: Seq<TokenView>,
    c: bool,
    names: Seq<Seq<char>>,
    i: int,
    p: int,
    q: int,
) -> bool
    decreases names.len() - i,
{
    if 0 <= i < names.len() {
        &&& sees(t, p, TokenView::Identifier(names[i]))
        &&& if c || i + 1 < names.len() {
            sees(t, p + 1, TokenView::Comma) && names_at(t, c, names, i + 1, p + 2, q)
        } else {
            q == p + 1
        }
    } else {
        p == q
    }
}

proof fn lemma_names_listed(
    t: Seq<TokenView>,
    c: bool,
    names: Seq<Seq<char>>,
    i: int,
    p: int,
    q: int,
)
    requires
        0 <= i <= names.len(),
        names_at(t, c, names, i, p, q),
    ensures
        writing::listed(t, c, grammar::identifier(t), names, i, p, q),
    decreases names.len() - i,
{
    if i < names.len() {
        if c || i + 1 < names.len() {
            lemma_names_listed(t, c, names, i + 1, p + 2, q);
        }
    }
}

proof fn lemma_names(t: Seq<TokenView>, c: bool, names: Seq<Seq<char>>, p: int, q: int)
    requires
        0 <= p <= t.len(),
        names.len() > 0,
        names_at(t, c, names, 0, p, q),
        !sees_name(t, q),
        !sees(t, q, TokenView::Comma),
    ensures
        grammar::list1(t, grammar::identifier(t))(p) == Some((names, q)),
{
    lemma_names_listed(t, c, names, 0, p, q);
    writing::lemma_listed(t, c, grammar::identifier(t), names, p, q);
}

/// `require` and names require just these.
pub proof fn require_is_statement(
    t: Seq<TokenView>,
    p: int,
    c: bool,
    names: Seq<Seq<char>>,
    q: int,
)
    requires
        sees(t, p, TokenView::Keyword(Keyword::Require)),
        names.len() > 0,
        names_at(t, c, names, 0, p + 1, q),
        sees(t, q, TokenView::Semicolon),
    ensures
        statements(t)(p) == Some((NodeView::Require(names), q + 1)),
{
    lemma_names(t, c, names, p + 1, q);
    let e = grammar::exprs(t);
    assert(grammar::require(t)(p) == Some((NodeView::Require(names), q + 1)));
    assert(grammar::func(t, e, grammar::bodies(t))(p) is None);
    assert(grammar::modifiers(t)(p) == Some(((None::<TokenView>, None::<TokenView>), p)));
    assert(grammar::targets(t, true)(p) is None);
}

/// The attribute of the attribute of a name, and so on: the last name is outermost.
pub open spec fn target_of(name: Seq<char>, names: Seq<Seq<char>>) -> TargetView
    decreases names.len(),
{
    if names.len() == 0 {
        TargetView::Ident(name)
    } else {
        TargetView::Attr(Box::new(target_of(name, names.drop_last())), names.last())
    }
}

pub proof fn lemma_target_of(name: Seq<char>, names: Seq<Seq<char>>)
    ensures
        grammar::path(name, names) == target_of(name, names),
    decreases names.len(),
{
    if names.len() > 0 {
        lemma_target_of(name, names.drop_last());
    }
}

/// A list of names in square brackets, as a target.
pub open spec fn names_target(names: Seq<Seq<char>>) -> TargetView {
    TargetView::Array(Seq::new(names.len(), |i: int| TargetView::Ident(names[i])))
}

/// A name, or names in square brackets, from `p` to `q`.
pub open spec fn plain_target_at(t: Seq<TokenView>, x: TargetView, p: int, q: int) -> bool {
    ||| sees_name(t, p) && x == TargetView::Ident(t[p]->Identifier_0) && q == p + 1
    ||| exists|c: bool, names: Seq<Seq<char>>| #[trigger] bracketed_names_at(t, c, names, x, p, q)
}

/// Names in square brackets, from `p` to `q`.
pub open spec fn bracketed_names_at(
    t: Seq<TokenView>,
    c: bool,
    names: Seq<Seq<char>>,
    x: TargetView,
    p: int,
    q: int,
) -> bool {
    &&& sees(t, p, TokenView::StartBracket(Bracket::Bracket))
    &&& names.len() > 0
    &&& names_at(t, c, names, 0, p + 1, q - 1)
    &&& sees(t, q - 1, TokenView::EndBracket(Bracket::Bracket))
    &&& x == names_target(names)
}

proof fn lemma_plain_target(t: Seq<TokenView>, x: TargetView, p: int, q: int)
    requires
        plain_target_at(t, x, p, q),
    ensures
        grammar::plain_target(t)(p) == Some((x, q)),
{
    if sees_name(t, p) {
    } else {
        let (c, names) = choose|c: bool, names: Seq<Seq<char>>| #[trigger]
            bracketed_names_at(t, c, names, x, p, q);
        lemma_names(t, c, names, p + 1, q - 1);
        assert(grammar::name_targets(names) =~= names_target(names)->Array_0);
        let rule = grammar::list1(t, grammar::identifier(t));
        assert(grammar::within(t, Bracket::Bracket, rule)(p) == Some((names, q)));
        assert(grammar::identifier(t)(p) is None);
    }
}

/// A target with its `=`, from `p` to behind that: a plain one or, where attributes are allowed, a
/// name with dotted names.
pub open spec fn target_at(
    t: Seq<TokenView>,
    attributes: bool,
    x: TargetView,
    p: int,
    q: int,
) -> bool {
    &&& sees(t, q - 1, TokenView::Assign)
    &&& {
        ||| plain_target_at(t, x, p, q - 1)
        ||| attributes && exists|name: Seq<char>, names: Seq<Seq<char>>| #[trigger]
            path_at(t, name, names, x, p, q - 1)
    }
}

/// A name with dotted names, from `p` to `q`.
pub open spec fn path_at(
    t: Seq<TokenView>,
    name: Seq<char>,
    names: Seq<Seq<char>>,
    x: TargetView,
    p: int,
    q: int,
) -> bool {
    &&& sees(t, p, TokenView::Identifier(name))
    &&& dotted_at(t, names, p + 1)
    &&& q == p + 1 + 2 * names.len()
    &&& x == target_of(name, names)
}

proof fn lemma_target(t: Seq<TokenView>, attributes: bool, x: TargetView, p: int, q: int)
    requires
        target_at(t, attributes, x, p, q),
    ensures
        grammar::target_eq(t, attributes)(p) == Some((x, q)),
        0 <= p < q <= t.len(),
        sees_name(t, p) || sees(t, p, TokenView::StartBracket(Bracket::Bracket)),
{
    if attributes && exists|name: Seq<char>, names: Seq<Seq<char>>| #[trigger]
        path_at(t, name, names, x, p, q - 1) {
        let (name, names) = choose|name: Seq<char>, names: Seq<Seq<char>>| #[trigger]
            path_at(t, name, names, x, p, q - 1);
        lemma_dotted_run(t, names, 0, p + 1);
        assert(names.skip(0) =~= names);
        lemma_target_of(name, names);
        assert(grammar::target(t, attributes)(p) == Some((x, q - 1)));
    } else {
        lemma_plain_target(t, x, p, q - 1);
        if attributes && sees_name(t, p) {
            let name = t[p]->Identifier_0;
            lemma_dotted_run(t, Seq::empty(), 0, p + 1);
            assert(grammar::path(name, Seq::empty()) == TargetView::Ident(name));
        }
        nesting::lemma_target_eq_at(t, attributes, p);
    }
    nesting::lemma_target_eq_at(t, attributes, p);
}

/// Targets, each with its `=`, from the `i`-th on.
pub open spec fn targets_at(
    t: Seq<TokenView>,
    attributes: bool,
    xs: Seq<TargetView>,
    i: int,
    p: int,
    end: int,
) -> bool
    decreases xs.len() - i,
{
    if 0 <= i < xs.len() {
        exists|q: int| #[trigger]
            target_at(t, attributes, xs[i], p, q) && targets_at(t, attributes, xs, i + 1, q, end)
    } else {
        p == end
    }
}

proof fn lemma_targets_run(
    t: Seq<TokenView>,
    attributes: bool,
    xs: Seq<TargetView>,
    i: int,
    p: int,
    end: int,
)
    requires
        0 <= i <= xs.len(),
        targets_at(t, attributes, xs, i, p, end),
        grammar::target_eq(t, attributes)(end) is None,
    ensures
        grammar::run(t.len() as int, grammar::target_eq(t, attributes), p) == (xs.skip(i), end),
    decreases xs.len() - i,
{
    let n = t.len() as int;
    let a = grammar::target_eq(t, attributes);
    if i < xs.len() {
        let q = choose|q: int| #[trigger]
            target_at(t, attributes, xs[i], p, q) && targets_at(t, attributes, xs, i + 1, q, end);
        lemma_target(t, attributes, xs[i], p, q);
        lemma_targets_run(t, attributes, xs, i + 1, q, end);
        writing::lemma_one_more(n, a, p, xs, i, q, end);
    } else {
        assert(xs.skip(i) =~= Seq::empty());
    }
}

/// Perhaps `let` and perhaps `immut`, one target or more, each with its `=`, one expression and a
/// semicolon assign that expression to these targets. An attribute is among them only where there
/// is neither `let` nor `immut`.
pub proof fn assignment_is_statement(
    t: Seq<TokenView>,
    let_: bool,
    immut: bool,
    p: int,
    targets: Seq<TargetView>,
    q: int,
    value: ExprView,
    r: int,
)
    requires
        0 <= p,
        let_ ==> sees(t, p, TokenView::Keyword(Keyword::Let)),
        immut ==> sees(
            t,
            if let_ {
                p + 1
            } else {
                p
            },
            TokenView::Keyword(Keyword::Immut),
        ),
        targets.len() > 0,
        targets_at(
            t,
            !let_ && !immut,
            targets,
            0,
            p + (if let_ {
                1int
            } else {
                0
            }) + (if immut {
                1int
            } else {
                0
            }),
            q,
        ),
        0 <= q <= t.len(),
        grammar::expr_at(t, q) == Some((value, r)),
        sees(t, r, TokenView::Semicolon),
    ensures
        statements(t)(p) == Some(
            (NodeView::Assign { targets, value, let_, immut, const_: false }, r + 1),
        ),
{
    let attributes = !let_ && !immut;
    let p2 = p + (if let_ {
        1int
    } else {
        0
    }) + (if immut {
        1int
    } else {
        0
    });
    let a = grammar::target_eq(t, attributes);
    laws::expr_is_not_assigned(t, q);
    let s = choose|s: int| #[trigger]
        target_at(t, attributes, targets[0], p2, s) && targets_at(t, attributes, targets, 1, s, q);
    lemma_target(t, attributes, targets[0], p2, s);
    lemma_targets_run(t, attributes, targets, 1, s, q);
    assert(seq![targets[0]] + targets.skip(1) =~= targets);
    assert(grammar::targets(t, attributes)(p2) == Some((targets, q)));
    let m0 = if let_ {
        Some(TokenView::Keyword(Keyword::Let))
    } else {
        None
    };
    let m1 = if immut {
        Some(TokenView::Keyword(Keyword::Immut))
    } else {
        None
    };
    assert(grammar::modifiers(t)(p) == Some(((m0, m1), p2)));
    let e = grammar::exprs(t);
    let x = NodeView::Assign { targets, value, let_, immut, const_: false };
    assert(e(q) == Some((value, r)));
    assert(grammar::assignment(t, e, let_, immut)(p2) == Some((x, r + 1)));
    assert(grammar::assign(t, e)(p) == Some((x, r + 1)));
    assert(grammar::func(t, e, grammar::bodies(t))(p) is None);
}

/// A plain target, and with `=` behind it one expression, are a parameter with that default.
pub proof fn parameter_is_read(t: Seq<TokenView>, p: int, x: TargetView, q: int)
    requires
        plain_target_at(t, x, p, q),
    ensures
        params(t)(p) == (match grammar::expr_at(t, q + 1) {
            Some((e, r)) if sees(t, q, TokenView::Assign) => Some(
                (ParamView { target: x, default: Some(e) }, r),
            ),
            _ => Some((ParamView { target: x, default: None }, q)),
        }),
{
    lemma_plain_target(t, x, p, q);
    assert(grammar::exprs(t)(q + 1) == grammar::expr_at(t, q + 1));
}

/// `func`, a name, parameters in parentheses and a block are a function of just these.
pub proof fn func_is_statement(
    t: Seq<TokenView>,
    p: int,
    name: Seq<char>,
    c: bool,
    items: Seq<ParamView>,
    q: int,
    body: BodyView,
    r: int,
)
    requires
        sees(t, p, TokenView::Keyword(Keyword::Func)),
        sees(t, p + 1, TokenView::Identifier(name)),
        sees(t, p + 2, TokenView::StartBracket(Bracket::Paren)),
        writing::listed(t, c, params(t), items, 0, p + 3, q),
        sees(t, q, TokenView::EndBracket(Bracket::Paren)),
        block_at(t, q + 1, body, r),
    ensures
        statements(t)(p) == Some(
            (NodeView::Func { name, params: items, body: body.0, return_last: body.1 }, r),
        ),
{
    let a = params(t);
    let e = grammar::exprs(t);
    let b = grammar::bodies(t);
    assert forall|s: int| #![trigger a(s)] p + 3 <= s <= t.len() implies (a(s) matches Some((_, u))
        ==> s < u <= t.len()) by {
        nesting::lemma_parameter(t, s);
    }
    assert(a(q) is None);
    writing::lemma_listed(t, c, a, items, p + 3, q);
    lemma_block(t, q + 1, body, r);
    let list = grammar::list(t, a);
    assert(grammar::within(t, Bracket::Paren, list)(p + 2) == Some((items, q + 1)));
    let x = NodeView::Func { name, params: items, body: body.0, return_last: body.1 };
    assert(grammar::func(t, e, b)(p) == Some((x, r)));
}

/// What an expression is as a statement, by what stands behind it: with a semicolon it takes that;
/// an `if` needs none, and nor does another with a further token behind it that does not close the
/// block; at the end it is no statement. One with `=` behind it may be assigned to instead.
pub proof fn expr_as_statement(t: Seq<TokenView>, p: int, x: ExprView, q: int)
    requires
        0 <= p <= t.len(),
        grammar::expr_at(t, p) == Some((x, q)),
        sees(t, q, TokenView::Assign) ==> grammar::assign(t, grammar::exprs(t))(p) is None,
    ensures
        statements(t)(p) == (if sees(t, q, TokenView::Semicolon) {
            Some((NodeView::Expr(x), q + 1))
        } else if x is If {
            Some((NodeView::Expr(x), q))
        } else if q < t.len() && t[q] != TokenView::EndBracket(Bracket::Brace) {
            Some((NodeView::Expr(x), q))
        } else {
            None
        }),
{
    let e = grammar::exprs(t);
    nesting::lemma_expr(t, p);
    laws::expr_begins(t, p);
    if !sees(t, q, TokenView::Assign) {
        laws::expr_is_not_assigned(t, p);
    }
    assert(e(p) == Some((x, q)));
    assert(grammar::func(t, e, grammar::bodies(t))(p) is None);
    assert(grammar::require(t)(p) is None);
}

/// A statement begins with one of four keywords, or with what an expression begins with.
pub proof fn statement_begins(t: Seq<TokenView>, p: int)
    requires
        0 <= p <= t.len(),
    ensures
        statements(t)(p) is Some ==> {
            ||| sees(t, p, TokenView::Keyword(Keyword::Func))
            ||| sees(t, p, TokenView::Keyword(Keyword::Let))
            ||| sees(t, p, TokenView::Keyword(Keyword::Immut))
            ||| sees(t, p, TokenView::Keyword(Keyword::Require))
            ||| grammar::expr_at(t, p) is Some
        },
{
    let e = grammar::exprs(t);
    assert(e(p) == grammar::expr_at(t, p));
    laws::target_reads_as_expr(t, true, p);
}

// ----------------------------------------------------------------------------------------------
// Bodies.
// ----------------------------------------------------------------------------------------------

/// A statement and the body behind it are a body: the statement first, and then that body.
pub proof fn statement_goes_first(t: Seq<TokenView>, p: int, x: NodeView, q: int)
    requires
        0 <= p <= t.len(),
        statements(t)(p) == Some((x, q)),
    ensures
        grammar::body_at(t, q) matches Some((y, r)) && grammar::body_at(t, p) == Some(
            (BodyView(seq![x] + y.0, y.1), r),
        ),
{
    let n = t.len() as int;
    let a = statements(t);
    nesting::lemma_statements_end(t, p);
    nesting::lemma_body_at(t, p);
    nesting::lemma_body_at(t, q);
    let (xs, m) = grammar::run(n, a, q);
    assert(grammar::run(n, a, p) == (seq![x] + xs, m));
    if let Some((e, _)) = grammar::expr_at(t, m) {
        assert(grammar::exprs(t)(m) == grammar::expr_at(t, m));
        assert((seq![x] + xs).push(NodeView::Expr(e)) =~= seq![x] + xs.push(NodeView::Expr(e)));
    } else {
        assert(grammar::exprs(t)(m) is None);
    }
}

/// Where no statement begins, a body is one value that is returned, or nothing.
pub proof fn value_goes_last(t: Seq<TokenView>, p: int)
    requires
        0 <= p <= t.len(),
        statements(t)(p) is None,
    ensures
        grammar::body_at(t, p) == (match grammar::expr_at(t, p) {
            Some((x, q)) => Some((BodyView(seq![NodeView::Expr(x)], true), q)),
            None => Some((BodyView(Seq::empty(), false), p)),
        }),
{
    let n = t.len() as int;
    nesting::lemma_body_at(t, p);
    assert(grammar::run(n, statements(t), p) == (Seq::<NodeView>::empty(), p));
    assert(grammar::exprs(t)(p) == grammar::expr_at(t, p));
    if let Some((x, _)) = grammar::expr_at(t, p) {
        assert(Seq::<NodeView>::empty().push(NodeView::Expr(x)) =~= seq![NodeView::Expr(x)]);
    }
}

} // verus!
