//! What is read in one token sequence is read in another that holds it: how far a rule looks, and
//! when what stands behind its tree does not matter.

use crate::ast::{BodyView, ExprView, NodeView, TargetView};
use crate::grammar;
use crate::grammar::{Rule, Step};
use crate::nesting;
use crate::token::{Bracket, Keyword, Operator, TokenView};
use vstd::prelude::*;

verus! {

// ----------------------------------------------------------------------------------------------
// Brackets.
// ----------------------------------------------------------------------------------------------

/// What a token adds to the depth: of all brackets, or of braces only.
pub open spec fn weight(x: TokenView, braces: bool) -> int {
    match x {
        TokenView::StartBracket(b) => if braces && !(b is Brace) {
            0
        } else {
            1
        },
        TokenView::EndBracket(b) => if braces && !(b is Brace) {
            0
        } else {
            -1
        },
        _ => 0,
    }
}

/// By how much the opening brackets before `p` outnumber the closing ones: of all brackets, or of
/// braces only.
#[verifier::opaque]
pub open spec fn depth(t: Seq<TokenView>, braces: bool, p: int) -> int
    decreases p,
{
    if p <= 0 {
        0
    } else {
        depth(t, braces, p - 1) + weight(t[p - 1], braces)
    }
}

/// Two places are equally deep.
pub open spec fn level(t: Seq<TokenView>, p: int, q: int) -> bool {
    &&& depth(t, false, p) == depth(t, false, q)
    &&& depth(t, true, p) == depth(t, true, q)
}

/// Before the first token nothing is open.
pub proof fn lemma_depth_begins(t: Seq<TokenView>)
    ensures
        depth(t, false, 0) == 0,
        depth(t, true, 0) == 0,
{
    reveal(depth);
}

/// One token further.
pub proof fn lemma_depth(t: Seq<TokenView>, p: int)
    requires
        0 <= p < t.len(),
    ensures
        depth(t, false, p + 1) == depth(t, false, p) + weight(t[p], false),
        depth(t, true, p + 1) == depth(t, true, p) + weight(t[p], true),
{
    reveal(depth);
}

// ----------------------------------------------------------------------------------------------
// One sequence in another.
// ----------------------------------------------------------------------------------------------

/// The tokens that prolong no expression and begin none.
pub open spec fn stops(x: TokenView) -> bool {
    match x {
        TokenView::Identifier(_) | TokenView::Literal(_) | TokenView::Operator(_) => false,
        TokenView::Keyword(k) => !(k is If || k is Else),
        TokenView::StartBracket(_) | TokenView::Dot => false,
        _ => true,
    }
}

/// The first `n` tokens of `t` stand in `s` from `at` on.
pub struct Window {
    pub t: Seq<TokenView>,
    pub s: Seq<TokenView>,
    pub at: int,
    pub n: int,
}

impl Window {
    /// The tokens are the same, and what stands behind them, in either sequence, stops an
    /// expression. In `t` nothing stands behind them, or else one semicolon, in `s` too.
    pub open spec fn ok(self) -> bool {
        &&& 0 <= self.at
        &&& 0 <= self.n <= self.t.len()
        &&& self.at + self.n <= self.s.len()
        &&& forall|i: int| 0 <= i < self.n ==> #[trigger] self.t[i] == self.s[self.at + i]
        &&& match grammar::at(self.s, self.at + self.n) {
            Some(x) => stops(x),
            None => true,
        }
        &&& self.n == self.t.len() || {
            &&& self.n + 1 == self.t.len()
            &&& self.t[self.n] == TokenView::Semicolon
            &&& self.at + self.n < self.s.len()
            &&& self.s[self.at + self.n] == TokenView::Semicolon
        }
    }

    /// Both sequences end with these tokens.
    pub open spec fn ends(self) -> bool {
        self.n == self.t.len() && self.at + self.n == self.s.len()
    }

    /// How much deeper than the end a place must be for a statement there not to depend on what
    /// stands behind the tokens.
    pub open spec fn slack(self) -> int {
        if self.n == self.t.len() {
            1
        } else {
            0
        }
    }

    /// The same for what is no whole statement: it takes no semicolon outside brackets.
    pub open spec fn mark(self) -> int {
        if grammar::at(self.s, self.at + self.n) == Some(TokenView::Semicolon) {
            0
        } else {
            1
        }
    }

    /// What begins at `p` may depend on what stands behind the tokens: where a bracket that is
    /// opened from `p` on is still open there and, with a slack of one, where none is too.
    pub open spec fn open(self, slack: int, p: int) -> bool {
        !self.ends() && depth(self.t, false, self.n) + slack > depth(self.t, false, p)
    }

    /// The place `q`, or the end of the tokens if it is before that.
    pub open spec fn cut(self, q: int) -> int {
        if q <= self.n {
            q
        } else {
            self.n
        }
    }
}

/// A step in a sequence that stands `k` places further on in another.
pub open spec fn moved<A>(k: int, r: Step<A>) -> Step<A> {
    match r {
        Some((x, q)) => Some((x, k + q)),
        None => None,
    }
}

/// From `f` on, what the first rule gives in the one sequence the second gives in the other,
/// unless it may depend on what stands behind the tokens. It takes at least `m` tokens, with all
/// brackets closed and, if `tight`, none behind them.
pub open spec fn embeds<A>(
    w: Window,
    a1: Rule<A>,
    a2: Rule<A>,
    f: int,
    m: int,
    tight: bool,
    slack: int,
) -> bool {
    forall|p: int|
        #![trigger a1(p)]
        f <= p <= w.n ==> {
            &&& a1(p) matches Some((_, q)) ==> {
                &&& p + m <= q
                &&& tight ==> q <= w.n
                &&& level(w.t, p, w.cut(q))
            }
            &&& w.open(slack, p) || a2(w.at + p) == moved(w.at, a1(p))
        }
}

proof fn lemma_both<A, B>(
    w: Window,
    a1: Rule<A>,
    a2: Rule<A>,
    b1: Rule<B>,
    b2: Rule<B>,
    f: int,
    m: int,
    l: int,
    tight: bool,
    slack: int,
)
    requires
        embeds(w, a1, a2, f, m, true, slack),
        embeds(w, b1, b2, f + m, l, tight, slack),
    ensures
        embeds(w, grammar::both(a1, b1), grammar::both(a2, b2), f, m + l, tight, slack),
        embeds(w, grammar::first(a1, b1), grammar::first(a2, b2), f, m + l, tight, slack),
        embeds(w, grammar::second(a1, b1), grammar::second(a2, b2), f, m + l, tight, slack),
{
}

proof fn lemma_optional<A>(w: Window, a1: Rule<A>, a2: Rule<A>, f: int, m: int, slack: int)
    requires
        embeds(w, a1, a2, f, m, true, slack),
        m >= 0,
    ensures
        embeds(w, grammar::optional(a1), grammar::optional(a2), f, 0, true, slack),
{
}

/// What does not depend on what is behind with little slack does not with more.
proof fn lemma_weaken<A>(
    w: Window,
    a1: Rule<A>,
    a2: Rule<A>,
    f: int,
    m: int,
    tight: bool,
    slack: int,
)
    requires
        embeds(w, a1, a2, f, m, tight, 0),
        slack >= 0,
    ensures
        embeds(w, a1, a2, f, m, tight, slack),
{
}

proof fn lemma_run<A>(w: Window, a1: Rule<A>, a2: Rule<A>, f: int, slack: int, p: int)
    requires
        w.ok(),
        embeds(w, a1, a2, f, 0, true, slack),
        f <= p <= w.n,
    ensures
        ({
            let (xs, q) = grammar::run(w.t.len() as int, a1, p);
            &&& p <= q <= w.n
            &&& level(w.t, p, q)
            &&& w.open(slack, p) || grammar::run(w.s.len() as int, a2, w.at + p) == (xs, w.at + q)
        }),
    decreases w.n - p,
{
    if let Some((x, q)) = a1(p) {
        if p < q {
            lemma_run(w, a1, a2, f, slack, q);
        }
    }
}

proof fn lemma_many<A>(w: Window, a1: Rule<A>, a2: Rule<A>, f: int, m: int, slack: int)
    requires
        w.ok(),
        embeds(w, a1, a2, f, m, true, slack),
        m >= 0,
    ensures
        embeds(w, grammar::many(w.t, a1), grammar::many(w.s, a2), f, 0, true, slack),
{
    let b1 = grammar::many(w.t, a1);
    let b2 = grammar::many(w.s, a2);
    assert forall|p: int| #![trigger b1(p)] f <= p <= w.n implies {
        &&& b1(p) matches Some((_, q)) ==> p <= q <= w.n && level(w.t, p, w.cut(q))
        &&& w.open(slack, p) || b2(w.at + p) == moved(w.at, b1(p))
    } by {
        lemma_run(w, a1, a2, f, slack, p);
    }
}

/// The tokens before the end are the same, and do not add to the depth if they are no brackets.
proof fn lemma_at(w: Window, p: int)
    requires
        w.ok(),
        0 <= p <= w.n,
    ensures
        p < w.n ==> grammar::at(w.s, w.at + p) == grammar::at(w.t, p),
        p < w.n ==> grammar::at(w.t, p) == Some(w.t[p]),
        p < w.n ==> depth(w.t, false, p + 1) == depth(w.t, false, p) + weight(w.t[p], false),
        p < w.n ==> depth(w.t, true, p + 1) == depth(w.t, true, p) + weight(w.t[p], true),
        p == w.n ==> (grammar::at(w.t, p) matches Some(x) ==> x == TokenView::Semicolon),
        p == w.n ==> (grammar::at(w.s, w.at + p) matches Some(x) ==> stops(x)),
        p == w.n && w.n < w.t.len() ==> grammar::at(w.s, w.at + p) == grammar::at(w.t, p),
        p == w.n && w.ends() ==> grammar::at(w.s, w.at + p) is None,
        p == w.n && w.n == w.t.len() ==> grammar::at(w.t, p) is None,
{
    if p < w.n {
        lemma_depth(w.t, p);
    }
}

/// A token that prolongs or begins an expression.
proof fn lemma_token(w: Window, x: TokenView, f: int)
    requires
        w.ok(),
        0 <= f,
        !stops(x),
        !(x is StartBracket),
    ensures
        embeds(w, grammar::token(w.t, x), grammar::token(w.s, x), f, 1, true, 0),
{
    let a1 = grammar::token(w.t, x);
    let a2 = grammar::token(w.s, x);
    assert forall|p: int| #![trigger a1(p)] f <= p <= w.n implies {
        &&& a1(p) matches Some((_, q)) ==> p + 1 <= q <= w.n && level(w.t, p, w.cut(q))
        &&& a2(w.at + p) == moved(w.at, a1(p))
    } by {
        lemma_at(w, p);
    }
}

/// Any token that is neither a bracket nor a semicolon.
proof fn lemma_mark(w: Window, x: TokenView, f: int)
    requires
        w.ok(),
        0 <= f,
        !(x is StartBracket || x is EndBracket || x is Semicolon),
    ensures
        embeds(w, grammar::token(w.t, x), grammar::token(w.s, x), f, 1, true, w.mark()),
{
    let a1 = grammar::token(w.t, x);
    let a2 = grammar::token(w.s, x);
    assert forall|p: int| #![trigger a1(p)] f <= p <= w.n implies {
        &&& a1(p) matches Some((_, q)) ==> p + 1 <= q <= w.n && level(w.t, p, w.cut(q))
        &&& w.open(w.mark(), p) || a2(w.at + p) == moved(w.at, a1(p))
    } by {
        lemma_at(w, p);
    }
}

proof fn lemma_identifier(w: Window, f: int)
    requires
        w.ok(),
        0 <= f,
    ensures
        embeds(w, grammar::identifier(w.t), grammar::identifier(w.s), f, 1, true, 0),
{
    let a1 = grammar::identifier(w.t);
    let a2 = grammar::identifier(w.s);
    assert forall|p: int| #![trigger a1(p)] f <= p <= w.n implies {
        &&& a1(p) matches Some((_, q)) ==> p + 1 <= q <= w.n && level(w.t, p, w.cut(q))
        &&& a2(w.at + p) == moved(w.at, a1(p))
    } by {
        lemma_at(w, p);
    }
}

proof fn lemma_literal(w: Window, f: int)
    requires
        w.ok(),
        0 <= f,
    ensures
        embeds(w, grammar::literal(w.t), grammar::literal(w.s), f, 1, true, 0),
{
    let a1 = grammar::literal(w.t);
    let a2 = grammar::literal(w.s);
    assert forall|p: int| #![trigger a1(p)] f <= p <= w.n implies {
        &&& a1(p) matches Some((_, q)) ==> p + 1 <= q <= w.n && level(w.t, p, w.cut(q))
        &&& a2(w.at + p) == moved(w.at, a1(p))
    } by {
        lemma_at(w, p);
    }
}

proof fn lemma_operator(w: Window, g: spec_fn(Operator) -> bool, f: int)
    requires
        w.ok(),
        0 <= f,
    ensures
        embeds(w, grammar::operator(w.t, g), grammar::operator(w.s, g), f, 1, true, 0),
{
    let a1 = grammar::operator(w.t, g);
    let a2 = grammar::operator(w.s, g);
    assert forall|p: int| #![trigger a1(p)] f <= p <= w.n implies {
        &&& a1(p) matches Some((_, q)) ==> p + 1 <= q <= w.n && level(w.t, p, w.cut(q))
        &&& a2(w.at + p) == moved(w.at, a1(p))
    } by {
        lemma_at(w, p);
    }
}

/// What stands in brackets depends on what is behind only if the bracket is not closed before.
proof fn lemma_within<A>(
    w: Window,
    bracket: Bracket,
    a1: Rule<A>,
    a2: Rule<A>,
    f: int,
    m: int,
    tight: bool,
    slack: int,
)
    requires
        w.ok(),
        0 <= f,
        0 <= m,
        slack <= 1,
        embeds(w, a1, a2, f + 1, m, tight, slack),
    ensures
        embeds(
            w,
            grammar::within(w.t, bracket, a1),
            grammar::within(w.s, bracket, a2),
            f,
            2 + m,
            true,
            0,
        ),
{
    let b1 = grammar::within(w.t, bracket, a1);
    let b2 = grammar::within(w.s, bracket, a2);
    assert forall|p: int| #![trigger b1(p)] f <= p <= w.n implies {
        &&& b1(p) matches Some((_, q)) ==> p + 2 + m <= q <= w.n && level(w.t, p, w.cut(q))
        &&& w.open(0, p) || b2(w.at + p) == moved(w.at, b1(p))
    } by {
        lemma_at(w, p);
        if p < w.n && w.t[p] == TokenView::StartBracket(bracket) {
            if let Some((_, q)) = a1(p + 1) {
                if q <= w.n {
                    lemma_at(w, q);
                }
            }
        }
    }
}

proof fn lemma_list<A>(w: Window, a1: Rule<A>, a2: Rule<A>, f: int)
    requires
        w.ok(),
        0 <= f,
        embeds(w, a1, a2, f, 1, true, w.mark()),
    ensures
        embeds(w, grammar::list1(w.t, a1), grammar::list1(w.s, a2), f, 1, true, w.mark()),
        embeds(w, grammar::list(w.t, a1), grammar::list(w.s, a2), f, 0, true, w.mark()),
{
    let slack = w.mark();
    let comma1 = grammar::token(w.t, TokenView::Comma);
    let comma2 = grammar::token(w.s, TokenView::Comma);
    lemma_mark(w, TokenView::Comma, f);
    lemma_both(w, comma1, comma2, a1, a2, f, 1, 1, true, slack);
    let next1 = grammar::second(comma1, a1);
    let next2 = grammar::second(comma2, a2);
    lemma_many(w, next1, next2, f, 2, slack);
    let more1 = grammar::many(w.t, next1);
    let more2 = grammar::many(w.s, next2);
    lemma_both(w, a1, a2, more1, more2, f, 1, 0, true, slack);
    lemma_optional(w, comma1, comma2, f, 1, slack);
    lemma_both(
        w,
        grammar::both(a1, more1),
        grammar::both(a2, more2),
        grammar::optional(comma1),
        grammar::optional(comma2),
        f,
        1,
        0,
        true,
        slack,
    );
    assert(embeds(w, grammar::list1(w.t, a1), grammar::list1(w.s, a2), f, 1, true, slack));
}

// ----------------------------------------------------------------------------------------------
// Expressions.
// ----------------------------------------------------------------------------------------------

/// Behind `f`, two rules for expressions and two rules for bodies embed.
pub open spec fn nested(
    w: Window,
    e1: Rule<ExprView>,
    e2: Rule<ExprView>,
    b1: Rule<BodyView>,
    b2: Rule<BodyView>,
    f: int,
) -> bool {
    &&& w.ok()
    &&& 0 <= f
    &&& embeds(w, e1, e2, f + 1, 1, true, 0)
    &&& embeds(w, b1, b2, f + 1, 0, false, 1)
}

proof fn lemma_else_if(
    w: Window,
    e1: Rule<ExprView>,
    e2: Rule<ExprView>,
    b1: Rule<BodyView>,
    b2: Rule<BodyView>,
    f: int,
)
    requires
        nested(w, e1, e2, b1, b2, f),
    ensures
        embeds(w, grammar::else_if(w.t, e1, b1), grammar::else_if(w.s, e2, b2), f, 5, true, 0),
{
    let else1 = grammar::token(w.t, TokenView::Keyword(Keyword::Else));
    let else2 = grammar::token(w.s, TokenView::Keyword(Keyword::Else));
    let if1 = grammar::token(w.t, TokenView::Keyword(Keyword::If));
    let if2 = grammar::token(w.s, TokenView::Keyword(Keyword::If));
    lemma_token(w, TokenView::Keyword(Keyword::Else), f);
    lemma_token(w, TokenView::Keyword(Keyword::If), f + 1);
    lemma_both(w, else1, else2, if1, if2, f, 1, 1, true, 0);
    let head1 = grammar::both(else1, if1);
    let head2 = grammar::both(else2, if2);
    lemma_both(w, head1, head2, e1, e2, f, 2, 1, true, 0);
    lemma_within(w, Bracket::Brace, b1, b2, f, 0, false, 1);
    lemma_both(
        w,
        grammar::second(head1, e1),
        grammar::second(head2, e2),
        grammar::block(w.t, b1),
        grammar::block(w.s, b2),
        f,
        3,
        2,
        true,
        0,
    );
}

proof fn lemma_if_else(
    w: Window,
    e1: Rule<ExprView>,
    e2: Rule<ExprView>,
    b1: Rule<BodyView>,
    b2: Rule<BodyView>,
    f: int,
)
    requires
        nested(w, e1, e2, b1, b2, f),
    ensures
        embeds(w, grammar::if_else(w.t, e1, b1), grammar::if_else(w.s, e2, b2), f, 1, true, 0),
{
    let else1 = grammar::token(w.t, TokenView::Keyword(Keyword::Else));
    let else2 = grammar::token(w.s, TokenView::Keyword(Keyword::Else));
    let if1 = grammar::token(w.t, TokenView::Keyword(Keyword::If));
    let if2 = grammar::token(w.s, TokenView::Keyword(Keyword::If));
    let block1 = grammar::block(w.t, b1);
    let block2 = grammar::block(w.s, b2);
    lemma_token(w, TokenView::Keyword(Keyword::Else), f);
    lemma_token(w, TokenView::Keyword(Keyword::If), f);
    lemma_within(w, Bracket::Brace, b1, b2, f, 0, false, 1);
    lemma_both(w, if1, if2, e1, e2, f, 1, 1, true, 0);
    let head1 = grammar::second(if1, e1);
    let head2 = grammar::second(if2, e2);
    lemma_both(w, head1, head2, block1, block2, f, 2, 2, true, 0);
    let part1 = grammar::both(head1, block1);
    let part2 = grammar::both(head2, block2);
    lemma_else_if(w, e1, e2, b1, b2, f);
    lemma_many(w, grammar::else_if(w.t, e1, b1), grammar::else_if(w.s, e2, b2), f, 5, 0);
    let more1 = grammar::many(w.t, grammar::else_if(w.t, e1, b1));
    let more2 = grammar::many(w.s, grammar::else_if(w.s, e2, b2));
    lemma_both(w, part1, part2, more1, more2, f, 4, 0, true, 0);
    lemma_both(w, else1, else2, block1, block2, f, 1, 2, true, 0);
    let tail1 = grammar::second(else1, block1);
    let tail2 = grammar::second(else2, block2);
    lemma_optional(w, tail1, tail2, f, 3, 0);
    lemma_both(
        w,
        grammar::both(part1, more1),
        grammar::both(part2, more2),
        grammar::optional(tail1),
        grammar::optional(tail2),
        f,
        4,
        0,
        true,
        0,
    );
}

proof fn lemma_atom(
    w: Window,
    e1: Rule<ExprView>,
    e2: Rule<ExprView>,
    b1: Rule<BodyView>,
    b2: Rule<BodyView>,
    f: int,
)
    requires
        nested(w, e1, e2, b1, b2, f),
    ensures
        embeds(w, grammar::atom(w.t, e1, b1), grammar::atom(w.s, e2, b2), f, 1, true, 0),
{
    lemma_literal(w, f);
    lemma_identifier(w, f);
    lemma_within(w, Bracket::Paren, e1, e2, f, 1, true, 0);
    lemma_if_else(w, e1, e2, b1, b2, f);
    lemma_weaken(w, e1, e2, f + 1, 1, true, w.mark());
    lemma_list(w, e1, e2, f + 1);
    let list1 = grammar::list(w.t, e1);
    let list2 = grammar::list(w.s, e2);
    lemma_within(w, Bracket::Bracket, list1, list2, f, 0, true, w.mark());
}

proof fn lemma_dotted(w: Window, f: int)
    requires
        w.ok(),
        0 <= f,
    ensures
        embeds(w, grammar::dotted(w.t), grammar::dotted(w.s), f, 2, true, 0),
{
    let dot1 = grammar::token(w.t, TokenView::Dot);
    let dot2 = grammar::token(w.s, TokenView::Dot);
    lemma_token(w, TokenView::Dot, f);
    lemma_identifier(w, f + 1);
    lemma_both(
        w,
        dot1,
        dot2,
        grammar::identifier(w.t),
        grammar::identifier(w.s),
        f,
        1,
        1,
        true,
        0,
    );
}

proof fn lemma_call(
    w: Window,
    e1: Rule<ExprView>,
    e2: Rule<ExprView>,
    b1: Rule<BodyView>,
    b2: Rule<BodyView>,
    f: int,
)
    requires
        nested(w, e1, e2, b1, b2, f),
    ensures
        embeds(w, grammar::call(w.t, e1, b1), grammar::call(w.s, e2, b2), f, 1, true, 0),
{
    let atom1 = grammar::atom(w.t, e1, b1);
    let atom2 = grammar::atom(w.s, e2, b2);
    lemma_atom(w, e1, e2, b1, b2, f);
    lemma_dotted(w, f);
    lemma_many(w, grammar::dotted(w.t), grammar::dotted(w.s), f, 2, 0);
    let more1 = grammar::many(w.t, grammar::dotted(w.t));
    let more2 = grammar::many(w.s, grammar::dotted(w.s));
    lemma_both(w, atom1, atom2, more1, more2, f, 1, 0, true, 0);
    let attribute1 = grammar::attribute(w.t, e1, b1);
    let attribute2 = grammar::attribute(w.s, e2, b2);
    assert(embeds(w, attribute1, attribute2, f, 1, true, 0));
    lemma_weaken(w, e1, e2, f + 1, 1, true, w.mark());
    lemma_list(w, e1, e2, f + 1);
    let list1 = grammar::list(w.t, e1);
    let list2 = grammar::list(w.s, e2);
    lemma_within(w, Bracket::Paren, list1, list2, f, 0, true, w.mark());
    let args1 = grammar::arguments(w.t, e1);
    let args2 = grammar::arguments(w.s, e2);
    lemma_optional(w, args1, args2, f, 2, 0);
    let opt1 = grammar::optional(args1);
    let opt2 = grammar::optional(args2);
    lemma_both(w, attribute1, attribute2, opt1, opt2, f, 1, 0, true, 0);
}

proof fn lemma_binary(
    w: Window,
    e1: Rule<ExprView>,
    e2: Rule<ExprView>,
    b1: Rule<BodyView>,
    b2: Rule<BodyView>,
    tier: nat,
    f: int,
)
    requires
        nested(w, e1, e2, b1, b2, f),
    ensures
        embeds(
            w,
            grammar::binary(w.t, e1, b1, tier),
            grammar::binary(w.s, e2, b2, tier),
            f,
            1,
            true,
            0,
        ),
    decreases tier,
{
    if tier == 0 {
        let prefix1 = grammar::prefix(w.t);
        let prefix2 = grammar::prefix(w.s);
        lemma_operator(w, |op: Operator| grammar::is_prefix(op), f);
        lemma_many(w, prefix1, prefix2, f, 1, 0);
        lemma_call(w, e1, e2, b1, b2, f);
        lemma_both(
            w,
            grammar::many(w.t, prefix1),
            grammar::many(w.s, prefix2),
            grammar::call(w.t, e1, b1),
            grammar::call(w.s, e2, b2),
            f,
            0,
            1,
            true,
            0,
        );
        assert(embeds(w, grammar::unary(w.t, e1, b1), grammar::unary(w.s, e2, b2), f, 1, true, 0));
    } else {
        let lower = (tier - 1) as nat;
        let operand1 = grammar::binary(w.t, e1, b1, lower);
        let operand2 = grammar::binary(w.s, e2, b2, lower);
        lemma_binary(w, e1, e2, b1, b2, lower, f);
        let g = |op: Operator| grammar::tier(op) == tier;
        lemma_operator(w, g, f);
        lemma_both(
            w,
            grammar::operator(w.t, g),
            grammar::operator(w.s, g),
            operand1,
            operand2,
            f,
            1,
            1,
            true,
            0,
        );
        let link1 = grammar::link(w.t, tier, operand1);
        let link2 = grammar::link(w.s, tier, operand2);
        lemma_many(w, link1, link2, f, 2, 0);
        lemma_both(
            w,
            operand1,
            operand2,
            grammar::many(w.t, link1),
            grammar::many(w.s, link2),
            f,
            1,
            0,
            true,
            0,
        );
    }
}

// ----------------------------------------------------------------------------------------------
// Statements. Their expressions may begin where they begin themselves.
// ----------------------------------------------------------------------------------------------

/// Like [`nested`], with the expressions from `f` on.
pub open spec fn stated(
    w: Window,
    e1: Rule<ExprView>,
    e2: Rule<ExprView>,
    b1: Rule<BodyView>,
    b2: Rule<BodyView>,
    f: int,
) -> bool {
    &&& w.ok()
    &&& 0 <= f
    &&& embeds(w, e1, e2, f, 1, true, 0)
    &&& embeds(w, b1, b2, f + 1, 0, false, 1)
}

/// What ends in a semicolon.
proof fn lemma_closed<A>(w: Window, a1: Rule<A>, a2: Rule<A>, f: int, m: int)
    requires
        w.ok(),
        0 <= f,
        0 <= m,
        embeds(w, a1, a2, f, m, true, w.mark()),
    ensures
        ({
            let semicolon1 = grammar::token(w.t, TokenView::Semicolon);
            let semicolon2 = grammar::token(w.s, TokenView::Semicolon);
            embeds(
                w,
                grammar::first(a1, semicolon1),
                grammar::first(a2, semicolon2),
                f,
                1 + m,
                w.n == w.t.len(),
                w.slack(),
            )
        }),
{
    let b1 = grammar::first(a1, grammar::token(w.t, TokenView::Semicolon));
    let b2 = grammar::first(a2, grammar::token(w.s, TokenView::Semicolon));
    assert forall|p: int| #![trigger b1(p)] f <= p <= w.n implies {
        &&& b1(p) matches Some((_, q)) ==> {
            &&& p + 1 + m <= q
            &&& w.n == w.t.len() ==> q <= w.n
            &&& level(w.t, p, w.cut(q))
        }
        &&& w.open(w.slack(), p) || b2(w.at + p) == moved(w.at, b1(p))
    } by {
        if let Some((_, q)) = a1(p) {
            lemma_at(w, q);
        }
    }
}

proof fn lemma_names(w: Window, f: int)
    requires
        w.ok(),
        0 <= f,
    ensures
        ({
            let name1 = grammar::identifier(w.t);
            let name2 = grammar::identifier(w.s);
            embeds(
                w,
                grammar::list1(w.t, name1),
                grammar::list1(w.s, name2),
                f,
                1,
                true,
                w.mark(),
            )
        }),
{
    let name1 = grammar::identifier(w.t);
    let name2 = grammar::identifier(w.s);
    lemma_identifier(w, f);
    lemma_weaken(w, name1, name2, f, 1, true, w.mark());
    lemma_list(w, name1, name2, f);
}

/// `require` and names.
pub open spec fn requirement(t: Seq<TokenView>) -> Rule<Seq<Seq<char>>> {
    grammar::second(
        grammar::token(t, TokenView::Keyword(Keyword::Require)),
        grammar::list1(t, grammar::identifier(t)),
    )
}

proof fn lemma_requirement(w: Window, f: int)
    requires
        w.ok(),
        0 <= f,
    ensures
        embeds(w, requirement(w.t), requirement(w.s), f, 2, true, w.mark()),
{
    let kw1 = grammar::token(w.t, TokenView::Keyword(Keyword::Require));
    let kw2 = grammar::token(w.s, TokenView::Keyword(Keyword::Require));
    let names1 = grammar::list1(w.t, grammar::identifier(w.t));
    let names2 = grammar::list1(w.s, grammar::identifier(w.s));
    lemma_mark(w, TokenView::Keyword(Keyword::Require), f);
    lemma_names(w, f + 1);
    lemma_both(w, kw1, kw2, names1, names2, f, 1, 1, true, w.mark());
}

proof fn lemma_require(w: Window, f: int)
    requires
        w.ok(),
        0 <= f,
    ensures
        embeds(
            w,
            grammar::require(w.t),
            grammar::require(w.s),
            f,
            1,
            w.n == w.t.len(),
            w.slack(),
        ),
{
    lemma_requirement(w, f);
    lemma_closed(w, requirement(w.t), requirement(w.s), f, 2);
}

proof fn lemma_plain_target(w: Window, f: int)
    requires
        w.ok(),
        0 <= f,
    ensures
        embeds(w, grammar::plain_target(w.t), grammar::plain_target(w.s), f, 1, true, 0),
{
    let names1 = grammar::list1(w.t, grammar::identifier(w.t));
    let names2 = grammar::list1(w.s, grammar::identifier(w.s));
    lemma_identifier(w, f);
    lemma_names(w, f + 1);
    lemma_within(w, Bracket::Bracket, names1, names2, f, 1, true, w.mark());
}

proof fn lemma_targets(w: Window, attributes: bool, f: int)
    requires
        w.ok(),
        0 <= f,
    ensures
        embeds(
            w,
            grammar::targets(w.t, attributes),
            grammar::targets(w.s, attributes),
            f,
            2,
            true,
            w.mark(),
        ),
{
    let slack = w.mark();
    lemma_plain_target(w, f);
    lemma_identifier(w, f);
    lemma_dotted(w, f);
    lemma_many(w, grammar::dotted(w.t), grammar::dotted(w.s), f, 2, 0);
    lemma_both(
        w,
        grammar::identifier(w.t),
        grammar::identifier(w.s),
        grammar::many(w.t, grammar::dotted(w.t)),
        grammar::many(w.s, grammar::dotted(w.s)),
        f,
        1,
        0,
        true,
        0,
    );
    let target1 = grammar::target(w.t, attributes);
    let target2 = grammar::target(w.s, attributes);
    assert(embeds(w, target1, target2, f, 1, true, 0));
    lemma_weaken(w, target1, target2, f, 1, true, slack);
    lemma_mark(w, TokenView::Assign, f);
    let eq1 = grammar::token(w.t, TokenView::Assign);
    let eq2 = grammar::token(w.s, TokenView::Assign);
    lemma_both(w, target1, target2, eq1, eq2, f, 1, 1, true, slack);
    let one1 = grammar::target_eq(w.t, attributes);
    let one2 = grammar::target_eq(w.s, attributes);
    lemma_many(w, one1, one2, f, 2, slack);
    let more1 = grammar::many(w.t, one1);
    let more2 = grammar::many(w.s, one2);
    lemma_both(w, one1, one2, more1, more2, f, 2, 0, true, slack);
}

/// Targets and a value.
pub open spec fn assigned(t: Seq<TokenView>, e: Rule<ExprView>, attributes: bool) -> Rule<
    (Seq<TargetView>, ExprView),
> {
    grammar::both(grammar::targets(t, attributes), e)
}

proof fn lemma_assigned(
    w: Window,
    e1: Rule<ExprView>,
    e2: Rule<ExprView>,
    attributes: bool,
    f: int,
)
    requires
        w.ok(),
        0 <= f,
        embeds(w, e1, e2, f, 1, true, 0),
    ensures
        embeds(
            w,
            assigned(w.t, e1, attributes),
            assigned(w.s, e2, attributes),
            f,
            3,
            true,
            w.mark(),
        ),
{
    let targets1 = grammar::targets(w.t, attributes);
    let targets2 = grammar::targets(w.s, attributes);
    lemma_targets(w, attributes, f);
    lemma_weaken(w, e1, e2, f, 1, true, w.mark());
    lemma_both(w, targets1, targets2, e1, e2, f, 2, 1, true, w.mark());
}

/// An assignment up to its semicolon.
pub open spec fn unclosed(t: Seq<TokenView>, e: Rule<ExprView>) -> Rule<NodeView> {
    grammar::bound(
        grammar::modifiers(t),
        |m: (Option<TokenView>, Option<TokenView>)|
            grammar::map(
                assigned(t, e, m.0 is None && m.1 is None),
                |x: (Seq<TargetView>, ExprView)|
                    NodeView::Assign {
                        targets: x.0,
                        value: x.1,
                        let_: m.0 is Some,
                        immut: m.1 is Some,
                        const_: false,
                    },
            ),
    )
}

/// An assignment is what it is up to its semicolon, and that.
pub proof fn lemma_unclosed_closes(t: Seq<TokenView>, e: Rule<ExprView>, p: int)
    ensures
        grammar::assign(t, e)(p) == grammar::first(
            unclosed(t, e),
            grammar::token(t, TokenView::Semicolon),
        )(p),
{
}

proof fn lemma_unclosed(w: Window, e1: Rule<ExprView>, e2: Rule<ExprView>, f: int)
    requires
        w.ok(),
        0 <= f,
        embeds(w, e1, e2, f, 1, true, 0),
    ensures
        embeds(w, unclosed(w.t, e1), unclosed(w.s, e2), f, 3, true, w.mark()),
{
    let slack = w.mark();
    let let1 = grammar::token(w.t, TokenView::Keyword(Keyword::Let));
    let let2 = grammar::token(w.s, TokenView::Keyword(Keyword::Let));
    let immut1 = grammar::token(w.t, TokenView::Keyword(Keyword::Immut));
    let immut2 = grammar::token(w.s, TokenView::Keyword(Keyword::Immut));
    lemma_mark(w, TokenView::Keyword(Keyword::Let), f);
    lemma_mark(w, TokenView::Keyword(Keyword::Immut), f);
    lemma_optional(w, let1, let2, f, 1, slack);
    lemma_optional(w, immut1, immut2, f, 1, slack);
    lemma_both(
        w,
        grammar::optional(let1),
        grammar::optional(let2),
        grammar::optional(immut1),
        grammar::optional(immut2),
        f,
        0,
        0,
        true,
        slack,
    );
    assert(embeds(w, grammar::modifiers(w.t), grammar::modifiers(w.s), f, 0, true, slack));
    lemma_assigned(w, e1, e2, true, f);
    lemma_assigned(w, e1, e2, false, f);
}

proof fn lemma_assign(w: Window, e1: Rule<ExprView>, e2: Rule<ExprView>, f: int)
    requires
        w.ok(),
        0 <= f,
        embeds(w, e1, e2, f, 1, true, 0),
    ensures
        embeds(
            w,
            grammar::assign(w.t, e1),
            grammar::assign(w.s, e2),
            f,
            1,
            w.n == w.t.len(),
            w.slack(),
        ),
{
    let a1 = unclosed(w.t, e1);
    let a2 = unclosed(w.s, e2);
    lemma_unclosed(w, e1, e2, f);
    lemma_closed(w, a1, a2, f, 3);
    let x1 = grammar::first(a1, grammar::token(w.t, TokenView::Semicolon));
    let x2 = grammar::first(a2, grammar::token(w.s, TokenView::Semicolon));
    let y1 = grammar::assign(w.t, e1);
    let y2 = grammar::assign(w.s, e2);
    assert forall|p: int| #![trigger y1(p)] f <= p <= w.n implies y1(p) == x1(p) && y2(w.at + p)
        == x2(w.at + p) by {
        lemma_unclosed_closes(w.t, e1, p);
        lemma_unclosed_closes(w.s, e2, w.at + p);
    }
    lemma_same(w, x1, y1, x2, y2, f, 4, w.n == w.t.len(), w.slack());
}

proof fn lemma_param(w: Window, e1: Rule<ExprView>, e2: Rule<ExprView>, f: int)
    requires
        w.ok(),
        0 <= f,
        embeds(w, e1, e2, f, 1, true, 0),
    ensures
        embeds(w, grammar::param(w.t, e1), grammar::param(w.s, e2), f, 1, true, w.mark()),
{
    let slack = w.mark();
    let target1 = grammar::plain_target(w.t);
    let target2 = grammar::plain_target(w.s);
    let eq1 = grammar::token(w.t, TokenView::Assign);
    let eq2 = grammar::token(w.s, TokenView::Assign);
    lemma_plain_target(w, f);
    lemma_weaken(w, target1, target2, f, 1, true, slack);
    lemma_weaken(w, e1, e2, f, 1, true, slack);
    lemma_mark(w, TokenView::Assign, f);
    lemma_both(w, eq1, eq2, e1, e2, f, 1, 1, true, slack);
    let default1 = grammar::second(eq1, e1);
    let default2 = grammar::second(eq2, e2);
    lemma_optional(w, default1, default2, f, 2, slack);
    lemma_both(
        w,
        target1,
        target2,
        grammar::optional(default1),
        grammar::optional(default2),
        f,
        1,
        0,
        true,
        slack,
    );
}

proof fn lemma_func(
    w: Window,
    e1: Rule<ExprView>,
    e2: Rule<ExprView>,
    b1: Rule<BodyView>,
    b2: Rule<BodyView>,
    f: int,
)
    requires
        stated(w, e1, e2, b1, b2, f),
    ensures
        embeds(
            w,
            grammar::func(w.t, e1, b1),
            grammar::func(w.s, e2, b2),
            f,
            1,
            true,
            w.mark(),
        ),
{
    let slack = w.mark();
    let kw1 = grammar::token(w.t, TokenView::Keyword(Keyword::Func));
    let kw2 = grammar::token(w.s, TokenView::Keyword(Keyword::Func));
    let name1 = grammar::identifier(w.t);
    let name2 = grammar::identifier(w.s);
    lemma_mark(w, TokenView::Keyword(Keyword::Func), f);
    lemma_identifier(w, f);
    lemma_weaken(w, name1, name2, f, 1, true, slack);
    lemma_both(w, kw1, kw2, name1, name2, f, 1, 1, true, slack);
    let head1 = grammar::second(kw1, name1);
    let head2 = grammar::second(kw2, name2);
    let param1 = grammar::param(w.t, e1);
    let param2 = grammar::param(w.s, e2);
    lemma_param(w, e1, e2, f);
    lemma_list(w, param1, param2, f + 1);
    let list1 = grammar::list(w.t, param1);
    let list2 = grammar::list(w.s, param2);
    lemma_within(w, Bracket::Paren, list1, list2, f, 0, true, slack);
    let params1 = grammar::within(w.t, Bracket::Paren, list1);
    let params2 = grammar::within(w.s, Bracket::Paren, list2);
    lemma_weaken(w, params1, params2, f, 2, true, slack);
    lemma_both(w, head1, head2, params1, params2, f, 2, 2, true, slack);
    lemma_within(w, Bracket::Brace, b1, b2, f, 0, false, 1);
    let block1 = grammar::block(w.t, b1);
    let block2 = grammar::block(w.s, b2);
    lemma_weaken(w, block1, block2, f, 2, true, slack);
    lemma_both(
        w,
        grammar::both(head1, params1),
        grammar::both(head2, params2),
        block1,
        block2,
        f,
        4,
        2,
        true,
        slack,
    );
}

proof fn lemma_expr_statement(w: Window, e1: Rule<ExprView>, e2: Rule<ExprView>, f: int)
    requires
        w.ok(),
        0 <= f,
        embeds(w, e1, e2, f, 1, true, 0),
    ensures
        embeds(
            w,
            grammar::expr_statement(w.t, e1),
            grammar::expr_statement(w.s, e2),
            f,
            1,
            w.n == w.t.len(),
            w.slack(),
        ),
{
    let x = TokenView::EndBracket(Bracket::Brace);
    lemma_weaken(w, e1, e2, f, 1, true, w.slack());
    lemma_weaken(w, e1, e2, f, 1, true, w.mark());
    lemma_closed(w, e1, e2, f, 1);
    let ahead1 = grammar::first(e1, grammar::ahead_not(w.t, x));
    let ahead2 = grammar::first(e2, grammar::ahead_not(w.s, x));
    assert forall|p: int| #![trigger ahead1(p)] f <= p <= w.n implies {
        &&& ahead1(p) matches Some((_, q)) ==> p + 1 <= q <= w.n && level(w.t, p, w.cut(q))
        &&& w.open(w.slack(), p) || ahead2(w.at + p) == moved(w.at, ahead1(p))
    } by {
        if let Some((_, q)) = e1(p) {
            lemma_at(w, q);
        }
    }
    assert(embeds(w, ahead1, ahead2, f, 1, true, w.slack()));
    let is_if = |x: ExprView| x is If;
    assert(embeds(
        w,
        grammar::such_that(e1, is_if),
        grammar::such_that(e2, is_if),
        f,
        1,
        true,
        w.slack(),
    ));
}

proof fn lemma_statement(
    w: Window,
    e1: Rule<ExprView>,
    e2: Rule<ExprView>,
    b1: Rule<BodyView>,
    b2: Rule<BodyView>,
    f: int,
)
    requires
        stated(w, e1, e2, b1, b2, f),
    ensures
        embeds(
            w,
            grammar::statement(w.t, e1, b1),
            grammar::statement(w.s, e2, b2),
            f,
            1,
            w.n == w.t.len(),
            w.slack(),
        ),
{
    lemma_func(w, e1, e2, b1, b2, f);
    lemma_assign(w, e1, e2, f);
    lemma_require(w, f);
    lemma_expr_statement(w, e1, e2, f);
}

/// Statements in a row.
proof fn lemma_statements(w: Window, a1: Rule<NodeView>, a2: Rule<NodeView>, f: int, p: int)
    requires
        w.ok(),
        embeds(w, a1, a2, f, 1, w.n == w.t.len(), w.slack()),
        f <= p <= w.n,
    ensures
        ({
            let (xs, q) = grammar::run(w.t.len() as int, a1, p);
            &&& p <= q
            &&& w.n == w.t.len() ==> q <= w.n
            &&& level(w.t, p, w.cut(q))
            &&& !w.open(1, p) ==> q <= w.n && grammar::run(w.s.len() as int, a2, w.at + p) == (
                xs,
                w.at + q,
            )
        }),
    decreases w.n - p,
{
    if let Some((x, q)) = a1(p) {
        if q <= w.n {
            lemma_statements(w, a1, a2, f, q);
        } else {
            lemma_run_goes_on(w.t.len() as int, a1, q);
        }
    }
}

/// A run does not end before it begins, nor behind the end.
proof fn lemma_run_goes_on<A>(n: int, a: Rule<A>, p: int)
    ensures
        p <= grammar::run(n, a, p).1,
        p <= n ==> grammar::run(n, a, p).1 <= n,
    decreases n - p,
{
    if let Some((x, q)) = a(p) {
        if p < q <= n {
            lemma_run_goes_on(n, a, q);
        }
    }
}

proof fn lemma_body(
    w: Window,
    e1: Rule<ExprView>,
    e2: Rule<ExprView>,
    b1: Rule<BodyView>,
    b2: Rule<BodyView>,
    f: int,
)
    requires
        stated(w, e1, e2, b1, b2, f),
        forall|p: int|
            #![trigger e1(p)]
            0 <= p <= w.t.len() ==> (e1(p) matches Some((_, q)) ==> p <= q),
    ensures
        embeds(w, grammar::body(w.t, e1, b1), grammar::body(w.s, e2, b2), f, 0, false, 1),
{
    let a1 = grammar::statement(w.t, e1, b1);
    let a2 = grammar::statement(w.s, e2, b2);
    let body1 = grammar::body(w.t, e1, b1);
    let body2 = grammar::body(w.s, e2, b2);
    lemma_statement(w, e1, e2, b1, b2, f);
    assert forall|p: int| #![trigger body1(p)] f <= p <= w.n implies {
        &&& body1(p) matches Some((_, q)) ==> p <= q && level(w.t, p, w.cut(q))
        &&& w.open(1, p) || body2(w.at + p) == moved(w.at, body1(p))
    } by {
        lemma_statements(w, a1, a2, f, p);
        lemma_run_goes_on(w.t.len() as int, a1, p);
        let q = grammar::run(w.t.len() as int, a1, p).1;
        let last = e1(q);
        assert(grammar::optional(e1)(q) is Some);
    }
}

// ----------------------------------------------------------------------------------------------
// The rules of the language.
// ----------------------------------------------------------------------------------------------

proof fn lemma_from(w: Window, f: int)
    requires
        w.ok(),
        0 <= f,
    ensures
        embeds(w, grammar::exprs(w.t), grammar::exprs(w.s), f, 1, true, 0),
        embeds(w, grammar::bodies(w.t), grammar::bodies(w.s), f, 0, false, 1),
    decreases w.n + 1 - f,
{
    if f <= w.n {
        lemma_from(w, f + 1);
        let e1 = grammar::exprs(w.t);
        let e2 = grammar::exprs(w.s);
        let b1 = grammar::bodies(w.t);
        let b2 = grammar::bodies(w.s);
        lemma_binary(w, e1, e2, b1, b2, grammar::LOOSEST as nat, f);
        let x1 = grammar::expression(w.t, e1, b1);
        let x2 = grammar::expression(w.s, e2, b2);
        assert(embeds(w, x1, x2, f, 1, true, 0));
        assert forall|p: int| #![trigger e1(p)] f <= p <= w.n implies e1(p) == x1(p) && e2(w.at + p)
            == x2(w.at + p) by {
            nesting::lemma_expr(w.t, p);
            nesting::lemma_expr(w.s, w.at + p);
        }
        assert forall|p: int| #![trigger e1(p)] 0 <= p <= w.t.len() implies (e1(
            p,
        ) matches Some((_, q)) ==> p <= q) by {
            nesting::lemma_expr(w.t, p);
        }
        lemma_same(w, x1, e1, x2, e2, f, 1, true, 0);
        lemma_body(w, e1, e2, b1, b2, f);
        let y1 = grammar::body(w.t, e1, b1);
        let y2 = grammar::body(w.s, e2, b2);
        assert forall|p: int| #![trigger b1(p)] f <= p <= w.n implies b1(p) == y1(p) && b2(w.at + p)
            == y2(w.at + p) by {
            nesting::lemma_body_at(w.t, p);
            nesting::lemma_body_at(w.s, w.at + p);
        }
        lemma_same(w, y1, b1, y2, b2, f, 0, false, 1);
    }
}

/// Rules that give the same embed alike.
proof fn lemma_same<A>(
    w: Window,
    a1: Rule<A>,
    b1: Rule<A>,
    a2: Rule<A>,
    b2: Rule<A>,
    f: int,
    m: int,
    tight: bool,
    slack: int,
)
    requires
        embeds(w, a1, a2, f, m, tight, slack),
        forall|p: int|
            #![trigger b1(p)]
            f <= p <= w.n ==> b1(p) == a1(p) && b2(w.at + p) == a2(w.at + p),
    ensures
        embeds(w, b1, b2, f, m, tight, slack),
{
}

/// An expression is read in the one sequence as in the other, and closes its brackets.
pub proof fn lemma_expr(w: Window, p: int)
    requires
        w.ok(),
        0 <= p <= w.n,
    ensures
        grammar::expr_at(w.t, p) matches Some((_, q)) ==> p < q <= w.n && level(w.t, p, q),
        !w.open(0, p) ==> grammar::expr_at(w.s, w.at + p) == moved(
            w.at,
            grammar::expr_at(w.t, p),
        ),
{
    lemma_from(w, 0);
    let e1 = grammar::exprs(w.t);
    assert(e1(p) == grammar::expr_at(w.t, p));
    assert(grammar::exprs(w.s)(w.at + p) == grammar::expr_at(w.s, w.at + p));
}

/// A body is read in the one sequence as in the other.
pub proof fn lemma_body_at(w: Window, p: int)
    requires
        w.ok(),
        0 <= p <= w.n,
        !w.open(1, p),
    ensures
        grammar::body_at(w.s, w.at + p) == moved(w.at, grammar::body_at(w.t, p)),
{
    lemma_from(w, 0);
    let b1 = grammar::bodies(w.t);
    assert(b1(p) == grammar::body_at(w.t, p));
    assert(grammar::bodies(w.s)(w.at + p) == grammar::body_at(w.s, w.at + p));
}

/// The rule for statements.
#[verifier::opaque]
pub open spec fn statements(t: Seq<TokenView>) -> Rule<NodeView> {
    grammar::statement(t, grammar::exprs(t), grammar::bodies(t))
}

/// A statement is read in the one sequence as in the other.
pub proof fn lemma_statement_at(w: Window, p: int)
    requires
        w.ok(),
        0 <= p <= w.n,
    ensures
        statements(w.t)(p) matches Some((_, q)) ==> {
            &&& p < q <= w.t.len()
            &&& level(w.t, p, w.cut(q))
        },
        !w.open(w.slack(), p) ==> statements(w.s)(w.at + p) == moved(w.at, statements(w.t)(p)),
{
    reveal(statements);
    lemma_from(w, 0);
    lemma_from(w, 1);
    nesting::lemma_statements_end(w.t, p);
    lemma_statement(
        w,
        grammar::exprs(w.t),
        grammar::exprs(w.s),
        grammar::bodies(w.t),
        grammar::bodies(w.s),
        0,
    );
}

/// With a semicolon behind the tokens, in the one sequence or in both, what is no whole statement
/// is read in the one as in the other.
pub proof fn lemma_pieces(w: Window, p: int)
    requires
        w.ok(),
        grammar::at(w.s, w.at + w.n) == Some(TokenView::Semicolon),
        0 <= p <= w.n,
        !w.open(0, p),
    ensures
        ({
            let e1 = grammar::exprs(w.t);
            let e2 = grammar::exprs(w.s);
            let b1 = grammar::bodies(w.t);
            let b2 = grammar::bodies(w.s);
            &&& grammar::func(w.s, e2, b2)(w.at + p) == moved(
                w.at,
                grammar::func(w.t, e1, b1)(p),
            )
            &&& unclosed(w.s, e2)(w.at + p) == moved(w.at, unclosed(w.t, e1)(p))
            &&& unclosed(w.t, e1)(p) matches Some((_, q)) ==> p <= q <= w.n
            &&& requirement(w.s)(w.at + p) == moved(w.at, requirement(w.t)(p))
            &&& requirement(w.t)(p) matches Some((_, q)) ==> p <= q <= w.n
        }),
{
    let e1 = grammar::exprs(w.t);
    let e2 = grammar::exprs(w.s);
    let b1 = grammar::bodies(w.t);
    let b2 = grammar::bodies(w.s);
    lemma_from(w, 0);
    lemma_from(w, 1);
    lemma_func(w, e1, e2, b1, b2, 0);
    lemma_unclosed(w, e1, e2, 0);
    lemma_requirement(w, 0);
}

} // verus!
