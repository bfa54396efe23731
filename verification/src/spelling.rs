//! How each token can be spelled, and that it is read back from its spelling.

use crate::ast::{Body, BodyView, Expr, ExprView, ParseInterface};
use crate::error::Error;
use crate::lexical;
use crate::shape;
use crate::token::{Bracket, Keyword, LiteralView, Operator, TokenView};
use crate::writing;
use vstd::prelude::*;

verus! {

/// The character of a digit.
pub open spec fn digit(n: nat) -> char {
    if n == 0 {
        '0'
    } else if n == 1 {
        '1'
    } else if n == 2 {
        '2'
    } else if n == 3 {
        '3'
    } else if n == 4 {
        '4'
    } else if n == 5 {
        '5'
    } else if n == 6 {
        '6'
    } else if n == 7 {
        '7'
    } else if n == 8 {
        '8'
    } else {
        '9'
    }
}

/// A number in decimal digits.
pub open spec fn digits(n: nat) -> Seq<char>
    decreases n,
{
    if n < 10 {
        seq![digit(n)]
    } else {
        digits(n / 10).push(digit(n % 10))
    }
}

/// The spelling of an operator.
pub open spec fn spell_operator(op: Operator) -> Seq<char> {
    match op {
        Operator::Add => seq!['+'],
        Operator::Sub => seq!['-'],
        Operator::Mul => seq!['*'],
        Operator::Div => seq!['/'],
        Operator::Mod => seq!['%'],
        Operator::Pow => seq!['*', '*'],
        Operator::Eq => seq!['=', '='],
        Operator::Ne => seq!['!', '='],
        Operator::Lt => seq!['<'],
        Operator::Gt => seq!['>'],
        Operator::Le => seq!['<', '='],
        Operator::Ge => seq!['>', '='],
        Operator::And => seq!['&', '&'],
        Operator::Or => seq!['|', '|'],
        Operator::Not => seq!['!'],
        Operator::BitAnd => seq!['&'],
        Operator::BitOr => seq!['|'],
        Operator::BitXor => seq!['^'],
        Operator::BitNot => seq!['~'],
    }
}

/// The spelling of a keyword.
pub open spec fn spell_keyword(k: Keyword) -> Seq<char> {
    match k {
        Keyword::Func => "func"@,
        Keyword::Require => "require"@,
        Keyword::Let => "let"@,
        Keyword::Immut => "immut"@,
        Keyword::Const => "const"@,
        Keyword::If => "if"@,
        Keyword::Else => "else"@,
    }
}

/// The spelling of a token.
pub open spec fn spell(x: TokenView) -> Seq<char> {
    match x {
        TokenView::Identifier(name) => name,
        TokenView::Literal(LiteralView::Integer(n)) => digits(n as nat),
        TokenView::Literal(LiteralView::Float(s)) => s,
        TokenView::Literal(LiteralView::String(s)) => seq!['"'] + s + seq!['"'],
        TokenView::Operator(op) => spell_operator(op),
        TokenView::Keyword(k) => spell_keyword(k),
        TokenView::StartBracket(Bracket::Paren) => seq!['('],
        TokenView::StartBracket(Bracket::Bracket) => seq!['['],
        TokenView::StartBracket(Bracket::Brace) => seq!['{'],
        TokenView::EndBracket(Bracket::Paren) => seq![')'],
        TokenView::EndBracket(Bracket::Bracket) => seq![']'],
        TokenView::EndBracket(Bracket::Brace) => seq!['}'],
        TokenView::Comma => seq![','],
        TokenView::Dot => seq!['.'],
        TokenView::Semicolon => seq![';'],
        TokenView::Assign => seq!['='],
    }
}

/// A word: a letter or an underscore, with letters, underscores and digits behind it.
pub open spec fn is_word(s: Seq<char>) -> bool {
    &&& s.len() > 0
    &&& ('a' <= s[0] && s[0] <= 'z') || ('A' <= s[0] && s[0] <= 'Z') || s[0] == '_'
    &&& forall|i: int|
        0 <= i < s.len() ==> {
            ||| 'a' <= #[trigger] s[i] && s[i] <= 'z'
            ||| 'A' <= s[i] && s[i] <= 'Z'
            ||| '0' <= s[i] && s[i] <= '9'
            ||| s[i] == '_'
        }
}

/// Digits, a point and digits.
pub open spec fn is_float(s: Seq<char>) -> bool {
    let k = lexical::run_end(s, |c: char| lexical::is_digit(c), 0);
    &&& 0 < k
    &&& k + 1 < s.len()
    &&& s[k] == '.'
    &&& forall|i: int| k < i < s.len() ==> lexical::is_digit(#[trigger] s[i])
}

/// The tokens that have a spelling: a name is a word and no keyword, a float is spelled as one,
/// and a string holds no quote.
pub open spec fn spellable(x: TokenView) -> bool {
    match x {
        TokenView::Identifier(name) => is_word(name) && lexical::word(name)
            == TokenView::Identifier(name),
        TokenView::Literal(LiteralView::Float(s)) => is_float(s),
        TokenView::Literal(LiteralView::String(s)) => forall|i: int|
            0 <= i < s.len() ==> #[trigger] s[i] != '"',
        _ => true,
    }
}

/// The spellings of tokens from `i` on, each with a space behind it.
pub open spec fn text(xs: Seq<TokenView>, i: int) -> Seq<char>
    decreases xs.len() - i,
{
    if 0 <= i < xs.len() {
        spell(xs[i]) + (seq![' '] + text(xs, i + 1))
    } else {
        Seq::empty()
    }
}

/// A spelling stands in a text at `p`, with a space behind it.
#[verifier::opaque]
spec fn spelled(s: Seq<char>, p: int, w: Seq<char>) -> bool {
    &&& 0 <= p
    &&& p + w.len() < s.len()
    &&& s[p + w.len()] == ' '
    &&& w.len() > 0
    &&& w == s.subrange(p, p + w.len())
}

/// Where a run ends.
pub proof fn lemma_run_ends_at(s: Seq<char>, f: spec_fn(char) -> bool, p: int, q: int)
    requires
        0 <= p <= q <= s.len(),
        forall|i: int| p <= i < q ==> f(#[trigger] s[i]),
        q < s.len() ==> !f(s[q]),
    ensures
        lexical::run_end(s, f, p) == q,
    decreases q - p,
{
    if p < q {
        assert(f(s[p]));
        lemma_run_ends_at(s, f, p + 1, q);
    }
}

proof fn lemma_spelled_chars(s: Seq<char>, p: int, w: Seq<char>)
    requires
        spelled(s, p, w),
    ensures
        0 <= p,
        p + w.len() < s.len(),
        s[p + w.len()] == ' ',
        w.len() > 0,
        w == s.subrange(p, p + w.len()),
        s[p] == w[0],
        forall|i: int| p <= i < p + w.len() ==> #[trigger] s[i] == w[i - p],
{
    reveal(spelled);
    assert forall|i: int| p <= i < p + w.len() implies #[trigger] s[i] == w[i - p] by {
        assert(s.subrange(p, p + w.len())[i - p] == s[i]);
    }
}

/// A word is read back.
proof fn lemma_word(s: Seq<char>, p: int, w: Seq<char>)
    requires
        spelled(s, p, w),
        is_word(w),
    ensures
        lexical::token_at(s, p) == Ok::<(TokenView, int), Error>(
            (lexical::word(w), p + w.len()),
        ),
{
    lemma_spelled_chars(s, p, w);
    lemma_run_ends_at(s, |c: char| lexical::is_word(c), p, p + w.len());
}

/// The digits of a number are digits, and stand for it.
proof fn lemma_digits(n: nat)
    ensures
        digits(n).len() > 0,
        forall|i: int| 0 <= i < digits(n).len() ==> lexical::is_digit(#[trigger] digits(n)[i]),
        lexical::decimal(digits(n)) == n,
    decreases n,
{
    if n < 10 {
        assert(digits(n).drop_last() =~= Seq::empty());
        assert(lexical::decimal(digits(n).drop_last()) == 0);
    } else {
        lemma_digits(n / 10);
        assert(digits(n).drop_last() =~= digits(n / 10));
        assert(digits(n).last() == digit(n % 10));
    }
}

/// A keyword is a word, and read as itself.
proof fn lemma_keyword(k: Keyword)
    ensures
        is_word(spell_keyword(k)),
        lexical::word(spell_keyword(k)) == TokenView::Keyword(k),
{
    reveal_strlit("func");
    reveal_strlit("require");
    reveal_strlit("let");
    reveal_strlit("immut");
    reveal_strlit("const");
    reveal_strlit("if");
    reveal_strlit("else");
    assert("func"@[0] == 'f');
    assert("else"@[0] == 'e');
    assert("immut"@[0] == 'i');
    assert("const"@[0] == 'c');
}

/// A number is read back.
proof fn lemma_integer(s: Seq<char>, p: int, n: u128)
    requires
        spelled(s, p, digits(n as nat)),
    ensures
        lexical::token_at(s, p) == Ok::<(TokenView, int), Error>(
            (TokenView::Literal(LiteralView::Integer(n)), p + digits(n as nat).len()),
        ),
{
    let w = digits(n as nat);
    lemma_spelled_chars(s, p, w);
    lemma_digits(n as nat);
    assert(lexical::is_digit(w[0]));
    lemma_run_ends_at(s, |c: char| lexical::is_digit(c), p, p + w.len());
}

/// A float is read back.
proof fn lemma_float(s: Seq<char>, p: int, w: Seq<char>)
    requires
        spelled(s, p, w),
        is_float(w),
    ensures
        lexical::token_at(s, p) == Ok::<(TokenView, int), Error>(
            (TokenView::Literal(LiteralView::Float(w)), p + w.len()),
        ),
{
    let f = |c: char| lexical::is_digit(c);
    let k = lexical::run_end(w, f, 0);
    lemma_spelled_chars(s, p, w);
    lexical::lemma_run_end(w, f, 0);
    assert(f(w[0]));
    lemma_run_ends_at(s, f, p, p + k);
    lemma_run_ends_at(s, f, p + k + 1, p + w.len());
    assert(s[p + k] == w[k]);
    assert(s[p + k + 1] == w[k + 1]);
    assert(lexical::is_digit(w[k + 1]));
}

/// A string is read back.
proof fn lemma_string(s: Seq<char>, p: int, w: Seq<char>)
    requires
        spelled(s, p, seq!['"'] + w + seq!['"']),
        forall|i: int| 0 <= i < w.len() ==> #[trigger] w[i] != '"',
    ensures
        lexical::token_at(s, p) == Ok::<(TokenView, int), Error>(
            (TokenView::Literal(LiteralView::String(w)), p + w.len() + 2),
        ),
{
    let v = seq!['"'] + w + seq!['"'];
    let q = p + 1 + w.len();
    lemma_spelled_chars(s, p, v);
    assert(s[q] == v[q - p]);
    assert forall|i: int| p + 1 <= i < q implies #[trigger] s[i] != '"' by {
        assert(s[i] == v[i - p]);
        assert(v[i - p] == w[i - p - 1]);
    }
    lemma_run_ends_at(s, |c: char| c != '"', p + 1, q);
    assert(s.subrange(p + 1, q) =~= w) by {
        assert forall|i: int| 0 <= i < w.len() implies #[trigger] s.subrange(p + 1, q)[i]
            == w[i] by {
            assert(s[p + 1 + i] == v[1 + i]);
        }
    }
}

/// A symbol is read back.
proof fn lemma_symbol(s: Seq<char>, p: int, x: TokenView)
    requires
        !(x is Identifier || x is Literal || x is Keyword),
        spelled(s, p, spell(x)),
    ensures
        lexical::token_at(s, p) == Ok::<(TokenView, int), Error>((x, p + spell(x).len())),
{
    let w = spell(x);
    lemma_spelled_chars(s, p, w);
    if w.len() == 2 {
        assert(s[p + 1] == w[1]);
    }
}

/// A token is read back from its spelling.
proof fn lemma_token(s: Seq<char>, p: int, x: TokenView)
    requires
        spellable(x),
        spelled(s, p, spell(x)),
    ensures
        lexical::token_at(s, p) == Ok::<(TokenView, int), Error>((x, p + spell(x).len())),
        0 <= p < s.len(),
        !lexical::is_space(s[p]),
{
    lemma_spelled_chars(s, p, spell(x));
    match x {
        TokenView::Identifier(name) => {
            lemma_word(s, p, name);
        },
        TokenView::Literal(LiteralView::Integer(n)) => {
            lemma_integer(s, p, n);
            lemma_digits(n as nat);
            assert(lexical::is_digit(digits(n as nat)[0]));
        },
        TokenView::Literal(LiteralView::Float(w)) => {
            lemma_float(s, p, w);
            lexical::lemma_run_end(w, |c: char| lexical::is_digit(c), 0);
        },
        TokenView::Literal(LiteralView::String(w)) => {
            lemma_string(s, p, w);
        },
        TokenView::Keyword(k) => {
            lemma_keyword(k);
            lemma_word(s, p, spell_keyword(k));
        },
        _ => {
            lemma_symbol(s, p, x);
        },
    }
}

proof fn lemma_spelling_is_not_empty(x: TokenView)
    requires
        spellable(x),
    ensures
        spell(x).len() > 0,
{
    match x {
        TokenView::Literal(LiteralView::Integer(n)) => {
            lemma_digits(n as nat);
        },
        TokenView::Keyword(k) => {
            lemma_keyword(k);
        },
        _ => {},
    }
}

/// Tokens are read back from their spellings, from the `i`-th on.
proof fn lemma_tokens_from(s: Seq<char>, p: int, xs: Seq<TokenView>, i: int)
    requires
        0 <= i <= xs.len(),
        forall|j: int| 0 <= j < xs.len() ==> spellable(#[trigger] xs[j]),
        0 <= p <= s.len(),
        s.skip(p) == text(xs, i),
    ensures
        lexical::tokens_from(s, p) == Ok::<Seq<TokenView>, Error>(xs.skip(i)),
    decreases xs.len() - i,
{
    if i < xs.len() {
        let x = xs[i];
        let w = spell(x);
        let rest = text(xs, i + 1);
        let q = p + w.len();
        lemma_spelling_is_not_empty(x);
        assert(s.skip(p).len() == w.len() + 1 + rest.len());
        assert(s.skip(p)[w.len() as int] == ' ');
        assert(s[q] == ' ');
        assert(s.subrange(p, q) =~= w) by {
            assert forall|j: int| 0 <= j < w.len() implies #[trigger] s.subrange(p, q)[j]
                == w[j] by {
                assert(s.skip(p)[j] == s[p + j]);
            }
        }
        assert(spelled(s, p, w)) by {
            reveal(spelled);
        }
        lemma_token(s, p, x);
        assert(s.skip(q + 1) =~= rest) by {
            assert forall|j: int| 0 <= j < rest.len() implies #[trigger] s.skip(q + 1)[j]
                == rest[j] by {
                assert(s.skip(p)[w.len() + 1 + j] == rest[j]);
            }
        }
        lemma_tokens_from(s, q + 1, xs, i + 1);
        assert(lexical::tokens_from(s, q) == lexical::tokens_from(s, q + 1));
        assert(xs.skip(i) =~= seq![x] + xs.skip(i + 1));
    } else {
        assert(s.skip(p).len() == 0);
        assert(xs.skip(i) =~= Seq::empty());
    }
}

/// Tokens that have a spelling come back from it.
pub proof fn tokens_come_back(xs: Seq<TokenView>)
    requires
        forall|i: int| 0 <= i < xs.len() ==> spellable(#[trigger] xs[i]),
    ensures
        lexical::tokens(text(xs, 0)) == Ok::<Seq<TokenView>, Error>(xs),
{
    let s = text(xs, 0);
    assert(s.skip(0) =~= s);
    lemma_tokens_from(s, 0, xs, 0);
    assert(xs.skip(0) =~= xs);
}

/// A token that is read has a spelling.
proof fn lemma_spellable(s: Seq<char>, p: int)
    requires
        0 <= p < s.len(),
    ensures
        lexical::token_at(s, p) matches Ok((x, _)) ==> spellable(x),
{
    let word = |c: char| lexical::is_word(c);
    let number = |c: char| lexical::is_digit(c);
    let other = |c: char| c != '"';
    lexical::lemma_run_end(s, word, p);
    lexical::lemma_run_end(s, number, p);
    lexical::lemma_run_end(s, other, p + 1);
    let q = lexical::run_end(s, number, p);
    if lexical::is_word_start(s[p]) {
        let w = s.subrange(p, lexical::run_end(s, word, p));
        assert(word(s[p]));
        assert(is_word(w)) by {
            assert forall|i: int| 0 <= i < w.len() implies lexical::is_word(#[trigger] w[i]) by {
                assert(word(s[p + i]));
            }
        }
    } else if lexical::is_digit(s[p]) {
        if q + 1 < s.len() && s[q] == '.' && lexical::is_digit(s[q + 1]) {
            let r = lexical::run_end(s, number, q + 1);
            lexical::lemma_run_end(s, number, q + 1);
            assert(number(s[q + 1]));
            let w = s.subrange(p, r);
            assert forall|i: int| 0 <= i < q - p implies number(#[trigger] w[i]) by {
                assert(number(s[p + i]));
            }
            assert(w[q - p] == '.');
            lemma_run_ends_at(w, number, 0, q - p);
            assert forall|i: int| q - p < i < w.len() implies lexical::is_digit(
                #[trigger] w[i],
            ) by {
                assert(number(s[p + i]));
            }
        }
    } else if s[p] == '"' {
        let r = lexical::run_end(s, other, p + 1);
        if r < s.len() {
            let w = s.subrange(p + 1, r);
            assert forall|i: int| 0 <= i < w.len() implies #[trigger] w[i] != '"' by {
                assert(other(s[p + 1 + i]));
            }
        }
    }
}

proof fn lemma_all_spellable(s: Seq<char>, p: int)
    requires
        0 <= p <= s.len(),
    ensures
        lexical::tokens_from(s, p) matches Ok(xs) ==> forall|i: int|
            0 <= i < xs.len() ==> spellable(#[trigger] xs[i]),
    decreases s.len() - p,
{
    if p < s.len() {
        if lexical::is_space(s[p]) {
            lemma_all_spellable(s, p + 1);
        } else {
            lexical::lemma_token_at(s, p);
            lemma_spellable(s, p);
            if let Ok((_, q)) = lexical::token_at(s, p) {
                lemma_all_spellable(s, q);
            }
        }
    }
}

/// Only tokens that have a spelling are read.
pub proof fn tokens_are_spellable(s: Seq<char>)
    ensures
        lexical::tokens(s) matches Ok(xs) ==> forall|i: int|
            0 <= i < xs.len() ==> spellable(#[trigger] xs[i]),
{
    lemma_all_spellable(s, 0);
}

/// An expression comes back from text too, if its names, numbers and strings have a spelling.
pub proof fn expr_comes_back_from_text(c: bool, x: ExprView)
    requires
        shape::expr_shape(x),
        forall|i: int|
            0 <= i < writing::write_expr(c, x).len() ==> spellable(
                #[trigger] writing::write_expr(c, x)[i],
            ),
    ensures
        lexical::tokens(text(writing::write_expr(c, x), 0)) matches Ok(t) && Expr::readable(t)
            && Expr::tree(t) == x,
{
    writing::expr_comes_back(c, x);
    tokens_come_back(writing::write_expr(c, x));
}

/// A body comes back from text too, if its names, numbers and strings have a spelling.
pub proof fn body_comes_back_from_text(c: bool, x: BodyView)
    requires
        shape::body_shape(x),
        forall|i: int|
            0 <= i < writing::write_body(c, x).len() ==> spellable(
                #[trigger] writing::write_body(c, x)[i],
            ),
    ensures
        lexical::tokens(text(writing::write_body(c, x), 0)) matches Ok(t) && Body::tree(t) == x,
{
    writing::body_comes_back(c, x);
    tokens_come_back(writing::write_body(c, x));
}

} // verus!
