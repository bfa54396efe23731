//! Where a text is cut into tokens: what holds of texts that are put together from others, and of
//! the texts that are one token. The characters are given one by one or by their ranges.

use crate::error::Error;
use crate::lexical;
use crate::spelling;
use crate::token::{Bracket, Keyword, LiteralView, Operator, TokenView};
use vstd::prelude::*;

verus! {

/// The letters of the alphabet, small and capital, and the underscore.
pub open spec fn letter(c: char) -> bool {
    ('a' <= c && c <= 'z') || ('A' <= c && c <= 'Z') || c == '_'
}

/// The decimal digits.
pub open spec fn numeral(c: char) -> bool {
    '0' <= c && c <= '9'
}

/// The characters that stand between tokens: space, tab, line feed and carriage return.
pub open spec fn blank(c: char) -> bool {
    c == ' ' || c == '\t' || c == '\n' || c == '\r'
}

/// Two characters that are one operator.
pub open spec fn doubled(c: char, d: char) -> bool {
    ||| c == '*' && d == '*'
    ||| c == '=' && d == '='
    ||| c == '!' && d == '='
    ||| c == '<' && d == '='
    ||| c == '>' && d == '='
    ||| c == '&' && d == '&'
    ||| c == '|' && d == '|'
}

/// Two neighbouring characters that may belong to one token, where the first ends a token of its
/// own and so does not stand in a string.
pub open spec fn clings(c: char, d: char) -> bool {
    ||| (letter(c) || numeral(c)) && (letter(d) || numeral(d))
    ||| numeral(c) && d == '.'
    ||| c == '.' && numeral(d)
    ||| doubled(c, d)
}

/// A text may be cut here: one of the parts is empty, or their neighbouring characters do not
/// belong to one token.
pub open spec fn may_cut(u: Seq<char>, v: Seq<char>) -> bool {
    u.len() == 0 || v.len() == 0 || !clings(u.last(), v[0])
}

/// An error further on in the text.
pub open spec fn later(error: Error, k: int) -> Error {
    match error {
        Error::UnexpectedCharacter(p) => Error::UnexpectedCharacter((p + k) as usize),
        Error::UnterminatedString(p) => Error::UnterminatedString((p + k) as usize),
        Error::IntegerTooLarge(p) => Error::IntegerTooLarge((p + k) as usize),
    }
}

proof fn lemma_pair(c: char, d: char)
    ensures
        lexical::pair(c, d) is Some == doubled(c, d),
{
}

// ----------------------------------------------------------------------------------------------
// Behind a part that is cut off.
// ----------------------------------------------------------------------------------------------

/// A run behind a part that is cut off.
proof fn lemma_run_behind(u: Seq<char>, v: Seq<char>, f: spec_fn(char) -> bool, p: int)
    requires
        0 <= p <= v.len(),
    ensures
        lexical::run_end(u + v, f, u.len() + p) == u.len() + lexical::run_end(v, f, p),
    decreases v.len() - p,
{
    if p < v.len() {
        assert((u + v)[u.len() + p] == v[p]);
        if f(v[p]) {
            lemma_run_behind(u, v, f, p + 1);
        }
    }
}

/// What is read, further on in the text.
pub open spec fn further(r: Result<(TokenView, int), Error>, k: int) -> Result<
    (TokenView, int),
    Error,
> {
    match r {
        Ok((x, q)) => Ok((x, k + q)),
        Err(error) => Err(later(error, k)),
    }
}

/// A token behind a part that is cut off.
proof fn lemma_token_behind(u: Seq<char>, v: Seq<char>, p: int)
    requires
        0 <= p < v.len(),
        u.len() + v.len() <= usize::MAX,
    ensures
        lexical::token_at(u + v, u.len() + p) == further(
            lexical::token_at(v, p),
            u.len() as int,
        ),
{
    let s = u + v;
    let k = u.len() as int;
    let word = |c: char| lexical::is_word(c);
    let number = |c: char| lexical::is_digit(c);
    let other = |c: char| c != '"';
    assert(s[k + p] == v[p]);
    lexical::lemma_run_end(v, word, p);
    lexical::lemma_run_end(v, number, p);
    lexical::lemma_run_end(v, other, p + 1);
    lemma_run_behind(u, v, word, p);
    lemma_run_behind(u, v, number, p);
    lemma_run_behind(u, v, other, p + 1);
    let q = lexical::run_end(v, word, p);
    assert(s.subrange(k + p, k + q) =~= v.subrange(p, q));
    let r = lexical::run_end(v, number, p);
    assert(s.subrange(k + p, k + r) =~= v.subrange(p, r));
    if r + 1 < v.len() {
        lexical::lemma_run_end(v, number, r + 1);
        lemma_run_behind(u, v, number, r + 1);
        let e = lexical::run_end(v, number, r + 1);
        assert(s.subrange(k + p, k + e) =~= v.subrange(p, e));
        assert(s[k + r] == v[r]);
        assert(s[k + r + 1] == v[r + 1]);
    }
    let m = lexical::run_end(v, other, p + 1);
    if m < v.len() {
        assert(s.subrange(k + p + 1, k + m) =~= v.subrange(p + 1, m));
    }
    if p + 1 < v.len() {
        assert(s[k + p + 1] == v[p + 1]);
    }
}

/// The tokens behind a part that is cut off.
proof fn lemma_tokens_behind(u: Seq<char>, v: Seq<char>, p: int)
    requires
        0 <= p <= v.len(),
        u.len() + v.len() <= usize::MAX,
    ensures
        lexical::tokens_from(u + v, u.len() + p) == (match lexical::tokens_from(v, p) {
            Ok(xs) => Ok(xs),
            Err(error) => Err(later(error, u.len() as int)),
        }),
    decreases v.len() - p,
{
    let s = u + v;
    let k = u.len() as int;
    if p < v.len() {
        assert(s[k + p] == v[p]);
        if lexical::is_space(v[p]) {
            lemma_tokens_behind(u, v, p + 1);
        } else {
            lemma_token_behind(u, v, p);
            lexical::lemma_token_at(v, p);
            if let Ok((x, q)) = lexical::token_at(v, p) {
                lemma_tokens_behind(u, v, q);
            }
        }
    }
}

/// Where an error is.
pub open spec fn place(error: Error) -> usize {
    match error {
        Error::UnexpectedCharacter(p) => p,
        Error::UnterminatedString(p) => p,
        Error::IntegerTooLarge(p) => p,
    }
}

/// An error is at a character of the text.
pub proof fn error_is_in_text(s: Seq<char>)
    requires
        s.len() <= usize::MAX,
    ensures
        lexical::tokens(s) matches Err(error) ==> place(error) < s.len(),
{
    lemma_place(s, 0);
}

proof fn lemma_place(s: Seq<char>, p: int)
    requires
        0 <= p <= s.len(),
        s.len() <= usize::MAX,
    ensures
        lexical::tokens_from(s, p) matches Err(error) ==> p <= place(error) < s.len(),
    decreases s.len() - p,
{
    if p < s.len() {
        if lexical::is_space(s[p]) {
            lemma_place(s, p + 1);
        } else {
            lexical::lemma_token_at(s, p);
            if let Ok((_, q)) = lexical::token_at(s, p) {
                lemma_place(s, q);
            }
        }
    }
}

// ----------------------------------------------------------------------------------------------
// Before a part that is cut off.
// ----------------------------------------------------------------------------------------------

/// A run that ends before the cut, or at it.
proof fn lemma_run_before(u: Seq<char>, v: Seq<char>, f: spec_fn(char) -> bool, p: int)
    requires
        0 <= p <= u.len(),
        lexical::run_end(u, f, p) < u.len() || v.len() == 0 || !f(v[0]),
    ensures
        lexical::run_end(u + v, f, p) == lexical::run_end(u, f, p),
    decreases u.len() - p,
{
    let s = u + v;
    if p < u.len() {
        assert(s[p] == u[p]);
        if f(u[p]) {
            lemma_run_before(u, v, f, p + 1);
        }
    } else if v.len() > 0 {
        assert(s[p] == v[0]);
    }
}

/// A token before the cut.
proof fn lemma_token_before(u: Seq<char>, v: Seq<char>, p: int, x: TokenView, q: int)
    requires
        0 <= p < u.len(),
        lexical::token_at(u, p) == Ok::<(TokenView, int), Error>((x, q)),
        may_cut(u, v),
    ensures
        lexical::token_at(u + v, p) == Ok::<(TokenView, int), Error>((x, q)),
{
    let s = u + v;
    let n = u.len() as int;
    let word = |c: char| lexical::is_word(c);
    let number = |c: char| lexical::is_digit(c);
    let other = |c: char| c != '"';
    assert(s[p] == u[p]);
    lexical::lemma_token_at(u, p);
    lexical::lemma_run_end(u, word, p);
    lexical::lemma_run_end(u, number, p);
    lexical::lemma_run_end(u, other, p + 1);
    if lexical::is_word_start(u[p]) {
        assert(word(u[p]));
        if q == n {
            assert(word(u[n - 1]));
        }
        lemma_run_before(u, v, word, p);
        assert(s.subrange(p, q) =~= u.subrange(p, q));
    } else if lexical::is_digit(u[p]) {
        lemma_number_before(u, v, p, x, q);
    } else if u[p] == '"' {
        lemma_run_before(u, v, other, p + 1);
        assert(s.subrange(p + 1, q - 1) =~= u.subrange(p + 1, q - 1));
    } else {
        if p + 1 < n {
            assert(s[p + 1] == u[p + 1]);
        } else if v.len() > 0 {
            assert(s[p + 1] == v[0]);
            lemma_pair(u[p], v[0]);
        }
    }
}

/// A number before the cut.
proof fn lemma_number_before(u: Seq<char>, v: Seq<char>, p: int, x: TokenView, q: int)
    requires
        0 <= p < u.len(),
        lexical::is_digit(u[p]),
        lexical::number_at(u, p) == Ok::<(TokenView, int), Error>((x, q)),
        may_cut(u, v),
    ensures
        lexical::number_at(u + v, p) == Ok::<(TokenView, int), Error>((x, q)),
{
    let s = u + v;
    let n = u.len() as int;
    let number = |c: char| lexical::is_digit(c);
    let r = lexical::run_end(u, number, p);
    lexical::lemma_run_end(u, number, p);
    assert(number(u[p]));
    if r == n {
        assert(number(u[n - 1]));
        assert(numeral(u.last()));
    }
    lemma_run_before(u, v, number, p);
    assert(s.subrange(p, r) =~= u.subrange(p, r));
    if r < n {
        assert(s[r] == u[r]);
        if r + 1 < n {
            assert(s[r + 1] == u[r + 1]);
            if u[r] == '.' && lexical::is_digit(u[r + 1]) {
                lexical::lemma_run_end(u, number, r + 1);
                assert(number(u[r + 1]));
                let e = lexical::run_end(u, number, r + 1);
                if e == n {
                    assert(number(u[n - 1]));
                    assert(numeral(u.last()));
                }
                lemma_run_before(u, v, number, r + 1);
                assert(s.subrange(p, e) =~= u.subrange(p, e));
            }
        } else if v.len() > 0 {
            assert(s[r + 1] == v[0]);
        }
    } else if v.len() > 0 {
        assert(s[r] == v[0]);
    }
}

/// The tokens before the cut, and those behind it.
proof fn lemma_tokens_before(u: Seq<char>, v: Seq<char>, p: int, xs: Seq<TokenView>)
    requires
        0 <= p <= u.len(),
        lexical::tokens_from(u, p) == Ok::<Seq<TokenView>, Error>(xs),
        may_cut(u, v),
    ensures
        lexical::tokens_from(u + v, p) == (match lexical::tokens_from(u + v, u.len() as int) {
            Ok(ys) => Ok(xs + ys),
            Err(error) => Err(error),
        }),
    decreases u.len() - p,
{
    let s = u + v;
    let n = u.len() as int;
    if p < n {
        assert(s[p] == u[p]);
        if lexical::is_space(u[p]) {
            lemma_tokens_before(u, v, p + 1, xs);
        } else {
            lexical::lemma_token_at(u, p);
            match lexical::token_at(u, p) {
                Ok((x, q)) => {
                    lemma_token_before(u, v, p, x, q);
                    match lexical::tokens_from(u, q) {
                        Ok(rest) => {
                            lemma_tokens_before(u, v, q, rest);
                            if let Ok(ys) = lexical::tokens_from(s, n) {
                                assert(seq![x] + (rest + ys) =~= (seq![x] + rest) + ys);
                            }
                        },
                        Err(_) => {},
                    }
                },
                Err(_) => {},
            }
        }
    } else {
        if let Ok(ys) = lexical::tokens_from(s, n) {
            assert(xs + ys =~= ys);
        }
    }
}

// ----------------------------------------------------------------------------------------------
// Texts that are put together.
// ----------------------------------------------------------------------------------------------

/// The tokens of two texts, one behind the other.
pub open spec fn both_tokens(
    a: Result<Seq<TokenView>, Error>,
    b: Result<Seq<TokenView>, Error>,
    k: int,
) -> Result<Seq<TokenView>, Error> {
    match a {
        Ok(xs) => match b {
            Ok(ys) => Ok(xs + ys),
            Err(error) => Err(later(error, k)),
        },
        Err(error) => Err(error),
    }
}

/// A text is cut wherever two neighbouring characters do not belong to one token, whatever the
/// characters further on are: the tokens of the one part come first, and then those of the other.
pub proof fn texts_join(u: Seq<char>, v: Seq<char>)
    requires
        lexical::tokens(u) is Ok,
        may_cut(u, v),
        u.len() + v.len() <= usize::MAX,
    ensures
        lexical::tokens(u + v) == both_tokens(
            lexical::tokens(u),
            lexical::tokens(v),
            u.len() as int,
        ),
{
    if let Ok(xs) = lexical::tokens(u) {
        lemma_tokens_before(u, v, 0, xs);
        lemma_tokens_behind(u, v, 0);
    }
}

/// Blanks are no tokens.
pub proof fn blank_is_no_token(c: char)
    requires
        blank(c),
    ensures
        lexical::tokens(seq![c]) == Ok::<Seq<TokenView>, Error>(Seq::empty()),
{
    let s = seq![c];
    assert(s[0] == c);
    assert(lexical::tokens_from(s, 1) == Ok::<Seq<TokenView>, Error>(Seq::empty()));
}

/// A blank between two texts cuts them, whatever their characters are.
pub proof fn blank_cuts(u: Seq<char>, c: char, v: Seq<char>)
    requires
        lexical::tokens(u) is Ok,
        blank(c),
        u.len() + 1 + v.len() <= usize::MAX,
    ensures
        lexical::tokens(u + (seq![c] + v)) == both_tokens(
            lexical::tokens(u),
            lexical::tokens(v),
            u.len() as int + 1,
        ),
{
    let b = seq![c];
    assert(b[0] == c);
    assert(b.last() == c);
    blank_is_no_token(c);
    texts_join(b, v);
    assert((b + v)[0] == c);
    texts_join(u, b + v);
    error_is_in_text(v);
    if let Ok(ys) = lexical::tokens(v) {
        assert(Seq::<TokenView>::empty() + ys =~= ys);
    }
}

/// A blank put where a text may be cut anyway changes no token.
pub proof fn blank_changes_no_token(u: Seq<char>, c: char, v: Seq<char>)
    requires
        lexical::tokens(u) is Ok,
        lexical::tokens(v) is Ok,
        may_cut(u, v),
        blank(c),
        u.len() + 1 + v.len() <= usize::MAX,
    ensures
        lexical::tokens(u + (seq![c] + v)) == lexical::tokens(u + v),
{
    blank_cuts(u, c, v);
    texts_join(u, v);
}

// ----------------------------------------------------------------------------------------------
// The first token, whatever follows.
// ----------------------------------------------------------------------------------------------

/// The first token of a text, and the tokens behind it.
proof fn lemma_first(u: Seq<char>, v: Seq<char>, x: TokenView)
    requires
        u.len() > 0,
        !blank(u[0]),
        lexical::token_at(u + v, 0) == Ok::<(TokenView, int), Error>((x, u.len() as int)),
        u.len() + v.len() <= usize::MAX,
    ensures
        lexical::tokens(u + v) == both_tokens(Ok(seq![x]), lexical::tokens(v), u.len() as int),
{
    assert((u + v)[0] == u[0]);
    lemma_tokens_behind(u, v, 0);
}

/// What a word is: one of seven keywords, or else a name.
pub open spec fn word_of(w: Seq<char>) -> TokenView {
    if w == seq!['f', 'u', 'n', 'c'] {
        TokenView::Keyword(Keyword::Func)
    } else if w == seq!['r', 'e', 'q', 'u', 'i', 'r', 'e'] {
        TokenView::Keyword(Keyword::Require)
    } else if w == seq!['l', 'e', 't'] {
        TokenView::Keyword(Keyword::Let)
    } else if w == seq!['i', 'm', 'm', 'u', 't'] {
        TokenView::Keyword(Keyword::Immut)
    } else if w == seq!['c', 'o', 'n', 's', 't'] {
        TokenView::Keyword(Keyword::Const)
    } else if w == seq!['i', 'f'] {
        TokenView::Keyword(Keyword::If)
    } else if w == seq!['e', 'l', 's', 'e'] {
        TokenView::Keyword(Keyword::Else)
    } else {
        TokenView::Identifier(w)
    }
}

proof fn lemma_word_of(w: Seq<char>)
    ensures
        lexical::word(w) == word_of(w),
{
    reveal_strlit("func");
    reveal_strlit("require");
    reveal_strlit("let");
    reveal_strlit("immut");
    reveal_strlit("const");
    reveal_strlit("if");
    reveal_strlit("else");
    assert("func"@ =~= seq!['f', 'u', 'n', 'c']);
    assert("require"@ =~= seq!['r', 'e', 'q', 'u', 'i', 'r', 'e']);
    assert("let"@ =~= seq!['l', 'e', 't']);
    assert("immut"@ =~= seq!['i', 'm', 'm', 'u', 't']);
    assert("const"@ =~= seq!['c', 'o', 'n', 's', 't']);
    assert("if"@ =~= seq!['i', 'f']);
    assert("else"@ =~= seq!['e', 'l', 's', 'e']);
}

/// A letter with letters and digits behind it.
pub open spec fn is_name(w: Seq<char>) -> bool {
    &&& w.len() > 0
    &&& letter(w[0])
    &&& forall|i: int| 0 <= i < w.len() ==> letter(#[trigger] w[i]) || numeral(w[i])
}

/// A letter with all letters and digits behind it is one token: a keyword or a name.
pub proof fn word_is_one_token(w: Seq<char>, v: Seq<char>)
    requires
        is_name(w),
        v.len() == 0 || !(letter(v[0]) || numeral(v[0])),
        w.len() + v.len() <= usize::MAX,
    ensures
        lexical::tokens(w + v) == both_tokens(
            Ok(seq![word_of(w)]),
            lexical::tokens(v),
            w.len() as int,
        ),
{
    let s = w + v;
    let n = w.len() as int;
    let f = |c: char| lexical::is_word(c);
    assert(s[0] == w[0]);
    assert forall|i: int| 0 <= i < n implies f(#[trigger] s[i]) by {
        assert(s[i] == w[i]);
    }
    if v.len() > 0 {
        assert(s[n] == v[0]);
    }
    spelling::lemma_run_ends_at(s, f, 0, n);
    assert(s.subrange(0, n) =~= w);
    lemma_word_of(w);
    lemma_first(w, v, word_of(w));
}

/// Digits.
pub open spec fn are_numerals(w: Seq<char>) -> bool {
    w.len() > 0 && forall|i: int| 0 <= i < w.len() ==> numeral(#[trigger] w[i])
}

/// A text begins as the part of a float behind its first digits does: a point and a digit.
pub open spec fn begins_fraction(v: Seq<char>) -> bool {
    v.len() >= 2 && v[0] == '.' && numeral(v[1])
}

proof fn lemma_numerals(w: Seq<char>, v: Seq<char>)
    requires
        are_numerals(w),
        v.len() == 0 || !numeral(v[0]),
    ensures
        lexical::run_end(w + v, |c: char| lexical::is_digit(c), 0) == w.len(),
        (w + v).subrange(0, w.len() as int) == w,
        (w + v)[0] == w[0],
        numeral(w[0]),
{
    let s = w + v;
    let n = w.len() as int;
    let f = |c: char| lexical::is_digit(c);
    assert forall|i: int| 0 <= i < n implies f(#[trigger] s[i]) by {
        assert(s[i] == w[i]);
    }
    if v.len() > 0 {
        assert(s[n] == v[0]);
    }
    assert(s[0] == w[0]);
    spelling::lemma_run_ends_at(s, f, 0, n);
    assert(s.subrange(0, n) =~= w);
}

/// The number that digits stand for: ten times that of all but the last, and the last.
pub open spec fn number_of(w: Seq<char>) -> int
    decreases w.len(),
{
    if w.len() == 0 {
        0
    } else {
        10 * number_of(w.drop_last()) + (w.last() as int - '0' as int)
    }
}

proof fn lemma_number_of(w: Seq<char>)
    requires
        forall|i: int| 0 <= i < w.len() ==> numeral(#[trigger] w[i]),
    ensures
        lexical::decimal(w) == number_of(w),
        number_of(w) >= 0,
    decreases w.len(),
{
    if w.len() > 0 {
        assert forall|i: int| 0 <= i < w.drop_last().len() implies numeral(
            #[trigger] w.drop_last()[i],
        ) by {
            assert(w.drop_last()[i] == w[i]);
        }
        lemma_number_of(w.drop_last());
        assert(numeral(w[w.len() - 1]));
    }
}

/// Digits, all that there are, are the integer that they stand for, if it is not too large.
pub proof fn digits_are_one_integer(w: Seq<char>, v: Seq<char>)
    requires
        are_numerals(w),
        v.len() == 0 || !numeral(v[0]),
        !begins_fraction(v),
        w.len() + v.len() <= usize::MAX,
    ensures
        number_of(w) >= 0,
        lexical::tokens(w + v) == (if number_of(w) <= u128::MAX {
            both_tokens(
                Ok(seq![TokenView::Literal(LiteralView::Integer(number_of(w) as u128))]),
                lexical::tokens(v),
                w.len() as int,
            )
        } else {
            Err(Error::IntegerTooLarge(0))
        }),
{
    let s = w + v;
    let n = w.len() as int;
    lemma_numerals(w, v);
    lemma_number_of(w);
    if v.len() > 0 {
        assert(s[n] == v[0]);
    }
    if v.len() > 1 {
        assert(s[n + 1] == v[1]);
    }
    if number_of(w) <= u128::MAX {
        lemma_first(w, v, TokenView::Literal(LiteralView::Integer(number_of(w) as u128)));
    }
}

/// Digits, a point and digits, all that there are, are one float, spelled as it is.
pub proof fn digits_with_point_are_one_float(a: Seq<char>, b: Seq<char>, v: Seq<char>)
    requires
        are_numerals(a),
        are_numerals(b),
        v.len() == 0 || !numeral(v[0]),
        a.len() + 1 + b.len() + v.len() <= usize::MAX,
    ensures
        ({
            let w = a + (seq!['.'] + b);
            lexical::tokens(w + v) == both_tokens(
                Ok(seq![TokenView::Literal(LiteralView::Float(w))]),
                lexical::tokens(v),
                w.len() as int,
            )
        }),
{
    let w = a + (seq!['.'] + b);
    let s = w + v;
    let n = w.len() as int;
    let k = a.len() as int;
    let f = |c: char| lexical::is_digit(c);
    let rest = (seq!['.'] + b) + v;
    assert(rest[0] == '.');
    assert(s =~= a + rest);
    lemma_numerals(a, rest);
    assert forall|i: int| k + 1 <= i < n implies f(#[trigger] s[i]) by {
        assert(s[i] == b[i - k - 1]);
    }
    assert(s[k] == '.');
    assert(s[k + 1] == b[0]);
    if v.len() > 0 {
        assert(s[n] == v[0]);
    }
    spelling::lemma_run_ends_at(s, f, k + 1, n);
    assert(s.subrange(0, n) =~= w);
    assert(w[0] == a[0]);
    lemma_first(w, v, TokenView::Literal(LiteralView::Float(w)));
}

/// What stands between two quotes is one string of just that, whatever follows.
pub proof fn quoted_is_one_string(w: Seq<char>, v: Seq<char>)
    requires
        forall|i: int| 0 <= i < w.len() ==> #[trigger] w[i] != '"',
        w.len() + 2 + v.len() <= usize::MAX,
    ensures
        lexical::tokens((seq!['"'] + w + seq!['"']) + v) == both_tokens(
            Ok(seq![TokenView::Literal(LiteralView::String(w))]),
            lexical::tokens(v),
            w.len() as int + 2,
        ),
{
    let u = seq!['"'] + w + seq!['"'];
    let s = u + v;
    let q = w.len() as int + 1;
    let f = |c: char| c != '"';
    assert(s[0] == '"');
    assert(u[0] == '"');
    assert(s[q] == '"');
    assert forall|i: int| 1 <= i < q implies f(#[trigger] s[i]) by {
        assert(s[i] == w[i - 1]);
    }
    spelling::lemma_run_ends_at(s, f, 1, q);
    assert(s.subrange(1, q) =~= w);
    lemma_first(u, v, TokenView::Literal(LiteralView::String(w)));
}

/// The operator that two characters are, by the first of them.
pub open spec fn double_of(c: char) -> Operator {
    if c == '*' {
        Operator::Pow
    } else if c == '=' {
        Operator::Eq
    } else if c == '!' {
        Operator::Ne
    } else if c == '<' {
        Operator::Le
    } else if c == '>' {
        Operator::Ge
    } else if c == '&' {
        Operator::And
    } else {
        Operator::Or
    }
}

/// Two characters that are one operator are that operator, whatever follows.
pub proof fn double_is_one_operator(c: char, d: char, v: Seq<char>)
    requires
        doubled(c, d),
        2 + v.len() <= usize::MAX,
    ensures
        lexical::tokens(seq![c, d] + v) == both_tokens(
            Ok(seq![TokenView::Operator(double_of(c))]),
            lexical::tokens(v),
            2,
        ),
{
    let u = seq![c, d];
    let s = u + v;
    assert(s[0] == c);
    assert(s[1] == d);
    lemma_first(u, v, TokenView::Operator(double_of(c)));
}

/// The token that one character is, other than a letter, a digit or a quote.
pub open spec fn single_of(c: char) -> Option<TokenView> {
    if c == '+' {
        Some(TokenView::Operator(Operator::Add))
    } else if c == '-' {
        Some(TokenView::Operator(Operator::Sub))
    } else if c == '*' {
        Some(TokenView::Operator(Operator::Mul))
    } else if c == '/' {
        Some(TokenView::Operator(Operator::Div))
    } else if c == '%' {
        Some(TokenView::Operator(Operator::Mod))
    } else if c == '<' {
        Some(TokenView::Operator(Operator::Lt))
    } else if c == '>' {
        Some(TokenView::Operator(Operator::Gt))
    } else if c == '!' {
        Some(TokenView::Operator(Operator::Not))
    } else if c == '&' {
        Some(TokenView::Operator(Operator::BitAnd))
    } else if c == '|' {
        Some(TokenView::Operator(Operator::BitOr))
    } else if c == '^' {
        Some(TokenView::Operator(Operator::BitXor))
    } else if c == '~' {
        Some(TokenView::Operator(Operator::BitNot))
    } else if c == '(' {
        Some(TokenView::StartBracket(Bracket::Paren))
    } else if c == '[' {
        Some(TokenView::StartBracket(Bracket::Bracket))
    } else if c == '{' {
        Some(TokenView::StartBracket(Bracket::Brace))
    } else if c == ')' {
        Some(TokenView::EndBracket(Bracket::Paren))
    } else if c == ']' {
        Some(TokenView::EndBracket(Bracket::Bracket))
    } else if c == '}' {
        Some(TokenView::EndBracket(Bracket::Brace))
    } else if c == ',' {
        Some(TokenView::Comma)
    } else if c == '.' {
        Some(TokenView::Dot)
    } else if c == ';' {
        Some(TokenView::Semicolon)
    } else if c == '=' {
        Some(TokenView::Assign)
    } else {
        None
    }
}

/// A character that is no letter, digit, blank or quote, and is no operator together with the next
/// one, is a token by itself, or else the text has an error there, whatever follows.
pub proof fn single_is_one_token(c: char, v: Seq<char>)
    requires
        !letter(c) && !numeral(c) && !blank(c) && c != '"',
        v.len() == 0 || !doubled(c, v[0]),
        1 + v.len() <= usize::MAX,
    ensures
        lexical::tokens(seq![c] + v) == (match single_of(c) {
            Some(x) => both_tokens(Ok(seq![x]), lexical::tokens(v), 1),
            None => Err(Error::UnexpectedCharacter(0)),
        }),
{
    let u = seq![c];
    let s = u + v;
    assert(s[0] == c);
    if v.len() > 0 {
        assert(s[1] == v[0]);
        lemma_pair(c, v[0]);
    }
    assert(lexical::single(c) == single_of(c));
    if let Some(x) = single_of(c) {
        lemma_first(u, v, x);
    }
}

/// A quote with none behind it is an error there.
pub proof fn lone_quote_is_an_error(w: Seq<char>)
    requires
        forall|i: int| 0 <= i < w.len() ==> #[trigger] w[i] != '"',
        1 + w.len() <= usize::MAX,
    ensures
        lexical::tokens(seq!['"'] + w) == Err::<Seq<TokenView>, Error>(
            Error::UnterminatedString(0),
        ),
{
    let s = seq!['"'] + w;
    let f = |c: char| c != '"';
    assert(s[0] == '"');
    assert forall|i: int| 1 <= i < s.len() implies f(#[trigger] s[i]) by {
        assert(s[i] == w[i - 1]);
    }
    spelling::lemma_run_ends_at(s, f, 1, s.len() as int);
}

/// A text without characters has no tokens.
pub proof fn no_text_has_no_tokens()
    ensures
        lexical::tokens(Seq::empty()) == Ok::<Seq<TokenView>, Error>(Seq::empty()),
{
}

} // verus!
