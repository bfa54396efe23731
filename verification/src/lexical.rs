//! The lexical grammar: which texts are which tokens.

use crate::error::Error;
use crate::token::{Bracket, Keyword, LiteralView, Operator, TokenView};
use vstd::prelude::*;

verus! {

/// The characters between tokens.
pub open spec fn is_space(c: char) -> bool {
    c == ' ' || c == '\t' || c == '\n' || c == '\r'
}

/// A decimal digit.
pub open spec fn is_digit(c: char) -> bool {
    '0' <= c <= '9'
}

/// What a word begins with.
pub open spec fn is_word_start(c: char) -> bool {
    'a' <= c <= 'z' || 'A' <= c <= 'Z' || c == '_'
}

/// What a word goes on with.
pub open spec fn is_word(c: char) -> bool {
    is_word_start(c) || is_digit(c)
}

/// The end of the longest run from `p` on of characters that satisfy `f`.
pub open spec fn run_end(s: Seq<char>, f: spec_fn(char) -> bool, p: int) -> int
    decreases s.len() - p,
{
    if 0 <= p < s.len() && f(s[p]) {
        run_end(s, f, p + 1)
    } else {
        p
    }
}

/// The value of a digit.
pub open spec fn digit_value(c: char) -> nat {
    (c as int - '0' as int) as nat
}

/// The number that a sequence of decimal digits stands for.
pub open spec fn decimal(digits: Seq<char>) -> nat
    decreases digits.len(),
{
    if digits.len() == 0 {
        0
    } else {
        10 * decimal(digits.drop_last()) + digit_value(digits.last())
    }
}

/// A word is a keyword or else an identifier. `true` and `false` are identifiers.
pub open spec fn word(text: Seq<char>) -> TokenView {
    if text == "func"@ {
        TokenView::Keyword(Keyword::Func)
    } else if text == "require"@ {
        TokenView::Keyword(Keyword::Require)
    } else if text == "let"@ {
        TokenView::Keyword(Keyword::Let)
    } else if text == "immut"@ {
        TokenView::Keyword(Keyword::Immut)
    } else if text == "const"@ {
        TokenView::Keyword(Keyword::Const)
    } else if text == "if"@ {
        TokenView::Keyword(Keyword::If)
    } else if text == "else"@ {
        TokenView::Keyword(Keyword::Else)
    } else {
        TokenView::Identifier(text)
    }
}

/// The tokens that are two characters.
pub open spec fn pair(c: char, d: char) -> Option<TokenView> {
    if c == '*' && d == '*' {
        Some(TokenView::Operator(Operator::Pow))
    } else if c == '=' && d == '=' {
        Some(TokenView::Operator(Operator::Eq))
    } else if c == '!' && d == '=' {
        Some(TokenView::Operator(Operator::Ne))
    } else if c == '<' && d == '=' {
        Some(TokenView::Operator(Operator::Le))
    } else if c == '>' && d == '=' {
        Some(TokenView::Operator(Operator::Ge))
    } else if c == '&' && d == '&' {
        Some(TokenView::Operator(Operator::And))
    } else if c == '|' && d == '|' {
        Some(TokenView::Operator(Operator::Or))
    } else {
        None
    }
}

/// The tokens that are one character, other than words and numbers.
pub open spec fn single(c: char) -> Option<TokenView> {
    if c == '+' {
        Some(TokenView::Operator(Operator::Add))
    } else if c == '-' {
        Some(TokenView::Operator(Operator::Sub))
    } else if c == '*' {
        Some(TokenView::Operator(Operator::Mul))
    } else if c == '/' {
        Some(TokenView::Operator(Operator::Div))
    } else if c == '%' {
        Some(TokenView::Operator(Operator::Mod))
    } else if c == '<' {
        Some(TokenView::Operator(Operator::Lt))
    } else if c == '>' {
        Some(TokenView::Operator(Operator::Gt))
    } else if c == '!' {
        Some(TokenView::Operator(Operator::Not))
    } else if c == '&' {
        Some(TokenView::Operator(Operator::BitAnd))
    } else if c == '|' {
        Some(TokenView::Operator(Operator::BitOr))
    } else if c == '^' {
        Some(TokenView::Operator(Operator::BitXor))
    } else if c == '~' {
        Some(TokenView::Operator(Operator::BitNot))
    } else if c == '(' {
        Some(TokenView::StartBracket(Bracket::Paren))
    } else if c == ')' {
        Some(TokenView::EndBracket(Bracket::Paren))
    } else if c == '[' {
        Some(TokenView::StartBracket(Bracket::Bracket))
    } else if c == ']' {
        Some(TokenView::EndBracket(Bracket::Bracket))
    } else if c == '{' {
        Some(TokenView::StartBracket(Bracket::Brace))
    } else if c == '}' {
        Some(TokenView::EndBracket(Bracket::Brace))
    } else if c == ',' {
        Some(TokenView::Comma)
    } else if c == '.' {
        Some(TokenView::Dot)
    } else if c == ';' {
        Some(TokenView::Semicolon)
    } else if c == '=' {
        Some(TokenView::Assign)
    } else {
        None
    }
}

/// The longest symbol at `p`.
pub open spec fn symbol_at(s: Seq<char>, p: int) -> Result<(TokenView, int), Error> {
    if p + 1 < s.len() && pair(s[p], s[p + 1]) is Some {
        Ok((pair(s[p], s[p + 1])->0, p + 2))
    } else {
        match single(s[p]) {
            Some(x) => Ok((x, p + 1)),
            None => Err(Error::UnexpectedCharacter(p as usize)),
        }
    }
}

/// The number at `p`: digits, and with a point and digits behind them a float.
pub open spec fn number_at(s: Seq<char>, p: int) -> Result<(TokenView, int), Error> {
    let q = run_end(s, |c: char| is_digit(c), p);
    if q + 1 < s.len() && s[q] == '.' && is_digit(s[q + 1]) {
        let r = run_end(s, |c: char| is_digit(c), q + 1);
        Ok((TokenView::Literal(LiteralView::Float(s.subrange(p, r))), r))
    } else if decimal(s.subrange(p, q)) <= u128::MAX {
        Ok((TokenView::Literal(LiteralView::Integer(decimal(s.subrange(p, q)) as u128)), q))
    } else {
        Err(Error::IntegerTooLarge(p as usize))
    }
}

/// The string whose opening quote is at `p`: all that stands before the next quote.
pub open spec fn string_at(s: Seq<char>, p: int) -> Result<(TokenView, int), Error> {
    let q = run_end(s, |c: char| c != '"', p + 1);
    if q < s.len() {
        Ok((TokenView::Literal(LiteralView::String(s.subrange(p + 1, q))), q + 1))
    } else {
        Err(Error::UnterminatedString(p as usize))
    }
}

/// The token at `p`, where no space stands, and the position behind it.
pub open spec fn token_at(s: Seq<char>, p: int) -> Result<(TokenView, int), Error> {
    if is_word_start(s[p]) {
        let q = run_end(s, |c: char| is_word(c), p);
        Ok((word(s.subrange(p, q)), q))
    } else if is_digit(s[p]) {
        number_at(s, p)
    } else if s[p] == '"' {
        string_at(s, p)
    } else {
        symbol_at(s, p)
    }
}

/// The tokens from `p` on, or the first error.
pub open spec fn tokens_from(s: Seq<char>, p: int) -> Result<Seq<TokenView>, Error>
    decreases s.len() - p,
{
    if p < 0 || p >= s.len() {
        Ok(Seq::empty())
    } else if is_space(s[p]) {
        tokens_from(s, p + 1)
    } else {
        proof {
            lemma_token_at(s, p);
        }
        match token_at(s, p) {
            Ok((x, q)) => match tokens_from(s, q) {
                Ok(xs) => Ok(seq![x] + xs),
                Err(error) => Err(error),
            },
            Err(error) => Err(error),
        }
    }
}

/// The tokens of a text, or the first error.
pub open spec fn tokens(s: Seq<char>) -> Result<Seq<TokenView>, Error> {
    tokens_from(s, 0)
}

/// A run does not end before it begins, nor behind the text.
pub proof fn lemma_run_end(s: Seq<char>, f: spec_fn(char) -> bool, p: int)
    requires
        0 <= p <= s.len(),
    ensures
        p <= run_end(s, f, p) <= s.len(),
        forall|i: int| p <= i < run_end(s, f, p) ==> f(#[trigger] s[i]),
        run_end(s, f, p) < s.len() ==> !f(s[run_end(s, f, p)]),
    decreases s.len() - p,
{
    if p < s.len() && f(s[p]) {
        lemma_run_end(s, f, p + 1);
    }
}

/// A token takes at least one character, and none behind the text.
pub proof fn lemma_token_at(s: Seq<char>, p: int)
    requires
        0 <= p < s.len(),
    ensures
        token_at(s, p) matches Ok((_, q)) ==> p < q <= s.len(),
{
    lemma_run_end(s, |c: char| is_word(c), p);
    lemma_run_end(s, |c: char| is_digit(c), p);
    lemma_run_end(s, |c: char| c != '"', p + 1);
    let q = run_end(s, |c: char| is_digit(c), p);
    if q + 1 < s.len() {
        lemma_run_end(s, |c: char| is_digit(c), q + 1);
    }
}

} // verus!
