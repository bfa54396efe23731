//! The lexer: from text to tokens.

use crate::error::Error;
use crate::lexical;
use crate::token;
use crate::token::{Bracket, Keyword, Literal, Operator, StringLiteral, Token, TokenView};
use vstd::prelude::*;
use vstd::string::StrSliceExecFns;

verus! {

/// The characters of a text.
fn characters(text: &str) -> (r: Vec<char>)
    ensures
        r@ == text@,
{
    let mut r: Vec<char> = Vec::new();
    for c in it: text.chars()
        invariant
            it.seq() == text@,
            r@ == text@.take(it.index() as int),
    {
        assert(text@.take(it.index() as int).push(c) =~= text@.take(it.index() + 1));
        r.push(c);
    }
    assert(text@.take(text@.len() as int) =~= text@);
    r
}

/// What was read, taken by its view.
pub open spec fn scanned(r: Result<(Token, usize), Error>) -> Result<(TokenView, int), Error> {
    match r {
        Ok((x, q)) => Ok((x@, q as int)),
        Err(error) => Err(error),
    }
}

/// Whether a character stands between tokens.
fn is_space(c: char) -> (r: bool)
    ensures
        r == lexical::is_space(c),
{
    c == ' ' || c == '\t' || c == '\n' || c == '\r'
}

/// Whether a character is a decimal digit.
fn is_digit(c: char) -> (r: bool)
    ensures
        r == lexical::is_digit(c),
{
    '0' <= c && c <= '9'
}

/// Whether a word may begin with a character.
fn is_word_start(c: char) -> (r: bool)
    ensures
        r == lexical::is_word_start(c),
{
    ('a' <= c && c <= 'z') || ('A' <= c && c <= 'Z') || c == '_'
}

/// The end of the digits at `p`.
fn digits_end(s: &Vec<char>, p: usize) -> (r: usize)
    requires
        p <= s.len(),
    ensures
        r == lexical::run_end(s@, |c: char| lexical::is_digit(c), p as int),
        p <= r <= s.len(),
        forall|i: int| p <= i < r ==> lexical::is_digit(#[trigger] s[i]),
{
    let ghost f = |c: char| lexical::is_digit(c);
    let mut q: usize = p;
    while q < s.len() && is_digit(s[q])
        invariant
            f == (|c: char| lexical::is_digit(c)),
            p <= q <= s.len(),
            lexical::run_end(s@, f, p as int) == lexical::run_end(s@, f, q as int),
            forall|i: int| p <= i < q ==> lexical::is_digit(#[trigger] s[i]),
        decreases s.len() - q,
    {
        q = q + 1;
    }
    q
}

/// The end of the word at `p`.
fn word_end(s: &Vec<char>, p: usize) -> (r: usize)
    requires
        p <= s.len(),
    ensures
        r == lexical::run_end(s@, |c: char| lexical::is_word(c), p as int),
        p <= r <= s.len(),
{
    let ghost f = |c: char| lexical::is_word(c);
    let mut q: usize = p;
    while q < s.len() && (is_word_start(s[q]) || is_digit(s[q]))
        invariant
            f == (|c: char| lexical::is_word(c)),
            p <= q <= s.len(),
            lexical::run_end(s@, f, p as int) == lexical::run_end(s@, f, q as int),
        decreases s.len() - q,
    {
        q = q + 1;
    }
    q
}

/// The first quote from `p` on, or the end of the text.
fn quote_from(s: &Vec<char>, p: usize) -> (r: usize)
    requires
        p <= s.len(),
    ensures
        r == lexical::run_end(s@, |c: char| c != '"', p as int),
        p <= r <= s.len(),
{
    let ghost f = |c: char| c != '"';
    let mut q: usize = p;
    while q < s.len() && s[q] != '"'
        invariant
            f == (|c: char| c != '"'),
            p <= q <= s.len(),
            lexical::run_end(s@, f, p as int) == lexical::run_end(s@, f, q as int),
        decreases s.len() - q,
    {
        q = q + 1;
    }
    q
}

/// More digits do not make a number smaller.
proof fn lemma_decimal_grows(s: Seq<char>, p: int, i: int, q: int)
    requires
        0 <= p <= i <= q <= s.len(),
    ensures
        lexical::decimal(s.subrange(p, i)) <= lexical::decimal(s.subrange(p, q)),
    decreases q - i,
{
    if i < q {
        lemma_decimal_grows(s, p, i, q - 1);
        assert(s.subrange(p, q).drop_last() =~= s.subrange(p, q - 1));
    }
}

/// The number that the digits from `p` to `q` stand for, if it fits.
fn decimal(s: &Vec<char>, p: usize, q: usize) -> (r: Option<u128>)
    requires
        p <= q <= s.len(),
        forall|i: int| p <= i < q ==> lexical::is_digit(#[trigger] s[i]),
    ensures
        r matches Some(n) ==> n == lexical::decimal(s@.subrange(p as int, q as int)),
        r is None ==> lexical::decimal(s@.subrange(p as int, q as int)) > u128::MAX,
{
    let mut value: u128 = 0;
    for i in p..q
        invariant
            p <= i <= q <= s.len(),
            forall|i: int| p <= i < q ==> lexical::is_digit(#[trigger] s[i]),
            value == lexical::decimal(s@.subrange(p as int, i as int)),
    {
        let digit: u128 = s[i] as u128 - '0' as u128;
        proof {
            assert(s@.subrange(p as int, i + 1).drop_last() =~= s@.subrange(p as int, i as int));
            assert(lexical::decimal(s@.subrange(p as int, i + 1)) == 10 * value + digit);
            lemma_decimal_grows(s@, p as int, i + 1, q as int);
        }
        if value > (u128::MAX - digit) / 10 {
            return None;
        }
        value = 10 * value + digit;
    }
    Some(value)
}

/// A word as a token.
fn word(text: String) -> (r: Token)
    ensures
        r@ == lexical::word(text@),
{
    if text == "func".to_owned() {
        Token::Keyword(Keyword::Func)
    } else if text == "require".to_owned() {
        Token::Keyword(Keyword::Require)
    } else if text == "let".to_owned() {
        Token::Keyword(Keyword::Let)
    } else if text == "immut".to_owned() {
        Token::Keyword(Keyword::Immut)
    } else if text == "const".to_owned() {
        Token::Keyword(Keyword::Const)
    } else if text == "if".to_owned() {
        Token::Keyword(Keyword::If)
    } else if text == "else".to_owned() {
        Token::Keyword(Keyword::Else)
    } else {
        Token::Identifier(text)
    }
}

/// The token that two characters are.
fn pair(c: char, d: char) -> (r: Option<Token>)
    ensures
        r is Some == lexical::pair(c, d) is Some,
        r matches Some(x) ==> lexical::pair(c, d) == Some(x@),
{
    match (c, d) {
        ('*', '*') => Some(Token::Operator(Operator::Pow)),
        ('=', '=') => Some(Token::Operator(Operator::Eq)),
        ('!', '=') => Some(Token::Operator(Operator::Ne)),
        ('<', '=') => Some(Token::Operator(Operator::Le)),
        ('>', '=') => Some(Token::Operator(Operator::Ge)),
        ('&', '&') => Some(Token::Operator(Operator::And)),
        ('|', '|') => Some(Token::Operator(Operator::Or)),
        _ => None,
    }
}

/// The token that one character is.
fn single(c: char) -> (r: Option<Token>)
    ensures
        r is Some == lexical::single(c) is Some,
        r matches Some(x) ==> lexical::single(c) == Some(x@),
{
    match c {
        '+' => Some(Token::Operator(Operator::Add)),
        '-' => Some(Token::Operator(Operator::Sub)),
        '*' => Some(Token::Operator(Operator::Mul)),
        '/' => Some(Token::Operator(Operator::Div)),
        '%' => Some(Token::Operator(Operator::Mod)),
        '<' => Some(Token::Operator(Operator::Lt)),
        '>' => Some(Token::Operator(Operator::Gt)),
        '!' => Some(Token::Operator(Operator::Not)),
        '&' => Some(Token::Operator(Operator::BitAnd)),
        '|' => Some(Token::Operator(Operator::BitOr)),
        '^' => Some(Token::Operator(Operator::BitXor)),
        '~' => Some(Token::Operator(Operator::BitNot)),
        '(' => Some(Token::StartBracket(Bracket::Paren)),
        ')' => Some(Token::EndBracket(Bracket::Paren)),
        '[' => Some(Token::StartBracket(Bracket::Bracket)),
        ']' => Some(Token::EndBracket(Bracket::Bracket)),
        '{' => Some(Token::StartBracket(Bracket::Brace)),
        '}' => Some(Token::EndBracket(Bracket::Brace)),
        ',' => Some(Token::Comma),
        '.' => Some(Token::Dot),
        ';' => Some(Token::Semicolon),
        '=' => Some(Token::Assign),
        _ => None,
    }
}

/// The number at `p`.
fn number_at(text: &str, s: &Vec<char>, p: usize) -> (r: Result<(Token, usize), Error>)
    requires
        s@ == text@,
        p < s.len(),
    ensures
        scanned(r) == lexical::number_at(s@, p as int),
{
    let q = digits_end(s, p);
    if q < s.len() && s.len() - q > 1 && s[q] == '.' && is_digit(s[q + 1]) {
        let r = digits_end(s, q + 1);
        let digits = text.substring_char(p, r).to_owned();
        return Ok((Token::Literal(Literal::Float(digits)), r));
    }
    match decimal(s, p, q) {
        Some(n) => Ok((Token::Literal(Literal::Integer(n)), q)),
        None => Err(Error::IntegerTooLarge(p)),
    }
}

/// The token at `p`.
fn token_at(text: &str, s: &Vec<char>, p: usize) -> (r: Result<(Token, usize), Error>)
    requires
        s@ == text@,
        p < s.len(),
    ensures
        scanned(r) == lexical::token_at(s@, p as int),
        r matches Ok((_, q)) ==> p < q <= s.len(),
{
    proof {
        lexical::lemma_token_at(s@, p as int);
    }
    if is_word_start(s[p]) {
        let q = word_end(s, p);
        Ok((word(text.substring_char(p, q).to_owned()), q))
    } else if is_digit(s[p]) {
        number_at(text, s, p)
    } else if s[p] == '"' {
        let q = quote_from(s, p + 1);
        if q < s.len() {
            let contents = text.substring_char(p + 1, q).to_owned();
            Ok((Token::Literal(Literal::String(StringLiteral::String(contents))), q + 1))
        } else {
            Err(Error::UnterminatedString(p))
        }
    } else {
        if s.len() - p > 1 {
            if let Some(x) = pair(s[p], s[p + 1]) {
                return Ok((x, p + 2));
            }
        }
        match single(s[p]) {
            Some(x) => Ok((x, p + 1)),
            None => Err(Error::UnexpectedCharacter(p)),
        }
    }
}

/// A lexer.
pub struct Lexer;

/// The lexer of the language.
pub fn get_lexer() -> (r: Lexer)
    ensures
        r == Lexer,
{
    Lexer
}

impl Lexer {
    /// The tokens of a text, or the first error.
    pub fn parse(&self, text: &str) -> (r: Result<Vec<Token>, Vec<Error>>)
        ensures
            match lexical::tokens(text@) {
                Ok(tokens) => r matches Ok(v) && token::views(v@) == tokens,
                Err(error) => r matches Err(v) && v@ == seq![error],
            },
    {
        let s = characters(text);
        let mut tokens: Vec<Token> = Vec::new();
        let mut p: usize = 0;
        proof {
            assert(token::views(tokens@) =~= Seq::empty());
        }
        while p < s.len()
            invariant
                s@ == text@,
                p <= s.len(),
                match lexical::tokens_from(s@, p as int) {
                    Ok(rest) => lexical::tokens(text@) == Ok::<Seq<TokenView>, Error>(
                        token::views(tokens@) + rest,
                    ),
                    Err(error) => lexical::tokens(text@) == Err::<Seq<TokenView>, Error>(error),
                },
            decreases s.len() - p,
        {
            if is_space(s[p]) {
                p = p + 1;
                continue;
            }
            match token_at(text, &s, p) {
                Ok((x, q)) => {
                    proof {
                        if let Ok(rest) = lexical::tokens_from(s@, q as int) {
                            assert(token::views(tokens@.push(x)) + rest =~= token::views(tokens@)
                                + (seq![x@] + rest));
                        }
                    }
                    tokens.push(x);
                    p = q;
                },
                Err(error) => {
                    let mut errors: Vec<Error> = Vec::new();
                    errors.push(error);
                    assert(errors@ =~= seq![error]);
                    return Err(errors);
                },
            }
        }
        assert(token::views(tokens@) + Seq::empty() =~= token::views(tokens@));
        Ok(tokens)
    }
}

} // verus!
