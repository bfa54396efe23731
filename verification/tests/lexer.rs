//! From text to tokens.

use terbium_grammar::error::Error;
use terbium_grammar::lexer::get_lexer;
use terbium_grammar::token::{Bracket, Keyword, Literal, Operator, StringLiteral, Token};

fn tokens(text: &str) -> Vec<Token> {
    get_lexer().parse(text).unwrap()
}

fn name(s: &str) -> Token {
    Token::Identifier(s.to_string())
}

fn integer(n: u128) -> Token {
    Token::Literal(Literal::Integer(n))
}

fn float(s: &str) -> Token {
    Token::Literal(Literal::Float(s.to_string()))
}

fn string(s: &str) -> Token {
    Token::Literal(Literal::String(StringLiteral::String(s.to_string())))
}

#[test]
fn empty_text_has_no_tokens() {
    assert_eq!(tokens(""), vec![]);
    assert_eq!(tokens(" \t\r\n"), vec![]);
}

#[test]
fn words_are_keywords_or_names() {
    assert_eq!(
        tokens("func require let immut const if else"),
        vec![
            Token::Keyword(Keyword::Func),
            Token::Keyword(Keyword::Require),
            Token::Keyword(Keyword::Let),
            Token::Keyword(Keyword::Immut),
            Token::Keyword(Keyword::Const),
            Token::Keyword(Keyword::If),
            Token::Keyword(Keyword::Else),
        ]
    );
    assert_eq!(
        tokens("iff _x1 True true"),
        vec![name("iff"), name("_x1"), name("True"), name("true")]
    );
}

#[test]
fn numbers_are_integers_or_floats() {
    assert_eq!(tokens("0 007 42"), vec![integer(0), integer(7), integer(42)]);
    assert_eq!(tokens("1.50"), vec![float("1.50")]);
    assert_eq!(tokens("1.x"), vec![integer(1), Token::Dot, name("x")]);
    assert_eq!(tokens("1.2.3"), vec![float("1.2"), Token::Dot, integer(3)]);
    assert_eq!(tokens("12ab"), vec![integer(12), name("ab")]);
}

#[test]
fn the_largest_integer() {
    let text = format!("{}", u128::MAX);
    assert_eq!(tokens(&text), vec![integer(u128::MAX)]);
}

#[test]
fn strings_end_at_the_next_quote() {
    assert_eq!(tokens("\"\""), vec![string("")]);
    assert_eq!(tokens("\"a b\"c"), vec![string("a b"), name("c")]);
    assert_eq!(tokens("\"\u{e9}\u{4e16}\n\""), vec![string("\u{e9}\u{4e16}\n")]);
}

#[test]
fn symbols_are_as_long_as_they_can_be() {
    let op = Token::Operator;
    assert_eq!(
        tokens("+-*/% ** == != < > <= >= && || ! & | ^ ~"),
        vec![
            op(Operator::Add),
            op(Operator::Sub),
            op(Operator::Mul),
            op(Operator::Div),
            op(Operator::Mod),
            op(Operator::Pow),
            op(Operator::Eq),
            op(Operator::Ne),
            op(Operator::Lt),
            op(Operator::Gt),
            op(Operator::Le),
            op(Operator::Ge),
            op(Operator::And),
            op(Operator::Or),
            op(Operator::Not),
            op(Operator::BitAnd),
            op(Operator::BitOr),
            op(Operator::BitXor),
            op(Operator::BitNot),
        ]
    );
    assert_eq!(tokens("***"), vec![op(Operator::Pow), op(Operator::Mul)]);
    assert_eq!(tokens("==="), vec![op(Operator::Eq), Token::Assign]);
    assert_eq!(
        tokens("([{}]),.;="),
        vec![
            Token::StartBracket(Bracket::Paren),
            Token::StartBracket(Bracket::Bracket),
            Token::StartBracket(Bracket::Brace),
            Token::EndBracket(Bracket::Brace),
            Token::EndBracket(Bracket::Bracket),
            Token::EndBracket(Bracket::Paren),
            Token::Comma,
            Token::Dot,
            Token::Semicolon,
            Token::Assign,
        ]
    );
}

#[test]
fn the_first_error_is_reported_at_its_character() {
    let parse = |text: &str| get_lexer().parse(text);
    assert_eq!(parse("a # \""), Err(vec![Error::UnexpectedCharacter(2)]));
    assert_eq!(parse("\u{e9}"), Err(vec![Error::UnexpectedCharacter(0)]));
    assert_eq!(parse("\"\u{e9}\" @"), Err(vec![Error::UnexpectedCharacter(4)]));
    assert_eq!(parse("x \"abc"), Err(vec![Error::UnterminatedString(2)]));
    let text = format!("  {}0", u128::MAX);
    assert_eq!(parse(&text), Err(vec![Error::IntegerTooLarge(2)]));
}

#[test]
fn equal_tokens_are_the_same() {
    let all = tokens("a b 1 2 1.0 2.0 \"s\" \"t\" + - let if ( [ ) ] , . ; =");
    for (i, x) in all.iter().enumerate() {
        for (j, y) in all.iter().enumerate() {
            assert_eq!(x.same(y), i == j);
            assert_eq!(x == y, i == j);
        }
    }
}
