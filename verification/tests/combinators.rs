//! The grammar once more, put together from parser combinators, and held against the parser on
//! many token sequences.

use chumsky::error::Cheap;
use chumsky::prelude::{any, choice, filter_map, just, none_of, recursive, Recursive};
use chumsky::{BoxedParser, Error, Parser};
use std::ops::Range;
use terbium_grammar::ast::{get_body_parser, Body, Expr, Node, Param, ParseInterface, Target};
use terbium_grammar::token::{Bracket, Keyword, Literal, Operator, StringLiteral, Token};

type E = Cheap<Token>;

fn refuse<T>(span: Range<usize>, found: Token) -> Result<T, E> {
    Err(E::expected_input_found(span, None, Some(found)))
}

fn name() -> impl Parser<Token, String, Error = E> + Clone {
    filter_map(|span, x| match x {
        Token::Identifier(s) => Ok(s),
        x => refuse(span, x),
    })
}

fn literal() -> impl Parser<Token, Expr, Error = E> + Clone {
    filter_map(|span, x| match x {
        Token::Literal(Literal::Integer(i)) => Ok(Expr::Integer(i)),
        Token::Literal(Literal::Float(f)) => Ok(Expr::Float(f)),
        Token::Literal(Literal::String(StringLiteral::String(s))) => Ok(Expr::String(s)),
        x => refuse(span, x),
    })
}

fn operators(ops: &'static [Operator]) -> impl Parser<Token, Operator, Error = E> + Clone {
    filter_map(move |span, x| match x {
        Token::Operator(op) if ops.contains(&op) => Ok(op),
        x => refuse(span, x),
    })
}

fn open(b: Bracket) -> impl Parser<Token, Token, Error = E> + Clone {
    just(Token::StartBracket(b))
}

fn close(b: Bracket) -> impl Parser<Token, Token, Error = E> + Clone {
    just(Token::EndBracket(b))
}

fn keyword(k: Keyword) -> impl Parser<Token, Token, Error = E> + Clone {
    just(Token::Keyword(k))
}

fn tier<'a>(
    operand: impl Parser<Token, Expr, Error = E> + Clone + 'a,
    ops: &'static [Operator],
) -> impl Parser<Token, Expr, Error = E> + Clone + 'a {
    operand
        .clone()
        .then(operators(ops).then(operand).repeated())
        .foldl(|lhs, (operator, rhs)| Expr::BinaryExpr {
            operator,
            lhs: Box::new(lhs),
            rhs: Box::new(rhs),
        })
        .boxed()
}

fn expression<'a>(
    body: Recursive<'a, Token, Body, E>,
) -> impl Parser<Token, Expr, Error = E> + Clone + 'a {
    recursive(move |e: Recursive<Token, Expr, E>| {
        let ident = name().map(|s| match s.as_str() {
            "true" => Expr::Bool(true),
            "false" => Expr::Bool(false),
            _ => Expr::Ident(s),
        });
        let list = e.clone().separated_by(just(Token::Comma)).allow_trailing();
        let array = list
            .clone()
            .delimited_by(open(Bracket::Bracket), close(Bracket::Bracket))
            .map(Expr::Array);
        let block = body
            .clone()
            .delimited_by(open(Bracket::Brace), close(Bracket::Brace));
        let if_else = keyword(Keyword::If)
            .ignore_then(e.clone())
            .then(block.clone())
            .then(
                keyword(Keyword::Else)
                    .ignore_then(keyword(Keyword::If))
                    .ignore_then(e.clone())
                    .then(block.clone())
                    .repeated(),
            )
            .then(keyword(Keyword::Else).ignore_then(block).or_not())
            .map(
                |(((condition, Body(body, return_last)), else_if_bodies), else_body)| Expr::If {
                    condition: Box::new(condition),
                    body,
                    else_if_bodies,
                    else_body,
                    return_last,
                },
            );
        let atom = choice((
            literal(),
            ident.clone(),
            e.clone()
                .delimited_by(open(Bracket::Paren), close(Bracket::Paren))
                .boxed(),
            if_else,
            array,
        ))
        .boxed();
        let attr = atom
            .then(just(Token::Dot).ignore_then(ident).repeated())
            .foldl(|expr, ident| {
                Expr::Attr(
                    Box::new(expr),
                    match ident {
                        Expr::Ident(s) => s,
                        Expr::Bool(b) => b.to_string(),
                        _ => unreachable!(),
                    },
                )
            })
            .boxed();
        let call = attr
            .then(
                list.delimited_by(open(Bracket::Paren), close(Bracket::Paren))
                    .or_not(),
            )
            .map(|(expr, args)| match args {
                Some(args) => Expr::Call {
                    value: Box::new(expr),
                    args,
                    kwargs: vec![],
                },
                None => expr,
            })
            .boxed();
        let unary = operators(&[
            Operator::Sub,
            Operator::Add,
            Operator::Not,
            Operator::BitNot,
        ])
        .repeated()
        .then(call)
        .foldr(|operator, expr| Expr::UnaryExpr {
            operator,
            value: Box::new(expr),
        })
        .boxed();
        let pow = tier(unary, &[Operator::Pow]);
        let product = tier(pow, &[Operator::Mul, Operator::Div, Operator::Mod]);
        let sum = tier(product, &[Operator::Add, Operator::Sub]);
        let comparison = tier(
            sum,
            &[
                Operator::Eq,
                Operator::Ne,
                Operator::Lt,
                Operator::Gt,
                Operator::Le,
                Operator::Ge,
            ],
        );
        let and = tier(comparison, &[Operator::And]);
        let or = tier(and, &[Operator::Or]);
        tier(or, &[Operator::BitAnd, Operator::BitOr, Operator::BitXor])
    })
}

fn target(attributes: bool) -> BoxedParser<'static, Token, Target, E> {
    let plain = name().map(Target::Ident);
    let list = plain
        .clone()
        .separated_by(just(Token::Comma))
        .allow_trailing()
        .at_least(1)
        .delimited_by(open(Bracket::Bracket), close(Bracket::Bracket))
        .map(Target::Array);
    if attributes {
        plain
            .then(just(Token::Dot).ignore_then(name()).repeated())
            .foldl(|value, name| Target::Attr(Box::new(value), name))
            .or(list)
            .boxed()
    } else {
        plain.or(list).boxed()
    }
}

fn bodies<'a>() -> Recursive<'a, Token, Body, E> {
    recursive(|body: Recursive<Token, Body, E>| {
        let e = expression(body.clone());
        let names = name()
            .separated_by(just(Token::Comma))
            .allow_trailing()
            .at_least(1);
        let require = keyword(Keyword::Require)
            .ignore_then(names)
            .then_ignore(just(Token::Semicolon))
            .map(Node::Require);
        let value = e.clone();
        let assign = keyword(Keyword::Let)
            .or_not()
            .then(keyword(Keyword::Immut).or_not())
            .or(keyword(Keyword::Const).map(|k| (None, Some(k))))
            .or_not()
            .then_with(move |modifiers| {
                let (let_, immut, const_) = match modifiers {
                    Some((Some(_), second)) => (true, second.is_some(), false),
                    Some((None, Some(Token::Keyword(Keyword::Const)))) => (false, false, true),
                    Some((None, Some(_))) => (false, true, false),
                    Some((None, None)) | None => (false, false, false),
                };
                target(!let_ && !immut)
                    .then_ignore(just(Token::Assign))
                    .repeated()
                    .at_least(1)
                    .then(value.clone())
                    .then_ignore(just(Token::Semicolon))
                    .map(move |(targets, value)| Node::Assign {
                        targets,
                        value,
                        let_,
                        immut,
                        const_,
                    })
            });
        let param = target(false)
            .then(just(Token::Assign).ignore_then(e.clone()).or_not())
            .map(|(target, default)| Param { target, default });
        let func = keyword(Keyword::Func)
            .ignore_then(name())
            .then(
                param
                    .separated_by(just(Token::Comma))
                    .allow_trailing()
                    .delimited_by(open(Bracket::Paren), close(Bracket::Paren)),
            )
            .then(
                body.clone()
                    .delimited_by(open(Bracket::Brace), close(Bracket::Brace)),
            )
            .map(|((name, params), Body(body, return_last))| Node::Func {
                name,
                params,
                body,
                return_last,
            });
        let expr = e
            .clone()
            .then_ignore(just(Token::Semicolon))
            .or(e.clone().try_map(|x, span| match x {
                Expr::If { .. } => Ok(x),
                _ => Err(E::expected_input_found(span, None, None)),
            }))
            .or(e
                .clone()
                .then_ignore(none_of(Token::EndBracket(Bracket::Brace)).rewind()))
            .map(Node::Expr);
        choice((func, assign, require, expr))
            .repeated()
            .then(e.or_not())
            .map(|(mut nodes, last)| {
                let return_last = last.is_some();
                nodes.extend(last.map(Node::Expr));
                Body(nodes, return_last)
            })
    })
}

/// A source of numbers that look random and are the same in each run.
struct Numbers(u64);

impl Numbers {
    fn below(&mut self, n: usize) -> usize {
        self.0 = self
            .0
            .wrapping_mul(6364136223846793005)
            .wrapping_add(1442695040888963407);
        ((self.0 >> 33) as usize) % n
    }
}

fn id(s: &str) -> Token {
    Token::Identifier(s.to_string())
}

fn alphabet() -> Vec<Token> {
    let mut all = vec![
        id("a"),
        id("b"),
        id("true"),
        id("false"),
        Token::Literal(Literal::Integer(1)),
        Token::Literal(Literal::Float("1.5".to_string())),
        Token::Literal(Literal::String(StringLiteral::String("s".to_string()))),
        Token::Comma,
        Token::Dot,
        Token::Semicolon,
        Token::Assign,
    ];
    for b in [Bracket::Paren, Bracket::Bracket, Bracket::Brace] {
        all.push(Token::StartBracket(b));
        all.push(Token::EndBracket(b));
    }
    for k in [
        Keyword::Func,
        Keyword::Require,
        Keyword::Let,
        Keyword::Immut,
        Keyword::Const,
        Keyword::If,
        Keyword::Else,
    ] {
        all.push(Token::Keyword(k));
    }
    for op in [
        Operator::Add,
        Operator::Sub,
        Operator::Mul,
        Operator::Div,
        Operator::Mod,
        Operator::Pow,
        Operator::Eq,
        Operator::Ne,
        Operator::Lt,
        Operator::Gt,
        Operator::Le,
        Operator::Ge,
        Operator::And,
        Operator::Or,
        Operator::Not,
        Operator::BitAnd,
        Operator::BitOr,
        Operator::BitXor,
        Operator::BitNot,
    ] {
        all.push(Token::Operator(op));
    }
    all
}

fn start(b: Bracket) -> Token {
    Token::StartBracket(b)
}

fn end(b: Bracket) -> Token {
    Token::EndBracket(b)
}

/// Tokens of some expression.
fn some_expr(r: &mut Numbers, depth: usize, out: &mut Vec<Token>) {
    let all = alphabet();
    if depth == 0 {
        let k = r.below(7);
        out.push(all[k].clone());
        return;
    }
    match r.below(9) {
        0 => {
            out.push(start(Bracket::Paren));
            some_expr(r, depth - 1, out);
            out.push(end(Bracket::Paren));
        }
        1 => {
            out.push(start(Bracket::Bracket));
            for _ in 0..r.below(3) {
                some_expr(r, depth - 1, out);
                out.push(Token::Comma);
            }
            out.push(end(Bracket::Bracket));
        }
        2 => {
            some_expr(r, depth - 1, out);
            out.push(Token::Dot);
            out.push(all[r.below(4)].clone());
        }
        3 => {
            out.push(id("f"));
            out.push(start(Bracket::Paren));
            for i in 0..r.below(3) {
                if i > 0 {
                    out.push(Token::Comma);
                }
                some_expr(r, depth - 1, out);
            }
            out.push(end(Bracket::Paren));
        }
        4 => {
            let ops = [Operator::Sub, Operator::Add, Operator::Not, Operator::BitNot];
            out.push(Token::Operator(ops[r.below(4)]));
            some_expr(r, depth - 1, out);
        }
        5 => {
            out.push(Token::Keyword(Keyword::If));
            some_expr(r, depth - 1, out);
            some_block(r, depth - 1, out);
            for _ in 0..r.below(2) {
                out.push(Token::Keyword(Keyword::Else));
                out.push(Token::Keyword(Keyword::If));
                some_expr(r, depth - 1, out);
                some_block(r, depth - 1, out);
            }
            if r.below(2) == 0 {
                out.push(Token::Keyword(Keyword::Else));
                some_block(r, depth - 1, out);
            }
        }
        _ => {
            some_expr(r, depth - 1, out);
            out.push(all[24 + r.below(all.len() - 24)].clone());
            some_expr(r, depth - 1, out);
        }
    }
}

fn some_block(r: &mut Numbers, depth: usize, out: &mut Vec<Token>) {
    out.push(start(Bracket::Brace));
    some_body(r, depth, out);
    out.push(end(Bracket::Brace));
}

/// Tokens of some body.
fn some_body(r: &mut Numbers, depth: usize, out: &mut Vec<Token>) {
    for _ in 0..r.below(3) {
        match r.below(5) {
            0 => {
                out.push(Token::Keyword(Keyword::Require));
                for i in 0..1 + r.below(2) {
                    if i > 0 {
                        out.push(Token::Comma);
                    }
                    out.push(id("m"));
                }
                out.push(Token::Semicolon);
            }
            1 => {
                if r.below(2) == 0 {
                    out.push(Token::Keyword(Keyword::Let));
                }
                if r.below(2) == 0 {
                    out.push(Token::Keyword(Keyword::Immut));
                }
                for _ in 0..1 + r.below(2) {
                    match r.below(4) {
                        0 => {
                            out.push(start(Bracket::Bracket));
                            out.push(id("x"));
                            if r.below(2) == 0 {
                                out.push(Token::Comma);
                                out.push(id("y"));
                            }
                            out.push(end(Bracket::Bracket));
                        }
                        1 => {
                            out.push(id("x"));
                            for _ in 0..1 + r.below(2) {
                                out.push(Token::Dot);
                                out.push(id("y"));
                            }
                        }
                        _ => out.push(id("x")),
                    }
                    out.push(Token::Assign);
                }
                some_expr(r, depth, out);
                out.push(Token::Semicolon);
            }
            2 if depth > 0 => {
                out.push(Token::Keyword(Keyword::Func));
                out.push(id("g"));
                out.push(start(Bracket::Paren));
                for _ in 0..r.below(3) {
                    if r.below(2) == 0 {
                        out.push(start(Bracket::Bracket));
                        out.push(id("u"));
                        out.push(Token::Comma);
                        out.push(end(Bracket::Bracket));
                    } else {
                        out.push(id("v"));
                    }
                    if r.below(2) == 0 {
                        out.push(Token::Assign);
                        some_expr(r, depth - 1, out);
                    }
                    out.push(Token::Comma);
                }
                out.push(end(Bracket::Paren));
                some_block(r, depth - 1, out);
            }
            _ => {
                some_expr(r, depth, out);
                if r.below(3) > 0 {
                    out.push(Token::Semicolon);
                }
            }
        }
    }
    if r.below(2) == 0 {
        some_expr(r, depth, out);
    }
}

fn compare(parser: &impl Parser<Token, (Body, Vec<Token>), Error = E>, tokens: &Vec<Token>) -> usize {
    let (expected, errors) = parser.parse_recovery(tokens.clone());
    let (expected, rest) = expected.unwrap();
    assert_eq!(errors.len(), 0);
    let (tree, taken) = get_body_parser().parse_prefix(tokens);
    assert_eq!(tree, expected, "{:?}", tokens);
    assert_eq!(taken + rest.len(), tokens.len(), "{:?}", tokens);
    let (tree, errors) = Body::parse(tokens.clone());
    assert_eq!(tree, Some(expected), "{:?}", tokens);
    assert_eq!(errors.len(), 0);
    taken
}

#[test]
fn agrees_on_arbitrary_tokens() {
    let parser = bodies().then(any().repeated());
    let all = alphabet();
    let mut r = Numbers(1);
    for _ in 0..200000 {
        let tokens: Vec<Token> = (0..r.below(12))
            .map(|_| all[r.below(all.len())].clone())
            .collect();
        compare(&parser, &tokens);
    }
}

#[test]
fn agrees_on_programs() {
    let parser = bodies().then(any().repeated());
    let mut r = Numbers(2);
    let mut read = 0;
    for _ in 0..3000 {
        let mut tokens = Vec::new();
        some_body(&mut r, 2, &mut tokens);
        tokens.truncate(40);
        read += compare(&parser, &tokens);
    }
    assert!(read > 10000);
}

#[test]
fn agrees_on_programs_with_a_fault() {
    let parser = bodies().then(any().repeated());
    let all = alphabet();
    let mut r = Numbers(3);
    for _ in 0..3000 {
        let mut tokens = Vec::new();
        some_body(&mut r, 2, &mut tokens);
        tokens.truncate(40);
        if !tokens.is_empty() {
            let k = r.below(tokens.len());
            match r.below(3) {
                0 => {
                    tokens.remove(k);
                }
                1 => tokens[k] = all[r.below(all.len())].clone(),
                _ => tokens.insert(k, all[r.below(all.len())].clone()),
            }
        }
        compare(&parser, &tokens);
    }
}
