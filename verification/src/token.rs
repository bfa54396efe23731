//! Tokens: the alphabet that the grammar is written over.

use vstd::prelude::*;

verus! {

/// A string literal.
#[derive(Clone, Debug, PartialEq, Eq, Hash)]
pub enum StringLiteral {
    /// A plain string, given by its contents.
    String(String),
}

/// A literal.
#[derive(Clone, Debug, PartialEq, Eq, Hash)]
pub enum Literal {
    Integer(u128),
    /// Kept as it is spelled: equality of tokens is equality of their text.
    Float(String),
    String(StringLiteral),
}

/// The operators, unary and binary alike.
#[derive(Clone, Copy, Debug, PartialEq, Eq, Hash, Structural)]
pub enum Operator {
    Add,
    Sub,
    Mul,
    Div,
    Mod,
    Pow,
    Eq,
    Ne,
    Lt,
    Gt,
    Le,
    Ge,
    And,
    Or,
    Not,
    BitAnd,
    BitOr,
    BitXor,
    BitNot,
}

/// The kinds of brackets.
#[derive(Clone, Copy, Debug, PartialEq, Eq, Hash, Structural)]
pub enum Bracket {
    /// `(` and `)`.
    Paren,
    /// `[` and `]`.
    Bracket,
    /// `{` and `}`.
    Brace,
}

/// The keywords.
#[derive(Clone, Copy, Debug, PartialEq, Eq, Hash, Structural)]
pub enum Keyword {
    Func,
    Require,
    Let,
    Immut,
    Const,
    If,
    Else,
}

/// A token.
#[derive(Clone, Debug, PartialEq, Eq, Hash)]
pub enum Token {
    Identifier(String),
    Literal(Literal),
    Operator(Operator),
    Keyword(Keyword),
    StartBracket(Bracket),
    EndBracket(Bracket),
    Comma,
    Dot,
    Semicolon,
    /// `=`, as in an assignment.
    Assign,
}

/// What a literal is, its text taken as characters.
pub enum LiteralView {
    Integer(u128),
    Float(Seq<char>),
    String(Seq<char>),
}

/// What a token is, its text taken as characters.
pub enum TokenView {
    Identifier(Seq<char>),
    Literal(LiteralView),
    Operator(Operator),
    Keyword(Keyword),
    StartBracket(Bracket),
    EndBracket(Bracket),
    Comma,
    Dot,
    Semicolon,
    Assign,
}

/// The views of the items of a sequence, in order.
pub open spec fn views<T: View>(s: Seq<T>) -> Seq<T::V> {
    Seq::new(s.len(), |i: int| s[i]@)
}

impl View for Literal {
    type V = LiteralView;

    open spec fn view(&self) -> LiteralView {
        match *self {
            Literal::Integer(n) => LiteralView::Integer(n),
            Literal::Float(text) => LiteralView::Float(text@),
            Literal::String(StringLiteral::String(text)) => LiteralView::String(text@),
        }
    }
}

impl View for Token {
    type V = TokenView;

    open spec fn view(&self) -> TokenView {
        match *self {
            Token::Identifier(name) => TokenView::Identifier(name@),
            Token::Literal(literal) => TokenView::Literal(literal@),
            Token::Operator(operator) => TokenView::Operator(operator),
            Token::Keyword(keyword) => TokenView::Keyword(keyword),
            Token::StartBracket(bracket) => TokenView::StartBracket(bracket),
            Token::EndBracket(bracket) => TokenView::EndBracket(bracket),
            Token::Comma => TokenView::Comma,
            Token::Dot => TokenView::Dot,
            Token::Semicolon => TokenView::Semicolon,
            Token::Assign => TokenView::Assign,
        }
    }
}

impl Literal {
    /// Whether two literals are the same.
    pub fn same(&self, other: &Literal) -> (r: bool)
        ensures
            r == (self@ == other@),
    {
        match (self, other) {
            (Literal::Integer(m), Literal::Integer(n)) => *m == *n,
            (Literal::Float(s), Literal::Float(t)) => *s == *t,
            (
                Literal::String(StringLiteral::String(s)),
                Literal::String(StringLiteral::String(t)),
            ) => *s == *t,
            _ => false,
        }
    }
}

impl Token {
    /// Whether two tokens are the same.
    pub fn same(&self, other: &Token) -> (r: bool)
        ensures
            r == (self@ == other@),
    {
        match (self, other) {
            (Token::Identifier(s), Token::Identifier(t)) => *s == *t,
            (Token::Literal(l), Token::Literal(m)) => l.same(m),
            (Token::Operator(o), Token::Operator(p)) => *o == *p,
            (Token::Keyword(k), Token::Keyword(l)) => *k == *l,
            (Token::StartBracket(b), Token::StartBracket(c)) => *b == *c,
            (Token::EndBracket(b), Token::EndBracket(c)) => *b == *c,
            (Token::Comma, Token::Comma) => true,
            (Token::Dot, Token::Dot) => true,
            (Token::Semicolon, Token::Semicolon) => true,
            (Token::Assign, Token::Assign) => true,
            _ => false,
        }
    }
}

} // verus!
