//! The syntax tree.

use crate::error::Error;
use crate::grammar;
use crate::grammar::Rule;
use crate::lexer;
use crate::lexical;
use crate::parser;
use crate::token;
use crate::token::{Operator, Token, TokenView};
use vstd::prelude::*;

verus! {

/// An expression.
#[derive(Debug, PartialEq)]
pub enum Expr {
    Integer(u128),
    /// Kept as it is spelled, as in the token.
    Float(String),
    String(String),
    Bool(bool),
    Ident(String),
    Array(Vec<Expr>),
    UnaryExpr { operator: Operator, value: Box<Expr> },
    BinaryExpr { operator: Operator, lhs: Box<Expr>, rhs: Box<Expr> },
    Attr(Box<Expr>, String),
    Call { value: Box<Expr>, args: Vec<Expr>, kwargs: Vec<(String, Expr)> },
    If {
        condition: Box<Expr>,
        body: Vec<Node>,
        else_if_bodies: Vec<(Expr, Body)>,
        else_body: Option<Body>,
        return_last: bool,
    },
}

/// What is assigned to: a variable or a parameter, or several at once.
#[derive(Debug, PartialEq)]
pub enum Target {
    Ident(String),
    Array(Vec<Target>),
    /// Not for a parameter, nor beside `let` or `immut`.
    Attr(Box<Target>, String),
}

/// A parameter of a function.
#[derive(Debug, PartialEq)]
pub struct Param {
    pub target: Target,
    pub default: Option<Expr>,
}

/// A statement.
#[derive(Debug, PartialEq)]
pub enum Node {
    Module(Vec<Node>),
    Func { name: String, params: Vec<Param>, body: Vec<Node>, return_last: bool },
    Expr(Expr),
    /// `x.y = z;` has the one target `Attr(Ident("x"), "y")` and the value `Ident("z")`.
    Assign { targets: Vec<Target>, value: Expr, let_: bool, immut: bool, const_: bool },
    Return(Option<Expr>),
    Require(Vec<String>),
}

/// A sequence of statements, and whether the last of them is an expression whose value the whole
/// returns.
#[derive(Debug, PartialEq)]
pub struct Body(pub Vec<Node>, pub bool);

/// What an expression is, its text taken as characters and its lists as sequences.
pub enum ExprView {
    Integer(u128),
    Float(Seq<char>),
    String(Seq<char>),
    Bool(bool),
    Ident(Seq<char>),
    Array(Seq<ExprView>),
    UnaryExpr { operator: Operator, value: Box<ExprView> },
    BinaryExpr { operator: Operator, lhs: Box<ExprView>, rhs: Box<ExprView> },
    Attr(Box<ExprView>, Seq<char>),
    Call { value: Box<ExprView>, args: Seq<ExprView>, kwargs: Seq<(Seq<char>, ExprView)> },
    If {
        condition: Box<ExprView>,
        body: Seq<NodeView>,
        else_if_bodies: Seq<(ExprView, BodyView)>,
        else_body: Option<BodyView>,
        return_last: bool,
    },
}

/// What a target is.
pub enum TargetView {
    Ident(Seq<char>),
    Array(Seq<TargetView>),
    Attr(Box<TargetView>, Seq<char>),
}

/// What a parameter is.
pub struct ParamView {
    pub target: TargetView,
    pub default: Option<ExprView>,
}

/// What a statement is.
pub enum NodeView {
    Module(Seq<NodeView>),
    Func { name: Seq<char>, params: Seq<ParamView>, body: Seq<NodeView>, return_last: bool },
    Expr(ExprView),
    Assign { targets: Seq<TargetView>, value: ExprView, let_: bool, immut: bool, const_: bool },
    Return(Option<ExprView>),
    Require(Seq<Seq<char>>),
}

/// What a body is.
pub struct BodyView(pub Seq<NodeView>, pub bool);

/// The view of an expression.
pub open spec fn expr_view(e: Expr) -> ExprView
    decreases e,
{
    match e {
        Expr::Integer(n) => ExprView::Integer(n),
        Expr::Float(text) => ExprView::Float(text@),
        Expr::String(text) => ExprView::String(text@),
        Expr::Bool(b) => ExprView::Bool(b),
        Expr::Ident(name) => ExprView::Ident(name@),
        Expr::Array(items) => ExprView::Array(
            Seq::new(
                items@.len(),
                |i: int| if 0 <= i < items@.len() { expr_view(items@[i]) } else { arbitrary() },
            ),
        ),
        Expr::UnaryExpr { operator, value } => ExprView::UnaryExpr {
            operator,
            value: Box::new(expr_view(*value)),
        },
        Expr::BinaryExpr { operator, lhs, rhs } => ExprView::BinaryExpr {
            operator,
            lhs: Box::new(expr_view(*lhs)),
            rhs: Box::new(expr_view(*rhs)),
        },
        Expr::Attr(value, name) => ExprView::Attr(Box::new(expr_view(*value)), name@),
        Expr::Call { value, args, kwargs } => ExprView::Call {
            value: Box::new(expr_view(*value)),
            args: Seq::new(
                args@.len(),
                |i: int| if 0 <= i < args@.len() { expr_view(args@[i]) } else { arbitrary() },
            ),
            kwargs: Seq::new(
                kwargs@.len(),
                |i: int|
                    if 0 <= i < kwargs@.len() {
                        (kwargs@[i].0@, expr_view(kwargs@[i].1))
                    } else {
                        arbitrary()
                    },
            ),
        },
        Expr::If { condition, body, else_if_bodies, else_body, return_last } => ExprView::If {
            condition: Box::new(expr_view(*condition)),
            body: Seq::new(
                body@.len(),
                |i: int| if 0 <= i < body@.len() { node_view(body@[i]) } else { arbitrary() },
            ),
            else_if_bodies: Seq::new(
                else_if_bodies@.len(),
                |i: int|
                    if 0 <= i < else_if_bodies@.len() {
                        (expr_view(else_if_bodies@[i].0), body_view(else_if_bodies@[i].1))
                    } else {
                        arbitrary()
                    },
            ),
            else_body: match else_body {
                Some(b) => Some(body_view(b)),
                None => None,
            },
            return_last,
        },
    }
}

/// The view of a target.
pub open spec fn target_view(t: Target) -> TargetView
    decreases t,
{
    match t {
        Target::Ident(name) => TargetView::Ident(name@),
        Target::Array(items) => TargetView::Array(
            Seq::new(
                items@.len(),
                |i: int| if 0 <= i < items@.len() { target_view(items@[i]) } else { arbitrary() },
            ),
        ),
        Target::Attr(value, name) => TargetView::Attr(Box::new(target_view(*value)), name@),
    }
}

/// The view of a parameter.
pub open spec fn param_view(p: Param) -> ParamView
    decreases p,
{
    ParamView {
        target: target_view(p.target),
        default: match p.default {
            Some(e) => Some(expr_view(e)),
            None => None,
        },
    }
}

/// The view of a statement.
pub open spec fn node_view(n: Node) -> NodeView
    decreases n,
{
    match n {
        Node::Module(nodes) => NodeView::Module(
            Seq::new(
                nodes@.len(),
                |i: int| if 0 <= i < nodes@.len() { node_view(nodes@[i]) } else { arbitrary() },
            ),
        ),
        Node::Func { name, params, body, return_last } => NodeView::Func {
            name: name@,
            params: Seq::new(
                params@.len(),
                |i: int| if 0 <= i < params@.len() { param_view(params@[i]) } else { arbitrary() },
            ),
            body: Seq::new(
                body@.len(),
                |i: int| if 0 <= i < body@.len() { node_view(body@[i]) } else { arbitrary() },
            ),
            return_last,
        },
        Node::Expr(e) => NodeView::Expr(expr_view(e)),
        Node::Assign { targets, value, let_, immut, const_ } => NodeView::Assign {
            targets: token::views(targets@),
            value: expr_view(value),
            let_,
            immut,
            const_,
        },
        Node::Return(value) => NodeView::Return(
            match value {
                Some(e) => Some(expr_view(e)),
                None => None,
            },
        ),
        Node::Require(names) => NodeView::Require(token::views(names@)),
    }
}

/// The view of a body.
pub open spec fn body_view(b: Body) -> BodyView
    decreases b,
{
    BodyView(
        Seq::new(
            b.0@.len(),
            |i: int| if 0 <= i < b.0@.len() { node_view(b.0@[i]) } else { arbitrary() },
        ),
        b.1,
    )
}

impl View for Expr {
    type V = ExprView;

    open spec fn view(&self) -> ExprView {
        expr_view(*self)
    }
}

impl View for Target {
    type V = TargetView;

    open spec fn view(&self) -> TargetView {
        target_view(*self)
    }
}

impl View for Param {
    type V = ParamView;

    open spec fn view(&self) -> ParamView {
        param_view(*self)
    }
}

impl View for Node {
    type V = NodeView;

    open spec fn view(&self) -> NodeView {
        node_view(*self)
    }
}

impl View for Body {
    type V = BodyView;

    open spec fn view(&self) -> BodyView {
        body_view(*self)
    }
}

/// The view of an array: the views of its items.
pub proof fn lemma_array_view(items: Vec<Expr>)
    ensures
        (Expr::Array(items))@ == ExprView::Array(token::views(items@)),
{
    assert(expr_view(Expr::Array(items))->Array_0 =~= token::views(items@));
}

/// The view of a call.
pub proof fn lemma_call_view(value: Box<Expr>, args: Vec<Expr>, kwargs: Vec<(String, Expr)>)
    ensures
        (Expr::Call { value, args, kwargs })@ == (ExprView::Call {
            value: Box::new((*value)@),
            args: token::views(args@),
            kwargs: token::views(kwargs@),
        }),
{
    let x = expr_view(Expr::Call { value, args, kwargs });
    assert(x->args =~= token::views(args@));
    assert(x->kwargs =~= token::views(kwargs@));
}

/// The view of an `if`.
pub proof fn lemma_if_view(
    condition: Box<Expr>,
    body: Vec<Node>,
    else_if_bodies: Vec<(Expr, Body)>,
    else_body: Option<Body>,
    return_last: bool,
)
    ensures
        (Expr::If { condition, body, else_if_bodies, else_body, return_last })@ == (ExprView::If {
            condition: Box::new((*condition)@),
            body: token::views(body@),
            else_if_bodies: token::views(else_if_bodies@),
            else_body: match else_body {
                Some(b) => Some(b@),
                None => None,
            },
            return_last,
        }),
{
    let x = expr_view(Expr::If { condition, body, else_if_bodies, else_body, return_last });
    assert(x->body =~= token::views(body@));
    assert(x->else_if_bodies =~= token::views(else_if_bodies@));
}

/// The view of a function.
pub proof fn lemma_func_view(
    name: String,
    params: Vec<Param>,
    body: Vec<Node>,
    return_last: bool,
)
    ensures
        (Node::Func { name, params, body, return_last })@ == (NodeView::Func {
            name: name@,
            params: token::views(params@),
            body: token::views(body@),
            return_last,
        }),
{
    let x = node_view(Node::Func { name, params, body, return_last });
    assert(x->params =~= token::views(params@));
    assert(x->Func_body =~= token::views(body@));
}

/// The view of a module: the views of its statements.
pub proof fn lemma_module_view(nodes: Vec<Node>)
    ensures
        (Node::Module(nodes))@ == NodeView::Module(token::views(nodes@)),
{
    assert(node_view(Node::Module(nodes))->Module_0 =~= token::views(nodes@));
}

/// The view of a body: the views of its statements.
pub proof fn lemma_body_view(nodes: Vec<Node>, return_last: bool)
    ensures
        Body(nodes, return_last)@ == BodyView(token::views(nodes@), return_last),
{
    assert(body_view(Body(nodes, return_last)).0 =~= token::views(nodes@));
}

/// The view of a list of targets as a target.
pub proof fn lemma_target_array_view(items: Vec<Target>)
    ensures
        (Target::Array(items))@ == TargetView::Array(token::views(items@)),
{
    assert(target_view(Target::Array(items))->Array_0 =~= token::views(items@));
}

// ----------------------------------------------------------------------------------------------
// Parsing.
// ----------------------------------------------------------------------------------------------

/// The parser for bodies.
pub struct BodyParser;

/// The parser for bodies. Bodies hold all else that the language has, so it is the parser for the
/// language too.
pub fn get_body_parser() -> (r: BodyParser)
    ensures
        forall|t: Seq<TokenView>, p: int| #[trigger] r.rule(t)(p) == grammar::body_at(t, p),
{
    BodyParser
}

impl BodyParser {
    /// The rule of the grammar that this parser follows.
    pub open spec fn rule(&self, t: Seq<TokenView>) -> Rule<BodyView> {
        grammar::bodies(t)
    }

    /// Reads the longest body that the tokens begin with, and says how many tokens that takes.
    pub fn parse_prefix(&self, tokens: &Vec<Token>) -> (r: (Body, usize))
        ensures
            self.rule(token::views(tokens@))(0) == Some((r.0@, r.1 as int)),
            r.1 <= tokens.len(),
    {
        parser::body(tokens, 0)
    }

    /// Reads the longest body that the tokens begin with. There always is one, so there always is
    /// a result, and there are no errors: what follows the body is passed over.
    pub fn parse_recovery(&self, tokens: Vec<Token>) -> (r: (Option<Body>, Vec<Error>))
        ensures
            r.0 matches Some(x) && self.rule(token::views(tokens@))(0) matches Some((y, _)) && x@
                == y,
            r.1@.len() == 0,
    {
        let (x, _) = self.parse_prefix(&tokens);
        (Some(x), Vec::new())
    }
}

/// The body that a token sequence begins with.
pub open spec fn body_of(t: Seq<TokenView>) -> BodyView {
    match grammar::body_at(t, 0) {
        Some((x, _)) => x,
        None => arbitrary(),
    }
}

/// The tokens with a semicolon at their end.
pub open spec fn closed_off(t: Seq<TokenView>) -> Seq<TokenView> {
    if t.last() == TokenView::Semicolon {
        t
    } else {
        t.push(TokenView::Semicolon)
    }
}

/// The first statement of a body, if it is an expression.
pub open spec fn first_expr(x: BodyView) -> Option<ExprView> {
    if x.0.len() > 0 {
        match x.0[0] {
            NodeView::Expr(e) => Some(e),
            _ => None,
        }
    } else {
        None
    }
}

/// Trees that can be read from tokens and from text.
pub trait ParseInterface: Sized + View {
    /// The token sequences that such a tree can be read from.
    spec fn readable(t: Seq<TokenView>) -> bool;

    /// The tree that is read from them.
    spec fn tree(t: Seq<TokenView>) -> Self::V;

    /// Reads a tree from tokens.
    fn parse(tokens: Vec<Token>) -> (r: (Option<Self>, Vec<Error>))
        requires
            Self::readable(token::views(tokens@)),
        ensures
            r.0 matches Some(x) && x@ == Self::tree(token::views(tokens@)),
            r.1@.len() == 0,
    ;

    /// Like [`ParseInterface::parse`], without the `Option`: there always is a tree.
    fn from_tokens(tokens: Vec<Token>) -> (r: (Self, Vec<Error>))
        requires
            Self::readable(token::views(tokens@)),
        ensures
            r.0@ == Self::tree(token::views(tokens@)),
            r.1@.len() == 0,
    {
        let (tree, errors) = Self::parse(tokens);
        (tree.unwrap(), errors)
    }

    /// Reads a tree from text.
    fn from_string(s: String) -> (r: (Self, Vec<Error>))
        requires
            lexical::tokens(s@) matches Ok(t) && Self::readable(t),
        ensures
            lexical::tokens(s@) matches Ok(t) && r.0@ == Self::tree(t),
            r.1@.len() == 0,
    {
        Self::from_tokens(lexer::get_lexer().parse(s.as_str()).unwrap())
    }
}

impl ParseInterface for Expr {
    /// There is a token, and with a semicolon behind the last the first statement is an
    /// expression.
    open spec fn readable(t: Seq<TokenView>) -> bool {
        t.len() > 0 && first_expr(body_of(closed_off(t))) is Some
    }

    open spec fn tree(t: Seq<TokenView>) -> ExprView {
        first_expr(body_of(closed_off(t)))->0
    }

    fn parse(tokens: Vec<Token>) -> (r: (Option<Self>, Vec<Error>)) {
        let ghost t = token::views(tokens@);
        let mut tokens = tokens;
        if !tokens[tokens.len() - 1].same(&Token::Semicolon) {
            tokens.push(Token::Semicolon);
        }
        assert(token::views(tokens@) =~= closed_off(t));
        let (body, errors) = get_body_parser().parse_recovery(tokens);
        let Body(mut nodes, return_last) = body.unwrap();
        proof {
            lemma_body_view(nodes, return_last);
        }
        match nodes.swap_remove(0) {
            Node::Expr(x) => (Some(x), errors),
            _ => (None, errors),
        }
    }
}

impl ParseInterface for Body {
    /// Every token sequence begins with a body.
    open spec fn readable(t: Seq<TokenView>) -> bool {
        true
    }

    open spec fn tree(t: Seq<TokenView>) -> BodyView {
        body_of(t)
    }

    fn parse(tokens: Vec<Token>) -> (r: (Option<Self>, Vec<Error>)) {
        get_body_parser().parse_recovery(tokens)
    }
}

} // verus!
