//! Trees that are written down come back.

use terbium_grammar::ast::{Body, Expr, Node, Param, ParseInterface, Target};
use terbium_grammar::token::Operator;

fn operator(op: Operator) -> &'static str {
    match op {
        Operator::Add => "+",
        Operator::Sub => "-",
        Operator::Mul => "*",
        Operator::Div => "/",
        Operator::Mod => "%",
        Operator::Pow => "**",
        Operator::Eq => "==",
        Operator::Ne => "!=",
        Operator::Lt => "<",
        Operator::Gt => ">",
        Operator::Le => "<=",
        Operator::Ge => ">=",
        Operator::And => "&&",
        Operator::Or => "||",
        Operator::Not => "!",
        Operator::BitAnd => "&",
        Operator::BitOr => "|",
        Operator::BitXor => "^",
        Operator::BitNot => "~",
    }
}

/// Items in a list, with a comma behind the last if `c`.
fn list(c: bool, items: Vec<String>) -> String {
    let end = if c && !items.is_empty() { " ," } else { "" };
    format!("{}{}", items.join(" , "), end)
}

fn block(c: bool, nodes: &[Node], return_last: bool) -> String {
    format!("{{ {} }}", body(c, nodes, return_last))
}

fn expr(c: bool, x: &Expr) -> String {
    match x {
        Expr::Integer(n) => format!("{}", n),
        Expr::Float(s) => s.clone(),
        Expr::String(s) => format!("\"{}\"", s),
        Expr::Bool(b) => format!("{}", b),
        Expr::Ident(s) => s.clone(),
        Expr::Array(items) => {
            format!("[ {} ]", list(c, items.iter().map(|x| expr(c, x)).collect()))
        }
        Expr::UnaryExpr { operator: op, value } => {
            format!("( {} {} )", operator(*op), expr(c, value))
        }
        Expr::BinaryExpr { operator: op, lhs, rhs } => {
            format!("( {} {} {} )", expr(c, lhs), operator(*op), expr(c, rhs))
        }
        Expr::Attr(value, name) => format!("( {} . {} )", expr(c, value), name),
        Expr::Call { value, args, .. } => format!(
            "( {} ( {} ) )",
            expr(c, value),
            list(c, args.iter().map(|x| expr(c, x)).collect())
        ),
        Expr::If {
            condition,
            body,
            else_if_bodies,
            else_body,
            return_last,
        } => {
            let mut s = format!("( if {} {}", expr(c, condition), block(c, body, *return_last));
            for (condition, Body(nodes, last)) in else_if_bodies {
                s += &format!(" else if {} {}", expr(c, condition), block(c, nodes, *last));
            }
            if let Some(Body(nodes, last)) = else_body {
                s += &format!(" else {}", block(c, nodes, *last));
            }
            s + " )"
        }
    }
}

fn target(c: bool, x: &Target) -> String {
    match x {
        Target::Ident(s) => s.clone(),
        Target::Array(items) => {
            format!("[ {} ]", list(c, items.iter().map(|x| target(c, x)).collect()))
        }
        Target::Attr(value, name) => format!("{} . {}", target(c, value), name),
    }
}

fn param(c: bool, x: &Param) -> String {
    match &x.default {
        Some(e) => format!("{} = {}", target(c, &x.target), expr(c, e)),
        None => target(c, &x.target),
    }
}

fn node(c: bool, x: &Node) -> String {
    match x {
        Node::Func {
            name,
            params,
            body,
            return_last,
        } => format!(
            "func {} ( {} ) {}",
            name,
            list(c, params.iter().map(|x| param(c, x)).collect()),
            block(c, body, *return_last)
        ),
        Node::Expr(e) => format!("{} ;", expr(c, e)),
        Node::Assign {
            targets,
            value,
            let_,
            immut,
            ..
        } => {
            let mut s = String::new();
            if *let_ {
                s += "let ";
            }
            if *immut {
                s += "immut ";
            }
            for x in targets {
                s += &format!("{} = ", target(c, x));
            }
            s + &format!("{} ;", expr(c, value))
        }
        Node::Require(names) => format!("require {} ;", list(c, names.clone())),
        Node::Module(_) | Node::Return(_) => unreachable!(),
    }
}

fn body(c: bool, nodes: &[Node], return_last: bool) -> String {
    let mut s = String::new();
    for (i, x) in nodes.iter().enumerate() {
        match x {
            Node::Expr(e) if return_last && i + 1 == nodes.len() => s += &expr(c, e),
            x => s += &node(c, x),
        }
        s += " ";
    }
    s
}

const PROGRAMS: [&str; 9] = [
    "",
    "x.y = z; [a, b] = c.d.e = [f]; let [g] = h; immut i = j(k); [l]; m",
    "a",
    "require a, b; 1.5",
    "let x = immut = 1; x",
    "func f(a, [b, c], d = [1, 2], [e] = -1) { g(a, b)(c) h }",
    "let immut x = y = 5 ** -2 * 3 - 4 < 6 && !t || ~u & 7; a.b.c(1).d",
    "if a { 1 } else if b { 2; } else if c { if d {} } else { func g() {} \"s\" } true",
    "(if a { 1 } else { 2 }).x + [if b {}, [], [[1]]][0]; f(func)",
];

#[test]
fn bodies_come_back() {
    for text in PROGRAMS {
        let (tree, _) = Body::from_string(text.to_string());
        for c in [false, true] {
            let written = body(c, &tree.0, tree.1);
            assert_eq!(Body::from_string(written.clone()), (tree.clone(), vec![]), "{}", written);
        }
    }
}

#[test]
fn expressions_come_back() {
    let texts = [
        "1",
        "\"x y\"",
        "false",
        "-a.b(1, [c]) + 2.0 * (3 - !d)",
        "if a { x = 1; y } else if b { z(1); } else {}",
    ];
    for text in texts {
        let (tree, _) = Expr::from_string(text.to_string());
        for c in [false, true] {
            let written = expr(c, &tree);
            assert_eq!(Expr::from_string(written.clone()), (tree.clone(), vec![]), "{}", written);
        }
    }
}
