//! What is read from what.

use terbium_grammar::ast::{get_body_parser, Body, Expr, Node, Param, ParseInterface, Target};
use terbium_grammar::lexer::get_lexer;
use terbium_grammar::token::{Operator, Token};

fn expr(text: &str) -> Expr {
    let (tree, errors) = Expr::from_string(text.to_string());
    assert_eq!(errors, vec![]);
    tree
}

fn body(text: &str) -> Body {
    let (tree, errors) = Body::from_string(text.to_string());
    assert_eq!(errors, vec![]);
    tree
}

fn tokens(text: &str) -> Vec<Token> {
    get_lexer().parse(text).unwrap()
}

/// The body at the beginning, and how many tokens it takes.
fn prefix(text: &str) -> (Body, usize) {
    get_body_parser().parse_prefix(&tokens(text))
}

fn name(s: &str) -> Expr {
    Expr::Ident(s.to_string())
}

fn target(s: &str) -> Target {
    Target::Ident(s.to_string())
}

fn infix(operator: Operator, lhs: Expr, rhs: Expr) -> Expr {
    Expr::BinaryExpr {
        operator,
        lhs: Box::new(lhs),
        rhs: Box::new(rhs),
    }
}

fn unary(operator: Operator, value: Expr) -> Expr {
    Expr::UnaryExpr {
        operator,
        value: Box::new(value),
    }
}

fn attr(value: Expr, s: &str) -> Expr {
    Expr::Attr(Box::new(value), s.to_string())
}

fn call(value: Expr, args: Vec<Expr>) -> Expr {
    Expr::Call {
        value: Box::new(value),
        args,
        kwargs: vec![],
    }
}

fn assign(names: &[&str], value: Expr, let_: bool, immut: bool) -> Node {
    Node::Assign {
        targets: names.iter().map(|s| target(s)).collect(),
        value,
        let_,
        immut,
        const_: false,
    }
}

fn plain_if(condition: Expr, body: Vec<Node>, return_last: bool) -> Expr {
    Expr::If {
        condition: Box::new(condition),
        body,
        else_if_bodies: vec![],
        else_body: None,
        return_last,
    }
}

// Expressions.

#[test]
fn atoms() {
    assert_eq!(expr("7"), Expr::Integer(7));
    assert_eq!(expr("2.50"), Expr::Float("2.50".to_string()));
    assert_eq!(expr("\"a\""), Expr::String("a".to_string()));
    assert_eq!(expr("true"), Expr::Bool(true));
    assert_eq!(expr("false"), Expr::Bool(false));
    assert_eq!(expr("truth"), name("truth"));
    assert_eq!(expr("[]"), Expr::Array(vec![]));
}

#[test]
fn tighter_operators_bind_first() {
    let tiers = [
        ("**", Operator::Pow),
        ("*", Operator::Mul),
        ("+", Operator::Add),
        ("==", Operator::Eq),
        ("&&", Operator::And),
        ("||", Operator::Or),
        ("&", Operator::BitAnd),
    ];
    for (i, (s, f)) in tiers.iter().enumerate() {
        for (j, (t, g)) in tiers.iter().enumerate() {
            let read = expr(&format!("a {} b {} c", s, t));
            if i <= j {
                assert_eq!(read, infix(*g, infix(*f, name("a"), name("b")), name("c")));
            } else {
                assert_eq!(read, infix(*f, name("a"), infix(*g, name("b"), name("c"))));
            }
        }
    }
}

#[test]
fn operators_of_one_tier_associate_to_the_left() {
    let tiers: [&[(&str, Operator)]; 7] = [
        &[("**", Operator::Pow)],
        &[("*", Operator::Mul), ("/", Operator::Div), ("%", Operator::Mod)],
        &[("+", Operator::Add), ("-", Operator::Sub)],
        &[
            ("==", Operator::Eq),
            ("!=", Operator::Ne),
            ("<", Operator::Lt),
            (">", Operator::Gt),
            ("<=", Operator::Le),
            (">=", Operator::Ge),
        ],
        &[("&&", Operator::And)],
        &[("||", Operator::Or)],
        &[("&", Operator::BitAnd), ("|", Operator::BitOr), ("^", Operator::BitXor)],
    ];
    for tier in tiers {
        for (s, f) in tier {
            for (t, g) in tier {
                assert_eq!(
                    expr(&format!("a {} b {} c", s, t)),
                    infix(*g, infix(*f, name("a"), name("b")), name("c"))
                );
            }
        }
    }
}

#[test]
fn prefix_operators_bind_before_infix_ones_and_from_inside_out() {
    assert_eq!(
        expr("-a ** !b"),
        infix(
            Operator::Pow,
            unary(Operator::Sub, name("a")),
            unary(Operator::Not, name("b"))
        )
    );
    assert_eq!(
        expr("-+!~a.b()"),
        unary(
            Operator::Sub,
            unary(
                Operator::Add,
                unary(
                    Operator::Not,
                    unary(Operator::BitNot, call(attr(name("a"), "b"), vec![]))
                )
            )
        )
    );
}

#[test]
fn parentheses_leave_no_trace() {
    assert_eq!(expr("((a))"), name("a"));
    assert_eq!(expr("(a + b)"), expr("a + b"));
    assert_eq!(
        expr("(a + b) * c"),
        infix(
            Operator::Mul,
            infix(Operator::Add, name("a"), name("b")),
            name("c")
        )
    );
}

#[test]
fn attributes_are_read_from_the_left() {
    assert_eq!(expr("a.b.c"), attr(attr(name("a"), "b"), "c"));
    assert_eq!(expr("1.true.false"), attr(attr(Expr::Integer(1), "true"), "false"));
    assert_eq!(
        expr("(a + b).c"),
        attr(infix(Operator::Add, name("a"), name("b")), "c")
    );
}

#[test]
fn lists_may_end_in_a_comma() {
    let items = vec![Expr::Integer(1), Expr::Integer(2)];
    assert_eq!(expr("[1, 2]"), Expr::Array(items.clone()));
    assert_eq!(expr("[1, 2,]"), Expr::Array(items.clone()));
    assert_eq!(expr("f(1, 2,)"), call(name("f"), items));
    assert_eq!(
        body("require a, b,;").0,
        vec![Node::Require(vec!["a".to_string(), "b".to_string()])]
    );
    assert_eq!(
        body("func f(a, [b, c,],) {}"),
        body("func f(a, [b, c]) {}")
    );
}

#[test]
fn a_comma_needs_an_item_before_it() {
    assert_eq!(prefix("[,]"), (Body(vec![], false), 0));
    assert_eq!(prefix("[1,,]"), (Body(vec![], false), 0));
    assert_eq!(prefix("require ;"), (Body(vec![], false), 0));
    assert_eq!(prefix("func f([]) {}"), (Body(vec![], false), 0));
}

#[test]
fn a_value_is_called_once_at_most() {
    assert_eq!(expr("a.b(1)"), call(attr(name("a"), "b"), vec![Expr::Integer(1)]));
    // The second argument list is an expression of its own, but an empty one is not.
    assert_eq!(
        body("f()(1);").0,
        vec![
            Node::Expr(call(name("f"), vec![])),
            Node::Expr(Expr::Integer(1)),
        ]
    );
    assert_eq!(
        prefix("f()();"),
        (Body(vec![Node::Expr(call(name("f"), vec![]))], false), 3)
    );
    assert_eq!(
        prefix("f().a;"),
        (Body(vec![Node::Expr(call(name("f"), vec![]))], false), 3)
    );
    assert_eq!(expr("(f())()"), call(call(name("f"), vec![]), vec![]));
}

#[test]
fn branches_of_an_if() {
    assert_eq!(
        expr("if a { 1 } else if b { 2; } else if c {} else { x = 3; 4 }"),
        Expr::If {
            condition: Box::new(name("a")),
            body: vec![Node::Expr(Expr::Integer(1))],
            else_if_bodies: vec![
                (name("b"), Body(vec![Node::Expr(Expr::Integer(2))], false)),
                (name("c"), Body(vec![], false)),
            ],
            else_body: Some(Body(
                vec![
                    assign(&["x"], Expr::Integer(3), false, false),
                    Node::Expr(Expr::Integer(4)),
                ],
                true,
            )),
            return_last: true,
        }
    );
}

#[test]
fn the_last_semicolon_is_optional() {
    for text in ["a", "1 + 2 * 3", "f(x, [y])", "if a { b }"] {
        assert_eq!(expr(text), expr(&format!("{};", text)));
    }
}

#[test]
fn an_expression_is_what_stands_first() {
    assert_eq!(expr("a; b"), name("a"));
    assert_eq!(expr("a b"), name("a"));
    assert_eq!(expr("a == 1 }"), infix(Operator::Eq, name("a"), Expr::Integer(1)));
}

#[test]
fn an_expression_from_tokens() {
    let (tree, errors) = Expr::parse(tokens("-x"));
    assert_eq!(tree, Some(unary(Operator::Sub, name("x"))));
    assert_eq!(errors, vec![]);
    let (tree, errors) = Expr::from_tokens(tokens("-x;"));
    assert_eq!(tree, unary(Operator::Sub, name("x")));
    assert_eq!(errors, vec![]);
}

// Statements.

#[test]
fn modifiers_of_an_assignment() {
    let five = Expr::Integer(5);
    assert_eq!(body("x = 5;").0, vec![assign(&["x"], five.clone(), false, false)]);
    assert_eq!(body("let x = 5;").0, vec![assign(&["x"], five.clone(), true, false)]);
    assert_eq!(body("immut x = 5;").0, vec![assign(&["x"], five.clone(), false, true)]);
    assert_eq!(body("let immut x = 5;").0, vec![assign(&["x"], five, true, true)]);
    assert_eq!(prefix("immut let x = 5;"), (Body(vec![], false), 0));
}

#[test]
fn const_begins_nothing() {
    assert_eq!(prefix("const x = 5;"), (Body(vec![], false), 0));
    assert_eq!(prefix("1; const x = 5;"), (Body(vec![Node::Expr(Expr::Integer(1))], false), 2));
}

#[test]
fn several_targets() {
    assert_eq!(
        body("let x = y = z = -1;").0,
        vec![assign(
            &["x", "y", "z"],
            unary(Operator::Sub, Expr::Integer(1)),
            true,
            false
        )]
    );
}

#[test]
fn a_value_may_begin_with_a_name() {
    assert_eq!(body("x = y;").0, vec![assign(&["x"], name("y"), false, false)]);
    assert_eq!(body("x = y = z;").0, vec![assign(&["x", "y"], name("z"), false, false)]);
    assert_eq!(body("let x = f();").0, vec![assign(&["x"], call(name("f"), vec![]), true, false)]);
    assert_eq!(
        body("x = y == z;").0,
        vec![assign(&["x"], infix(Operator::Eq, name("y"), name("z")), false, false)]
    );
    assert_eq!(
        body("x = y.z;").0,
        vec![assign(&["x"], attr(name("y"), "z"), false, false)]
    );
}

fn assign_to(targets: Vec<Target>, value: Expr) -> Node {
    Node::Assign {
        targets,
        value,
        let_: false,
        immut: false,
        const_: false,
    }
}

fn target_attr(value: Target, s: &str) -> Target {
    Target::Attr(Box::new(value), s.to_string())
}

#[test]
fn an_attribute_is_assigned_to() {
    assert_eq!(
        get_body_parser().parse_recovery(tokens("x.y = z;")),
        (
            Some(Body(
                vec![assign_to(vec![target_attr(target("x"), "y")], name("z"))],
                false
            )),
            vec![]
        )
    );
    assert_eq!(
        body("a.b.c = d = e.f;").0,
        vec![assign_to(
            vec![target_attr(target_attr(target("a"), "b"), "c"), target("d")],
            attr(name("e"), "f")
        )]
    );
}

#[test]
fn an_attribute_is_no_target_beside_let_or_immut() {
    assert_eq!(prefix("let x.y = 1;"), (Body(vec![], false), 0));
    assert_eq!(prefix("immut x.y = 1;"), (Body(vec![], false), 0));
    assert_eq!(prefix("let immut x = y.z = 1;"), (Body(vec![], false), 0));
    assert_eq!(prefix("func f(x.y) {}"), (Body(vec![], false), 0));
}

#[test]
fn several_names_are_assigned_to_at_once() {
    let pair = || Target::Array(vec![target("a"), target("b")]);
    let value = || Expr::Array(vec![Expr::Integer(1), Expr::Integer(2)]);
    assert_eq!(body("[a, b] = [1, 2];").0, vec![assign_to(vec![pair()], value())]);
    assert_eq!(
        body("[a, b,] = x.y = c;").0,
        vec![assign_to(vec![pair(), target_attr(target("x"), "y")], name("c"))]
    );
    assert_eq!(
        body("let [a, b] = [1, 2];").0,
        vec![Node::Assign {
            targets: vec![pair()],
            value: value(),
            let_: true,
            immut: false,
            const_: false,
        }]
    );
    // Without `=` behind them they are an array.
    assert_eq!(
        body("[a, b];").0,
        vec![Node::Expr(Expr::Array(vec![name("a"), name("b")]))]
    );
}

#[test]
fn other_values_are_not_assigned_to() {
    assert_eq!(prefix("f() = 1;"), (Body(vec![Node::Expr(call(name("f"), vec![]))], false), 3));
    assert_eq!(
        prefix("[a, 1] = b;"),
        (Body(vec![Node::Expr(Expr::Array(vec![name("a"), Expr::Integer(1)]))], false), 5)
    );
    assert_eq!(prefix("x = ;"), (Body(vec![Node::Expr(name("x"))], false), 1));
}

#[test]
fn a_function_with_parameters() {
    assert_eq!(
        body("func f(a, [b, c], d = 1 + 2, [e] = [3]) { a }").0,
        vec![Node::Func {
            name: "f".to_string(),
            params: vec![
                Param {
                    target: target("a"),
                    default: None,
                },
                Param {
                    target: Target::Array(vec![target("b"), target("c")]),
                    default: None,
                },
                Param {
                    target: target("d"),
                    default: Some(infix(Operator::Add, Expr::Integer(1), Expr::Integer(2))),
                },
                Param {
                    target: Target::Array(vec![target("e")]),
                    default: Some(Expr::Array(vec![Expr::Integer(3)])),
                },
            ],
            body: vec![Node::Expr(name("a"))],
            return_last: true,
        }]
    );
}

#[test]
fn the_last_value_is_returned() {
    assert_eq!(body("1; 2"), Body(vec![Node::Expr(Expr::Integer(1)), Node::Expr(Expr::Integer(2))], true));
    assert_eq!(body("1; 2;"), Body(vec![Node::Expr(Expr::Integer(1)), Node::Expr(Expr::Integer(2))], false));
}

#[test]
fn an_if_is_never_returned() {
    let tree = plain_if(name("a"), vec![Node::Expr(Expr::Integer(1))], true);
    assert_eq!(body("if a { 1 }"), Body(vec![Node::Expr(tree.clone())], false));
    assert_eq!(body("(if a { 1 })"), Body(vec![Node::Expr(tree.clone())], false));
    assert_eq!(body("if a { 1 } 2").0[0], Node::Expr(tree));
    assert!(body("if a { 1 } 2").1);
}

#[test]
fn semicolons_between_expressions_are_optional() {
    assert_eq!(
        body("a b c"),
        Body(
            vec![
                Node::Expr(name("a")),
                Node::Expr(name("b")),
                Node::Expr(name("c"))
            ],
            true
        )
    );
}

#[test]
fn every_sequence_begins_with_a_body() {
    assert_eq!(prefix(""), (Body(vec![], false), 0));
    assert_eq!(prefix("} 1"), (Body(vec![], false), 0));
    assert_eq!(prefix("1 }"), (Body(vec![Node::Expr(Expr::Integer(1))], true), 1));
    assert_eq!(prefix("1 ="), (Body(vec![Node::Expr(Expr::Integer(1))], false), 1));
    assert_eq!(Body::parse(vec![]), (Some(Body(vec![], false)), vec![]));
    assert_eq!(
        get_body_parser().parse_recovery(tokens("require a; = 1")),
        (Some(Body(vec![Node::Require(vec!["a".to_string()])], false)), vec![])
    );
}

#[test]
fn a_body_goes_on_as_far_as_it_can() {
    let (tree, taken) = prefix("a; let x = 1; require m; , b");
    assert_eq!(tree.0.len(), 3);
    assert!(!tree.1);
    assert_eq!(taken, 10);
}

#[test]
fn complete_bodies_join() {
    let parts = ["a; x.y = z;", "require m; 1 2;", "func f() { 1 } [a, b] = c;"];
    let ends = ["", "3", "b; if c { d }", "= 1", "let x = 4; y"];
    for a in parts {
        let Body(first, returned) = body(a);
        assert!(!returned);
        for b in ends {
            let Body(second, return_last) = body(b);
            let mut nodes = first.clone();
            nodes.extend(second);
            assert_eq!(body(&format!("{} {}", a, b)), Body(nodes, return_last));
        }
    }
}

#[test]
fn a_last_semicolon_discards_the_value() {
    for text in ["1", "a; b", "x.y = z; f(x)", "if a { 1 } 2", "a b [c]"] {
        let Body(nodes, return_last) = body(text);
        assert!(return_last);
        assert_eq!(body(&format!("{};", text)), Body(nodes, false));
    }
}

#[test]
fn a_stray_semicolon_ends_the_body() {
    for a in ["", "a;", "let x = 1; y = x;"] {
        for b in ["", "b", "; c", "} d"] {
            assert_eq!(body(&format!("{} ; {}", a, b)), body(a));
        }
    }
}

#[test]
fn parentheses_round_a_value() {
    for text in ["a", "-1 + 2 * b", "f(x, [y])", "a.b.c", "[1, (2)]", "!a || b == c"] {
        assert_eq!(expr(&format!("({})", text)), expr(text));
    }
}

#[test]
fn items_keep_their_number_and_order() {
    let items = ["a", "1 + 2", "f(b)", "[c, d]", "if e { 3 } else { 4 }"];
    let trees: Vec<Expr> = items.iter().map(|s| expr(s)).collect();
    for n in 1..=items.len() {
        let list = items[..n].join(", ");
        for end in ["", ","] {
            assert_eq!(expr(&format!("[{}{}]", list, end)), Expr::Array(trees[..n].to_vec()));
            assert_eq!(
                expr(&format!("g({}{})", list, end)),
                call(name("g"), trees[..n].to_vec())
            );
        }
    }
}

#[test]
fn what_is_nested_is_read_as_on_its_own() {
    let inner = "let x = 1; if x { y }; z";
    let Body(nodes, return_last) = body(inner);
    assert_eq!(
        body(&format!("func f() {{ {} }}", inner)).0,
        vec![Node::Func {
            name: "f".to_string(),
            params: vec![],
            body: nodes.clone(),
            return_last,
        }]
    );
    assert_eq!(
        expr(&format!("if a {{ {} }}", inner)),
        plain_if(name("a"), nodes, return_last)
    );
}

#[test]
fn copies_are_equal() {
    let tree = body(
        "require a, b; func f([x, y], z = 1.5) { if x { \"s\" } else if y { true } else { -z } } \
         let p = q = [f(1), a.b]; 3",
    );
    assert_eq!(tree.clone(), tree);
    assert!(tree.1);
    let module = Node::Module(vec![
        Node::Return(Some(name("x"))),
        Node::Return(None),
        Node::Expr(Expr::Call {
            value: Box::new(name("f")),
            args: vec![],
            kwargs: vec![("k".to_string(), Expr::Integer(1))],
        }),
        Node::Assign {
            targets: vec![Target::Attr(Box::new(target("x")), "y".to_string())],
            value: Expr::Bool(false),
            let_: false,
            immut: false,
            const_: true,
        },
    ]);
    assert_eq!(module.clone(), module);
}
