//! Reading trees from text.

use terbium_grammar::ast::Expr::{Array, Attr, BinaryExpr, Call, Ident, If, Integer, UnaryExpr};
use terbium_grammar::ast::{Body, Expr, Node, ParseInterface, Target};
use terbium_grammar::token::Operator;

#[test]
fn test_expr_parser() {
    let code = "-1 + 2 * (5 - [2, a.b() - (c + -d), e(5, f())])";
    let (tree, errors) = Expr::from_string(code.to_string());

    assert_eq!(
        tree,
        BinaryExpr {
            operator: Operator::Add,
            lhs: Box::new(UnaryExpr {
                operator: Operator::Sub,
                value: Box::new(Integer(1)),
            }),
            rhs: Box::new(BinaryExpr {
                operator: Operator::Mul,
                lhs: Box::new(Integer(2)),
                rhs: Box::new(BinaryExpr {
                    operator: Operator::Sub,
                    lhs: Box::new(Integer(5)),
                    rhs: Box::new(Array(vec![
                        Integer(2),
                        BinaryExpr {
                            operator: Operator::Sub,
                            lhs: Box::new(Call {
                                value: Box::new(Attr(
                                    Box::new(Ident("a".to_string())),
                                    "b".to_string()
                                )),
                                args: vec![],
                                kwargs: vec![],
                            }),
                            rhs: Box::new(BinaryExpr {
                                operator: Operator::Add,
                                lhs: Box::new(Ident("c".to_string())),
                                rhs: Box::new(UnaryExpr {
                                    operator: Operator::Sub,
                                    value: Box::new(Ident("d".to_string())),
                                }),
                            }),
                        },
                        Call {
                            value: Box::new(Ident("e".to_string())),
                            args: vec![
                                Integer(5),
                                Call {
                                    value: Box::new(Ident("f".to_string())),
                                    args: vec![],
                                    kwargs: vec![],
                                },
                            ],
                            kwargs: vec![],
                        },
                    ])),
                }),
            }),
        }
    );
    assert_eq!(errors.len(), 0);
}

#[test]
fn test_body_parser() {
    let code = r#"
            require std;

            func foo() {
                std.println("Hello, world!");

                if 1 + 1 == 2 {
                    let x = 5;
                }

                10
            }
        "#;
    let (tree, errors) = Body::from_string(code.to_string());

    assert_eq!(
        tree,
        Body(
            vec![
                Node::Require(vec!["std".to_string()]),
                Node::Func {
                    name: "foo".to_string(),
                    params: vec![],
                    body: vec![
                        Node::Expr(Call {
                            value: Box::new(Attr(
                                Box::new(Ident("std".to_string())),
                                "println".to_string()
                            )),
                            args: vec![Expr::String("Hello, world!".to_string())],
                            kwargs: vec![],
                        }),
                        Node::Expr(If {
                            condition: Box::new(BinaryExpr {
                                operator: Operator::Eq,
                                lhs: Box::new(BinaryExpr {
                                    operator: Operator::Add,
                                    lhs: Box::new(Integer(1)),
                                    rhs: Box::new(Integer(1)),
                                }),
                                rhs: Box::new(Integer(2)),
                            }),
                            body: vec![Node::Assign {
                                targets: vec![Target::Ident("x".to_string())],
                                value: Integer(5),
                                let_: true,
                                immut: false,
                                const_: false,
                            }],
                            else_if_bodies: vec![],
                            else_body: None,
                            return_last: false,
                        }),
                        Node::Expr(Integer(10)),
                    ],
                    return_last: true,
                }
            ],
            false
        )
    );

    assert_eq!(errors.len(), 0);
}
