use elysium::ast::{Expr, Root, Stmt};
use elysium::hir::{
    can_lower, lower, lower_text, try_lower, BinaryOp, Database, ExprIdx, HirExpr, HirStmt, Name,
    UnaryOp,
};
use elysium::parse;
use elysium::syntax::SyntaxNode;
use la_arena::{Arena, Idx};

fn tree(input: &str) -> SyntaxNode {
    parse(input).syntax()
}

fn idx(idx: Idx<HirExpr>) -> ExprIdx {
    ExprIdx {
        raw: idx.into_raw().into_u32(),
    }
}

fn check_stmt(input: &str, expected_hir: HirStmt) {
    let tree = tree(input);
    let root = Root::cast(&tree).unwrap();
    assert!(can_lower(&root));
    let ast = root.stmts().into_iter().next().unwrap();
    let hir = Database::default().lower_stmt(ast).unwrap();

    assert_eq!(hir, expected_hir);
}

fn check_expr(input: &str, expected_hir: HirExpr, expected_database: Database) {
    let tree = tree(input);
    let root = Root::cast(&tree).unwrap();
    assert!(can_lower(&root));
    let first_stmt = root.stmts().into_iter().next().unwrap();

    let Stmt::Expr(ast) = first_stmt else {
        unreachable!()
    };

    let mut database = Database::default();

    let hir = database.lower_expr(Some(ast));

    assert_eq!(hir, expected_hir);
    assert_eq!(database, expected_database);
}

#[test]
fn lower_variable_def() {
    check_stmt(
        "let foo = bar",
        HirStmt::VariableDef {
            name: Name::new("foo"),
            value: HirExpr::VariableRef {
                var: Name::new("bar"),
            },
        },
    );
}

#[test]
fn lower_expr_stmt() {
    check_stmt("123", HirStmt::Expr(HirExpr::Literal { n: Some(123) }));
}

#[test]
fn lower_binary_expr() {
    let mut exprs = Arena::new();

    let lhs = exprs.alloc(HirExpr::Literal { n: Some(1) });
    let rhs = exprs.alloc(HirExpr::Literal { n: Some(2) });

    check_expr(
        "1+2",
        HirExpr::Binary {
            op: BinaryOp::Add,
            lhs: idx(lhs),
            rhs: idx(rhs),
        },
        Database { exprs },
    );
}

#[test]
fn lower_literal() {
    check_expr(
        "999",
        HirExpr::Literal { n: Some(999) },
        Database::default(),
    );
}

#[test]
fn lower_paren_expr() {
    check_expr(
        "((((abc))))",
        HirExpr::VariableRef {
            var: Name::new("abc"),
        },
        Database::default(),
    );
}

#[test]
fn lower_unary_expr() {
    let mut exprs = Arena::new();
    let ten = exprs.alloc(HirExpr::Literal { n: Some(10) });

    check_expr(
        "-10",
        HirExpr::Unary {
            op: UnaryOp::Neg,
            expr: idx(ten),
        },
        Database { exprs },
    );
}

#[test]
fn lower_variable_ref() {
    check_expr(
        "foo",
        HirExpr::VariableRef {
            var: Name::new("foo"),
        },
        Database::default(),
    );
}

#[test]
fn lower_variable_def_without_name() {
    let tree = tree("let = 10");
    let root = Root::cast(&tree).unwrap();
    assert!(can_lower(&root));
    let ast = root.stmts().into_iter().next().unwrap();

    assert!(Database::default().lower_stmt(ast).is_none());
}

#[test]
fn lower_variable_def_without_value() {
    check_stmt(
        "let a =",
        HirStmt::VariableDef {
            name: Name::new("a"),
            value: HirExpr::Missing,
        },
    );
}

#[test]
fn lower_binary_expr_without_rhs() {
    let mut exprs = Arena::new();
    let lhs = exprs.alloc(HirExpr::Literal { n: Some(10) });
    let rhs = exprs.alloc(HirExpr::Missing);
    check_expr(
        "10 -",
        HirExpr::Binary {
            op: BinaryOp::Sub,
            lhs: idx(lhs),
            rhs: idx(rhs),
        },
        Database { exprs },
    );
}

#[test]
fn lower_unary_without_expr() {
    let mut exprs = Arena::new();
    let expr = exprs.alloc(HirExpr::Missing);

    check_expr(
        "-",
        HirExpr::Unary {
            op: UnaryOp::Neg,
            expr: idx(expr),
        },
        Database { exprs },
    );
}

fn literal(n: u64) -> HirExpr {
    HirExpr::Literal { n: Some(n) }
}

fn binary(op: BinaryOp, lhs: u32, rhs: u32) -> HirExpr {
    HirExpr::Binary {
        op,
        lhs: ExprIdx { raw: lhs },
        rhs: ExprIdx { raw: rhs },
    }
}

fn check_lowered(input: &str, expected_arena: Vec<HirExpr>, expected_stmts: Vec<HirStmt>) {
    let tree = tree(input);
    let root = Root::cast(&tree).unwrap();
    let (database, stmts) = try_lower(root).unwrap();
    let mut exprs = Arena::new();
    for expr in expected_arena {
        exprs.alloc(expr);
    }
    assert_eq!(database, Database { exprs });
    assert_eq!(stmts, expected_stmts);
}

#[test]
fn multiplication_binds_more_strongly_on_the_right() {
    check_lowered(
        "1+2*3",
        vec![literal(2), literal(3), literal(1), binary(BinaryOp::Mul, 0, 1)],
        vec![HirStmt::Expr(binary(BinaryOp::Add, 2, 3))],
    );
}

#[test]
fn multiplication_binds_more_strongly_on_the_left() {
    check_lowered(
        "1*2+3",
        vec![literal(1), literal(2), binary(BinaryOp::Mul, 0, 1), literal(3)],
        vec![HirStmt::Expr(binary(BinaryOp::Add, 2, 3))],
    );
}

#[test]
fn subtraction_groups_to_the_left() {
    check_lowered(
        "10-2-3",
        vec![literal(10), literal(2), binary(BinaryOp::Sub, 0, 1), literal(3)],
        vec![HirStmt::Expr(binary(BinaryOp::Sub, 2, 3))],
    );
}

#[test]
fn division_is_lowered() {
    check_lowered(
        "8/4",
        vec![literal(8), literal(4)],
        vec![HirStmt::Expr(binary(BinaryOp::Div, 0, 1))],
    );
}

#[test]
fn lower_leaves_out_a_definition_without_name() {
    check_lowered(
        "let = 10\nlet b = -1",
        vec![literal(1)],
        vec![HirStmt::VariableDef {
            name: Name::new("b"),
            value: HirExpr::Unary {
                op: UnaryOp::Neg,
                expr: ExprIdx { raw: 0 },
            },
        }],
    );
}

#[test]
fn lower_too_large_literal() {
    check_lowered(
        "99999999999999999999",
        vec![],
        vec![HirStmt::Expr(HirExpr::Literal { n: None })],
    );
}

#[test]
fn lower_nothing() {
    let tree = tree("");
    let root = Root::cast(&tree).unwrap();
    assert!(can_lower(&root));
    let (database, stmts) = lower(root);
    assert_eq!(database, Database::default());
    assert!(stmts.is_empty());
}

#[test]
fn a_chain_of_operators_leans_to_the_left() {
    let tree = tree("1+2+3+4+5");
    let root = Root::cast(&tree).unwrap();
    let stmts = root.stmts();
    assert_eq!(stmts.len(), 1);
    let mut depth = 0;
    let mut current = match stmts.into_iter().next().unwrap() {
        Stmt::Expr(expr) => expr,
        Stmt::VariableDef(_) => unreachable!(),
    };
    loop {
        match current {
            Expr::BinaryExpr(binary) => {
                depth += 1;
                assert!(matches!(binary.rhs(), Some(Expr::Literal(_))));
                current = binary.lhs().unwrap();
            }
            Expr::Literal(literal) => {
                assert_eq!(literal.parse(), Some(1));
                break;
            }
            _ => unreachable!(),
        }
    }
    assert_eq!(depth, 4);
}

#[test]
fn name_holds_its_text() {
    assert_eq!(Name::new("counter").as_str(), "counter");
    assert_ne!(Name::new("a"), Name::new("b"));
}

#[test]
fn store_hands_out_indices_in_order() {
    let mut database = Database::default();
    assert_eq!(database.store(HirExpr::Missing), ExprIdx { raw: 0 });
    assert_eq!(database.store(literal(7)), ExprIdx { raw: 1 });
    assert_eq!(database.exprs.len(), 2);
}

#[test]
fn lower_text_parses_and_lowers() {
    let (parse, database, stmts) = lower_text("let a = 1 + \nb)");
    assert_eq!(parse.errors().len(), 1);
    assert_eq!(database.exprs.len(), 2);
    assert_eq!(
        stmts,
        vec![
            HirStmt::VariableDef {
                name: Name::new("a"),
                value: binary(BinaryOp::Add, 0, 1),
            },
        ]
    );
    let tree = parse.syntax();
    let root = Root::cast(&tree).unwrap();
    let (again, same) = lower(root);
    assert_eq!(again, database);
    assert_eq!(same, stmts);
}
