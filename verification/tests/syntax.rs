use elysium::ast::{Expr, Literal, Root, Stmt, VariableDef};
use elysium::lexer::TokenKind;
use elysium::parse;
use elysium::syntax::dump::dump_tree;
use elysium::syntax::{SyntaxElement, SyntaxKind, SyntaxNode, SyntaxToken};
use elysium::text::{parse_u64, slice_str, TextRange};

const KINDS: [SyntaxKind; 23] = [
    SyntaxKind::Whitespace,
    SyntaxKind::FnKw,
    SyntaxKind::LetKw,
    SyntaxKind::Ident,
    SyntaxKind::Number,
    SyntaxKind::Plus,
    SyntaxKind::Minus,
    SyntaxKind::Star,
    SyntaxKind::Slash,
    SyntaxKind::Equals,
    SyntaxKind::LParen,
    SyntaxKind::RParen,
    SyntaxKind::LBrace,
    SyntaxKind::RBrace,
    SyntaxKind::Comment,
    SyntaxKind::Error,
    SyntaxKind::Root,
    SyntaxKind::InfixExpr,
    SyntaxKind::Literal,
    SyntaxKind::ParenExpr,
    SyntaxKind::PrefixExpr,
    SyntaxKind::VariableDef,
    SyntaxKind::VariableRef,
];

#[test]
fn a_kind_is_found_again_from_its_raw_value() {
    for (raw, kind) in KINDS.iter().enumerate() {
        assert_eq!(kind.to_raw() as usize, raw);
        assert_eq!(SyntaxKind::from_raw(raw as u16), Some(*kind));
    }
    assert_eq!(SyntaxKind::from_raw(23), None);
    assert_eq!(SyntaxKind::from_raw(u16::MAX), None);
}

#[test]
fn a_kind_is_named_as_it_is_written() {
    for kind in KINDS {
        assert_eq!(kind.name(), format!("{kind:?}"));
    }
}

#[test]
fn a_token_kind_has_a_syntax_kind() {
    assert_eq!(SyntaxKind::from_token(TokenKind::Whitespace), SyntaxKind::Whitespace);
    assert_eq!(SyntaxKind::from_token(TokenKind::LetKw), SyntaxKind::LetKw);
    assert_eq!(SyntaxKind::from_token(TokenKind::RBrace), SyntaxKind::RBrace);
    assert_eq!(SyntaxKind::from_token(TokenKind::Error), SyntaxKind::Error);
}

#[test]
fn a_token_kind_is_described() {
    assert_eq!(TokenKind::Whitespace.describe(), "whitespace");
    assert_eq!(TokenKind::FnKw.describe(), "'fn'");
    assert_eq!(TokenKind::Ident.describe(), "identifier");
    assert_eq!(TokenKind::Number.describe(), "number-literal");
    assert_eq!(TokenKind::Star.describe(), "'*'");
    assert_eq!(TokenKind::Slash.describe(), "'/'");
    assert_eq!(TokenKind::LBrace.describe(), "'{'");
    assert_eq!(TokenKind::RBrace.describe(), "'}'");
    assert_eq!(TokenKind::Comment.describe(), "comment");
    assert_eq!(TokenKind::Error.describe(), "an unrecognized token");
}

#[test]
fn a_number_is_parsed_as_the_standard_library_parses_it() {
    for text in [
        "0",
        "7",
        "007",
        "+5",
        "+",
        "",
        "-1",
        "12a",
        "a12",
        "1 2",
        " 1",
        "18446744073709551615",
        "18446744073709551616",
        "+18446744073709551615",
        "99999999999999999999",
        "000000000000000000000000000001",
        "٣",
        "1_000",
    ] {
        assert_eq!(parse_u64(text), text.parse::<u64>().ok(), "{text:?}");
    }
    assert_eq!(parse_u64("18446744073709551615"), Some(u64::MAX));
    assert_eq!(parse_u64("18446744073709551616"), None);
    assert_eq!(parse_u64("123"), Some(123));
}

#[test]
fn a_text_is_cut_between_characters() {
    assert_eq!(slice_str("héllo", 0, 1), "h");
    assert_eq!(slice_str("héllo", 1, 3), "é");
    assert_eq!(slice_str("héllo", 3, 6), "llo");
    assert_eq!(slice_str("héllo", 6, 6), "");
}

#[test]
fn a_range_has_a_start_and_an_end() {
    let range = TextRange::new(3, 9);
    assert_eq!(range.start(), 3);
    assert_eq!(range.end(), 9);
}

fn token(kind: SyntaxKind, text: &str, start: u32) -> SyntaxElement {
    SyntaxElement::Token(SyntaxToken {
        kind,
        text: text.to_string(),
        range: TextRange::new(start, start + text.len() as u32),
    })
}

#[test]
fn a_dump_escapes_the_text_of_a_token() {
    let node = SyntaxNode {
        kind: SyntaxKind::Root,
        range: TextRange::new(0, 6),
        children: vec![token(SyntaxKind::Comment, "#\"\\\t'é", 0)],
    };
    assert_eq!(
        dump_tree(&node),
        "Root@0..7\n  Comment@0..7 \"#\\\"\\\\\\t'é\"".replace("0..7\n", "0..6\n")
    );
}

#[test]
fn a_dump_cuts_a_long_text_between_characters() {
    let long = "# 012345678901234567éé and more";
    let node = SyntaxNode {
        kind: SyntaxKind::Root,
        range: TextRange::new(0, long.len() as u32),
        children: vec![token(SyntaxKind::Comment, long, 0)],
    };
    assert_eq!(
        dump_tree(&node),
        format!(
            "Root@0..{}\n  Comment@0..{} \"# 012345678901234567é ...\"",
            long.len(),
            long.len()
        )
    );
    let short = "# 01234567890123456789é";
    assert_eq!(short.len(), 24);
    let node = SyntaxNode {
        kind: SyntaxKind::Root,
        range: TextRange::new(0, 24),
        children: vec![token(SyntaxKind::Comment, short, 0)],
    };
    assert_eq!(
        dump_tree(&node),
        "Root@0..24\n  Comment@0..24 \"# 01234567890123456789é\""
    );
}

#[test]
fn views_are_cast_by_kind() {
    let tree = parse("let a = 1\nlet c = 2").syntax();
    assert_eq!(Root::cast(&tree).unwrap().stmts().len(), 2);
    let tree = parse("let a = 1\n-b").syntax();
    assert_eq!(Root::cast(&tree).unwrap().stmts().len(), 1);
    let tree = parse("let a = 1\n(-b)").syntax();
    assert!(Root::cast(&tree).is_some());
    assert!(Literal::cast(&tree).is_none());
    assert!(Expr::cast(&tree).is_none());
    assert!(Stmt::cast(&tree).is_none());
    let root = Root::cast(&tree).unwrap();
    let stmts = root.stmts();
    assert_eq!(stmts.len(), 2);
    match &stmts[0] {
        Stmt::VariableDef(def) => {
            assert_eq!(def.name().unwrap().text(), "a");
            assert_eq!(def.name().unwrap().kind(), SyntaxKind::Ident);
            match def.value() {
                Some(Expr::Literal(literal)) => assert_eq!(literal.parse(), Some(1)),
                _ => unreachable!(),
            }
            assert!(VariableDef::cast(def.inner()).is_some());
        }
        Stmt::Expr(_) => unreachable!(),
    }
    let Stmt::Expr(Expr::ParenExpr(paren)) = &stmts[1] else {
        unreachable!()
    };
    match paren.expr() {
        Some(Expr::UnaryExpr(unary)) => {
            assert_eq!(unary.op().unwrap().kind(), SyntaxKind::Minus);
            match unary.expr() {
                Some(Expr::VariableRef(variable)) => {
                    assert_eq!(variable.name().unwrap().text(), "b");
                    assert_eq!(
                        variable.name().unwrap().text_range(),
                        TextRange::new(12, 13)
                    );
                }
                _ => unreachable!(),
            }
        }
        _ => unreachable!(),
    }
}

#[test]
fn what_is_missing_is_absent() {
    let tree = parse("let =").syntax();
    let root = Root::cast(&tree).unwrap();
    let stmts = root.stmts();
    assert_eq!(stmts.len(), 1);
    match &stmts[0] {
        Stmt::VariableDef(def) => {
            assert!(def.name().is_none());
            assert!(def.value().is_none());
        }
        Stmt::Expr(_) => unreachable!(),
    }

    let tree = parse("1 +").syntax();
    let root = Root::cast(&tree).unwrap();
    let stmts = root.stmts();
    assert_eq!(stmts.len(), 1);
    match &stmts[0] {
        Stmt::Expr(Expr::BinaryExpr(binary)) => {
            assert!(matches!(binary.lhs(), Some(Expr::Literal(_))));
            assert_eq!(binary.op().unwrap().kind(), SyntaxKind::Plus);
            assert!(binary.rhs().is_none());
        }
        _ => unreachable!(),
    }

    let tree = parse("()").syntax();
    let root = Root::cast(&tree).unwrap();
    let stmts = root.stmts();
    assert_eq!(stmts.len(), 1);
    match &stmts[0] {
        Stmt::Expr(Expr::ParenExpr(paren)) => assert!(paren.expr().is_none()),
        _ => unreachable!(),
    }
}

#[test]
fn a_literal_without_a_token_stands_for_nothing() {
    let node = SyntaxNode {
        kind: SyntaxKind::Literal,
        range: TextRange::new(0, 0),
        children: vec![],
    };
    let literal = Literal::cast(&node).unwrap();
    assert_eq!(literal.parse(), None);
    assert!(elysium::ast::validation::validate(&node).is_empty());
}
