use elysium::ast::validation::validate;
use elysium::ast::Root;
use elysium::hir::{can_lower, try_lower};
use elysium::lexer::lex::tokenize;
use elysium::parse;
use elysium::syntax::{SyntaxElement, SyntaxKind, SyntaxNode, SyntaxToken};

/// Checks that the children of `node` stand one behind the other from its
/// start to its end, and hands out the number of nodes.
fn check_ranges(node: &SyntaxNode) -> usize {
    assert!(node.range.start <= node.range.end);
    let mut at = node.range.start;
    let mut nodes = 1;
    for child in &node.children {
        match child {
            SyntaxElement::Node(child) => {
                assert_eq!(child.range.start, at);
                nodes += check_ranges(child);
                at = child.range.end;
            }
            SyntaxElement::Token(token) => {
                assert_eq!(token.range.start, at);
                assert_eq!(
                    (token.range.end - token.range.start) as usize,
                    token.text.len()
                );
                at = token.range.end;
            }
        }
    }
    assert_eq!(node.range.end, at);
    nodes
}

/// Collects the tokens of the tree under `node`, in their order.
fn collect_leaves<'t>(node: &'t SyntaxNode, out: &mut Vec<&'t SyntaxToken>) {
    for child in &node.children {
        match child {
            SyntaxElement::Node(child) => collect_leaves(child, out),
            SyntaxElement::Token(token) => out.push(token),
        }
    }
}

/// Runs the whole pipeline on `input` and checks what holds of every text.
fn check_pipeline(input: &str) {
    let tokens = tokenize(input);
    assert_eq!(
        tokens.last().map_or(0, |token| token.range.end as usize),
        input.len()
    );

    let parse = parse(input);
    let tree = parse.syntax();
    assert_eq!(tree.kind, SyntaxKind::Root);
    assert_eq!(tree.range.start, 0);
    assert_eq!(tree.range.end as usize, input.len());
    assert_eq!(tree.to_text(), input);
    check_ranges(&tree);

    let mut leaves = Vec::new();
    collect_leaves(&tree, &mut leaves);
    assert_eq!(leaves.len(), tokens.len());
    for (leaf, token) in leaves.iter().zip(&tokens) {
        assert_eq!(leaf.kind, SyntaxKind::from_token(token.kind));
        assert_eq!(leaf.text, token.text);
        assert_eq!(leaf.range, token.range);
    }

    let dump = parse.debug_tree();
    assert!(dump.starts_with("Root@0.."));

    let errors = validate(&tree);
    for error in &errors {
        assert!(error.range.start < error.range.end);
    }

    let root = Root::cast(&tree).unwrap();
    assert!(can_lower(&root), "cannot lower {input:?}");
    let (database, stmts) = try_lower(root).unwrap();
    assert!(stmts.len() <= tree.children.len());
    assert!(database.exprs.len() <= input.len());
}

#[test]
fn every_short_text_goes_through_the_pipeline() {
    let pieces = [
        "1", "a", "+", "-", "*", "/", "(", ")", " ", "let ", "=", "# c\n", "?",
    ];
    let mut texts: Vec<String> = vec![String::new()];
    let mut from = 0;
    for _ in 0..4 {
        let upto = texts.len();
        for i in from..upto {
            for piece in pieces {
                let mut text = texts[i].clone();
                text.push_str(piece);
                texts.push(text);
            }
        }
        from = upto;
    }
    assert_eq!(texts.len(), 1 + 13 + 13 * 13 + 13 * 13 * 13 + 13 * 13 * 13 * 13);
    for text in &texts {
        check_pipeline(text);
    }
}

#[test]
fn long_texts_go_through_the_pipeline() {
    let pieces = [
        "1", "abc", "+", "-", "*", "/", "(", ")", " ", "\n", "let", "=", "# c\n", "fn", "{", "}",
        "12345678901234567890123", "é", "\t",
    ];
    let mut state: u64 = 0x2545_f491_4f6c_dd1d;
    for _ in 0..2000 {
        let mut text = String::new();
        for _ in 0..24 {
            state = state
                .wrapping_mul(6364136223846793005)
                .wrapping_add(1442695040888963407);
            text.push_str(pieces[(state >> 33) as usize % pieces.len()]);
        }
        check_pipeline(&text);
    }
}

#[test]
fn the_tree_holds_the_whole_text() {
    for input in [
        "",
        "   ",
        "1+2*3",
        "let a = (1 + 2) * -b # the end",
        "\n\nlet x=\n  10 -\n",
        "# only a comment with an é in it",
        "\tä = 1 $ 2 ~",
        "((((",
        "))))",
        "fn { }",
    ] {
        let tree = parse(input).syntax();
        assert_eq!(tree.to_text(), input);
        assert_eq!(tree.range.end as usize, input.len());
        check_ranges(&tree);
    }
}

#[test]
fn nothing_is_reported_for_nothing() {
    let nothing = parse("");
    assert!(nothing.errors().is_empty());
    let tree = nothing.syntax();
    assert_eq!(tree.kind, SyntaxKind::Root);
    assert!(tree.children.is_empty());

    let blank = parse("   ");
    assert!(blank.errors().is_empty());
    let tree = blank.syntax();
    assert_eq!(tree.children.len(), 1);
    match &tree.children[0] {
        SyntaxElement::Token(token) => {
            assert_eq!(token.kind, SyntaxKind::Whitespace);
            assert_eq!(token.text, "   ");
            assert_eq!((token.range.start, token.range.end), (0, 3));
        }
        SyntaxElement::Node(_) => unreachable!(),
    }
}

#[test]
fn the_tree_holds_what_starts_no_token() {
    for input in ["let a = 1 ? 2", "\t", "é", "1 + $", "(@)", "# c\n\r"] {
        let tree = parse(input).syntax();
        assert_eq!(tree.to_text(), input);
        assert_eq!(tree.range.end as usize, input.len());
        check_ranges(&tree);
    }
}
