use elysium::lexer::lex::tokenize;
use elysium::lexer::TokenKind;
use elysium::parser::event::Event;
use elysium::parser::grammar::root;
use elysium::parser::{ParseError, Parser, Sink, Source};
use elysium::syntax::{SyntaxElement, SyntaxKind, SyntaxNode};
use elysium::text::TextRange;

fn open(kind: SyntaxKind) -> Event {
    Event::Startnode {
        kind,
        forward_parent: None,
    }
}

fn linked(kind: SyntaxKind, distance: usize) -> Event {
    Event::Startnode {
        kind,
        forward_parent: Some(distance),
    }
}

#[test]
fn a_node_without_children_opens_and_closes() {
    let tokens = tokenize("");
    let mut parser = Parser::new(Source::new(&tokens));
    let marker = parser.start();
    let done = marker.complete(&mut parser, SyntaxKind::Root);
    let outer = done.precede(&mut parser);
    outer.complete(&mut parser, SyntaxKind::Error);
    assert_eq!(
        parser.into_events(),
        vec![
            linked(SyntaxKind::Root, 2),
            Event::FinishNode,
            open(SyntaxKind::Error),
            Event::FinishNode,
        ]
    );
}

#[test]
fn complete_opens_and_closes_the_node() {
    let tokens = tokenize("1");
    let mut parser = Parser::new(Source::new(&tokens));
    let marker = parser.start();
    parser.bump();
    marker.complete(&mut parser, SyntaxKind::Literal);
    assert_eq!(
        parser.into_events(),
        vec![open(SyntaxKind::Literal), Event::AddToken, Event::FinishNode]
    );
}

#[test]
fn precede_records_the_distance_to_the_new_node() {
    let tokens = tokenize("1+2");
    let mut parser = Parser::new(Source::new(&tokens));
    let marker = parser.start();
    parser.bump();
    let literal = marker.complete(&mut parser, SyntaxKind::Literal);
    parser.bump();
    let infix = literal.precede(&mut parser);
    let marker = parser.start();
    parser.bump();
    marker.complete(&mut parser, SyntaxKind::Literal);
    infix.complete(&mut parser, SyntaxKind::InfixExpr);
    let events = parser.into_events();
    assert_eq!(
        events,
        vec![
            linked(SyntaxKind::Literal, 4),
            Event::AddToken,
            Event::FinishNode,
            Event::AddToken,
            open(SyntaxKind::InfixExpr),
            open(SyntaxKind::Literal),
            Event::AddToken,
            Event::FinishNode,
            Event::FinishNode,
        ]
    );
}

#[test]
fn at_notes_the_kind_and_bump_forgets_it() {
    let tokens = tokenize("  1");
    let mut parser = Parser::new(Source::new(&tokens));
    assert!(!parser.at(TokenKind::Ident));
    assert!(parser.at(TokenKind::Number));
    assert!(!parser.at_end());
    parser.bump();
    assert!(parser.at_end());
    parser.error();
    let events = parser.into_events();
    assert_eq!(events.len(), 2);
    match &events[1] {
        Event::Error(error) => {
            assert_eq!(error.to_string(), "error at 2..3: expected ");
        }
        _ => unreachable!(),
    }
}

#[test]
fn expect_reports_what_was_looked_for() {
    let tokens = tokenize("1 )");
    let mut parser = Parser::new(Source::new(&tokens));
    parser.expect(TokenKind::Number);
    parser.expect(TokenKind::Equals);
    let events = parser.into_events();
    assert_eq!(events.len(), 5);
    assert_eq!(events[0], Event::AddToken);
    match &events[1] {
        Event::Error(error) => {
            assert_eq!(
                error.to_string(),
                "error at 2..3: expected '=', but found ')'"
            );
        }
        _ => unreachable!(),
    }
    assert_eq!(events[2], open(SyntaxKind::Error));
    assert_eq!(events[3], Event::AddToken);
    assert_eq!(events[4], Event::FinishNode);
}

#[test]
fn error_leaves_let_in_place() {
    let tokens = tokenize("let");
    let mut parser = Parser::new(Source::new(&tokens));
    parser.expect(TokenKind::Number);
    assert!(parser.at(TokenKind::LetKw));
    let events = parser.into_events();
    assert_eq!(events.len(), 1);
    match &events[0] {
        Event::Error(error) => {
            assert_eq!(
                error.to_string(),
                "error at 0..3: expected number-literal, but found 'let'"
            );
        }
        _ => unreachable!(),
    }
}

#[test]
fn root_writes_the_log_of_a_tree() {
    let tokens = tokenize("1 + 2");
    let mut parser = Parser::new(Source::new(&tokens));
    root(&mut parser);
    assert_eq!(
        parser.into_events(),
        vec![
            open(SyntaxKind::Root),
            linked(SyntaxKind::Literal, 4),
            Event::AddToken,
            Event::FinishNode,
            Event::AddToken,
            open(SyntaxKind::InfixExpr),
            open(SyntaxKind::Literal),
            Event::AddToken,
            Event::FinishNode,
            Event::FinishNode,
            Event::FinishNode,
        ]
    );
}

#[test]
fn sink_opens_forward_parents_first() {
    let tokens = tokenize("1 + 2");
    let events = vec![
        open(SyntaxKind::Root),
        linked(SyntaxKind::Literal, 4),
        Event::AddToken,
        Event::FinishNode,
        Event::AddToken,
        open(SyntaxKind::InfixExpr),
        open(SyntaxKind::Literal),
        Event::AddToken,
        Event::FinishNode,
        Event::FinishNode,
        Event::FinishNode,
    ];
    let parse = Sink::new(&tokens, events).finish();
    assert_eq!(
        parse.debug_tree(),
        "Root@0..5
  InfixExpr@0..5
    Literal@0..2
      Number@0..1 \"1\"
      Whitespace@1..2 \" \"
    Plus@2..3 \"+\"
    Whitespace@3..4 \" \"
    Literal@4..5
      Number@4..5 \"2\""
    );
}

#[test]
fn sink_follows_a_chain_of_forward_parents() {
    let tokens = tokenize("a");
    let events = vec![
        open(SyntaxKind::Root),
        linked(SyntaxKind::VariableRef, 3),
        Event::AddToken,
        Event::FinishNode,
        linked(SyntaxKind::ParenExpr, 2),
        Event::FinishNode,
        open(SyntaxKind::PrefixExpr),
        Event::FinishNode,
        Event::FinishNode,
    ];
    let parse = Sink::new(&tokens, events).finish();
    assert_eq!(
        parse.debug_tree(),
        "Root@0..1
  PrefixExpr@0..1
    ParenExpr@0..1
      VariableRef@0..1
        Ident@0..1 \"a\""
    );
}

#[test]
fn sink_takes_a_log_whose_first_node_has_a_forward_parent() {
    let tokens = tokenize("1");
    let events = vec![
        linked(SyntaxKind::Error, 3),
        Event::AddToken,
        Event::FinishNode,
        open(SyntaxKind::Root),
        Event::FinishNode,
    ];
    let parse = Sink::new(&tokens, events).finish();
    assert!(parse.errors().is_empty());
    assert_eq!(
        parse.debug_tree(),
        "Root@0..1
  Error@0..1
    Number@0..1 \"1\""
    );
}

#[test]
fn markers_write_a_log_whose_first_node_has_a_forward_parent() {
    let tokens = tokenize("1");
    let mut parser = Parser::new(Source::new(&tokens));
    let marker = parser.start();
    parser.bump();
    let inner = marker.complete(&mut parser, SyntaxKind::Error);
    let outer = inner.precede(&mut parser);
    outer.complete(&mut parser, SyntaxKind::Root);
    let events = parser.into_events();
    assert_eq!(
        events,
        vec![
            linked(SyntaxKind::Error, 3),
            Event::AddToken,
            Event::FinishNode,
            open(SyntaxKind::Root),
            Event::FinishNode,
        ]
    );
    let parse = Sink::new(&tokens, events).finish();
    assert_eq!(
        parse.debug_tree(),
        "Root@0..1
  Error@0..1
    Number@0..1 \"1\""
    );
}

#[test]
fn sink_collects_diagnostics_beside_the_tree() {
    let tokens = tokenize("a b");
    let shape = |errors: bool| {
        let mut events = vec![open(SyntaxKind::Root)];
        if errors {
            events.push(Event::Error(ParseError::new(
                vec![TokenKind::Number],
                Some(TokenKind::Ident),
                TextRange::new(0, 1),
            )));
        }
        events.push(Event::AddToken);
        if errors {
            events.push(Event::Error(ParseError::new(
                vec![],
                None,
                TextRange::new(2, 3),
            )));
        }
        events.push(Event::AddToken);
        events.push(Event::FinishNode);
        Sink::new(&tokens, events).finish()
    };
    let with = shape(true);
    let without = shape(false);
    assert_eq!(with.syntax(), without.syntax());
    assert!(without.errors().is_empty());
    assert_eq!(with.errors().len(), 2);
    assert_eq!(
        with.errors()[0].to_string(),
        "error at 0..1: expected number-literal, but found identifier"
    );
    assert_eq!(with.errors()[1].to_string(), "error at 2..3: expected ");
}

/// The number of nodes in the tree under `node`, itself among them.
fn count_nodes(node: &SyntaxNode) -> usize {
    let mut nodes = 1;
    for child in &node.children {
        if let SyntaxElement::Node(child) = child {
            nodes += count_nodes(child);
        }
    }
    nodes
}

#[test]
fn the_sink_opens_one_node_for_each_node_of_the_log() {
    for input in ["", "1", "1 + 2 * 3", "let a = -(b / 2)", "((1", "let = ? 1 +", "a b c"] {
        let tokens = tokenize(input);
        let mut parser = Parser::new(Source::new(&tokens));
        root(&mut parser);
        let events = parser.into_events();
        let opened = events
            .iter()
            .filter(|event| matches!(event, Event::Startnode { .. }))
            .count();
        let parse = Sink::new(&tokens, events).finish();
        assert_eq!(count_nodes(&parse.syntax()), opened, "{input:?}");
    }
}

#[test]
fn the_sink_opens_each_forward_parent_once() {
    let tokens = tokenize("1");
    let events = vec![
        linked(SyntaxKind::Literal, 3),
        Event::AddToken,
        Event::FinishNode,
        linked(SyntaxKind::InfixExpr, 1),
        open(SyntaxKind::Root),
        Event::FinishNode,
        Event::FinishNode,
    ];
    let tree = Sink::new(&tokens, events).finish().syntax();
    assert_eq!(count_nodes(&tree), 3);
    assert_eq!(tree.kind, SyntaxKind::Root);
}

/// A chain of `n` operators, written with the markers as the parser does.
fn chain(n: usize) -> String {
    let mut text = String::from("1");
    for i in 0..n {
        text.push('+');
        text.push_str(&(i + 2).to_string());
    }
    let tokens = tokenize(&text);
    let mut parser = Parser::new(Source::new(&tokens));
    let root = parser.start();
    let marker = parser.start();
    parser.bump();
    let mut lhs = marker.complete(&mut parser, SyntaxKind::Literal);
    for _ in 0..n {
        parser.bump();
        let infix = lhs.precede(&mut parser);
        let marker = parser.start();
        parser.bump();
        marker.complete(&mut parser, SyntaxKind::Literal);
        lhs = infix.complete(&mut parser, SyntaxKind::InfixExpr);
    }
    root.complete(&mut parser, SyntaxKind::Root);
    Sink::new(&tokens, parser.into_events())
        .finish()
        .debug_tree()
}

#[test]
fn a_chain_of_operators_is_as_deep_as_it_is_long() {
    for n in 1..8 {
        let dump = chain(n);
        let lines: Vec<&str> = dump.lines().collect();
        assert_eq!(lines[0], format!("Root@0..{}", 2 * n + 1));
        for depth in 1..=n {
            let indent = "  ".repeat(depth);
            assert!(lines[depth].starts_with(&format!("{indent}InfixExpr@0..")));
        }
        let indent = "  ".repeat(n + 1);
        assert_eq!(lines[n + 1], format!("{indent}Literal@0..1"));
        assert_eq!(
            dump.matches("InfixExpr").count(),
            n,
            "one node for each operator"
        );
    }
}
