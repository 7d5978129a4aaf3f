//! Lowering never fails on what the parser yields.
use super::database::{
    first_at, lowerable, lowerable_at, lowerable_stmt, second_at, Database,
};
use super::hir::{lower, lowerable_root, lowered_root, stmt_views, HirStmt};
use crate::ast::tree::stmt_nodes;
use crate::ast::Root;
use crate::parser::event::Event;
use crate::parser::grammar::shape::lemma_root_shaped;
use crate::parser::parser::{parse, parse_of, parsed_from};
use crate::parser::resolve::lemma_sink_views;
use crate::green::Step;
use crate::lexer::Token;
use crate::shape::shaped;
use crate::syntax::sound::{elements_sound, lemma_node_sound, node_sound};
use crate::syntax::{SyntaxElement, SyntaxKind, SyntaxNode};
use crate::Parse;
use vstd::prelude::*;

verus! {

proof fn lemma_element_sound(elements: Seq<SyntaxElement>, n: int, j: int)
    requires
        elements_sound(elements, n),
        0 <= j < n <= elements.len(),
        elements[j] is Node,
    ensures
        node_sound(elements[j]->Node_0),
    decreases n,
{
    if j < n - 1 {
        lemma_element_sound(elements, n - 1, j);
    }
}

/// A node that has what lowering asks of it, as has every node below it,
/// can be lowered.
pub proof fn lemma_sound_lowerable(node: SyntaxNode)
    requires
        node_sound(node),
    ensures
        lowerable(node),
    decreases node, 1int,
{
    match node.kind {
        SyntaxKind::InfixExpr => {
            lemma_sound_lowerable_at(node, first_at(node));
            lemma_sound_lowerable_at(node, second_at(node));
        },
        SyntaxKind::ParenExpr => {
            lemma_sound_lowerable_at(node, first_at(node));
        },
        SyntaxKind::PrefixExpr => {
            lemma_sound_lowerable_at(node, first_at(node));
        },
        _ => {},
    }
}

proof fn lemma_sound_lowerable_at(node: SyntaxNode, at: int)
    requires
        node_sound(node),
    ensures
        lowerable_at(node, at),
    decreases node, 0int,
{
    if 0 <= at < node.children@.len() && node.children@[at] is Node {
        lemma_element_sound(node.children@, node.children@.len() as int, at);
        lemma_sound_lowerable(node.children@[at]->Node_0);
    }
}

proof fn lemma_stmt_sound(elements: Seq<SyntaxElement>, n: int, i: int)
    requires
        elements_sound(elements, n),
        0 <= n <= elements.len(),
        0 <= i < stmt_nodes(elements, n).len(),
    ensures
        node_sound(stmt_nodes(elements, n)[i]),
    decreases n,
{
    if n > 0 {
        let before = stmt_nodes(elements, n - 1);
        if i < before.len() {
            lemma_stmt_sound(elements, n - 1, i);
        } else {
            lemma_element_sound(elements, n, n - 1);
        }
    }
}

/// A tree in which every node has what lowering asks of it can be lowered,
/// statement by statement.
pub proof fn lemma_sound_root(tree: SyntaxNode)
    requires
        node_sound(tree),
    ensures
        lowerable_root(tree),
{
    let nodes = stmt_nodes(tree.children@, tree.children@.len() as int);
    assert forall|i: int| 0 <= i < nodes.len() implies lowerable_stmt(#[trigger] nodes[i]) by {
        lemma_stmt_sound(tree.children@, tree.children@.len() as int, i);
        if nodes[i].kind == SyntaxKind::VariableDef {
            lemma_sound_lowerable_at(nodes[i], first_at(nodes[i]));
        } else {
            lemma_sound_lowerable(nodes[i]);
        }
    }
}

/// Whatever the text, the tree that parsing yields can be lowered: its root
/// is of kind `Root`, every node of an operator holds its operator, and
/// every variable its name.
pub proof fn lemma_parsed_lowerable(input: &str, parse: Parse, tree: SyntaxNode)
    requires
        parse_of(input, parse),
        tree.steps() == parse.steps(),
    ensures
        tree.kind == SyntaxKind::Root,
        lowerable_root(tree),
{
    let (tokens, events) = choose|tokens: Seq<Token>, events: Seq<Event>| #[trigger]
        parsed_from(input, tokens, events, parse);
    lemma_root_shaped(tokens);
    lemma_sink_views(events, tokens, events.len() as int);
    assert(tree.steps()[0] == Step::Open(tree.kind.raw()));
    reveal(shaped);
    lemma_node_sound(tree);
    lemma_sound_root(tree);
}

/// Parses `input` and lowers what parsing yields. Lowering cannot fail on
/// it.
pub fn lower_text(input: &str) -> (lowered: (Parse, Database, Vec<HirStmt>))
    ensures
        parse_of(input, lowered.0),
        exists|tree: SyntaxNode|
            tree.steps() == lowered.0.steps() && tree.laid_out() && #[trigger] lowered_root(tree)
                == (lowered.1@, stmt_views(lowered.2@)),
{
    let parse = parse(input);
    let tree = parse.syntax();
    proof {
        lemma_parsed_lowerable(input, parse, tree);
    }
    let (database, stmts) = match Root::cast(&tree) {
        Some(root) => lower(root),
        None => {
            proof {
                assert(false);
            }
            (Database::default(), Vec::new())
        },
    };
    proof {
        assert(lowered_root(tree) == (database@, stmt_views(stmts@)));
    }
    (parse, database, stmts)
}

} // verus!
