use super::database::{first_at, lowered, lowered_at, lowered_stmt, second_at};
use super::hir::{lowered_all, lowered_root, ExprView};
use crate::syntax::{SyntaxKind, SyntaxNode};
use vstd::prelude::*;

verus! {

/// The number of indices that 32 bits tell apart. An arena of no more
/// expressions gives each its own index.
pub open spec fn index_space() -> nat {
    0x1_0000_0000
}

/// Every index in `expr` is below `bound`.
pub open spec fn refs_below(expr: ExprView, bound: int) -> bool {
    match expr {
        ExprView::Binary { lhs, rhs, .. } => lhs.raw < bound && rhs.raw < bound,
        ExprView::Unary { expr, .. } => expr.raw < bound,
        _ => true,
    }
}

/// Every expression in the arena refers to expressions before it only.
pub open spec fn children_first(items: Seq<ExprView>) -> bool {
    forall|i: int| 0 <= i < items.len() ==> refs_below(#[trigger] items[i], i)
}

/// `more` holds `items` and, behind them, what was allocated since.
pub open spec fn grown_from(more: Seq<ExprView>, items: Seq<ExprView>) -> bool {
    items.len() <= more.len() && more.subrange(0, items.len() as int) == items
}

/// Lowering only adds to the arena: no expression is removed or changed.
pub proof fn lemma_lowering_appends(items: Seq<ExprView>, node: SyntaxNode)
    ensures
        grown_from(lowered(items, node).0, items),
    decreases node, 1int,
{
    match node.kind {
        SyntaxKind::InfixExpr => {
            lemma_lowering_appends_at(items, node, first_at(node));
            let (items1, lhs) = lowered_at(items, node, first_at(node));
            lemma_lowering_appends_at(items1, node, second_at(node));
            let (items2, rhs) = lowered_at(items1, node, second_at(node));
            assert(items2.push(lhs).push(rhs).subrange(0, items.len() as int) =~= items) by {
                assert forall|i: int| 0 <= i < items.len() implies items2[i] == items[i] by {
                    assert(items2.subrange(0, items1.len() as int)[i] == items1[i]);
                    assert(items1.subrange(0, items.len() as int)[i] == items[i]);
                }
            }
        },
        SyntaxKind::ParenExpr => {
            lemma_lowering_appends_at(items, node, first_at(node));
        },
        SyntaxKind::PrefixExpr => {
            lemma_lowering_appends_at(items, node, first_at(node));
            let (items1, operand) = lowered_at(items, node, first_at(node));
            assert(items1.push(operand).subrange(0, items.len() as int) =~= items) by {
                assert forall|i: int| 0 <= i < items.len() implies items1[i] == items[i] by {
                    assert(items1.subrange(0, items.len() as int)[i] == items[i]);
                }
            }
        },
        _ => {
            assert(items.subrange(0, items.len() as int) =~= items);
        },
    }
}

/// Lowering a child only adds to the arena.
pub proof fn lemma_lowering_appends_at(items: Seq<ExprView>, node: SyntaxNode, at: int)
    ensures
        grown_from(lowered_at(items, node, at).0, items),
    decreases node, 0int,
{
    if 0 <= at < node.children@.len() && node.children@[at] is Node {
        lemma_lowering_appends(items, node.children@[at]->Node_0);
    } else {
        assert(items.subrange(0, items.len() as int) =~= items);
    }
}

/// Children are allocated before parents: where every expression in the
/// arena refers to earlier ones only, and the arena after lowering holds no
/// more expressions than there are indices, the same holds after lowering,
/// and the lowered expression refers to expressions in the arena.
pub proof fn lemma_children_first(items: Seq<ExprView>, node: SyntaxNode)
    requires
        children_first(items),
        lowered(items, node).0.len() <= index_space(),
    ensures
        children_first(lowered(items, node).0),
        refs_below(lowered(items, node).1, lowered(items, node).0.len() as int),
    decreases node, 1int,
{
    match node.kind {
        SyntaxKind::InfixExpr => {
            let (items1, lhs) = lowered_at(items, node, first_at(node));
            let (items2, rhs) = lowered_at(items1, node, second_at(node));
            lemma_lowering_appends_at(items, node, first_at(node));
            lemma_lowering_appends_at(items1, node, second_at(node));
            lemma_children_first_at(items, node, first_at(node));
            lemma_children_first_at(items1, node, second_at(node));
            let all = items2.push(lhs).push(rhs);
            assert forall|i: int| 0 <= i < all.len() implies refs_below(#[trigger] all[i], i) by {
                if i < items2.len() {
                    assert(refs_below(items2[i], i));
                }
            }
        },
        SyntaxKind::ParenExpr => {
            lemma_children_first_at(items, node, first_at(node));
        },
        SyntaxKind::PrefixExpr => {
            let (items1, operand) = lowered_at(items, node, first_at(node));
            lemma_children_first_at(items, node, first_at(node));
            let all = items1.push(operand);
            assert forall|i: int| 0 <= i < all.len() implies refs_below(#[trigger] all[i], i) by {
                if i < items1.len() {
                    assert(refs_below(items1[i], i));
                }
            }
        },
        _ => {},
    }
}

/// Lowering a child keeps children before parents.
pub proof fn lemma_children_first_at(items: Seq<ExprView>, node: SyntaxNode, at: int)
    requires
        children_first(items),
        lowered_at(items, node, at).0.len() <= index_space(),
    ensures
        children_first(lowered_at(items, node, at).0),
        refs_below(lowered_at(items, node, at).1, lowered_at(items, node, at).0.len() as int),
    decreases node, 0int,
{
    if 0 <= at < node.children@.len() && node.children@[at] is Node {
        lemma_children_first(items, node.children@[at]->Node_0);
    }
}

/// Lowering a statement only adds to the arena, and keeps children before
/// parents.
pub proof fn lemma_stmt_children_first(items: Seq<ExprView>, stmt: SyntaxNode)
    requires
        children_first(items),
        lowered_stmt(items, stmt).0.len() <= index_space(),
    ensures
        children_first(lowered_stmt(items, stmt).0),
        grown_from(lowered_stmt(items, stmt).0, items),
{
    if stmt.kind == SyntaxKind::VariableDef {
        lemma_lowering_appends_at(items, stmt, first_at(stmt));
        if crate::ast::tree::first_token_of(stmt, SyntaxKind::Ident) is Some {
            lemma_children_first_at(items, stmt, first_at(stmt));
        } else {
            assert(items.subrange(0, items.len() as int) =~= items);
        }
    } else {
        lemma_lowering_appends(items, stmt);
        lemma_children_first(items, stmt);
    }
}

proof fn lemma_all_children_first(items: Seq<ExprView>, nodes: Seq<SyntaxNode>, n: int)
    requires
        children_first(items),
        lowered_all(items, nodes, n).0.len() <= index_space(),
    ensures
        children_first(lowered_all(items, nodes, n).0),
    decreases n,
{
    if n > 0 {
        let before = lowered_all(items, nodes, n - 1).0;
        if nodes[n - 1].kind == SyntaxKind::VariableDef {
            lemma_lowering_appends_at(before, nodes[n - 1], first_at(nodes[n - 1]));
        } else {
            lemma_lowering_appends(before, nodes[n - 1]);
        }
        lemma_all_children_first(items, nodes, n - 1);
        lemma_stmt_children_first(before, nodes[n - 1]);
    }
}

/// In the arena that lowering a tree yields, every expression refers to
/// expressions before it only, where the arena holds no more expressions
/// than there are indices.
pub proof fn lemma_root_children_first(tree: SyntaxNode)
    requires
        lowered_root(tree).0.len() <= index_space(),
    ensures
        children_first(lowered_root(tree).0),
{
    let nodes = crate::ast::tree::stmt_nodes(tree.children@, tree.children@.len() as int);
    lemma_all_children_first(Seq::empty(), nodes, nodes.len() as int);
}

} // verus!
