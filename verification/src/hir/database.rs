use super::hir::{BinaryOp, ExprIdx, ExprView, HirExpr, HirStmt, Name, StmtView, UnaryOp};
use crate::ast::tree::{
    find, find_child, first_expr, first_operator, first_token, first_token_of, leftmost_token,
    lemma_find, node_at, node_of, second_expr, views, Want,
};
use crate::ast::{BinaryExpr, Expr, Literal, ParenExpr, Stmt, UnaryExpr, VariableDef, VariableRef};
use crate::syntax::{SyntaxElement, SyntaxKind, SyntaxNode};
use crate::text::parse_u64_spec;
use la_arena::Arena;
use vstd::prelude::*;
use vstd::utf8::encode_utf8;

verus! {

/// The arena, as a type that is carried and not looked into.
#[verifier::external_type_specification]
#[verifier::external_body]
#[verifier::reject_recursive_types(T)]
pub struct ExArena<T>(Arena<T>);

/// The values that an arena holds, in the order in which they were
/// allocated.
pub uninterp spec fn arena_items(arena: Arena<HirExpr>) -> Seq<HirExpr>;

/// `Arena::new`: an arena that holds nothing.
#[verifier::external_body]
pub(crate) fn arena_new() -> (arena: Arena<HirExpr>)
    ensures
        arena_items(arena) == Seq::<HirExpr>::empty(),
{
    Arena::new()
}

/// `Arena::alloc`, with `Idx::into_raw` and `RawIdx::into_u32` on what it
/// returns: `value` is put behind the values that the arena holds, and the
/// index returned is the number of values before it, cut to 32 bits.
#[verifier::external_body]
pub(crate) fn arena_alloc(arena: &mut Arena<HirExpr>, value: HirExpr) -> (raw: u32)
    ensures
        arena_items(*final(arena)) == arena_items(*old(arena)).push(value),
        raw == index_at(arena_items(*old(arena)).len()).raw,
{
    arena.alloc(value).into_raw().into_u32()
}

/// The index that the arena gives to a value with `before` values before
/// it.
pub open spec fn index_at(before: nat) -> ExprIdx {
    ExprIdx { raw: (before % 0x1_0000_0000) as u32 }
}

/// The operator for which a token of `kind` stands.
pub open spec fn binary_op_of(kind: SyntaxKind) -> Option<BinaryOp> {
    match kind {
        SyntaxKind::Plus => Some(BinaryOp::Add),
        SyntaxKind::Minus => Some(BinaryOp::Sub),
        SyntaxKind::Star => Some(BinaryOp::Mul),
        SyntaxKind::Slash => Some(BinaryOp::Div),
        _ => None,
    }
}

/// The place of the first child of `node` that is an expression.
pub open spec fn first_at(node: SyntaxNode) -> int {
    find(node.children@, Want::Expr, 0)
}

/// The place of the second child of `node` that is an expression.
pub open spec fn second_at(node: SyntaxNode) -> int {
    find(node.children@, Want::Expr, first_at(node) + 1)
}

/// The expression `node` can be lowered: every operator node in it has its
/// operator, and every variable has its name. The grammar writes no others.
pub open spec fn lowerable(node: SyntaxNode) -> bool
    decreases node, 1int,
{
    match node.kind {
        SyntaxKind::InfixExpr => {
            &&& first_operator(node) is Some
            &&& lowerable_at(node, first_at(node))
            &&& lowerable_at(node, second_at(node))
        },
        SyntaxKind::ParenExpr => lowerable_at(node, first_at(node)),
        SyntaxKind::PrefixExpr => {
            &&& first_token_of(node, SyntaxKind::Minus) is Some
            &&& lowerable_at(node, first_at(node))
        },
        SyntaxKind::VariableRef => first_token(node) is Some,
        _ => true,
    }
}

/// The child of `node` at `at` can be lowered, if a node stands there.
pub open spec fn lowerable_at(node: SyntaxNode, at: int) -> bool
    decreases node, 0int,
{
    if 0 <= at < node.children@.len() && node.children@[at] is Node {
        lowerable(node.children@[at]->Node_0)
    } else {
        true
    }
}

/// What lowering the expression `node` yields when the arena holds `items`:
/// what the arena holds afterwards, and the lowered expression. The operands
/// of an operator are lowered first, the left before the right, and then
/// allocated in that order behind what lowering them has allocated.
/// Parentheses lower to what they hold.
pub open spec fn lowered(items: Seq<ExprView>, node: SyntaxNode) -> (Seq<ExprView>, ExprView)
    decreases node, 1int,
{
    match node.kind {
        SyntaxKind::InfixExpr => {
            let (items1, lhs) = lowered_at(items, node, first_at(node));
            let (items2, rhs) = lowered_at(items1, node, second_at(node));
            (
                items2.push(lhs).push(rhs),
                ExprView::Binary {
                    op: binary_op_of(first_operator(node)->0.kind)->0,
                    lhs: index_at(items2.len()),
                    rhs: index_at(items2.len() + 1),
                },
            )
        },
        SyntaxKind::Literal => (
            items,
            ExprView::Literal {
                n: match first_token(node) {
                    Some(token) => parse_u64_spec(encode_utf8(token.text@)),
                    None => None,
                },
            },
        ),
        SyntaxKind::ParenExpr => lowered_at(items, node, first_at(node)),
        SyntaxKind::PrefixExpr => {
            let (items1, operand) = lowered_at(items, node, first_at(node));
            (items1.push(operand), ExprView::Unary { op: UnaryOp::Neg, expr: index_at(items1.len()) })
        },
        SyntaxKind::VariableRef => (
            items,
            ExprView::VariableRef { var: first_token(node)->0.text@ },
        ),
        _ => (items, ExprView::Missing),
    }
}

/// What lowering the child of `node` at `at` yields; `Missing` where no node
/// stands there.
pub open spec fn lowered_at(items: Seq<ExprView>, node: SyntaxNode, at: int) -> (
    Seq<ExprView>,
    ExprView,
)
    decreases node, 0int,
{
    if 0 <= at < node.children@.len() && node.children@[at] is Node {
        lowered(items, node.children@[at]->Node_0)
    } else {
        (items, ExprView::Missing)
    }
}

/// What lowering an expression that may be missing yields.
pub open spec fn lowered_opt(items: Seq<ExprView>, node: Option<SyntaxNode>) -> (
    Seq<ExprView>,
    ExprView,
) {
    match node {
        Some(node) => lowered(items, node),
        None => (items, ExprView::Missing),
    }
}

/// The arena of lowered expressions.
#[derive(Debug, PartialEq, Eq)]
pub struct Database {
    pub exprs: Arena<HirExpr>,
}

impl View for Database {
    type V = Seq<ExprView>;

    /// The expressions that the arena holds, in the order of their indices.
    open spec fn view(&self) -> Seq<ExprView> {
        arena_items(self.exprs).map_values(|e: HirExpr| e@)
    }
}

impl Default for Database {
    /// A database that holds nothing.
    fn default() -> (db: Self)
        ensures
            db@ == Seq::<ExprView>::empty(),
    {
        let db = Database { exprs: arena_new() };
        assert(db@ =~= Seq::<ExprView>::empty());
        db
    }
}

/// The number of nodes in `node`, itself among them.
pub open spec fn node_size(node: SyntaxNode) -> nat
    decreases node, 0int,
{
    1 + nodes_among(node.children@, node.children@.len() as int)
}

/// The number of nodes in the first `n` of `elements`.
pub open spec fn nodes_among(elements: Seq<SyntaxElement>, n: int) -> nat
    decreases elements, n,
{
    if 0 < n <= elements.len() {
        nodes_among(elements, n - 1) + match elements[n - 1] {
            SyntaxElement::Node(child) => node_size(child),
            SyntaxElement::Token(_) => 0,
        }
    } else {
        0
    }
}

/// The number of nodes in an expression that may be missing.
pub open spec fn size_opt(node: Option<SyntaxNode>) -> nat {
    match node {
        Some(node) => node_size(node),
        None => 0,
    }
}

proof fn lemma_nodes_among(elements: Seq<SyntaxElement>, n: int, at: int)
    requires
        0 <= at < n <= elements.len(),
        elements[at] is Node,
    ensures
        node_size(elements[at]->Node_0) <= nodes_among(elements, n),
    decreases n,
{
    if at < n - 1 {
        lemma_nodes_among(elements, n - 1, at);
    }
}

/// A child is smaller than its parent.
pub proof fn lemma_child_smaller(node: SyntaxNode, at: int)
    requires
        0 <= at < node.children@.len(),
        node.children@[at] is Node,
    ensures
        node_size(node.children@[at]->Node_0) < node_size(node),
{
    lemma_nodes_among(node.children@, node.children@.len() as int, at);
}

/// What the views of the first and of the second expression among the
/// children of `node` stand for.
pub proof fn lemma_operands(node: SyntaxNode)
    ensures
        first_expr(node) == node_at(node, first_at(node)),
        second_expr(node) == node_at(node, second_at(node)),
        first_expr(node) matches Some(child) ==> node_size(child) < node_size(node),
        second_expr(node) matches Some(child) ==> node_size(child) < node_size(node),
        lowered_opt_at(node, first_at(node)),
        lowered_opt_at(node, second_at(node)),
{
    lemma_find(node.children@, Want::Expr, 0);
    if first_at(node) < node.children@.len() {
        lemma_child_smaller(node, first_at(node));
        lemma_find(node.children@, Want::Expr, first_at(node) + 1);
        if second_at(node) < node.children@.len() {
            lemma_child_smaller(node, second_at(node));
        }
    }
}

/// Lowering the child at `at` is lowering the node that stands there, and
/// the child can be lowered where that node can.
pub open spec fn lowered_opt_at(node: SyntaxNode, at: int) -> bool {
    &&& forall|items: Seq<ExprView>| #[trigger]
        lowered_at(items, node, at) == lowered_opt(items, node_at(node, at))
    &&& lowerable_at(node, at) == lowerable_opt(node_at(node, at))
}

/// An expression that may be missing can be lowered.
pub open spec fn lowerable_opt(node: Option<SyntaxNode>) -> bool {
    match node {
        Some(node) => lowerable(node),
        None => true,
    }
}

/// The statement `stmt` can be lowered: so can its value, where it is a
/// variable definition, or itself, where it is an expression.
pub open spec fn lowerable_stmt(stmt: SyntaxNode) -> bool {
    if stmt.kind == SyntaxKind::VariableDef {
        lowerable_at(stmt, first_at(stmt))
    } else {
        lowerable(stmt)
    }
}

fn is_lowerable_at(node: &SyntaxNode, at: usize) -> (ok: bool)
    ensures
        ok == lowerable_at(*node, at as int),
    decreases node_size(*node), 0int,
{
    if at < node.children.len() {
        match &node.children[at] {
            SyntaxElement::Node(child) => {
                proof {
                    lemma_child_smaller(*node, at as int);
                }
                is_lowerable(child)
            },
            SyntaxElement::Token(_) => true,
        }
    } else {
        true
    }
}

/// Whether the expression `node` can be lowered.
pub fn is_lowerable(node: &SyntaxNode) -> (ok: bool)
    ensures
        ok == lowerable(*node),
    decreases node_size(*node), 1int,
{
    match node.kind {
        SyntaxKind::InfixExpr => {
            let op = find_child(node, Want::Operator, 0);
            let first = find_child(node, Want::Expr, 0);
            if op >= node.children.len() {
                return false;
            }
            if !is_lowerable_at(node, first) {
                return false;
            }
            if first < node.children.len() {
                let second = find_child(node, Want::Expr, first + 1);
                is_lowerable_at(node, second)
            } else {
                true
            }
        },
        SyntaxKind::ParenExpr => {
            let first = find_child(node, Want::Expr, 0);
            is_lowerable_at(node, first)
        },
        SyntaxKind::PrefixExpr => {
            let op = find_child(node, Want::Token(SyntaxKind::Minus), 0);
            let first = find_child(node, Want::Expr, 0);
            op < node.children.len() && is_lowerable_at(node, first)
        },
        SyntaxKind::VariableRef => leftmost_token(node).is_some(),
        _ => true,
    }
}

/// Whether the statement `stmt` can be lowered.
pub fn is_lowerable_stmt(stmt: &SyntaxNode) -> (ok: bool)
    ensures
        ok == lowerable_stmt(*stmt),
{
    if stmt.kind == SyntaxKind::VariableDef {
        let first = find_child(stmt, Want::Expr, 0);
        is_lowerable_at(stmt, first)
    } else {
        is_lowerable(stmt)
    }
}

/// What lowering a statement yields when the arena holds `items`: what the
/// arena holds afterwards, and the lowered statement. A variable definition
/// without a name lowers to nothing and leaves the arena as it is; one
/// without a value has the value `Missing`.
pub open spec fn lowered_stmt(items: Seq<ExprView>, stmt: SyntaxNode) -> (
    Seq<ExprView>,
    Option<StmtView>,
) {
    if stmt.kind == SyntaxKind::VariableDef {
        match first_token_of(stmt, SyntaxKind::Ident) {
            Some(token) => {
                let (items1, value) = lowered_at(items, stmt, first_at(stmt));
                (items1, Some(StmtView::VariableDef { name: token.text@, value }))
            },
            None => (items, None),
        }
    } else {
        let (items1, value) = lowered(items, stmt);
        (items1, Some(StmtView::Expr(value)))
    }
}

/// The view of a statement that may be missing.
pub open spec fn stmt_view(stmt: Option<HirStmt>) -> Option<StmtView> {
    match stmt {
        Some(stmt) => Some(stmt@),
        None => None,
    }
}

impl Database {
    /// Puts `expr` into the arena and hands out its index.
    pub fn store(&mut self, expr: HirExpr) -> (idx: ExprIdx)
        ensures
            final(self)@ == old(self)@.push(expr@),
            idx == index_at(old(self)@.len()),
    {
        let raw = arena_alloc(&mut self.exprs, expr);
        assert(self@ =~= old(self)@.push(expr@));
        ExprIdx { raw }
    }

    /// Lowers a statement. A variable definition without a name lowers to
    /// nothing.
    pub fn lower_stmt(&mut self, ast: Stmt) -> (stmt: Option<HirStmt>)
        requires
            lowerable_stmt(ast.syntax()),
        ensures
            (final(self)@, stmt_view(stmt)) == lowered_stmt(old(self)@, ast.syntax()),
    {
        match ast {
            Stmt::VariableDef(var_def) => {
                let node = var_def.inner();
                proof {
                    lemma_operands(*node);
                }
                let name = match var_def.name() {
                    Some(token) => Name::new(token.text()),
                    None => {
                        return None;
                    },
                };
                let value = self.lower_expr(var_def.value());
                Some(HirStmt::VariableDef { name, value })
            },
            Stmt::Expr(expr) => {
                let _ = expr.inner();
                let value = self.lower_expr(Some(expr));
                Some(HirStmt::Expr(value))
            },
        }
    }

    /// Lowers an expression; a missing one lowers to `Missing`.
    pub fn lower_expr(&mut self, ast: Option<Expr>) -> (hir: HirExpr)
        requires
            lowerable_opt(node_of(ast)),
        ensures
            (final(self)@, hir@) == lowered_opt(old(self)@, node_of(ast)),
        decreases size_opt(node_of(ast)), 1int,
    {
        match ast {
            None => HirExpr::Missing,
            Some(Expr::BinaryExpr(binary_expr)) => self.lower_binary(binary_expr),
            Some(Expr::Literal(literal)) => {
                let _ = literal.inner();
                HirExpr::Literal { n: literal.parse() }
            },
            Some(Expr::ParenExpr(paren_expr)) => {
                let node = paren_expr.inner();
                proof {
                    lemma_operands(*node);
                }
                self.lower_expr(paren_expr.expr())
            },
            Some(Expr::UnaryExpr(unary_expr)) => self.lower_unary(unary_expr),
            Some(Expr::VariableRef(variable_ref)) => {
                let _ = variable_ref.inner();
                Self::lower_var_ref(variable_ref)
            },
        }
    }

    /// Lowers an operator between two operands: the left operand, then the
    /// right one, then both are put into the arena.
    pub fn lower_binary(&mut self, ast: BinaryExpr) -> (hir: HirExpr)
        requires
            lowerable(ast.syntax()),
        ensures
            (final(self)@, hir@) == lowered(old(self)@, ast.syntax()),
        decreases node_size(ast.syntax()), 0int,
    {
        let node = ast.inner();
        proof {
            lemma_operands(*node);
        }
        let op = match ast.op() {
            Some(token) => match token.kind {
                SyntaxKind::Plus => BinaryOp::Add,
                SyntaxKind::Minus => BinaryOp::Sub,
                SyntaxKind::Star => BinaryOp::Mul,
                _ => BinaryOp::Div,
            },
            None => {
                proof {
                    assert(false);
                }
                BinaryOp::Add
            },
        };
        proof {
            lemma_find(node.children@, Want::Operator, 0);
        }
        let lhs = self.lower_expr(ast.lhs());
        let rhs = self.lower_expr(ast.rhs());
        let lhs = self.store(lhs);
        let rhs = self.store(rhs);
        HirExpr::Binary { op, lhs, rhs }
    }

    /// Lowers an operator before its operand: the operand, which is then put
    /// into the arena.
    pub fn lower_unary(&mut self, ast: UnaryExpr) -> (hir: HirExpr)
        requires
            lowerable(ast.syntax()),
        ensures
            (final(self)@, hir@) == lowered(old(self)@, ast.syntax()),
        decreases node_size(ast.syntax()), 0int,
    {
        let node = ast.inner();
        proof {
            lemma_operands(*node);
        }
        let expr = self.lower_expr(ast.expr());
        let expr = self.store(expr);
        HirExpr::Unary { op: UnaryOp::Neg, expr }
    }

    fn lower_var_ref(ast: VariableRef) -> (hir: HirExpr)
        requires
            lowerable(ast.syntax()),
        ensures
            hir@ == (ExprView::VariableRef { var: first_token(ast.syntax())->0.text@ }),
    {
        let _ = ast.inner();
        match ast.name() {
            Some(token) => HirExpr::VariableRef { var: Name::new(token.text()) },
            None => {
                proof {
                    assert(false);
                }
                HirExpr::Missing
            },
        }
    }
}

} // verus!
