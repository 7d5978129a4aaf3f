use super::database::{is_lowerable_stmt, lowerable_stmt, lowered_stmt, Database};
use crate::ast::tree::{stmt_nodes, view_all};
use crate::ast::Root;
use crate::syntax::SyntaxNode;
use vstd::prelude::*;

verus! {

/// A name: a short string that is cheap to copy.
#[verifier::external_body]
#[derive(Debug, PartialEq, Eq)]
pub struct Name {
    text: smartstring::alias::String,
}

/// The text that a name holds.
pub uninterp spec fn name_text(name: Name) -> Seq<char>;

/// `SmartString::from`: a short string that holds `text`.
#[verifier::external_body]
fn name_from(text: &str) -> (name: Name)
    ensures
        name_text(name) == text@,
{
    Name { text: smartstring::alias::String::from(text) }
}

/// `SmartString::as_str`: the text that the short string holds.
#[verifier::external_body]
fn name_as_str(name: &Name) -> (text: &str)
    ensures
        text@ == name_text(*name),
{
    name.text.as_str()
}

impl View for Name {
    type V = Seq<char>;

    open spec fn view(&self) -> Seq<char> {
        name_text(*self)
    }
}

impl Name {
    /// The name that holds `text`.
    pub fn new(text: &str) -> (name: Self)
        ensures
            name@ == text@,
    {
        name_from(text)
    }

    /// The text of the name.
    pub fn as_str(&self) -> (text: &str)
        ensures
            text@ == self@,
    {
        name_as_str(self)
    }
}

/// The index of an expression in the arena that holds it.
#[derive(Debug, Clone, Copy, PartialEq, Eq, Structural, Hash)]
pub struct ExprIdx {
    pub raw: u32,
}

/// An operator between two operands.
#[derive(Debug, Clone, Copy, PartialEq, Eq, Structural)]
pub enum BinaryOp {
    Add,
    Sub,
    Mul,
    Div,
}

/// An operator before its operand.
#[derive(Debug, Clone, Copy, PartialEq, Eq, Structural)]
pub enum UnaryOp {
    Neg,
}

/// A lowered expression. Its operands are in the arena, and it holds their
/// indices.
#[derive(Debug, PartialEq, Eq)]
pub enum HirExpr {
    Binary { op: BinaryOp, lhs: ExprIdx, rhs: ExprIdx },
    /// A number; none where the literal stands for no number that 64 bits
    /// hold.
    Literal { n: Option<u64> },
    Unary { op: UnaryOp, expr: ExprIdx },
    VariableRef { var: Name },
    /// The place of an operand that the text does not have.
    Missing,
}

/// A lowered statement.
#[derive(Debug, PartialEq, Eq)]
pub enum HirStmt {
    VariableDef { name: Name, value: HirExpr },
    Expr(HirExpr),
}

/// A lowered expression, with the name of a variable as plain text.
pub enum ExprView {
    Binary { op: BinaryOp, lhs: ExprIdx, rhs: ExprIdx },
    Literal { n: Option<u64> },
    Unary { op: UnaryOp, expr: ExprIdx },
    VariableRef { var: Seq<char> },
    Missing,
}

/// A lowered statement, with names as plain text.
pub enum StmtView {
    VariableDef { name: Seq<char>, value: ExprView },
    Expr(ExprView),
}

impl View for HirExpr {
    type V = ExprView;

    open spec fn view(&self) -> ExprView {
        match *self {
            HirExpr::Binary { op, lhs, rhs } => ExprView::Binary { op, lhs, rhs },
            HirExpr::Literal { n } => ExprView::Literal { n },
            HirExpr::Unary { op, expr } => ExprView::Unary { op, expr },
            HirExpr::VariableRef { var } => ExprView::VariableRef { var: var@ },
            HirExpr::Missing => ExprView::Missing,
        }
    }
}

impl View for HirStmt {
    type V = StmtView;

    open spec fn view(&self) -> StmtView {
        match *self {
            HirStmt::VariableDef { name, value } => StmtView::VariableDef {
                name: name@,
                value: value@,
            },
            HirStmt::Expr(expr) => StmtView::Expr(expr@),
        }
    }
}

/// Every statement of the tree `root` can be lowered.
pub open spec fn lowerable_root(root: SyntaxNode) -> bool {
    let nodes = stmt_nodes(root.children@, root.children@.len() as int);
    forall|i: int| 0 <= i < nodes.len() ==> lowerable_stmt(#[trigger] nodes[i])
}

/// What lowering the first `n` of the statements `nodes` yields when the
/// arena holds `items`: what the arena holds afterwards, and the lowered
/// statements in their order, without those that lower to nothing.
pub open spec fn lowered_all(items: Seq<ExprView>, nodes: Seq<SyntaxNode>, n: int) -> (
    Seq<ExprView>,
    Seq<StmtView>,
)
    decreases n,
{
    if n <= 0 {
        (items, Seq::empty())
    } else {
        let (items1, stmts) = lowered_all(items, nodes, n - 1);
        let (items2, stmt) = lowered_stmt(items1, nodes[n - 1]);
        (
            items2,
            match stmt {
                Some(stmt) => stmts.push(stmt),
                None => stmts,
            },
        )
    }
}

/// What lowering the tree `root` yields: the arena and the statements.
pub open spec fn lowered_root(root: SyntaxNode) -> (Seq<ExprView>, Seq<StmtView>) {
    let nodes = stmt_nodes(root.children@, root.children@.len() as int);
    lowered_all(Seq::empty(), nodes, nodes.len() as int)
}

/// The views of lowered statements.
pub open spec fn stmt_views(stmts: Seq<HirStmt>) -> Seq<StmtView> {
    stmts.map_values(|stmt: HirStmt| stmt@)
}

/// Lowers the statements of `ast` into a new arena. A variable definition
/// without a name is left out.
pub fn lower(ast: Root) -> (lowered: (Database, Vec<HirStmt>))
    requires
        lowerable_root(ast.syntax()),
    ensures
        (lowered.0@, stmt_views(lowered.1@)) == lowered_root(ast.syntax()),
{
    let mut db = Database::default();
    let mut stmts: Vec<HirStmt> = Vec::new();
    let all = ast.stmts();
    let ghost nodes = stmt_nodes(ast.syntax().children@, ast.syntax().children@.len() as int);
    let count = all.len();
    proof {
        assert(stmt_views(stmts@) =~= Seq::<StmtView>::empty());
    }
    for stmt in it: all
        invariant
            count == it.seq().len(),
            view_all(it.seq(), nodes),
            forall|i: int| 0 <= i < nodes.len() ==> lowerable_stmt(#[trigger] nodes[i]),
            (db@, stmt_views(stmts@)) == lowered_all(Seq::empty(), nodes, it.index() as int),
    {
        let ghost before = stmts@;
        let ghost at = it.index() as int;
        proof {
            assert(stmt.syntax() == nodes[at]);
        }
        match db.lower_stmt(stmt) {
            Some(lowered) => {
                stmts.push(lowered);
                proof {
                    assert(stmt_views(stmts@) =~= stmt_views(before).push(lowered@));
                }
            },
            None => {},
        }
    }
    (db, stmts)
}

/// Whether every statement of `ast` can be lowered.
pub fn can_lower(ast: &Root) -> (ok: bool)
    ensures
        ok == lowerable_root(ast.syntax()),
{
    let all = ast.stmts();
    let ghost nodes = stmt_nodes(ast.syntax().children@, ast.syntax().children@.len() as int);
    let count = all.len();
    let mut i: usize = 0;
    while i < count
        invariant
            count == all@.len(),
            i <= count,
            view_all(all@, nodes),
            nodes == stmt_nodes(ast.syntax().children@, ast.syntax().children@.len() as int),
            forall|j: int| 0 <= j < i ==> lowerable_stmt(#[trigger] nodes[j]),
        decreases count - i,
    {
        if !is_lowerable_stmt(all[i].inner()) {
            proof {
                assert(!lowerable_stmt(nodes[i as int]));
            }
            return false;
        }
        i += 1;
    }
    true
}

/// Lowers the statements of `ast` where every one of them can be lowered;
/// none where one cannot.
pub fn try_lower(ast: Root) -> (lowered: Option<(Database, Vec<HirStmt>)>)
    ensures
        lowered is Some <==> lowerable_root(ast.syntax()),
        lowered matches Some(l) ==> (l.0@, stmt_views(l.1@)) == lowered_root(ast.syntax()),
{
    if can_lower(&ast) {
        Some(lower(ast))
    } else {
        None
    }
}

} // verus!
