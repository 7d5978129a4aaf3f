//! Lowering of the syntax tree into expressions that refer to one another by
//! their index in an arena.
pub mod database;
pub mod hir;
pub mod order;
pub mod total;

pub use database::Database;
pub use hir::{can_lower, lower, try_lower, BinaryOp, ExprIdx, HirExpr, HirStmt, Name, UnaryOp};
pub use total::lower_text;
