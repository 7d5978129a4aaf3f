//! Typed views of the syntax tree, one for each construct of the grammar, and
//! the checks that the grammar does not make.
pub mod tree;
pub mod validation;

pub use tree::{
    BinaryExpr, Expr, Literal, ParenExpr, Root, Stmt, UnaryExpr, VariableDef, VariableRef,
};
