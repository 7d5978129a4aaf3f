//! The syntax tree: the kinds of its nodes and tokens, and the tree itself.
pub mod dump;
pub mod kind;
pub mod sound;
pub mod tree;

pub use kind::{SyntaxKind, KIND_COUNT};
pub use tree::{SyntaxElement, SyntaxNode, SyntaxToken};
