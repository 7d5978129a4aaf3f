//! An error-tolerant front end for a small expression language: a lexer, an
//! event-sourced parser that builds a lossless syntax tree, typed views of that
//! tree, a validation pass and a lowering pass into an arena-indexed form.
pub mod ast;
pub mod green;
pub mod hir;
pub mod lexer;
pub mod parser;
pub mod shape;
pub mod syntax;
pub mod text;

pub use ast::{Root, Stmt};
pub use parser::parser::parse;

use green::{green_steps, is_tree, kinds_known, leaf_bytes, leaf_text, Step};
use parser::ParseError;
use syntax::dump::{dump, dump_tree};
use syntax::tree::node_from_green;
use syntax::SyntaxNode;
use vstd::prelude::*;

verus! {

/// The messages of the first `n` of `errors`, each after a line break.
pub open spec fn messages(errors: Seq<ParseError>, n: int) -> Seq<char>
    decreases n,
{
    if n <= 0 {
        Seq::empty()
    } else {
        messages(errors, n - 1) + "\n"@ + errors[n - 1].message()
    }
}

/// The dump of `tree`, then the messages of `errors`.
pub open spec fn dumped(tree: SyntaxNode, errors: Seq<ParseError>) -> Seq<char> {
    dump(tree) + messages(errors, errors.len() as int)
}

/// What parsing yields: the tree and the diagnostics.
pub struct Parse {
    green_node: rowan::GreenNode,
    errors: Vec<ParseError>,
}

impl Parse {
    /// The tree, written down from left to right.
    pub closed spec fn steps(&self) -> Seq<Step> {
        green_steps(self.green_node)
    }

    /// The text of the tree: the texts of its tokens from left to right.
    pub open spec fn text(&self) -> Seq<char> {
        leaf_text(self.steps(), self.steps().len() as int)
    }

    /// The diagnostics, in the order in which the parser reported them.
    pub closed spec fn diagnostics(&self) -> Seq<ParseError> {
        self.errors@
    }

    /// The tree is one tree of known kinds, and its text fits 32-bit offsets.
    pub open spec fn wf(&self) -> bool {
        &&& is_tree(self.steps())
        &&& kinds_known(self.steps())
        &&& leaf_bytes(self.steps(), self.steps().len() as int) <= u32::MAX
    }

    #[verifier::type_invariant]
    spec fn inv(&self) -> bool {
        self.wf()
    }

    /// What the sink has built and collected.
    pub(crate) fn new(green_node: rowan::GreenNode, errors: Vec<ParseError>) -> (parse: Self)
        requires
            is_tree(green_steps(green_node)),
            kinds_known(green_steps(green_node)),
            leaf_bytes(green_steps(green_node), green_steps(green_node).len() as int) <= u32::MAX,
        ensures
            parse.steps() == green_steps(green_node),
            parse.diagnostics() == errors@,
            parse.wf(),
    {
        Parse { green_node, errors }
    }

    /// The tree, with the range of every node and token in the text.
    pub fn syntax(&self) -> (tree: SyntaxNode)
        ensures
            tree.steps() == self.steps(),
            tree.text() == self.text(),
            tree.laid_out(),
            tree.range.start == 0,
    {
        proof {
            use_type_invariant(self);
        }
        node_from_green(&self.green_node, 0)
    }

    /// The dump of the tree, then the message of each diagnostic, each on a
    /// line of its own.
    pub fn debug_tree(&self) -> (text: String)
        ensures
            exists|tree: SyntaxNode|
                tree.steps() == self.steps() && tree.laid_out() && tree.range.start == 0
                    && #[trigger] dumped(tree, self.diagnostics()) == text@,
    {
        let tree = self.syntax();
        let mut text = dump_tree(&tree);
        let count = self.errors.len();
        let mut i: usize = 0;
        proof {
            assert(text@ =~= dump(tree) + messages(self.errors@, 0));
        }
        while i < count
            invariant
                count == self.errors@.len(),
                i <= count,
                text@ == dump(tree) + messages(self.errors@, i as int),
            decreases count - i,
        {
            text.append("\n");
            let message = self.errors[i].to_string();
            text.append(message.as_str());
            i += 1;
            proof {
                assert(text@ =~= dump(tree) + messages(self.errors@, i as int));
            }
        }
        proof {
            assert(dumped(tree, self.diagnostics()) == text@);
        }
        text
    }

    /// The diagnostics, in the order in which the parser reported them.
    pub fn errors(&self) -> (errors: &Vec<ParseError>)
        ensures
            errors@ == self.diagnostics(),
    {
        &self.errors
    }
}

} // verus!
