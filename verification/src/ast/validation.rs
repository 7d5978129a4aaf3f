use super::tree::{first_token, leftmost_token, Literal};
use crate::syntax::{SyntaxElement, SyntaxKind, SyntaxNode};
use crate::text::{decimal, parse_u64_spec, push_decimal, TextRange};
use vstd::prelude::*;
use vstd::utf8::encode_utf8;

verus! {

/// What a check can find wrong.
#[derive(Debug, PartialEq, Eq, Clone, Copy, Structural)]
pub enum ValidationErrorKind {
    /// The text of a literal stands for no number that 64 bits hold.
    NumberLiteralTooLarge,
}

/// What a check has found wrong, and where.
#[derive(Debug, PartialEq, Eq, Clone, Copy, Structural)]
pub struct ValidationError {
    pub kind: ValidationErrorKind,
    pub range: TextRange,
}

impl ValidationErrorKind {
    /// The words that say what is wrong.
    pub open spec fn message(self) -> Seq<char> {
        match self {
            ValidationErrorKind::NumberLiteralTooLarge => {
                "Number literal is larger than supported integer maximum value of "@ + decimal(
                    u64::MAX as nat,
                )
            },
        }
    }

    /// The words that say what is wrong. They name the largest number that
    /// a literal may stand for.
    pub fn to_string(&self) -> (text: String)
        ensures
            text@ == self.message(),
    {
        match self {
            ValidationErrorKind::NumberLiteralTooLarge => {
                let mut text = String::new();
                text.append("Number literal is larger than supported integer maximum value of ");
                push_decimal(&mut text, u64::MAX);
                assert(text@ =~= self.message());
                text
            },
        }
    }
}

impl ValidationError {
    /// An error of `kind` at `range`.
    pub fn new(kind: ValidationErrorKind, range: TextRange) -> (error: Self)
        ensures
            error.kind == kind,
            error.range == range,
    {
        ValidationError { kind, range }
    }

    /// The message: where the error is, and what is wrong.
    pub open spec fn message(self) -> Seq<char> {
        "error at "@ + decimal(self.range.start as nat) + ".."@ + decimal(self.range.end as nat)
            + ": "@ + self.kind.message()
    }

    /// The message: `error at <start>..<end>: ` and what is wrong.
    pub fn to_string(&self) -> (text: String)
        ensures
            text@ == self.message(),
    {
        let mut text = String::new();
        text.append("error at ");
        push_decimal(&mut text, self.range.start as u64);
        text.append("..");
        push_decimal(&mut text, self.range.end as u64);
        text.append(": ");
        let kind = self.kind.to_string();
        text.append(kind.as_str());
        assert(text@ =~= self.message());
        text
    }
}

/// What is wrong with `node` itself: it is a literal whose text stands for
/// no number that 64 bits hold. The error is at the literal's token.
pub open spec fn literal_error(node: SyntaxNode) -> Option<ValidationError> {
    if node.kind == SyntaxKind::Literal {
        match first_token(node) {
            Some(token) => if parse_u64_spec(encode_utf8(token.text@)) is None {
                Some(
                    ValidationError {
                        kind: ValidationErrorKind::NumberLiteralTooLarge,
                        range: token.range,
                    },
                )
            } else {
                None
            },
            None => None,
        }
    } else {
        None
    }
}

/// What is wrong with `node` and with the nodes below it, a node before its
/// children and the children from left to right.
pub open spec fn errors_in(node: SyntaxNode) -> Seq<ValidationError>
    decreases node, 0int,
{
    (match literal_error(node) {
        Some(error) => seq![error],
        None => Seq::empty(),
    }) + errors_among(node.children@, node.children@.len() as int)
}

/// What is wrong with the nodes among the first `n` of `elements`.
pub open spec fn errors_among(elements: Seq<SyntaxElement>, n: int) -> Seq<ValidationError>
    decreases elements, n,
{
    if 0 < n <= elements.len() {
        errors_among(elements, n - 1) + match elements[n - 1] {
            SyntaxElement::Node(child) => errors_in(child),
            SyntaxElement::Token(_) => Seq::empty(),
        }
    } else {
        Seq::empty()
    }
}

/// Checks `node` and every node below it, and hands out what is wrong.
pub fn validate(node: &SyntaxNode) -> (errors: Vec<ValidationError>)
    ensures
        errors@ == errors_in(*node),
{
    let mut errors = Vec::new();
    validate_node(&mut errors, node);
    assert(errors@ =~= errors_in(*node));
    errors
}

fn validate_node(errors: &mut Vec<ValidationError>, node: &SyntaxNode)
    ensures
        final(errors)@ == old(errors)@ + errors_in(*node),
    decreases node,
{
    match Literal::cast(node) {
        Some(literal) => {
            validate_literal(errors, literal);
        },
        None => {},
    }
    let ghost own = errors@;
    let count = node.children.len();
    let mut i: usize = 0;
    proof {
        assert(errors@ =~= own + errors_among(node.children@, 0));
    }
    while i < count
        invariant
            count == node.children@.len(),
            i <= count,
            errors@ == own + errors_among(node.children@, i as int),
        decreases count - i,
    {
        match &node.children[i] {
            SyntaxElement::Node(child) => {
                validate_node(errors, child);
            },
            SyntaxElement::Token(_) => {},
        }
        i += 1;
        proof {
            assert(errors@ =~= own + errors_among(node.children@, i as int));
        }
    }
    proof {
        assert(errors@ =~= old(errors)@ + errors_in(*node));
    }
}

fn validate_literal(errors: &mut Vec<ValidationError>, literal: Literal)
    ensures
        final(errors)@ == old(errors)@ + match literal_error(literal.syntax()) {
            Some(error) => seq![error],
            None => Seq::empty(),
        },
{
    if literal.parse().is_none() {
        match leftmost_token(literal.inner()) {
            Some(token) => {
                errors.push(
                    ValidationError {
                        kind: ValidationErrorKind::NumberLiteralTooLarge,
                        range: token.range,
                    },
                );
                assert(errors@ =~= old(errors)@ + seq![literal_error(literal.syntax())->0]);
            },
            None => {
                assert(errors@ =~= old(errors)@ + Seq::<ValidationError>::empty());
            },
        }
    } else {
        assert(errors@ =~= old(errors)@ + Seq::<ValidationError>::empty());
    }
}

/// The check and the typed view agree on a literal: the check reports the
/// literal exactly where the view finds no number in its token.
pub proof fn lemma_error_where_no_value(node: SyntaxNode)
    requires
        node.kind == SyntaxKind::Literal,
        first_token(node) is Some,
    ensures
        literal_error(node) is Some <==> parse_u64_spec(
            encode_utf8(first_token(node)->0.text@),
        ) is None,
        literal_error(node) matches Some(error) ==> error.range == first_token(node)->0.range,
{
}

} // verus!
