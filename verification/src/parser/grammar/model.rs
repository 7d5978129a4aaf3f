//! The grammar as a function: what each rule makes of the parser's place in
//! the tokens and of its log.
use super::expr::{expr_starters, InfixOp, NEGATION_POWER};
use crate::lexer::{Token, TokenKind};
use crate::parser::marker::CompletedMarker;
use crate::parser::parser::{
    bumped, errored, expected_then, looked, node_completed, node_preceded, node_started, peek_at,
    Progress,
};
use crate::parser::source::lemma_skip_trivia;
use crate::syntax::SyntaxKind;
use vstd::prelude::*;

verus! {

/// The number of tokens from the parser's place to the end.
pub open spec fn left(s: Progress, tokens: Seq<Token>) -> int {
    tokens.len() - s.cursor
}

/// The parser stands within the tokens or just behind them.
pub open spec fn within(s: Progress, tokens: Seq<Token>) -> bool {
    0 <= s.cursor <= tokens.len()
}

/// `s`, which a rule has reached from the place `floor`. No rule goes back,
/// and none leaves the tokens: for such an `s`, the result is `s` itself.
pub open spec fn kept(s: Progress, floor: int, tokens: Seq<Token>) -> Progress {
    if floor <= s.cursor <= tokens.len() {
        s
    } else {
        Progress { cursor: floor, log: s.log, expected: s.expected }
    }
}

/// The place in the log of a node that may be missing.
pub open spec fn place(done: Option<CompletedMarker>) -> Option<int> {
    match done {
        Some(marker) => Some(marker.pos()),
        None => None,
    }
}

/// The operators between two operands, in the order in which the parser
/// looks for them.
pub open spec fn operators() -> Seq<TokenKind> {
    seq![TokenKind::Plus, TokenKind::Minus, TokenKind::Star, TokenKind::Slash]
}

/// The kinds that the parser has looked for when it finds the operator
/// `op`.
pub open spec fn tried(op: InfixOp) -> Seq<TokenKind> {
    match op {
        InfixOp::Add => seq![TokenKind::Plus],
        InfixOp::Sub => seq![TokenKind::Plus, TokenKind::Minus],
        InfixOp::Mul => seq![TokenKind::Plus, TokenKind::Minus, TokenKind::Star],
        InfixOp::Div => operators(),
    }
}

/// A node of `kind` that holds the next token.
pub open spec fn leaf_parsed(s: Progress, tokens: Seq<Token>, kind: SyntaxKind) -> Progress {
    node_completed(bumped(node_started(s), tokens), s.log.len() as int, kind)
}

/// An operand: a literal, a variable, a negation or an expression in
/// parentheses, as the next token tells; an error where it tells none of
/// them. The result holds the place of the operand's node, if there is one.
pub open spec fn lhs_parsed(s: Progress, tokens: Seq<Token>) -> (Progress, Option<int>)
    decreases left(s, tokens), 1int,
{
    let kind = peek_at(tokens, s.cursor);
    let pos = s.log.len() as int;
    if !within(s, tokens) {
        (s, None)
    } else if kind == Some(TokenKind::Number) {
        (leaf_parsed(looked(s, tokens, seq![TokenKind::Number]), tokens, SyntaxKind::Literal), Some(pos))
    } else if kind == Some(TokenKind::Ident) {
        (
            leaf_parsed(
                looked(s, tokens, seq![TokenKind::Number, TokenKind::Ident]),
                tokens,
                SyntaxKind::VariableRef,
            ),
            Some(pos),
        )
    } else if kind == Some(TokenKind::Minus) {
        proof {
            lemma_skip_trivia(tokens, s.cursor);
        }
        (
            prefix_parsed(
                looked(s, tokens, seq![TokenKind::Number, TokenKind::Ident, TokenKind::Minus]),
                tokens,
            ),
            Some(pos),
        )
    } else if kind == Some(TokenKind::LParen) {
        proof {
            lemma_skip_trivia(tokens, s.cursor);
        }
        (paren_parsed(looked(s, tokens, expr_starters()), tokens), Some(pos))
    } else {
        (errored(looked(s, tokens, expr_starters()), tokens), None)
    }
}

/// A negation: the sign, then an expression that binds at least as strongly
/// as the sign.
pub open spec fn prefix_parsed(s: Progress, tokens: Seq<Token>) -> Progress
    decreases left(s, tokens), 0int,
{
    if within(s, tokens) && peek_at(tokens, s.cursor) is Some {
        proof {
            lemma_skip_trivia(tokens, s.cursor);
        }
        let s1 = bumped(node_started(s), tokens);
        let s2 = expr_parsed(s1, tokens, NEGATION_POWER).0;
        node_completed(s2, s.log.len() as int, SyntaxKind::PrefixExpr)
    } else {
        s
    }
}

/// An expression in parentheses: `(`, an expression, and `)`, which is
/// reported where it is missing.
pub open spec fn paren_parsed(s: Progress, tokens: Seq<Token>) -> Progress
    decreases left(s, tokens), 0int,
{
    if within(s, tokens) && peek_at(tokens, s.cursor) is Some {
        proof {
            lemma_skip_trivia(tokens, s.cursor);
        }
        let s1 = bumped(node_started(s), tokens);
        let s2 = expr_parsed(s1, tokens, 0).0;
        let s3 = expected_then(s2, tokens, TokenKind::RParen);
        node_completed(s3, s.log.len() as int, SyntaxKind::ParenExpr)
    } else {
        s
    }
}

/// An expression whose operators bind at least as strongly as `minimum` on
/// their left: an operand, then the operators that follow it.
pub open spec fn expr_parsed(s: Progress, tokens: Seq<Token>, minimum: u8) -> (
    Progress,
    Option<int>,
)
    decreases left(s, tokens), 3int,
{
    let (s1, lhs) = lhs_parsed(s, tokens);
    match lhs {
        Some(pos) => if within(s, tokens) {
            operators_parsed(kept(s1, s.cursor, tokens), tokens, pos, minimum)
        } else {
            (s1, lhs)
        },
        None => (s1, None),
    }
}

/// The operators behind what has been parsed as the node at `lhs`: as long
/// as an operator follows that binds at least as strongly as `minimum` on its
/// left, a new node precedes the node of what stands so far and takes the
/// operator and, as right operand, an expression that binds at least as
/// strongly as the operator on its right. Where that operand is missing, the
/// rule ends.
pub open spec fn operators_parsed(s: Progress, tokens: Seq<Token>, lhs: int, minimum: u8) -> (
    Progress,
    Option<int>,
)
    decreases left(s, tokens), 2int,
{
    if !within(s, tokens) {
        (s, Some(lhs))
    } else {
        match InfixOp::of_kind(peek_at(tokens, s.cursor)) {
            None => (looked(s, tokens, operators()), Some(lhs)),
            Some(op) => {
                let s0 = looked(s, tokens, tried(op));
                if op.binding_power_spec().0 < minimum {
                    (s0, Some(lhs))
                } else {
                    proof {
                        lemma_skip_trivia(tokens, s.cursor);
                    }
                    let s1 = bumped(s0, tokens);
                    let s2 = node_preceded(s1, lhs);
                    let (r, rhs) = expr_parsed(s2, tokens, op.binding_power_spec().1);
                    let node = s1.log.len() as int;
                    let s3 = node_completed(
                        kept(r, s2.cursor, tokens),
                        node,
                        SyntaxKind::InfixExpr,
                    );
                    if rhs is Some {
                        operators_parsed(s3, tokens, node, minimum)
                    } else {
                        (s3, Some(node))
                    }
                }
            },
        }
    }
}

/// A variable definition: `let`, a name, `=` and a value.
pub open spec fn variable_def_parsed(s: Progress, tokens: Seq<Token>) -> Progress {
    let s1 = bumped(node_started(s), tokens);
    let s2 = expected_then(s1, tokens, TokenKind::Ident);
    let s3 = expected_then(s2, tokens, TokenKind::Equals);
    let s4 = expr_parsed(s3, tokens, 0).0;
    node_completed(s4, s.log.len() as int, SyntaxKind::VariableDef)
}

/// A statement: a variable definition where `let` stands, an expression
/// elsewhere.
pub open spec fn stmt_parsed(s: Progress, tokens: Seq<Token>) -> (Progress, Option<int>) {
    let s1 = looked(s, tokens, seq![TokenKind::LetKw]);
    if peek_at(tokens, s.cursor) == Some(TokenKind::LetKw) {
        (variable_def_parsed(s1, tokens), Some(s.log.len() as int))
    } else {
        expr_parsed(s1, tokens, 0)
    }
}

/// Statements up to the end of the tokens.
pub open spec fn stmts_parsed(s: Progress, tokens: Seq<Token>) -> Progress
    decreases left(s, tokens),
{
    let s0 = looked(s, tokens, Seq::empty());
    if within(s, tokens) && peek_at(tokens, s.cursor) is Some {
        proof {
            lemma_skip_trivia(tokens, s.cursor);
        }
        stmts_parsed(kept(stmt_parsed(s0, tokens).0, s0.cursor + 1, tokens), tokens)
    } else {
        s0
    }
}

/// The whole text: its statements in a node of kind `Root`.
pub open spec fn root_parsed(s: Progress, tokens: Seq<Token>) -> Progress {
    node_completed(stmts_parsed(node_started(s), tokens), s.log.len() as int, SyntaxKind::Root)
}

/// Looking again adds to what was looked for and leaves the place.
pub proof fn lemma_looked_again(
    s: Progress,
    tokens: Seq<Token>,
    first: Seq<TokenKind>,
    then: Seq<TokenKind>,
)
    requires
        within(s, tokens),
    ensures
        looked(looked(s, tokens, first), tokens, then) == looked(s, tokens, first + then),
        peek_at(tokens, looked(s, tokens, first).cursor) == peek_at(tokens, s.cursor),
        within(looked(s, tokens, first), tokens),
        looked(s, tokens, first).cursor >= s.cursor,
{
    lemma_skip_trivia(tokens, s.cursor);
    assert(s.expected + first + then =~= s.expected + (first + then));
}

} // verus!
