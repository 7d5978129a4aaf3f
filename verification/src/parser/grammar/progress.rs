//! How far each rule of the grammar gets: no rule goes back in the tokens or
//! takes from the log what was written, and an expression takes a token.
use super::expr::{expr_starters, starts_expr, InfixOp, NEGATION_POWER};
use super::model::{
    expr_parsed, kept, leaf_parsed, left, lhs_parsed, operators, operators_parsed, paren_parsed,
    prefix_parsed, stmt_parsed, stmts_parsed, tried, variable_def_parsed, within,
};
use crate::lexer::{Token, TokenKind};
use crate::parser::parser::{
    bumped, errored, expected_then, looked, node_completed, node_preceded, node_started, peek_at,
    recovers_at, Progress,
};
use crate::parser::resolve::lemma_skip_again;
use crate::parser::source::{lemma_skip_trivia, skip_trivia};
use crate::syntax::SyntaxKind;
use vstd::prelude::*;

verus! {

/// From `before` to `after` the parser has not gone back in the tokens nor
/// left them, and the log has kept its length or grown.
pub open spec fn grown(before: Progress, after: Progress, tokens: Seq<Token>) -> bool {
    &&& within(after, tokens)
    &&& before.cursor <= after.cursor
    &&& before.log.len() <= after.log.len()
}

/// Looking for kinds moves the parser over trivia and writes nothing.
pub proof fn lemma_looked_grown(s: Progress, tokens: Seq<Token>, kinds: Seq<TokenKind>)
    requires
        within(s, tokens),
    ensures
        grown(s, looked(s, tokens, kinds), tokens),
        looked(s, tokens, kinds).log == s.log,
        peek_at(tokens, looked(s, tokens, kinds).cursor) == peek_at(tokens, s.cursor),
        skip_trivia(tokens, looked(s, tokens, kinds).cursor) == skip_trivia(tokens, s.cursor),
{
    lemma_skip_trivia(tokens, s.cursor);
}

/// Taking a token moves the parser behind it and writes one entry.
pub proof fn lemma_bumped_grown(s: Progress, tokens: Seq<Token>)
    requires
        within(s, tokens),
        peek_at(tokens, s.cursor) is Some,
    ensures
        grown(s, bumped(s, tokens), tokens),
        bumped(s, tokens).cursor > skip_trivia(tokens, s.cursor),
        bumped(s, tokens).log.len() == s.log.len() + 1,
{
    lemma_skip_trivia(tokens, s.cursor);
}

/// An error takes a token unless the text has ended or the token may start a
/// statement.
pub proof fn lemma_errored_grown(s: Progress, tokens: Seq<Token>)
    requires
        within(s, tokens),
    ensures
        grown(s, errored(s, tokens), tokens),
        (peek_at(tokens, s.cursor) matches Some(kind) && !recovers_at(kind)) ==> errored(
            s,
            tokens,
        ).cursor > skip_trivia(tokens, s.cursor),
{
    lemma_skip_trivia(tokens, s.cursor);
}

/// Expecting a kind does not move the parser back.
pub proof fn lemma_expected_grown(s: Progress, tokens: Seq<Token>, kind: TokenKind)
    requires
        within(s, tokens),
    ensures
        grown(s, expected_then(s, tokens, kind), tokens),
{
    lemma_skip_trivia(tokens, s.cursor);
    if peek_at(tokens, s.cursor) == Some(kind) {
        lemma_bumped_grown(s, tokens);
    } else {
        lemma_looked_grown(s, tokens, seq![kind]);
        lemma_errored_grown(looked(s, tokens, seq![kind]), tokens);
    }
}

/// A node that holds one token takes that token and writes three entries.
pub proof fn lemma_leaf_grown(s: Progress, tokens: Seq<Token>, kind: SyntaxKind)
    requires
        within(s, tokens),
        peek_at(tokens, s.cursor) is Some,
    ensures
        grown(s, leaf_parsed(s, tokens, kind), tokens),
        leaf_parsed(s, tokens, kind).cursor > skip_trivia(tokens, s.cursor),
        leaf_parsed(s, tokens, kind).log.len() == s.log.len() + 3,
{
    lemma_bumped_grown(node_started(s), tokens);
}

/// An operand gets no further back than it started, and takes a token where
/// there is one.
pub proof fn lemma_lhs_grown(s: Progress, tokens: Seq<Token>)
    requires
        within(s, tokens),
    ensures
        grown(s, lhs_parsed(s, tokens).0, tokens),
        lhs_parsed(s, tokens).1 is Some <==> starts_expr(peek_at(tokens, s.cursor)),
        lhs_parsed(s, tokens).1 matches Some(pos) ==> pos == s.log.len() && lhs_parsed(
            s,
            tokens,
        ).0.cursor > skip_trivia(tokens, s.cursor) && lhs_parsed(s, tokens).0.log.len() > pos,
        lhs_parsed(s, tokens).1 is None ==> lhs_parsed(s, tokens).0 == errored(
            looked(s, tokens, expr_starters()),
            tokens,
        ),
    decreases left(s, tokens), 1int,
{
    let kind = peek_at(tokens, s.cursor);
    lemma_skip_trivia(tokens, s.cursor);
    if kind == Some(TokenKind::Number) {
        lemma_looked_grown(s, tokens, seq![TokenKind::Number]);
        lemma_leaf_grown(looked(s, tokens, seq![TokenKind::Number]), tokens, SyntaxKind::Literal);
    } else if kind == Some(TokenKind::Ident) {
        let s1 = looked(s, tokens, seq![TokenKind::Number, TokenKind::Ident]);
        lemma_looked_grown(s, tokens, seq![TokenKind::Number, TokenKind::Ident]);
        lemma_leaf_grown(s1, tokens, SyntaxKind::VariableRef);
    } else if kind == Some(TokenKind::Minus) {
        let s1 = looked(s, tokens, seq![TokenKind::Number, TokenKind::Ident, TokenKind::Minus]);
        lemma_looked_grown(s, tokens, seq![TokenKind::Number, TokenKind::Ident, TokenKind::Minus]);
        lemma_prefix_grown(s1, tokens);
    } else if kind == Some(TokenKind::LParen) {
        lemma_looked_grown(s, tokens, expr_starters());
        lemma_paren_grown(looked(s, tokens, expr_starters()), tokens);
    } else {
        lemma_looked_grown(s, tokens, expr_starters());
        lemma_errored_grown(looked(s, tokens, expr_starters()), tokens);
    }
}

/// A negation takes its sign.
pub proof fn lemma_prefix_grown(s: Progress, tokens: Seq<Token>)
    requires
        within(s, tokens),
        peek_at(tokens, s.cursor) is Some,
    ensures
        grown(s, prefix_parsed(s, tokens), tokens),
        prefix_parsed(s, tokens).cursor > skip_trivia(tokens, s.cursor),
        prefix_parsed(s, tokens).log.len() > s.log.len(),
    decreases left(s, tokens), 0int,
{
    lemma_skip_trivia(tokens, s.cursor);
    let s1 = bumped(node_started(s), tokens);
    lemma_bumped_grown(node_started(s), tokens);
    lemma_expr_grown(s1, tokens, NEGATION_POWER);
}

/// An expression in parentheses takes its opening parenthesis.
pub proof fn lemma_paren_grown(s: Progress, tokens: Seq<Token>)
    requires
        within(s, tokens),
        peek_at(tokens, s.cursor) is Some,
    ensures
        grown(s, paren_parsed(s, tokens), tokens),
        paren_parsed(s, tokens).cursor > skip_trivia(tokens, s.cursor),
        paren_parsed(s, tokens).log.len() > s.log.len(),
    decreases left(s, tokens), 0int,
{
    lemma_skip_trivia(tokens, s.cursor);
    let s1 = bumped(node_started(s), tokens);
    lemma_bumped_grown(node_started(s), tokens);
    lemma_expr_grown(s1, tokens, 0);
    let s2 = expr_parsed(s1, tokens, 0).0;
    lemma_expected_grown(s2, tokens, TokenKind::RParen);
}

/// An expression gets no further back than it started, and takes a token
/// where one starts.
pub proof fn lemma_expr_grown(s: Progress, tokens: Seq<Token>, minimum: u8)
    requires
        within(s, tokens),
    ensures
        grown(s, expr_parsed(s, tokens, minimum).0, tokens),
        expr_parsed(s, tokens, minimum).1 is Some <==> starts_expr(peek_at(tokens, s.cursor)),
        expr_parsed(s, tokens, minimum).1 is Some ==> expr_parsed(s, tokens, minimum).0.cursor
            > skip_trivia(tokens, s.cursor),
        expr_parsed(s, tokens, minimum).1 is None ==> expr_parsed(s, tokens, minimum).0 == errored(
            looked(s, tokens, expr_starters()),
            tokens,
        ),
    decreases left(s, tokens), 3int,
{
    lemma_lhs_grown(s, tokens);
    let (s1, lhs) = lhs_parsed(s, tokens);
    match lhs {
        Some(pos) => {
            lemma_operators_grown(s1, tokens, pos, minimum);
        },
        None => {},
    }
}

/// The operators behind an operand do not move the parser back, and keep a
/// node to hand out.
pub proof fn lemma_operators_grown(s: Progress, tokens: Seq<Token>, lhs: int, minimum: u8)
    requires
        within(s, tokens),
        0 <= lhs < s.log.len(),
    ensures
        grown(s, operators_parsed(s, tokens, lhs, minimum).0, tokens),
        operators_parsed(s, tokens, lhs, minimum).1 is Some,
    decreases left(s, tokens), 2int,
{
    lemma_skip_trivia(tokens, s.cursor);
    match InfixOp::of_kind(peek_at(tokens, s.cursor)) {
        None => {
            lemma_looked_grown(s, tokens, operators());
        },
        Some(op) => {
            let s0 = looked(s, tokens, tried(op));
            lemma_looked_grown(s, tokens, tried(op));
            if op.binding_power_spec().0 >= minimum {
                let s1 = bumped(s0, tokens);
                lemma_bumped_grown(s0, tokens);
                let s2 = node_preceded(s1, lhs);
                let (r, rhs) = expr_parsed(s2, tokens, op.binding_power_spec().1);
                lemma_expr_grown(s2, tokens, op.binding_power_spec().1);
                let node = s1.log.len() as int;
                let s3 = node_completed(kept(r, s2.cursor, tokens), node, SyntaxKind::InfixExpr);
                if rhs is Some {
                    lemma_operators_grown(s3, tokens, node, minimum);
                }
            }
        },
    }
}

/// A variable definition takes its keyword.
pub proof fn lemma_variable_def_grown(s: Progress, tokens: Seq<Token>)
    requires
        within(s, tokens),
        peek_at(tokens, s.cursor) is Some,
    ensures
        grown(s, variable_def_parsed(s, tokens), tokens),
        variable_def_parsed(s, tokens).cursor > skip_trivia(tokens, s.cursor),
{
    let s1 = bumped(node_started(s), tokens);
    lemma_bumped_grown(node_started(s), tokens);
    let s2 = expected_then(s1, tokens, TokenKind::Ident);
    lemma_expected_grown(s1, tokens, TokenKind::Ident);
    let s3 = expected_then(s2, tokens, TokenKind::Equals);
    lemma_expected_grown(s2, tokens, TokenKind::Equals);
    lemma_expr_grown(s3, tokens, 0);
}

/// A statement takes a token wherever one is left.
pub proof fn lemma_stmt_grown(s: Progress, tokens: Seq<Token>)
    requires
        within(s, tokens),
        peek_at(tokens, s.cursor) is Some,
    ensures
        grown(s, stmt_parsed(s, tokens).0, tokens),
        stmt_parsed(s, tokens).0.cursor > skip_trivia(tokens, s.cursor),
{
    let s1 = looked(s, tokens, seq![TokenKind::LetKw]);
    lemma_looked_grown(s, tokens, seq![TokenKind::LetKw]);
    if peek_at(tokens, s.cursor) == Some(TokenKind::LetKw) {
        lemma_variable_def_grown(s1, tokens);
    } else {
        lemma_expr_grown(s1, tokens, 0);
        lemma_looked_grown(s1, tokens, expr_starters());
        lemma_errored_grown(looked(s1, tokens, expr_starters()), tokens);
    }
}

/// The statements up to the end do not move the parser back.
pub proof fn lemma_stmts_grown(s: Progress, tokens: Seq<Token>)
    requires
        within(s, tokens),
    ensures
        grown(s, stmts_parsed(s, tokens), tokens),
    decreases left(s, tokens),
{
    let s0 = looked(s, tokens, Seq::empty());
    lemma_looked_grown(s, tokens, Seq::empty());
    lemma_skip_trivia(tokens, s.cursor);
    if peek_at(tokens, s.cursor) is Some {
        lemma_stmt_grown(s0, tokens);
        lemma_stmts_grown(kept(stmt_parsed(s0, tokens).0, s0.cursor + 1, tokens), tokens);
    }
}

/// The statements end where no token is left but trivia.
pub proof fn lemma_stmts_end(s: Progress, tokens: Seq<Token>)
    requires
        within(s, tokens),
    ensures
        skip_trivia(tokens, stmts_parsed(s, tokens).cursor) == tokens.len(),
    decreases left(s, tokens),
{
    let s0 = looked(s, tokens, Seq::empty());
    lemma_skip_trivia(tokens, s.cursor);
    lemma_skip_again(tokens, s.cursor);
    if peek_at(tokens, s.cursor) is Some {
        lemma_stmts_end(kept(stmt_parsed(s0, tokens).0, s0.cursor + 1, tokens), tokens);
    }
}

} // verus!
