//! What each rule of the grammar writes is well shaped: the steps that the
//! sink makes of it are whole nodes and tokens, and every node of an
//! operator holds its operator.
use super::expr::{expr_starters, InfixOp, NEGATION_POWER};
use super::model::{
    expr_parsed, kept, leaf_parsed, left, lhs_parsed, operators, operators_parsed, paren_parsed,
    prefix_parsed, root_parsed, stmt_parsed, stmts_parsed, tried, variable_def_parsed, within,
};
use super::progress::{
    lemma_bumped_grown, lemma_expected_grown, lemma_expr_grown, lemma_lhs_grown,
    lemma_looked_grown, lemma_operators_grown, lemma_stmt_grown, lemma_stmts_end,
    lemma_stmts_grown,
};
use crate::green::{step_depth, Step};
use crate::lexer::{Token, TokenKind};
use crate::parser::event::EventView;
use crate::parser::parser::{
    bumped, errored, expected_then, looked, node_completed, node_preceded, node_started, peek_at,
    recovers_at, Progress,
};
use crate::parser::resolve::{
    cursor_after, inside, is_target, lemma_inside_concat, lemma_linked_to, lemma_on_chain_forward,
    lemma_on_chain_prefix, lemma_replay_concat, lemma_skip_again, lemma_target_prefix, link_inside,
    linked_to, on_chain, own_steps, replay, rooted, steps_of,
};
use crate::parser::sink::{token_step, token_steps};
use crate::parser::source::{lemma_skip_trivia, skip_trivia};
use crate::shape::{
    all_leaves, lemma_depth_concat, lemma_shaped_concat, lemma_shaped_empty, lemma_shaped_leaves,
    lemma_shaped_wrap, need_within, shaped, wanted_leaf,
};
use crate::syntax::SyntaxKind;
use vstd::prelude::*;

verus! {

/// What was written from `before` to `after`.
pub open spec fn added(before: Progress, after: Progress) -> Seq<EventView> {
    after.log.subrange(before.log.len() as int, after.log.len() as int)
}

/// What was written from `before` to `after` stands behind the log of
/// `before`, keeps its forward parents inside, and is well shaped: the sink
/// makes whole nodes and tokens of it, every operator's node with its
/// operator, and comes to stand where the parser stands.
pub open spec fn well(before: Progress, after: Progress, tokens: Seq<Token>) -> bool {
    &&& before.log.len() <= after.log.len()
    &&& after.log.subrange(0, before.log.len() as int) == before.log
    &&& inside(added(before, after))
    &&& cursor_after(added(before, after), tokens, skip_trivia(tokens, before.cursor))
        == skip_trivia(tokens, after.cursor)
    &&& shaped(steps_of(added(before, after), tokens, skip_trivia(tokens, before.cursor)))
}

/// The steps that the sink makes of what was written from `before` to
/// `after`.
pub open spec fn steps_added(before: Progress, after: Progress, tokens: Seq<Token>) -> Seq<Step> {
    steps_of(added(before, after), tokens, skip_trivia(tokens, before.cursor))
}

/// The steps of the one entry `e`, which opens no node.
proof fn lemma_one_entry(e: EventView, tokens: Seq<Token>, c: int)
    requires
        !(e is Startnode),
    ensures
        inside(seq![e]),
        steps_of(seq![e], tokens, c) == own_steps(seq![e], tokens, 0, c).0 + token_steps(
            tokens,
            own_steps(seq![e], tokens, 0, c).1,
            skip_trivia(tokens, own_steps(seq![e], tokens, 0, c).1),
        ),
        cursor_after(seq![e], tokens, c) == skip_trivia(
            tokens,
            own_steps(seq![e], tokens, 0, c).1,
        ),
{
    let log = seq![e];
    assert(replay(log, tokens, 0, c) == (Seq::<Step>::empty(), c));
    let (own, after) = own_steps(log, tokens, 0, c);
    assert(Seq::<Step>::empty() + own + token_steps(tokens, after, skip_trivia(tokens, after))
        =~= own + token_steps(tokens, after, skip_trivia(tokens, after)));
    assert forall|i: int| 0 <= i < log.len() implies #[trigger] link_inside(log, i) by {}
}

/// The steps of the opening of a node without forward parent.
proof fn lemma_one_open(kind: SyntaxKind, tokens: Seq<Token>, c: int)
    ensures
        inside(seq![EventView::Startnode { kind, forward_parent: None }]),
        steps_of(seq![EventView::Startnode { kind, forward_parent: None }], tokens, c) == seq![
            Step::Open(kind.raw()),
        ] + token_steps(tokens, c, skip_trivia(tokens, c)),
        cursor_after(seq![EventView::Startnode { kind, forward_parent: None }], tokens, c)
            == skip_trivia(tokens, c),
{
    let log = seq![EventView::Startnode { kind, forward_parent: None }];
    assert(replay(log, tokens, 0, c) == (Seq::<Step>::empty(), c));
    assert(!is_target(log, 0));
    assert(crate::parser::resolve::kinds_from(log, 0) =~= seq![kind]);
    assert(crate::parser::sink::opens(seq![kind]) =~= seq![Step::Open(kind.raw())]);
    assert(Seq::<Step>::empty() + seq![Step::Open(kind.raw())] + token_steps(
        tokens,
        c,
        skip_trivia(tokens, c),
    ) =~= seq![Step::Open(kind.raw())] + token_steps(tokens, c, skip_trivia(tokens, c)));
    assert forall|i: int| 0 <= i < log.len() implies #[trigger] link_inside(log, i) by {}
}

/// Nothing written is well.
pub proof fn lemma_well_same(s: Progress, after: Progress, tokens: Seq<Token>)
    requires
        after.log == s.log,
        skip_trivia(tokens, after.cursor) == skip_trivia(tokens, s.cursor),
    ensures
        well(s, after, tokens),
        added(s, after) == Seq::<EventView>::empty(),
{
    assert(added(s, after) =~= Seq::<EventView>::empty());
    assert(after.log.subrange(0, s.log.len() as int) =~= s.log);
    lemma_shaped_empty();
    assert(steps_of(Seq::<EventView>::empty(), tokens, skip_trivia(tokens, s.cursor)) =~= Seq::<
        Step,
    >::empty());
}

/// One rule after another: what both have written is well.
pub proof fn lemma_well_then(a: Progress, b: Progress, c: Progress, tokens: Seq<Token>)
    requires
        well(a, b, tokens),
        well(b, c, tokens),
    ensures
        well(a, c, tokens),
        added(a, c) == added(a, b) + added(b, c),
        steps_added(a, c, tokens) == steps_added(a, b, tokens) + steps_added(b, c, tokens),
{
    let s = added(a, b);
    let t = added(b, c);
    assert forall|i: int| 0 <= i < b.log.len() implies c.log[i] == b.log[i] by {
        assert(c.log.subrange(0, b.log.len() as int)[i] == b.log[i]);
    }
    assert(added(a, c) =~= s + t);
    assert(c.log.subrange(0, a.log.len() as int) =~= a.log) by {
        assert forall|i: int| 0 <= i < a.log.len() implies c.log[i] == a.log[i] by {
            assert(b.log.subrange(0, a.log.len() as int)[i] == a.log[i]);
        }
    }
    lemma_inside_concat(s, t);
    lemma_replay_concat(s, t, tokens, t.len() as int, skip_trivia(tokens, a.cursor));
    lemma_shaped_concat(steps_added(a, b, tokens), steps_added(b, c, tokens));
}

/// Taking a token writes one token and the trivia behind it.
pub proof fn lemma_well_bumped(s: Progress, tokens: Seq<Token>)
    requires
        within(s, tokens),
        peek_at(tokens, s.cursor) is Some,
    ensures
        well(s, bumped(s, tokens), tokens),
        steps_added(s, bumped(s, tokens), tokens).len() > 0,
        steps_added(s, bumped(s, tokens), tokens)[0] == token_step(
            tokens[skip_trivia(tokens, s.cursor)],
        ),
        all_leaves(steps_added(s, bumped(s, tokens), tokens)),
{
    let after = bumped(s, tokens);
    let c = skip_trivia(tokens, s.cursor);
    lemma_skip_trivia(tokens, s.cursor);
    assert(added(s, after) =~= seq![EventView::AddToken]);
    assert(after.log.subrange(0, s.log.len() as int) =~= s.log);
    lemma_one_entry(EventView::AddToken, tokens, c);
    let steps = token_steps(tokens, c, c + 1) + token_steps(
        tokens,
        c + 1,
        skip_trivia(tokens, c + 1),
    );
    lemma_shaped_leaves(steps);
    assert(steps[0] == token_step(tokens[c]));
}

/// A run whose chain ends at `i` keeps that chain when more is written
/// behind it.
pub proof fn lemma_rooted_concat(log: Seq<EventView>, i: int, more: Seq<EventView>)
    requires
        inside(log),
        inside(more),
        rooted(log, i),
    ensures
        rooted(log + more, i),
        inside(log + more),
{
    let w = log + more;
    lemma_inside_concat(log, more);
    lemma_on_chain_prefix(log, more, 0, i);
    assert(w[i] == log[i]);
    assert forall|j: int|
        0 < j < w.len() && w[j] is Startnode && !is_target(w, j) implies !(#[trigger] on_chain(
        w,
        j,
        i,
    )) by {
        if j < log.len() {
            assert(w[j] == log[j]);
            lemma_target_prefix(log, more, j);
            lemma_on_chain_prefix(log, more, j, i);
        } else {
            if on_chain(w, j, i) {
                lemma_on_chain_forward(w, j, i);
            }
        }
    }
}

/// A node around what was written: where `inner` is the parser before the
/// node that was started at `before` is completed with `kind`, what was
/// written since `before` is that node. It is well where what it holds is
/// well and holds what a node of the kind asks for.
pub proof fn lemma_well_wrap(before: Progress, inner: Progress, kind: SyntaxKind, tokens: Seq<Token>)
    requires
        well(node_started(before), inner, tokens),
        need_within(kind.raw(), steps_added(node_started(before), inner, tokens)),
    ensures
        well(before, node_completed(inner, before.log.len() as int, kind), tokens),
        rooted(added(before, node_completed(inner, before.log.len() as int, kind)), 0),
        steps_added(before, node_completed(inner, before.log.len() as int, kind), tokens) == seq![
            Step::Open(kind.raw()),
        ] + steps_added(node_started(before), inner, tokens) + seq![Step::Close],
{
    let a = before.log.len() as int;
    let opened = node_started(before);
    let after = node_completed(inner, a, kind);
    let first = seq![EventView::Startnode { kind, forward_parent: None }];
    let last = seq![EventView::FinishNode];
    let mid = added(opened, inner);
    let c0 = skip_trivia(tokens, before.cursor);
    assert forall|i: int| 0 <= i < opened.log.len() implies inner.log[i] == opened.log[i] by {
        assert(inner.log.subrange(0, opened.log.len() as int)[i] == opened.log[i]);
    }
    assert(opened.log.len() == a + 1);
    let whole = added(before, after);
    assert(whole =~= first + (mid + last));
    assert(after.log.subrange(0, a) =~= before.log);
    lemma_one_open(kind, tokens, c0);
    lemma_skip_again(tokens, before.cursor);
    lemma_one_entry(EventView::FinishNode, tokens, cursor_after(mid, tokens, c0));
    lemma_skip_again(tokens, inner.cursor);
    lemma_inside_concat(mid, last);
    lemma_inside_concat(first, mid + last);
    lemma_replay_concat(first, mid + last, tokens, (mid + last).len() as int, c0);
    lemma_replay_concat(mid, last, tokens, 1, c0);
    let inner_steps = steps_added(opened, inner, tokens);
    assert(steps_of(first, tokens, c0) =~= seq![Step::Open(kind.raw())]);
    assert(steps_of(last, tokens, cursor_after(mid, tokens, c0)) =~= seq![Step::Close]);
    assert(steps_of(whole, tokens, c0) =~= seq![Step::Open(kind.raw())] + inner_steps + seq![
        Step::Close,
    ]);
    lemma_shaped_wrap(kind.raw(), inner_steps);
    assert(whole[0] == first[0]);
    assert forall|j: int|
        0 < j < whole.len() && whole[j] is Startnode && !is_target(whole, j) implies !(
    #[trigger] on_chain(whole, j, 0)) by {
        if on_chain(whole, j, 0) {
            lemma_on_chain_forward(whole, j, 0);
        }
    }
}

/// An entry that opens nothing and adds no token writes no step.
proof fn lemma_well_diagnostic(s: Progress, after: Progress, e: EventView, tokens: Seq<Token>)
    requires
        e is Error,
        after.log == s.log.push(e),
        skip_trivia(tokens, after.cursor) == skip_trivia(tokens, s.cursor),
    ensures
        well(s, after, tokens),
{
    let c = skip_trivia(tokens, s.cursor);
    assert(added(s, after) =~= seq![e]);
    assert(after.log.subrange(0, s.log.len() as int) =~= s.log);
    lemma_one_entry(e, tokens, c);
    lemma_skip_again(tokens, s.cursor);
    lemma_shaped_empty();
    assert(steps_of(seq![e], tokens, c) =~= Seq::<Step>::empty());
}

/// What an error writes is well.
pub proof fn lemma_well_errored(s: Progress, tokens: Seq<Token>)
    requires
        within(s, tokens),
    ensures
        well(s, errored(s, tokens), tokens),
{
    let at = skip_trivia(tokens, s.cursor);
    let found = peek_at(tokens, s.cursor);
    let after = errored(s, tokens);
    lemma_skip_trivia(tokens, s.cursor);
    lemma_skip_again(tokens, s.cursor);
    let diagnostic = EventView::Error {
        expected: s.expected,
        found,
        range: if found is Some {
            tokens[at].range
        } else {
            tokens.last().range
        },
    };
    if found matches Some(kind) && !recovers_at(kind) {
        let s1 = Progress { cursor: s.cursor, log: s.log.push(diagnostic), expected: s.expected };
        lemma_well_diagnostic(s, s1, diagnostic, tokens);
        let opened = node_started(s1);
        let inner = bumped(opened, tokens);
        lemma_well_bumped(opened, tokens);
        lemma_well_wrap(s1, inner, SyntaxKind::Error, tokens);
        let wrapped = node_completed(inner, s1.log.len() as int, SyntaxKind::Error);
        lemma_well_then(s, s1, wrapped, tokens);
        assert(wrapped.log =~= after.log);
        assert(wrapped == after);
    } else {
        lemma_well_diagnostic(s, after, diagnostic, tokens);
        assert(skip_trivia(tokens, at) == at);
    }
}

/// Looking for kinds writes nothing.
pub proof fn lemma_well_looked(s: Progress, tokens: Seq<Token>, kinds: Seq<TokenKind>)
    requires
        within(s, tokens),
    ensures
        well(s, looked(s, tokens, kinds), tokens),
        added(s, looked(s, tokens, kinds)) == Seq::<EventView>::empty(),
{
    lemma_skip_again(tokens, s.cursor);
    lemma_well_same(s, looked(s, tokens, kinds), tokens);
}

/// What expecting a kind writes is well.
pub proof fn lemma_well_expected(s: Progress, tokens: Seq<Token>, kind: TokenKind)
    requires
        within(s, tokens),
    ensures
        well(s, expected_then(s, tokens, kind), tokens),
{
    if peek_at(tokens, s.cursor) == Some(kind) {
        lemma_well_bumped(s, tokens);
    } else {
        let s1 = looked(s, tokens, seq![kind]);
        lemma_well_looked(s, tokens, seq![kind]);
        lemma_skip_trivia(tokens, s.cursor);
        lemma_well_errored(s1, tokens);
        lemma_well_then(s, s1, errored(s1, tokens), tokens);
    }
}

/// The tokens that stand for operators between two operands.
pub open spec fn operator_kind(kind: TokenKind) -> bool {
    kind == TokenKind::Plus || kind == TokenKind::Minus || kind == TokenKind::Star || kind
        == TokenKind::Slash
}

/// An operator and its right operand: where what was written up to `s0` is
/// well and its chain ends at the node at `lhs`, and an operator follows, the
/// node that precedes `lhs`, takes the operator and what was written up to
/// `r`, and is completed, holds all that was written since `before`. It is
/// well, with the operator as its child, and the chain ends at it.
pub proof fn lemma_well_graft(
    before: Progress,
    s0: Progress,
    r: Progress,
    lhs: int,
    tokens: Seq<Token>,
)
    requires
        within(s0, tokens),
        peek_at(tokens, s0.cursor) matches Some(kind) && operator_kind(kind),
        well(before, s0, tokens),
        before.log.len() <= lhs < s0.log.len(),
        rooted(added(before, s0), lhs - before.log.len()),
        well(node_preceded(bumped(s0, tokens), lhs), r, tokens),
        r.log.len() < usize::MAX,
    ensures
        well(
            before,
            node_completed(r, bumped(s0, tokens).log.len() as int, SyntaxKind::InfixExpr),
            tokens,
        ),
        rooted(
            added(
                before,
                node_completed(r, bumped(s0, tokens).log.len() as int, SyntaxKind::InfixExpr),
            ),
            bumped(s0, tokens).log.len() - before.log.len(),
        ),
{
    let a = before.log.len() as int;
    let i = lhs - a;
    let s1 = bumped(s0, tokens);
    let s2 = node_preceded(s1, lhs);
    let node = s1.log.len() as int;
    let s3 = node_completed(r, node, SyntaxKind::InfixExpr);
    let run = added(before, s0);
    let with_op = run.push(EventView::AddToken);
    let rest = added(s2, r);
    let last = seq![EventView::FinishNode];
    let c0 = skip_trivia(tokens, before.cursor);
    let at = skip_trivia(tokens, s0.cursor);
    lemma_skip_trivia(tokens, s0.cursor);
    assert forall|j: int| 0 <= j < s2.log.len() implies r.log[j] == s2.log[j] by {
        assert(r.log.subrange(0, s2.log.len() as int)[j] == s2.log[j]);
    }
    assert forall|j: int| 0 <= j < a implies s0.log[j] == before.log[j] by {
        assert(s0.log.subrange(0, a)[j] == before.log[j]);
    }
    assert(s2.log.len() == node + 1);
    assert(with_op[i] == s1.log[lhs]);
    let linked = linked_to(with_op, i, SyntaxKind::InfixExpr);
    let whole = added(before, s3);
    assert(whole =~= linked + (rest + last)) by {
        assert(whole.len() == (linked + (rest + last)).len());
        assert forall|j: int| 0 <= j < whole.len() implies whole[j] == (linked + (rest + last))[j] by {
            if j < with_op.len() {
                assert(whole[j] == s2.log[a + j]);
            } else if j == with_op.len() {
            } else if j < whole.len() - 1 {
                assert(rest[j - with_op.len() - 1] == r.log[a + j]);
            }
        }
    }
    assert(s3.log.subrange(0, a) =~= before.log);
    // The run with the operator, and its chain.
    lemma_one_entry(EventView::AddToken, tokens, at);
    assert(with_op =~= run + seq![EventView::AddToken]);
    lemma_rooted_concat(run, i, seq![EventView::AddToken]);
    lemma_replay_concat(run, seq![EventView::AddToken], tokens, 1, c0);
    let op_steps = token_steps(tokens, at, at + 1) + token_steps(
        tokens,
        at + 1,
        skip_trivia(tokens, at + 1),
    );
    assert(steps_of(with_op, tokens, c0) == steps_of(run, tokens, c0) + op_steps);
    assert(cursor_after(with_op, tokens, c0) == skip_trivia(tokens, s2.cursor));
    // The new node opens before the run.
    lemma_linked_to(with_op, i, SyntaxKind::InfixExpr, tokens, c0);
    // What follows the new node's place.
    lemma_one_entry(EventView::FinishNode, tokens, skip_trivia(tokens, r.cursor));
    lemma_skip_again(tokens, r.cursor);
    lemma_inside_concat(rest, last);
    lemma_replay_concat(rest, last, tokens, 1, skip_trivia(tokens, s2.cursor));
    lemma_replay_concat(linked, rest + last, tokens, (rest + last).len() as int, c0);
    lemma_rooted_concat(linked, with_op.len() as int, rest + last);
    let inner = steps_of(with_op, tokens, c0) + steps_added(s2, r, tokens);
    assert(steps_of(whole, tokens, c0) =~= seq![Step::Open(SyntaxKind::InfixExpr.raw())] + inner
        + seq![Step::Close]);
    // The operator is a child of the new node.
    lemma_shaped_leaves(op_steps);
    lemma_shaped_concat(steps_of(run, tokens, c0), op_steps);
    lemma_shaped_concat(steps_of(with_op, tokens, c0), steps_added(s2, r, tokens));
    let q = steps_of(run, tokens, c0).len() as int;
    assert(inner[q] == token_step(tokens[at])) by {
        assert(op_steps[0] == token_step(tokens[at]));
        assert(steps_of(with_op, tokens, c0)[q] == op_steps[0]);
    }
    assert(step_depth(inner, q) == 0) by {
        reveal(shaped);
        lemma_depth_concat(steps_of(run, tokens, c0), op_steps + steps_added(s2, r, tokens));
        assert(inner =~= steps_of(run, tokens, c0) + (op_steps + steps_added(s2, r, tokens)));
    }
    assert(wanted_leaf(inner[q], SyntaxKind::InfixExpr.raw()));
    lemma_shaped_wrap(SyntaxKind::InfixExpr.raw(), inner);
}

/// The log is no longer than a log in memory can be.
pub open spec fn fits(s: Progress) -> bool {
    s.log.len() <= usize::MAX
}

/// A node that holds one token is well.
pub proof fn lemma_leaf_well(s: Progress, tokens: Seq<Token>, kind: SyntaxKind)
    requires
        within(s, tokens),
        peek_at(tokens, s.cursor) is Some,
        kind == SyntaxKind::Literal || kind == SyntaxKind::VariableRef,
    ensures
        well(s, leaf_parsed(s, tokens, kind), tokens),
        rooted(added(s, leaf_parsed(s, tokens, kind)), 0),
{
    let opened = node_started(s);
    lemma_well_bumped(opened, tokens);
    lemma_well_wrap(s, bumped(opened, tokens), kind, tokens);
}

/// What an operand writes is well, and its chain ends at its node.
pub proof fn lemma_lhs_well(s: Progress, tokens: Seq<Token>)
    requires
        within(s, tokens),
        fits(lhs_parsed(s, tokens).0),
    ensures
        well(s, lhs_parsed(s, tokens).0, tokens),
        lhs_parsed(s, tokens).1 is Some ==> rooted(added(s, lhs_parsed(s, tokens).0), 0),
    decreases left(s, tokens), 1int,
{
    let kind = peek_at(tokens, s.cursor);
    lemma_skip_trivia(tokens, s.cursor);
    if kind == Some(TokenKind::Number) {
        let s1 = looked(s, tokens, seq![TokenKind::Number]);
        lemma_well_looked(s, tokens, seq![TokenKind::Number]);
        lemma_looked_grown(s, tokens, seq![TokenKind::Number]);
        lemma_leaf_well(s1, tokens, SyntaxKind::Literal);
        let after = leaf_parsed(s1, tokens, SyntaxKind::Literal);
        lemma_well_then(s, s1, after, tokens);
        assert(added(s, after) =~= added(s1, after));
    } else if kind == Some(TokenKind::Ident) {
        let s1 = looked(s, tokens, seq![TokenKind::Number, TokenKind::Ident]);
        lemma_well_looked(s, tokens, seq![TokenKind::Number, TokenKind::Ident]);
        lemma_looked_grown(s, tokens, seq![TokenKind::Number, TokenKind::Ident]);
        lemma_leaf_well(s1, tokens, SyntaxKind::VariableRef);
        let after = leaf_parsed(s1, tokens, SyntaxKind::VariableRef);
        lemma_well_then(s, s1, after, tokens);
        assert(added(s, after) =~= added(s1, after));
    } else if kind == Some(TokenKind::Minus) {
        let s1 = looked(s, tokens, seq![TokenKind::Number, TokenKind::Ident, TokenKind::Minus]);
        lemma_well_looked(s, tokens, seq![TokenKind::Number, TokenKind::Ident, TokenKind::Minus]);
        lemma_looked_grown(s, tokens, seq![TokenKind::Number, TokenKind::Ident, TokenKind::Minus]);
        lemma_prefix_well(s1, tokens);
        let after = prefix_parsed(s1, tokens);
        lemma_well_then(s, s1, after, tokens);
        assert(added(s, after) =~= added(s1, after));
    } else if kind == Some(TokenKind::LParen) {
        let s1 = looked(s, tokens, expr_starters());
        lemma_well_looked(s, tokens, expr_starters());
        lemma_looked_grown(s, tokens, expr_starters());
        lemma_paren_well(s1, tokens);
        let after = paren_parsed(s1, tokens);
        lemma_well_then(s, s1, after, tokens);
        assert(added(s, after) =~= added(s1, after));
    } else {
        let s1 = looked(s, tokens, expr_starters());
        lemma_well_looked(s, tokens, expr_starters());
        lemma_looked_grown(s, tokens, expr_starters());
        lemma_well_errored(s1, tokens);
        lemma_well_then(s, s1, errored(s1, tokens), tokens);
    }
}

/// What a negation writes is well: its node holds the sign.
pub proof fn lemma_prefix_well(s: Progress, tokens: Seq<Token>)
    requires
        within(s, tokens),
        peek_at(tokens, s.cursor) == Some(TokenKind::Minus),
        fits(prefix_parsed(s, tokens)),
    ensures
        well(s, prefix_parsed(s, tokens), tokens),
        rooted(added(s, prefix_parsed(s, tokens)), 0),
    decreases left(s, tokens), 0int,
{
    lemma_skip_trivia(tokens, s.cursor);
    let opened = node_started(s);
    let s1 = bumped(opened, tokens);
    lemma_well_bumped(opened, tokens);
    lemma_bumped_grown(opened, tokens);
    let s2 = expr_parsed(s1, tokens, NEGATION_POWER).0;
    lemma_expr_grown(s1, tokens, NEGATION_POWER);
    lemma_expr_well(s1, tokens, NEGATION_POWER);
    lemma_well_then(opened, s1, s2, tokens);
    let steps = steps_added(opened, s2, tokens);
    assert(steps[0] == token_step(tokens[skip_trivia(tokens, s.cursor)]));
    assert(wanted_leaf(steps[0], SyntaxKind::PrefixExpr.raw()));
    assert(step_depth(steps, 0) == 0);
    lemma_well_wrap(s, s2, SyntaxKind::PrefixExpr, tokens);
}

/// What an expression in parentheses writes is well.
pub proof fn lemma_paren_well(s: Progress, tokens: Seq<Token>)
    requires
        within(s, tokens),
        peek_at(tokens, s.cursor) is Some,
        fits(paren_parsed(s, tokens)),
    ensures
        well(s, paren_parsed(s, tokens), tokens),
        rooted(added(s, paren_parsed(s, tokens)), 0),
    decreases left(s, tokens), 0int,
{
    lemma_skip_trivia(tokens, s.cursor);
    let opened = node_started(s);
    let s1 = bumped(opened, tokens);
    lemma_well_bumped(opened, tokens);
    lemma_bumped_grown(opened, tokens);
    let s2 = expr_parsed(s1, tokens, 0).0;
    lemma_expr_grown(s1, tokens, 0);
    let s3 = expected_then(s2, tokens, TokenKind::RParen);
    lemma_expected_grown(s2, tokens, TokenKind::RParen);
    lemma_expr_well(s1, tokens, 0);
    lemma_well_expected(s2, tokens, TokenKind::RParen);
    lemma_well_then(opened, s1, s2, tokens);
    lemma_well_then(opened, s2, s3, tokens);
    lemma_well_wrap(s, s3, SyntaxKind::ParenExpr, tokens);
}

/// What an expression writes is well, and its chain ends at its node.
pub proof fn lemma_expr_well(s: Progress, tokens: Seq<Token>, minimum: u8)
    requires
        within(s, tokens),
        fits(expr_parsed(s, tokens, minimum).0),
    ensures
        well(s, expr_parsed(s, tokens, minimum).0, tokens),
        expr_parsed(s, tokens, minimum).1 matches Some(pos) ==> s.log.len() <= pos < expr_parsed(
            s,
            tokens,
            minimum,
        ).0.log.len() && rooted(
            added(s, expr_parsed(s, tokens, minimum).0),
            pos - s.log.len(),
        ),
    decreases left(s, tokens), 3int,
{
    let (s1, lhs) = lhs_parsed(s, tokens);
    lemma_lhs_grown(s, tokens);
    match lhs {
        Some(pos) => {
            lemma_operators_grown(s1, tokens, pos, minimum);
            lemma_lhs_well(s, tokens);
            lemma_operators_well(s, s1, tokens, pos, minimum);
        },
        None => {
            lemma_lhs_well(s, tokens);
        },
    }
}

/// What the operators behind an operand write is well: each operator's node
/// holds its operator, and the chain ends at the node of the last.
pub proof fn lemma_operators_well(
    before: Progress,
    s: Progress,
    tokens: Seq<Token>,
    lhs: int,
    minimum: u8,
)
    requires
        within(s, tokens),
        well(before, s, tokens),
        before.log.len() <= lhs < s.log.len(),
        rooted(added(before, s), lhs - before.log.len()),
        fits(operators_parsed(s, tokens, lhs, minimum).0),
    ensures
        well(before, operators_parsed(s, tokens, lhs, minimum).0, tokens),
        operators_parsed(s, tokens, lhs, minimum).1 matches Some(pos) && before.log.len() <= pos
            < operators_parsed(s, tokens, lhs, minimum).0.log.len() && rooted(
            added(before, operators_parsed(s, tokens, lhs, minimum).0),
            pos - before.log.len(),
        ),
    decreases left(s, tokens), 2int,
{
    lemma_skip_trivia(tokens, s.cursor);
    match InfixOp::of_kind(peek_at(tokens, s.cursor)) {
        None => {
            let a = looked(s, tokens, operators());
            lemma_well_looked(s, tokens, operators());
            lemma_well_then(before, s, a, tokens);
            assert(added(before, a) =~= added(before, s));
        },
        Some(op) => {
            let s0 = looked(s, tokens, tried(op));
            lemma_well_looked(s, tokens, tried(op));
            lemma_looked_grown(s, tokens, tried(op));
            lemma_well_then(before, s, s0, tokens);
            assert(added(before, s0) =~= added(before, s));
            if op.binding_power_spec().0 >= minimum {
                let s1 = bumped(s0, tokens);
                lemma_bumped_grown(s0, tokens);
                let s2 = node_preceded(s1, lhs);
                let (r, rhs) = expr_parsed(s2, tokens, op.binding_power_spec().1);
                lemma_expr_grown(s2, tokens, op.binding_power_spec().1);
                let node = s1.log.len() as int;
                let s3 = node_completed(r, node, SyntaxKind::InfixExpr);
                assert(kept(r, s2.cursor, tokens) == r);
                assert(s3.log.len() == r.log.len() + 1);
                if rhs is Some {
                    lemma_operators_grown(s3, tokens, node, minimum);
                }
                lemma_expr_well(s2, tokens, op.binding_power_spec().1);
                lemma_well_graft(before, s0, r, lhs, tokens);
                if rhs is Some {
                    lemma_operators_well(before, s3, tokens, node, minimum);
                }
            }
        },
    }
}

/// What a variable definition writes is well.
pub proof fn lemma_variable_def_well(s: Progress, tokens: Seq<Token>)
    requires
        within(s, tokens),
        peek_at(tokens, s.cursor) is Some,
        fits(variable_def_parsed(s, tokens)),
    ensures
        well(s, variable_def_parsed(s, tokens), tokens),
{
    let opened = node_started(s);
    let s1 = bumped(opened, tokens);
    lemma_well_bumped(opened, tokens);
    lemma_bumped_grown(opened, tokens);
    let s2 = expected_then(s1, tokens, TokenKind::Ident);
    lemma_expected_grown(s1, tokens, TokenKind::Ident);
    lemma_well_expected(s1, tokens, TokenKind::Ident);
    let s3 = expected_then(s2, tokens, TokenKind::Equals);
    lemma_expected_grown(s2, tokens, TokenKind::Equals);
    lemma_well_expected(s2, tokens, TokenKind::Equals);
    let s4 = expr_parsed(s3, tokens, 0).0;
    lemma_expr_grown(s3, tokens, 0);
    lemma_expr_well(s3, tokens, 0);
    lemma_well_then(opened, s1, s2, tokens);
    lemma_well_then(opened, s2, s3, tokens);
    lemma_well_then(opened, s3, s4, tokens);
    lemma_well_wrap(s, s4, SyntaxKind::VariableDef, tokens);
}

/// What a statement writes is well.
pub proof fn lemma_stmt_well(s: Progress, tokens: Seq<Token>)
    requires
        within(s, tokens),
        peek_at(tokens, s.cursor) is Some,
        fits(stmt_parsed(s, tokens).0),
    ensures
        well(s, stmt_parsed(s, tokens).0, tokens),
{
    let s1 = looked(s, tokens, seq![TokenKind::LetKw]);
    lemma_well_looked(s, tokens, seq![TokenKind::LetKw]);
    lemma_looked_grown(s, tokens, seq![TokenKind::LetKw]);
    if peek_at(tokens, s.cursor) == Some(TokenKind::LetKw) {
        lemma_variable_def_well(s1, tokens);
        lemma_well_then(s, s1, variable_def_parsed(s1, tokens), tokens);
    } else {
        lemma_expr_well(s1, tokens, 0);
        lemma_well_then(s, s1, expr_parsed(s1, tokens, 0).0, tokens);
    }
}

/// What the statements up to the end write is well.
pub proof fn lemma_stmts_well(before: Progress, s: Progress, tokens: Seq<Token>)
    requires
        within(s, tokens),
        well(before, s, tokens),
        fits(stmts_parsed(s, tokens)),
    ensures
        well(before, stmts_parsed(s, tokens), tokens),
    decreases left(s, tokens),
{
    let s0 = looked(s, tokens, Seq::empty());
    lemma_well_looked(s, tokens, Seq::empty());
    lemma_looked_grown(s, tokens, Seq::empty());
    lemma_well_then(before, s, s0, tokens);
    lemma_skip_trivia(tokens, s.cursor);
    if peek_at(tokens, s.cursor) is Some {
        let s1 = stmt_parsed(s0, tokens).0;
        lemma_stmt_grown(s0, tokens);
        assert(kept(s1, s0.cursor + 1, tokens) == s1);
        lemma_stmts_grown(s1, tokens);
        lemma_stmt_well(s0, tokens);
        lemma_well_then(before, s0, s1, tokens);
        lemma_stmts_well(before, s1, tokens);
    }
}

/// What the grammar writes for a whole text is well shaped: the sink makes
/// one tree of it, whose root is of kind `Root` and in which every node of
/// an operator holds its operator and every variable its name, and passes
/// every token.
pub proof fn lemma_root_shaped(tokens: Seq<Token>)
    requires
        fits(root_parsed(crate::parser::parser::at_start(), tokens)),
    ensures
        shaped(
            steps_of(root_parsed(crate::parser::parser::at_start(), tokens).log, tokens, 0),
        ),
        steps_of(root_parsed(crate::parser::parser::at_start(), tokens).log, tokens, 0).len() > 0,
        steps_of(root_parsed(crate::parser::parser::at_start(), tokens).log, tokens, 0)[0]
            == Step::Open(SyntaxKind::Root.raw()),
        cursor_after(root_parsed(crate::parser::parser::at_start(), tokens).log, tokens, 0)
            == tokens.len(),
{
    let start = crate::parser::parser::at_start();
    let opened = node_started(start);
    let inner = stmts_parsed(opened, tokens);
    let after = root_parsed(start, tokens);
    lemma_stmts_grown(opened, tokens);
    lemma_stmts_end(opened, tokens);
    lemma_skip_trivia(tokens, inner.cursor);
    lemma_skip_again(tokens, 0);
    lemma_well_same(opened, opened, tokens);
    lemma_stmts_well(opened, opened, tokens);
    let first = seq![EventView::Startnode { kind: SyntaxKind::Root, forward_parent: None }];
    let last = seq![EventView::FinishNode];
    let mid = added(opened, inner);
    assert forall|i: int| 0 <= i < opened.log.len() implies inner.log[i] == opened.log[i] by {
        assert(inner.log.subrange(0, opened.log.len() as int)[i] == opened.log[i]);
    }
    assert(after.log =~= first + (mid + last));
    let c0 = skip_trivia(tokens, 0);
    lemma_one_open(SyntaxKind::Root, tokens, 0);
    lemma_one_entry(EventView::FinishNode, tokens, cursor_after(mid, tokens, c0));
    lemma_skip_again(tokens, inner.cursor);
    lemma_inside_concat(mid, last);
    lemma_replay_concat(first, mid + last, tokens, (mid + last).len() as int, 0);
    lemma_replay_concat(mid, last, tokens, 1, c0);
    let trivia = token_steps(tokens, 0, c0);
    let body = trivia + steps_added(opened, inner, tokens);
    assert(steps_of(last, tokens, cursor_after(mid, tokens, c0)) =~= seq![Step::Close]);
    assert(steps_of(after.log, tokens, 0) =~= seq![Step::Open(SyntaxKind::Root.raw())] + body
        + seq![Step::Close]);
    lemma_shaped_leaves(trivia);
    lemma_shaped_concat(trivia, steps_added(opened, inner, tokens));
    lemma_shaped_wrap(SyntaxKind::Root.raw(), body);
}

} // verus!
