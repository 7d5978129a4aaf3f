//! What parsing makes of a text is determined by the text: two results for
//! one text are the same tree and the same diagnostics.
use super::event::{views, Event, EventView};
use super::grammar::expr::{expr_starters, InfixOp, NEGATION_POWER};
use super::grammar::model::{
    expr_parsed, kept, left, lhs_parsed, operators_parsed, paren_parsed, prefix_parsed,
    root_parsed, stmt_parsed, stmts_parsed, tried, within,
};
use super::grammar::shape::lemma_root_shaped;
use super::parse_error::ParseError;
use super::parser::{
    at_start, bumped, errored, expected_then, looked, node_completed, node_preceded, node_started,
    parse_of, parsed_from, peek_at, Progress,
};
use super::resolve::{lemma_sink_views, own_steps, replay};
use super::sink::{sink_after, token_step, token_steps};
use super::source::{lemma_skip_trivia, skip_trivia};
use crate::lexer::lex::{token_of, tokens_cover, tokens_of};
use crate::lexer::{Token, TokenKind};
use crate::syntax::SyntaxKind;
use crate::Parse;
use vstd::prelude::*;
use vstd::string::StringSliceAdditionalSpecFns;
use vstd::utf8::encode_utf8_decode_utf8;

verus! {

/// The tokens of `a` and of `b` have the same kinds, texts and ranges.
pub open spec fn alike(a: Seq<Token>, b: Seq<Token>) -> bool {
    &&& a.len() == b.len()
    &&& forall|i: int|
        0 <= i < a.len() ==> (#[trigger] a[i]).kind == b[i].kind && a[i].range == b[i].range
            && a[i].text@ == b[i].text@
}

proof fn lemma_agree(a: Seq<Token>, b: Seq<Token>, input: &str, ea: int, eb: int, k: int)
    requires
        tokens_cover(a, input, ea),
        tokens_cover(b, input, eb),
        0 <= k <= a.len(),
        k <= b.len(),
    ensures
        forall|i: int|
            0 <= i < k ==> (#[trigger] a[i]).kind == b[i].kind && a[i].range == b[i].range
                && a[i].text@ == b[i].text@,
    decreases k,
{
    if k > 0 {
        lemma_agree(a, b, input, ea, eb, k - 1);
        let i = k - 1;
        assert(token_of(a[i], input));
        assert(token_of(b[i], input));
        if i > 0 {
            assert(a[i - 1].range.end == a[i].range.start);
            assert(b[i - 1].range.end == b[i].range.start);
            assert(a[i - 1].range == b[i - 1].range);
        }
        assert(a[i].range.start == b[i].range.start);
        encode_utf8_decode_utf8(a[i].text@);
        encode_utf8_decode_utf8(b[i].text@);
    }
}

/// The tokens of a text are determined by the text.
pub proof fn lemma_tokens_alike(a: Seq<Token>, b: Seq<Token>, input: &str)
    requires
        tokens_of(a, input),
        tokens_of(b, input),
    ensures
        alike(a, b),
{
    let bytes = input.spec_bytes();
    let ea = choose|end: int| #[trigger] tokens_cover(a, input, end) && crate::lexer::lex::next_at(
        bytes,
        end,
    ) is None;
    let eb = choose|end: int| #[trigger] tokens_cover(b, input, end) && crate::lexer::lex::next_at(
        bytes,
        end,
    ) is None;
    if a.len() <= b.len() {
        lemma_agree(a, b, input, ea, eb, a.len() as int);
        if a.len() < b.len() {
            let next = b[a.len() as int];
            assert(token_of(next, input));
            if a.len() > 0 {
                assert(b[a.len() - 1].range.end == next.range.start);
                assert(a[a.len() - 1].range == b[a.len() - 1].range);
            }
            assert(next.range.start == ea);
            assert(false);
        }
    } else {
        lemma_agree(a, b, input, ea, eb, b.len() as int);
        let next = a[b.len() as int];
        assert(token_of(next, input));
        if b.len() > 0 {
            assert(a[b.len() - 1].range.end == next.range.start);
            assert(a[b.len() - 1].range == b[b.len() - 1].range);
        }
        assert(next.range.start == eb);
        assert(false);
    }
}

proof fn lemma_skip_alike(a: Seq<Token>, b: Seq<Token>, c: int)
    requires
        alike(a, b),
        0 <= c,
    ensures
        skip_trivia(a, c) == skip_trivia(b, c),
        peek_at(a, c) == peek_at(b, c),
    decreases a.len() - c,
{
    if 0 <= c < a.len() {
        assert(a[c].kind == b[c].kind);
        if a[c].kind.trivia() {
            lemma_skip_alike(a, b, c + 1);
        }
    }
    let at = skip_trivia(a, c);
    if c <= a.len() {
        lemma_skip_trivia(a, c);
        if at < a.len() {
            assert(a[at].kind == b[at].kind);
        }
    }
}

proof fn lemma_steps_alike(a: Seq<Token>, b: Seq<Token>, from: int, to: int)
    requires
        alike(a, b),
        0 <= from <= to <= a.len(),
    ensures
        token_steps(a, from, to) == token_steps(b, from, to),
{
    assert forall|k: int| 0 <= k < to - from implies token_steps(a, from, to)[k] == token_steps(
        b,
        from,
        to,
    )[k] by {
        assert(a[from + k].kind == b[from + k].kind);
        assert(token_step(a[from + k]) == token_step(b[from + k]));
        assert(token_steps(a, from, to)[k] == token_step(a[from + k]));
        assert(token_steps(b, from, to)[k] == token_step(b[from + k]));
    }
    assert(token_steps(a, from, to).len() == token_steps(b, from, to).len());
    assert(token_steps(a, from, to) =~= token_steps(b, from, to));
}

proof fn lemma_errored_alike(s: Progress, a: Seq<Token>, b: Seq<Token>)
    requires
        alike(a, b),
        within(s, a),
        a.len() > 0,
    ensures
        errored(s, a) == errored(s, b),
{
    lemma_skip_alike(a, b, s.cursor);
    lemma_skip_trivia(a, s.cursor);
    let at = skip_trivia(a, s.cursor);
    if at < a.len() {
        assert(a[at].range == b[at].range);
    }
    assert(a[a.len() - 1].range == b[b.len() - 1].range);
}

proof fn lemma_expected_alike(s: Progress, a: Seq<Token>, b: Seq<Token>, kind: TokenKind)
    requires
        alike(a, b),
        within(s, a),
        a.len() > 0,
    ensures
        expected_then(s, a, kind) == expected_then(s, b, kind),
{
    lemma_skip_alike(a, b, s.cursor);
    lemma_skip_trivia(a, s.cursor);
    lemma_errored_alike(looked(s, a, seq![kind]), a, b);
}

proof fn lemma_lhs_alike(s: Progress, a: Seq<Token>, b: Seq<Token>)
    requires
        alike(a, b),
        within(s, a),
        a.len() > 0,
    ensures
        lhs_parsed(s, a) == lhs_parsed(s, b),
    decreases left(s, a), 1int,
{
    lemma_skip_alike(a, b, s.cursor);
    lemma_skip_trivia(a, s.cursor);
    let kind = peek_at(a, s.cursor);
    if kind == Some(TokenKind::Number) {
    } else if kind == Some(TokenKind::Ident) {
    } else if kind == Some(TokenKind::Minus) {
        lemma_prefix_alike(
            looked(s, a, seq![TokenKind::Number, TokenKind::Ident, TokenKind::Minus]),
            a,
            b,
        );
    } else if kind == Some(TokenKind::LParen) {
        lemma_paren_alike(looked(s, a, expr_starters()), a, b);
    } else {
        lemma_errored_alike(looked(s, a, expr_starters()), a, b);
    }
}

proof fn lemma_prefix_alike(s: Progress, a: Seq<Token>, b: Seq<Token>)
    requires
        alike(a, b),
        within(s, a),
        a.len() > 0,
    ensures
        prefix_parsed(s, a) == prefix_parsed(s, b),
    decreases left(s, a), 0int,
{
    lemma_skip_alike(a, b, s.cursor);
    lemma_skip_trivia(a, s.cursor);
    if peek_at(a, s.cursor) is Some {
        lemma_expr_alike(bumped(node_started(s), a), a, b, NEGATION_POWER);
    }
}

proof fn lemma_paren_alike(s: Progress, a: Seq<Token>, b: Seq<Token>)
    requires
        alike(a, b),
        within(s, a),
        a.len() > 0,
    ensures
        paren_parsed(s, a) == paren_parsed(s, b),
    decreases left(s, a), 0int,
{
    lemma_skip_alike(a, b, s.cursor);
    lemma_skip_trivia(a, s.cursor);
    if peek_at(a, s.cursor) is Some {
        let s1 = bumped(node_started(s), a);
        lemma_expr_alike(s1, a, b, 0);
        super::grammar::progress::lemma_expr_grown(s1, a, 0);
        lemma_expected_alike(expr_parsed(s1, a, 0).0, a, b, TokenKind::RParen);
    }
}

proof fn lemma_expr_alike(s: Progress, a: Seq<Token>, b: Seq<Token>, minimum: u8)
    requires
        alike(a, b),
        within(s, a),
        a.len() > 0,
    ensures
        expr_parsed(s, a, minimum) == expr_parsed(s, b, minimum),
    decreases left(s, a), 3int,
{
    lemma_lhs_alike(s, a, b);
    super::grammar::progress::lemma_lhs_grown(s, a);
    let (s1, lhs) = lhs_parsed(s, a);
    match lhs {
        Some(pos) => {
            lemma_operators_alike(kept(s1, s.cursor, a), a, b, pos, minimum);
        },
        None => {},
    }
}

proof fn lemma_operators_alike(s: Progress, a: Seq<Token>, b: Seq<Token>, lhs: int, minimum: u8)
    requires
        alike(a, b),
        within(s, a),
        a.len() > 0,
        0 <= lhs < s.log.len(),
    ensures
        operators_parsed(s, a, lhs, minimum) == operators_parsed(s, b, lhs, minimum),
    decreases left(s, a), 2int,
{
    lemma_skip_alike(a, b, s.cursor);
    lemma_skip_trivia(a, s.cursor);
    match InfixOp::of_kind(peek_at(a, s.cursor)) {
        None => {},
        Some(op) => {
            let s0 = looked(s, a, tried(op));
            if op.binding_power_spec().0 >= minimum {
                let s1 = bumped(s0, a);
                let s2 = node_preceded(s1, lhs);
                lemma_expr_alike(s2, a, b, op.binding_power_spec().1);
                super::grammar::progress::lemma_expr_grown(s2, a, op.binding_power_spec().1);
                let (r, rhs) = expr_parsed(s2, a, op.binding_power_spec().1);
                let node = s1.log.len() as int;
                let s3 = node_completed(kept(r, s2.cursor, a), node, SyntaxKind::InfixExpr);
                if rhs is Some {
                    lemma_operators_alike(s3, a, b, node, minimum);
                }
            }
        },
    }
}

proof fn lemma_stmt_alike(s: Progress, a: Seq<Token>, b: Seq<Token>)
    requires
        alike(a, b),
        within(s, a),
        a.len() > 0,
        peek_at(a, s.cursor) is Some,
    ensures
        stmt_parsed(s, a) == stmt_parsed(s, b),
{
    lemma_skip_alike(a, b, s.cursor);
    lemma_skip_trivia(a, s.cursor);
    let s1 = looked(s, a, seq![TokenKind::LetKw]);
    if peek_at(a, s.cursor) == Some(TokenKind::LetKw) {
        let opened = node_started(s1);
        lemma_skip_alike(a, b, opened.cursor);
        lemma_skip_trivia(a, opened.cursor);
        let t1 = bumped(opened, a);
        lemma_expected_alike(t1, a, b, TokenKind::Ident);
        super::grammar::progress::lemma_expected_grown(t1, a, TokenKind::Ident);
        let t2 = expected_then(t1, a, TokenKind::Ident);
        lemma_expected_alike(t2, a, b, TokenKind::Equals);
        super::grammar::progress::lemma_expected_grown(t2, a, TokenKind::Equals);
        let t3 = expected_then(t2, a, TokenKind::Equals);
        lemma_expr_alike(t3, a, b, 0);
    } else {
        lemma_expr_alike(s1, a, b, 0);
    }
}

proof fn lemma_stmts_alike(s: Progress, a: Seq<Token>, b: Seq<Token>)
    requires
        alike(a, b),
        within(s, a),
    ensures
        stmts_parsed(s, a) == stmts_parsed(s, b),
    decreases left(s, a),
{
    lemma_skip_alike(a, b, s.cursor);
    lemma_skip_trivia(a, s.cursor);
    let s0 = looked(s, a, Seq::empty());
    if peek_at(a, s.cursor) is Some {
        lemma_stmt_alike(s0, a, b);
        super::grammar::progress::lemma_stmt_grown(s0, a);
        lemma_stmts_alike(kept(stmt_parsed(s0, a).0, s0.cursor + 1, a), a, b);
    }
}

/// The grammar reads of the tokens their kinds and their ranges alone.
pub proof fn lemma_root_alike(a: Seq<Token>, b: Seq<Token>)
    requires
        alike(a, b),
    ensures
        root_parsed(at_start(), a) == root_parsed(at_start(), b),
{
    lemma_stmts_alike(node_started(at_start()), a, b);
}

proof fn lemma_replay_grows(log: Seq<EventView>, tokens: Seq<Token>, n: int, m: int, c: int)
    requires
        0 <= n <= m,
        0 <= c,
    ensures
        c <= replay(log, tokens, n, c).1 <= replay(log, tokens, m, c).1,
    decreases m, m - n,
{
    if m > 0 {
        if n < m {
            lemma_replay_grows(log, tokens, n, m - 1, c);
        } else {
            lemma_replay_grows(log, tokens, n - 1, m - 1, c);
        }
        let (steps, before) = replay(log, tokens, m - 1, c);
        let (own, after) = own_steps(log, tokens, m - 1, before);
        lemma_skip_grows(tokens, after);
    }
}

proof fn lemma_skip_grows(tokens: Seq<Token>, c: int)
    ensures
        c <= skip_trivia(tokens, c),
    decreases tokens.len() - c,
{
    if 0 <= c < tokens.len() && tokens[c].kind.trivia() {
        lemma_skip_grows(tokens, c + 1);
    }
}

/// The sink reads of the tokens their kinds and their texts alone.
proof fn lemma_replay_alike(log: Seq<EventView>, a: Seq<Token>, b: Seq<Token>, n: int, c: int)
    requires
        alike(a, b),
        0 <= c,
        0 <= n,
        replay(log, a, n, c).1 <= a.len(),
    ensures
        replay(log, a, n, c) == replay(log, b, n, c),
    decreases n,
{
    if n > 0 {
        lemma_replay_grows(log, a, n - 1, n, c);
        lemma_replay_alike(log, a, b, n - 1, c);
        let (steps, before) = replay(log, a, n - 1, c);
        let (own, after) = own_steps(log, a, n - 1, before);
        lemma_skip_grows(a, after);
        lemma_skip_alike(a, b, after);
        lemma_steps_alike(a, b, after, skip_trivia(a, after));
        if log[n - 1] is AddToken {
            lemma_steps_alike(a, b, before, before + 1);
        }
    }
}

/// A diagnostic as plain values.
pub open spec fn shown(e: ParseError) -> EventView {
    EventView::Error { expected: e.expected@, found: e.found, range: e.range }
}

/// The diagnostics among the first `n` entries of a log.
pub open spec fn diagnostics_in(log: Seq<EventView>, n: int) -> Seq<EventView>
    decreases n,
{
    if n <= 0 {
        Seq::empty()
    } else if log[n - 1] is Error {
        diagnostics_in(log, n - 1).push(log[n - 1])
    } else {
        diagnostics_in(log, n - 1)
    }
}

/// The diagnostics that the sink collects are those of the log, in its
/// order.
pub proof fn lemma_errors_views(events: Seq<Event>, tokens: Seq<Token>, n: int)
    requires
        0 <= n <= events.len(),
    ensures
        sink_after(events, tokens, n).errors.map_values(|e: ParseError| shown(e))
            == diagnostics_in(views(events), n),
    decreases n,
{
    if n > 0 {
        lemma_errors_views(events, tokens, n - 1);
        assert(views(events)[n - 1] == events[n - 1]@);
        let before = sink_after(events, tokens, n - 1).errors;
        match events[n - 1] {
            Event::Error(e) => {
                assert(before.push(e).map_values(|e: ParseError| shown(e)) =~= before.map_values(
                    |e: ParseError| shown(e),
                ).push(shown(e)));
            },
            _ => {},
        }
    } else {
        assert(sink_after(events, tokens, n).errors.map_values(|e: ParseError| shown(e))
            =~= diagnostics_in(views(events), n));
    }
}

/// A log without diagnostics yields none.
pub proof fn lemma_no_diagnostics(log: Seq<EventView>, n: int)
    requires
        0 <= n <= log.len(),
        forall|i: int| 0 <= i < log.len() ==> !(#[trigger] log[i] is Error),
    ensures
        diagnostics_in(log, n) == Seq::<EventView>::empty(),
    decreases n,
{
    if n > 0 {
        lemma_no_diagnostics(log, n - 1);
        assert(!(log[n - 1] is Error));
    }
}

/// What parsing makes of a text is determined by the text: whatever is a
/// result of parsing it is the same tree, written down from left to right,
/// with the same diagnostics.
pub proof fn lemma_parse_determined(input: &str, first: Parse, second: Parse)
    requires
        parse_of(input, first),
        parse_of(input, second),
    ensures
        first.steps() == second.steps(),
        first.diagnostics().map_values(|e: ParseError| shown(e)) == second.diagnostics().map_values(
            |e: ParseError| shown(e),
        ),
{
    let (a, ea) = choose|tokens: Seq<Token>, events: Seq<Event>| #[trigger]
        parsed_from(input, tokens, events, first);
    let (b, eb) = choose|tokens: Seq<Token>, events: Seq<Event>| #[trigger]
        parsed_from(input, tokens, events, second);
    lemma_tokens_alike(a, b, input);
    lemma_root_alike(a, b);
    let log = root_parsed(at_start(), a).log;
    lemma_root_shaped(a);
    lemma_sink_views(ea, a, ea.len() as int);
    lemma_sink_views(eb, b, eb.len() as int);
    lemma_replay_alike(log, a, b, log.len() as int, 0);
    lemma_errors_views(ea, a, ea.len() as int);
    lemma_errors_views(eb, b, eb.len() as int);
}

} // verus!
