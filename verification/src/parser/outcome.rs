//! What holds of what the sink writes: one token of the tree for each token
//! that it has passed, one node for each node that the log opens, and
//! nothing for a diagnostic.
use super::event::{linked, Event};
use super::grammar::shape::lemma_root_shaped;
use super::parser::parsed_from;
use super::resolve::lemma_sink_views;
use super::nesting::{
    lemma_members, lemma_pending_none, lemma_pending_root, lemma_pending_same, lemma_root, members,
    opened_early, pending,
};
use super::resolve::lemma_skip_again;
use super::sink::{
    chain_kinds, event_steps, is_forward_parent, opens, sink_after, token_steps,
};
use super::source::skip_trivia;
use crate::green::Step;
use crate::lexer::Token;
use crate::Parse;
use vstd::prelude::*;

verus! {

/// The tokens among the first `n` steps, in their order.
pub open spec fn leaves_of(steps: Seq<Step>, n: int) -> Seq<Step>
    decreases n,
{
    if n <= 0 {
        Seq::empty()
    } else if steps[n - 1] is Leaf {
        leaves_of(steps, n - 1).push(steps[n - 1])
    } else {
        leaves_of(steps, n - 1)
    }
}

/// The number of nodes that the first `n` steps open.
pub open spec fn nodes_in(steps: Seq<Step>, n: int) -> int
    decreases n,
{
    if n <= 0 {
        0
    } else {
        nodes_in(steps, n - 1) + if steps[n - 1] is Open {
            1int
        } else {
            0int
        }
    }
}

/// The number of nodes that the first `n` entries of a log open.
pub open spec fn starts_in(events: Seq<Event>, n: int) -> int
    decreases n,
{
    if n <= 0 {
        0
    } else {
        starts_in(events, n - 1) + if events[n - 1] is Startnode {
            1int
        } else {
            0int
        }
    }
}

proof fn lemma_concat(a: Seq<Step>, b: Seq<Step>, n: int)
    requires
        0 <= n <= b.len(),
    ensures
        leaves_of(a + b, a.len() + n) == leaves_of(a, a.len() as int) + leaves_of(b, n),
        nodes_in(a + b, a.len() + n) == nodes_in(a, a.len() as int) + nodes_in(b, n),
    decreases n,
{
    if n > 0 {
        lemma_concat(a, b, n - 1);
        assert((a + b)[a.len() + n - 1] == b[n - 1]);
        assert(leaves_of(a + b, a.len() + n) =~= leaves_of(a, a.len() as int) + leaves_of(b, n));
    } else {
        lemma_prefix(a + b, a, a.len() as int);
        assert(leaves_of(a, a.len() as int) + leaves_of(b, 0) =~= leaves_of(a, a.len() as int));
    }
}

proof fn lemma_prefix(s: Seq<Step>, t: Seq<Step>, n: int)
    requires
        0 <= n <= s.len(),
        n <= t.len(),
        forall|i: int| 0 <= i < n ==> #[trigger] s[i] == t[i],
    ensures
        leaves_of(s, n) == leaves_of(t, n),
        nodes_in(s, n) == nodes_in(t, n),
    decreases n,
{
    if n > 0 {
        lemma_prefix(s, t, n - 1);
    }
}

proof fn lemma_of_tokens(tokens: Seq<Token>, from: int, to: int, n: int)
    requires
        0 <= n <= to - from,
    ensures
        leaves_of(token_steps(tokens, from, to), n) == token_steps(tokens, from, from + n),
        nodes_in(token_steps(tokens, from, to), n) == 0,
    decreases n,
{
    if n > 0 {
        lemma_of_tokens(tokens, from, to, n - 1);
    }
    assert(leaves_of(token_steps(tokens, from, to), n) =~= token_steps(tokens, from, from + n));
}

proof fn lemma_of_opens(kinds: Seq<crate::syntax::SyntaxKind>, n: int)
    requires
        0 <= n <= kinds.len(),
    ensures
        leaves_of(opens(kinds), n) == Seq::<Step>::empty(),
        nodes_in(opens(kinds), n) == n,
    decreases n,
{
    if n > 0 {
        lemma_of_opens(kinds, n - 1);
        assert(opens(kinds)[n - 1] is Open);
    }
}

proof fn lemma_skip_ahead(tokens: Seq<Token>, c: int)
    ensures
        c <= skip_trivia(tokens, c),
    decreases tokens.len() - c,
{
    if 0 <= c < tokens.len() && tokens[c].kind.trivia() {
        lemma_skip_ahead(tokens, c + 1);
    }
}

/// The tokens of what the sink writes are the tokens that it has passed,
/// one for one and in their order, trivia among them: each with the kind and
/// the text of its token.
pub proof fn lemma_sink_leaves(events: Seq<Event>, tokens: Seq<Token>, n: int)
    requires
        0 <= n,
    ensures
        0 <= sink_after(events, tokens, n).cursor,
        leaves_of(
            sink_after(events, tokens, n).steps,
            sink_after(events, tokens, n).steps.len() as int,
        ) == token_steps(tokens, 0, sink_after(events, tokens, n).cursor),
    decreases n,
{
    if n > 0 {
        lemma_sink_leaves(events, tokens, n - 1);
        let before = sink_after(events, tokens, n - 1);
        let (own, cursor) = event_steps(events, tokens, n - 1, before.cursor);
        let rest = skip_trivia(tokens, cursor);
        let trivia = token_steps(tokens, cursor, rest);
        lemma_skip_ahead(tokens, cursor);
        lemma_concat(before.steps, own, own.len() as int);
        lemma_concat(before.steps + own, trivia, trivia.len() as int);
        lemma_of_tokens(tokens, cursor, rest, rest - cursor);
        match events[n - 1] {
            Event::Startnode { .. } => {
                if !is_forward_parent(events, n - 1) {
                    lemma_of_opens(chain_kinds(events, n - 1), own.len() as int);
                } else {
                    assert(leaves_of(own, 0) =~= Seq::<Step>::empty());
                }
            },
            Event::AddToken => {
                lemma_of_tokens(tokens, before.cursor, before.cursor + 1, 1);
            },
            Event::FinishNode => {
                assert(leaves_of(own, 0) =~= Seq::<Step>::empty());
                assert(leaves_of(own, 1) =~= Seq::<Step>::empty());
            },
            _ => {
                assert(leaves_of(own, 0) =~= Seq::<Step>::empty());
            },
        }
        assert(leaves_of(own, own.len() as int) =~= token_steps(tokens, before.cursor, cursor));
        assert(token_steps(tokens, 0, before.cursor) + token_steps(tokens, before.cursor, cursor)
            + token_steps(tokens, cursor, rest) =~= token_steps(tokens, 0, rest));
    } else {
        assert(token_steps(tokens, 0, 0) =~= Seq::<Step>::empty());
    }
}

/// A diagnostic adds nothing to the tree: it leaves what the sink has
/// written, and where the sink stands, as they were. (Before the first entry
/// the sink has passed no trivia yet: there this holds where the tokens
/// start with none.)
pub proof fn lemma_diagnostic_adds_nothing(events: Seq<Event>, tokens: Seq<Token>, n: int)
    requires
        0 <= n < events.len(),
        events[n] is Error,
        n == 0 ==> skip_trivia(tokens, 0) == 0,
    ensures
        sink_after(events, tokens, n + 1).steps == sink_after(events, tokens, n).steps,
        sink_after(events, tokens, n + 1).cursor == sink_after(events, tokens, n).cursor,
        sink_after(events, tokens, n + 1).errors == sink_after(events, tokens, n).errors.push(
            events[n]->Error_0,
        ),
{
    let before = sink_after(events, tokens, n);
    if n >= 1 {
        let earlier = sink_after(events, tokens, n - 1);
        lemma_skip_again(tokens, event_steps(events, tokens, n - 1, earlier.cursor).1);
    }
    assert(before.steps + Seq::<Step>::empty() + token_steps(tokens, before.cursor, before.cursor)
        =~= before.steps);
}

proof fn lemma_nodes(events: Seq<Event>, tokens: Seq<Token>, n: int)
    requires
        linked(events),
        0 <= n <= events.len(),
    ensures
        nodes_in(
            sink_after(events, tokens, n).steps,
            sink_after(events, tokens, n).steps.len() as int,
        ) == starts_in(events, n) + pending(events, n, n),
    decreases n,
{
    if n > 0 {
        let i = n - 1;
        lemma_nodes(events, tokens, i);
        let before = sink_after(events, tokens, i);
        let (own, cursor) = event_steps(events, tokens, i, before.cursor);
        let rest = skip_trivia(tokens, cursor);
        let trivia = token_steps(tokens, cursor, rest);
        lemma_skip_ahead(tokens, cursor);
        lemma_concat(before.steps, own, own.len() as int);
        lemma_concat(before.steps + own, trivia, trivia.len() as int);
        lemma_of_tokens(tokens, cursor, rest, rest - cursor);
        assert(nodes_in(own, 0) == 0);
        match events[i] {
            Event::Startnode { .. } => {
                lemma_root(events, i);
                if is_forward_parent(events, i) {
                    lemma_pending_same(events, i, n);
                    assert(opened_early(events, i, i));
                } else {
                    lemma_pending_root(events, i, n);
                    lemma_members(events, i, i);
                    assert(members(events, i, i) == members(events, i, n) + 1);
                    assert(!opened_early(events, i, i));
                    lemma_of_opens(chain_kinds(events, i), own.len() as int);
                }
            },
            Event::AddToken => {
                lemma_pending_same(events, i, n);
                lemma_of_tokens(tokens, before.cursor, before.cursor + 1, 1);
                assert(!opened_early(events, i, i));
            },
            Event::FinishNode => {
                lemma_pending_same(events, i, n);
                assert(nodes_in(own, 1) == 0);
                assert(!opened_early(events, i, i));
            },
            _ => {
                lemma_pending_same(events, i, n);
                assert(!opened_early(events, i, i));
            },
        }
        assert(pending(events, i, i) == pending(events, i, n) + if opened_early(events, i, i) {
            1int
        } else {
            0int
        });
    } else {
        lemma_pending_none(events, 0);
    }
}

/// The sink opens one node for each node that the log opens: a node with
/// forward parents opens them with itself, and none of them is opened again
/// at its own place.
pub proof fn lemma_sink_nodes(events: Seq<Event>, tokens: Seq<Token>)
    requires
        linked(events),
    ensures
        nodes_in(
            sink_after(events, tokens, events.len() as int).steps,
            sink_after(events, tokens, events.len() as int).steps.len() as int,
        ) == starts_in(events, events.len() as int),
{
    lemma_nodes(events, tokens, events.len() as int);
}

/// The tokens of the tree that parsing yields are the tokens of the text,
/// one for one and in their order, each with its kind and its text.
pub proof fn lemma_parse_leaves(input: &str, tokens: Seq<Token>, events: Seq<Event>, parse: Parse)
    requires
        parsed_from(input, tokens, events, parse),
    ensures
        leaves_of(parse.steps(), parse.steps().len() as int) == token_steps(
            tokens,
            0,
            tokens.len() as int,
        ),
{
    lemma_root_shaped(tokens);
    lemma_sink_views(events, tokens, events.len() as int);
    lemma_sink_leaves(events, tokens, events.len() as int);
}

} // verus!
