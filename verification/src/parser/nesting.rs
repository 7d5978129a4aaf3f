//! Nesting in the order of the log gives nesting after forward parents are
//! resolved: a node is never opened later than at its own place, so what the
//! sink writes has at least the nodes open that the log has.
use super::event::{
    delta, depth, forward, link_ok, linked, links_apart, no_placeholder, tree_log, Event,
};
use super::sink::{
    chain_kinds, event_steps, is_forward_parent, open_now, opens, rising, sink_after, token_steps,
};
use super::source::skip_trivia;
use crate::green::{is_tree, step_depth, Step};
use crate::lexer::Token;
use crate::shape::lemma_leaves_depth;
use vstd::prelude::*;

verus! {

/// The node that opens at `b` is the one that opens at `a` or one of its
/// forward parents.
pub open spec fn chained(events: Seq<Event>, a: int, b: int) -> bool
    decreases events.len() - a,
{
    if a == b {
        true
    } else if 0 <= a < events.len() {
        match forward(events[a]) {
            Some(d) => d >= 1 && a + d < events.len() && chained(events, a + d, b),
            None => false,
        }
    } else {
        false
    }
}

/// The first node of the chain on which the node at `j` lies: the node with
/// which the sink opens it.
pub open spec fn root_of(events: Seq<Event>, j: int) -> int
    decreases j,
{
    if is_forward_parent(events, j) {
        let i = choose|i: int| 0 <= i < j && #[trigger] forward(events[i]) == Some(j - i);
        root_of(events, i)
    } else {
        j
    }
}

/// After the first `n` entries the sink has opened the node at `j` already,
/// through a chain that starts before `n`.
pub open spec fn opened_early(events: Seq<Event>, n: int, j: int) -> bool {
    events[j] is Startnode && root_of(events, j) < n
}

/// The number of nodes from `from` on that the sink has opened after the
/// first `n` entries.
pub open spec fn pending(events: Seq<Event>, n: int, from: int) -> int
    decreases events.len() - from,
{
    if from < 0 || from >= events.len() {
        0
    } else {
        pending(events, n, from + 1) + if opened_early(events, n, from) {
            1int
        } else {
            0int
        }
    }
}

/// The number of nodes from `from` on that lie on the chain from `a`.
pub open spec fn members(events: Seq<Event>, a: int, from: int) -> int
    decreases events.len() - from,
{
    if from < 0 || from >= events.len() {
        0
    } else {
        members(events, a, from + 1) + if chained(events, a, from) {
            1int
        } else {
            0int
        }
    }
}

proof fn lemma_chained_ahead(events: Seq<Event>, a: int, b: int)
    requires
        linked(events),
        chained(events, a, b),
        0 <= a < events.len(),
    ensures
        a <= b < events.len(),
        a != b ==> is_forward_parent(events, b) && events[b] is Startnode,
    decreases events.len() - a,
{
    if a != b {
        let d = forward(events[a])->0;
        assert(link_ok(events, a));
        if a + d != b {
            lemma_chained_ahead(events, a + d, b);
        } else {
            assert(forward(events[a]) == Some(b - a));
        }
    }
}

/// The node before `j` on the chain from `r`.
proof fn lemma_before(events: Seq<Event>, r: int, j: int) -> (p: int)
    requires
        linked(events),
        chained(events, r, j),
        0 <= r < events.len(),
        r != j,
    ensures
        r <= p < j,
        chained(events, r, p),
        forward(events[p]) == Some(j - p),
    decreases events.len() - r,
{
    let d = forward(events[r])->0;
    if r + d == j {
        r
    } else {
        lemma_chained_ahead(events, r + d, j);
        lemma_before(events, r + d, j)
    }
}

proof fn lemma_chained_on(events: Seq<Event>, a: int, i: int, j: int)
    requires
        linked(events),
        chained(events, a, i),
        0 <= a < events.len(),
        forward(events[i]) == Some(j - i),
    ensures
        chained(events, a, j),
    decreases events.len() - a,
{
    lemma_chained_ahead(events, a, i);
    assert(link_ok(events, i));
    if a == i {
        assert(chained(events, j, j));
    } else {
        let d = forward(events[a])->0;
        assert(link_ok(events, a));
        lemma_chained_on(events, a + d, i, j);
    }
}

/// The first node of a chain is a node that is no forward parent, and the
/// chain from it comes by the node.
pub proof fn lemma_root(events: Seq<Event>, j: int)
    requires
        linked(events),
        0 <= j < events.len(),
        events[j] is Startnode,
    ensures
        0 <= root_of(events, j) <= j,
        events[root_of(events, j)] is Startnode,
        !is_forward_parent(events, root_of(events, j)),
        chained(events, root_of(events, j), j),
        is_forward_parent(events, j) ==> root_of(events, j) < j,
    decreases j,
{
    if is_forward_parent(events, j) {
        let i = choose|i: int| 0 <= i < j && #[trigger] forward(events[i]) == Some(j - i);
        lemma_root(events, i);
        lemma_chained_on(events, root_of(events, i), i, j);
    }
}

/// A chain has one first node.
proof fn lemma_root_is(events: Seq<Event>, r: int, j: int)
    requires
        linked(events),
        0 <= r < events.len(),
        events[r] is Startnode,
        !is_forward_parent(events, r),
        chained(events, r, j),
    ensures
        root_of(events, j) == r,
    decreases j,
{
    lemma_chained_ahead(events, r, j);
    if r != j {
        let p = lemma_before(events, r, j);
        let i = choose|i: int| 0 <= i < j && #[trigger] forward(events[i]) == Some(j - i);
        assert(links_apart(events, i, p));
        lemma_root_is(events, r, p);
    }
}

proof fn lemma_members_beyond(events: Seq<Event>, a: int, from: int)
    requires
        linked(events),
        0 <= a < from,
        a < events.len(),
    ensures
        members(events, a, from) == 0 || forward(events[a]) is Some,
        forward(events[a]) is None ==> members(events, a, from) == 0,
    decreases events.len() - from,
{
    if from < events.len() {
        lemma_members_beyond(events, a, from + 1);
    }
}

/// The chain from a node is that node and the chain from its forward parent.
proof fn lemma_members_step(events: Seq<Event>, a: int, from: int)
    requires
        linked(events),
        0 <= a < events.len(),
        0 <= from,
        forward(events[a]) is Some,
    ensures
        members(events, a, from) == members(events, a + forward(events[a])->0, from) + if from
            <= a {
            1int
        } else {
            0int
        },
    decreases events.len() - from,
{
    let d = forward(events[a])->0;
    assert(link_ok(events, a));
    if from < events.len() {
        lemma_members_step(events, a, from + 1);
        if from == a {
            if chained(events, a + d, a) {
                lemma_chained_ahead(events, a + d, a);
            }
        }
    }
}

proof fn lemma_members_alone(events: Seq<Event>, a: int, from: int)
    requires
        0 <= a < events.len(),
        0 <= from,
        forward(events[a]) is None,
    ensures
        members(events, a, from) == if from <= a {
            1int
        } else {
            0int
        },
    decreases events.len() - from,
{
    if from < events.len() {
        lemma_members_alone(events, a, from + 1);
    }
}

/// A chain has as many nodes as kinds.
pub proof fn lemma_members(events: Seq<Event>, a: int, from: int)
    requires
        linked(events),
        0 <= from <= a < events.len(),
        events[a] is Startnode,
    ensures
        members(events, a, from) == chain_kinds(events, a).len(),
    decreases events.len() - a,
{
    assert(link_ok(events, a));
    match forward(events[a]) {
        Some(d) => {
            lemma_members_step(events, a, from);
            lemma_members(events, a + d, from);
        },
        None => {
            lemma_members_alone(events, a, from);
        },
    }
}

/// An entry that opens no chain leaves what was opened early as it was.
pub proof fn lemma_pending_same(events: Seq<Event>, n: int, from: int)
    requires
        linked(events),
        0 <= n < events.len(),
        0 <= from,
        !(events[n] is Startnode) || is_forward_parent(events, n),
    ensures
        pending(events, n + 1, from) == pending(events, n, from),
        pending(events, n, from) >= 0,
    decreases events.len() - from,
{
    if from < events.len() {
        lemma_pending_same(events, n, from + 1);
        if events[from] is Startnode {
            lemma_root(events, from);
        }
    }
}

/// The first node of a chain opens early the other nodes of the chain.
pub proof fn lemma_pending_root(events: Seq<Event>, n: int, from: int)
    requires
        linked(events),
        0 <= n < events.len(),
        n < from,
        events[n] is Startnode,
        !is_forward_parent(events, n),
    ensures
        pending(events, n + 1, from) == pending(events, n, from) + members(events, n, from),
        pending(events, n, from) >= 0,
        members(events, n, from) >= 0,
    decreases events.len() - from,
{
    if from < events.len() {
        lemma_pending_root(events, n, from + 1);
        if events[from] is Startnode {
            lemma_root(events, from);
            if root_of(events, from) == n {
            } else if chained(events, n, from) {
                lemma_root_is(events, n, from);
            }
        } else if chained(events, n, from) {
            lemma_chained_ahead(events, n, from);
        }
    }
}

/// The openings of kinds open as many nodes as there are kinds.
proof fn lemma_opens_depth(kinds: Seq<crate::syntax::SyntaxKind>, n: int)
    requires
        0 <= n <= kinds.len(),
    ensures
        step_depth(opens(kinds), n) == n,
    decreases n,
{
    if n > 0 {
        lemma_opens_depth(kinds, n - 1);
        assert(opens(kinds)[n - 1] is Open);
    }
}

proof fn lemma_rising_push(steps: Seq<Step>, step: Step)
    requires
        rising(steps),
        steps.len() > 0 ==> open_now(steps) >= 1,
        steps.len() == 0 ==> step is Open,
    ensures
        rising(steps.push(step)),
        open_now(steps.push(step)) == open_now(steps) + crate::green::step_delta(step),
{
    let more = steps.push(step);
    crate::green::lemma_steps_prefix(steps, more, steps.len() as int);
    assert forall|m: int| 0 < m < more.len() implies #[trigger] step_depth(more, m) >= 1 by {
        crate::green::lemma_steps_prefix(steps, more, m);
    }
}

/// Steps that go on with the first `k` of `more` still rise, where each of
/// these keeps a node open.
proof fn lemma_rising_more(steps: Seq<Step>, more: Seq<Step>, k: int)
    requires
        rising(steps),
        0 <= k <= more.len(),
        steps.len() > 0 && more.len() > 0 ==> open_now(steps) >= 1,
        steps.len() == 0 && more.len() > 0 ==> more[0] is Open,
        forall|i: int| 0 < i < more.len() ==> open_now(steps) + #[trigger] step_depth(more, i) >= 1,
    ensures
        rising(steps + more.subrange(0, k)),
        open_now(steps + more.subrange(0, k)) == open_now(steps) + step_depth(more, k),
    decreases k,
{
    if k == 0 {
        assert(steps + more.subrange(0, 0) =~= steps);
    } else {
        lemma_rising_more(steps, more, k - 1);
        let before = steps + more.subrange(0, k - 1);
        assert(steps + more.subrange(0, k) =~= before.push(more[k - 1]));
        if k - 1 > 0 {
            assert(open_now(steps) + step_depth(more, k - 1) >= 1);
        }
        assert(step_depth(more, 0) == 0);
        lemma_rising_push(before, more[k - 1]);
    }
}

/// After an entry the sink stands at a token that is no trivia, or at the
/// end.
proof fn lemma_sink_rests(events: Seq<Event>, tokens: Seq<Token>, n: int)
    requires
        n >= 1,
    ensures
        skip_trivia(tokens, sink_after(events, tokens, n).cursor) == sink_after(
            events,
            tokens,
            n,
        ).cursor,
{
    let before = sink_after(events, tokens, n - 1);
    let cursor = event_steps(events, tokens, n - 1, before.cursor).1;
    super::resolve::lemma_skip_again(tokens, cursor);
}

/// What the sink has written after the first `n` entries of a log of one
/// tree rises, and has the nodes open that the log has and those that it has
/// opened early.
proof fn lemma_resolved(events: Seq<Event>, tokens: Seq<Token>, n: int)
    requires
        tree_log(events),
        0 <= n <= events.len(),
    ensures
        rising(sink_after(events, tokens, n).steps),
        open_now(sink_after(events, tokens, n).steps) == depth(events, n) + pending(
            events,
            n,
            n,
        ),
        pending(events, n, n) >= 0,
        n >= 1 ==> sink_after(events, tokens, n).steps.len() > 0,
    decreases n,
{
    if n == 0 {
        assert(depth(events, 0) == 0);
        lemma_root(events, 0);
        lemma_pending_root(events, 0, 1);
        assert(!opened_early(events, 0, 0));
        lemma_pending_none(events, 0);
    } else {
        let i = n - 1;
        lemma_resolved(events, tokens, i);
        let before = sink_after(events, tokens, i);
        let (own, cursor) = event_steps(events, tokens, i, before.cursor);
        let trivia = token_steps(tokens, cursor, skip_trivia(tokens, cursor));
        let after = sink_after(events, tokens, n);
        assert(after.steps == before.steps + own + trivia);
        if i >= 1 {
            assert(depth(events, i) >= 1);
            lemma_sink_rests(events, tokens, i);
        }
        assert(!(events[i] is Placeholder));
        assert(depth(events, n) == depth(events, i) + delta(events[i]));
        assert(step_depth(own, 0) == 0);
        match events[i] {
            Event::Startnode { .. } => {
                if is_forward_parent(events, i) {
                    lemma_pending_same(events, i, n);
                    lemma_root(events, i);
                    assert(opened_early(events, i, i));
                } else {
                    lemma_pending_root(events, i, n);
                    lemma_members(events, i, i);
                    assert(members(events, i, i) == members(events, i, n) + 1);
                    lemma_root(events, i);
                    assert(!opened_early(events, i, i));
                    assert forall|x: int| 0 <= x <= own.len() implies #[trigger] step_depth(
                        own,
                        x,
                    ) == x by {
                        lemma_opens_depth(chain_kinds(events, i), x);
                    }
                }
            },
            Event::AddToken => {
                lemma_pending_same(events, i, n);
                assert(!opened_early(events, i, i));
                assert(step_depth(own, 1) == 0);
            },
            Event::FinishNode => {
                lemma_pending_same(events, i, n);
                assert(!opened_early(events, i, i));
                assert(step_depth(own, 1) == -1);
            },
            _ => {
                lemma_pending_same(events, i, n);
                assert(!opened_early(events, i, i));
            },
        }
        assert(pending(events, i, i) == pending(events, i, n) + if opened_early(events, i, i) {
            1int
        } else {
            0int
        });
        // The steps of the entry itself.
        assert(own.len() > 0 && i == 0 ==> own[0] is Open) by {
            if i == 0 && own.len() > 0 {
                assert(events[0] is Startnode);
                assert(opens(chain_kinds(events, 0))[0] is Open);
            }
        }
        assert forall|x: int| 0 < x < own.len() implies open_now(before.steps) + #[trigger] step_depth(
            own,
            x,
        ) >= 1 by {
            assert(events[i] is Startnode);
        }
        lemma_rising_more(before.steps, own, own.len() as int);
        assert(own.subrange(0, own.len() as int) =~= own);
        let mid = before.steps + own;
        assert(open_now(mid) == depth(events, n) + pending(events, n, n));
        // The trivia behind it.
        lemma_leaves_depth(trivia, trivia.len() as int);
        assert forall|x: int| 0 <= x <= trivia.len() implies #[trigger] step_depth(trivia, x)
            == 0 by {
            lemma_leaves_depth(trivia, x);
        }
        if trivia.len() > 0 {
            if i >= 1 && !(events[i] is AddToken) {
                assert(skip_trivia(tokens, cursor) == cursor);
                assert(false);
            }
            if i == 0 {
                assert(events[0] is Startnode);
                assert(!is_forward_parent(events, 0));
                assert(own.len() > 0);
            } else {
                assert(own.len() > 0);
                assert(n < events.len()) by {
                    if n == events.len() {
                        assert(depth(events, n) == 0);
                        assert(depth(events, i) >= 1);
                    }
                }
                assert(depth(events, n) >= 1);
            }
        }
        if mid.len() > 0 && trivia.len() > 0 {
            if 0 < n < events.len() {
                assert(depth(events, n) >= 1);
            }
        }
        lemma_rising_more(mid, trivia, trivia.len() as int);
        assert(trivia.subrange(0, trivia.len() as int) =~= trivia);
        if i == 0 {
            assert(own.len() > 0);
        }
    }
}

/// Before the first entry nothing is opened.
pub proof fn lemma_pending_none(events: Seq<Event>, from: int)
    requires
        linked(events),
        0 <= from,
    ensures
        pending(events, 0, from) == 0,
    decreases events.len() - from,
{
    if from < events.len() {
        lemma_pending_none(events, from + 1);
        if events[from] is Startnode {
            lemma_root(events, from);
        }
    }
}

/// A log that nests in its own order nests after forward parents are
/// resolved: of the log of one tree the sink makes one tree, whatever the
/// tokens.
pub proof fn lemma_tree_log_resolves(events: Seq<Event>, tokens: Seq<Token>)
    requires
        tree_log(events),
    ensures
        linked(events),
        no_placeholder(events),
        is_tree(sink_after(events, tokens, events.len() as int).steps),
{
    let len = events.len() as int;
    lemma_resolved(events, tokens, len);
    lemma_resolved(events, tokens, 1);
    let all = sink_after(events, tokens, len).steps;
    super::sink::lemma_sink_grows(events, tokens, 1, len);
    if all.len() == 1 {
        assert(step_depth(all, 0) == 0);
    }
}

} // verus!
