use super::parse_error::ParseError;
use crate::lexer::TokenKind;
use crate::syntax::SyntaxKind;
use crate::text::TextRange;
use vstd::prelude::*;

verus! {

/// One entry of the parser's log. The place of an entry in the log is its
/// identity.
#[derive(Debug, Clone, PartialEq, Eq)]
pub enum Event {
    /// A node of `kind` opens. With a forward parent, the node that opens that
    /// many entries further on encloses this one.
    Startnode { kind: SyntaxKind, forward_parent: Option<usize> },
    /// The next token that is no trivia is added.
    AddToken,
    /// The innermost open node closes.
    FinishNode,
    /// A diagnostic.
    Error(ParseError),
    /// The place of a node that has been started and not yet completed.
    Placeholder,
}

/// An entry of the log, with the kinds that a diagnostic names as a plain
/// sequence.
pub enum EventView {
    Startnode { kind: SyntaxKind, forward_parent: Option<usize> },
    AddToken,
    FinishNode,
    Error { expected: Seq<TokenKind>, found: Option<TokenKind>, range: TextRange },
    Placeholder,
}

impl View for Event {
    type V = EventView;

    open spec fn view(&self) -> EventView {
        match *self {
            Event::Startnode { kind, forward_parent } => EventView::Startnode {
                kind,
                forward_parent,
            },
            Event::AddToken => EventView::AddToken,
            Event::FinishNode => EventView::FinishNode,
            Event::Error(e) => EventView::Error {
                expected: e.expected@,
                found: e.found,
                range: e.range,
            },
            Event::Placeholder => EventView::Placeholder,
        }
    }
}

/// The entries of a log, each with its diagnostic as plain values.
pub open spec fn views(events: Seq<Event>) -> Seq<EventView> {
    events.map_values(|e: Event| e@)
}

/// The log after a node was started: its placeholder stands at the end.
pub open spec fn started(events: Seq<Event>) -> Seq<Event> {
    events.push(Event::Placeholder)
}

/// The log after the node whose placeholder stands at `pos` was completed
/// with `kind`: the placeholder has become the opening of the node, and the
/// closing stands at the end.
pub open spec fn completed_at(events: Seq<Event>, pos: int, kind: SyntaxKind) -> Seq<Event> {
    events.update(pos, Event::Startnode { kind, forward_parent: None }).push(Event::FinishNode)
}

/// The log after the node that opens at `pos` was preceded: its forward
/// parent is the distance to the end of the log, where the placeholder of
/// the new node stands.
pub open spec fn preceded_at(events: Seq<Event>, pos: int) -> Seq<Event> {
    events.update(
        pos,
        Event::Startnode {
            kind: events[pos]->kind,
            forward_parent: Some((events.len() - pos) as usize),
        },
    ).push(Event::Placeholder)
}

/// By how much an entry changes the number of open nodes. A placeholder
/// counts as the node that it will become.
pub open spec fn delta(e: Event) -> int {
    match e {
        Event::Startnode { .. } => 1,
        Event::Placeholder => 1,
        Event::FinishNode => -1,
        _ => 0,
    }
}

/// The number of nodes that are open after the first `n` entries.
pub open spec fn depth(events: Seq<Event>, n: int) -> int
    decreases n,
{
    if n <= 0 {
        0
    } else {
        depth(events, n - 1) + delta(events[n - 1])
    }
}

/// The number of tokens that the first `n` entries add.
pub open spec fn count_adds(events: Seq<Event>, n: int) -> int
    decreases n,
{
    if n <= 0 {
        0
    } else {
        count_adds(events, n - 1) + if events[n - 1] is AddToken {
            1int
        } else {
            0int
        }
    }
}

/// The forward parent of an entry, as a distance in the log.
pub open spec fn forward(e: Event) -> Option<int> {
    match e {
        Event::Startnode { forward_parent: Some(d), .. } => Some(d as int),
        _ => None,
    }
}

/// The forward parent of the entry at `i` is a node that opens later in the
/// log.
pub open spec fn link_ok(events: Seq<Event>, i: int) -> bool {
    forward(events[i]) matches Some(d) ==> d >= 1 && i + d < events.len() && events[i
        + d] is Startnode
}

/// The entries at `i` and `j` do not have the same forward parent.
pub open spec fn links_apart(events: Seq<Event>, i: int, j: int) -> bool {
    (i != j && forward(events[i]) is Some && forward(events[j]) is Some) ==> i + forward(
        events[i],
    )->0 != j + forward(events[j])->0
}

/// Every forward parent is a node that opens later in the log, and no node is
/// the forward parent of two.
pub open spec fn linked(events: Seq<Event>) -> bool {
    &&& forall|i: int| 0 <= i < events.len() ==> #[trigger] link_ok(events, i)
    &&& forall|i: int, j: int|
        0 <= i < events.len() && 0 <= j < events.len() ==> #[trigger] links_apart(events, i, j)
}

/// No started node is left uncompleted.
pub open spec fn no_placeholder(events: Seq<Event>) -> bool {
    forall|i: int| 0 <= i < events.len() ==> !(#[trigger] events[i] is Placeholder)
}

/// Never more nodes close than have opened, and in the end all are closed.
pub open spec fn balanced(events: Seq<Event>) -> bool {
    &&& forall|n: int| 0 <= n <= events.len() ==> #[trigger] depth(events, n) >= 0
    &&& depth(events, events.len() as int) == 0
}

/// The entries stand for whole nodes, tokens and diagnostics, one after the
/// other: every node that opens also closes, every started node is completed,
/// and forward parents stay within.
#[verifier::opaque]
pub open spec fn closed(events: Seq<Event>) -> bool {
    &&& linked(events)
    &&& no_placeholder(events)
    &&& balanced(events)
}

/// The log of one tree: it opens a node first and closes that node last.
pub open spec fn tree_log(events: Seq<Event>) -> bool {
    &&& events.len() >= 2
    &&& events[0] is Startnode
    &&& linked(events)
    &&& no_placeholder(events)
    &&& forall|n: int| 0 < n < events.len() ==> #[trigger] depth(events, n) >= 1
    &&& depth(events, events.len() as int) == 0
}

/// The number of open nodes in two runs of entries, one after the other.
pub proof fn lemma_depth_concat(s: Seq<Event>, t: Seq<Event>, n: int)
    requires
        0 <= n <= s.len() + t.len(),
    ensures
        depth(s + t, n) == if n <= s.len() {
            depth(s, n)
        } else {
            depth(s, s.len() as int) + depth(t, n - s.len())
        },
    decreases n,
{
    if n > 0 {
        lemma_depth_concat(s, t, n - 1);
        if n > s.len() {
            assert((s + t)[n - 1] == t[n - 1 - s.len()]);
            assert(depth(t, 0) == 0);
        } else {
            assert((s + t)[n - 1] == s[n - 1]);
        }
    }
}

/// The number of open nodes depends on what the entries open and close alone.
pub proof fn lemma_depth_same_delta(s: Seq<Event>, t: Seq<Event>, n: int)
    requires
        0 <= n <= s.len(),
        n <= t.len(),
        forall|i: int| 0 <= i < n ==> delta(#[trigger] s[i]) == delta(t[i]),
    ensures
        depth(s, n) == depth(t, n),
    decreases n,
{
    if n > 0 {
        lemma_depth_same_delta(s, t, n - 1);
    }
}

/// The number of tokens added depends on which entries add a token alone.
pub proof fn lemma_count_adds_same(s: Seq<Event>, t: Seq<Event>, n: int)
    requires
        0 <= n <= s.len(),
        n <= t.len(),
        forall|i: int| 0 <= i < n ==> (#[trigger] s[i] is AddToken) == (t[i] is AddToken),
    ensures
        count_adds(s, n) == count_adds(t, n),
    decreases n,
{
    if n > 0 {
        lemma_count_adds_same(s, t, n - 1);
    }
}

/// More entries add no fewer tokens.
pub proof fn lemma_count_adds_monotonic(s: Seq<Event>, a: int, b: int)
    requires
        0 <= a <= b,
    ensures
        0 <= count_adds(s, a) <= count_adds(s, b),
    decreases b,
{
    if a < b {
        lemma_count_adds_monotonic(s, a, b - 1);
    } else if a > 0 {
        lemma_count_adds_monotonic(s, a - 1, a - 1);
    }
}

/// Two closed runs of entries, one after the other, are a closed run.
pub proof fn lemma_linked_concat(s: Seq<Event>, t: Seq<Event>)
    requires
        linked(s),
        linked(t),
    ensures
        linked(s + t),
{
    let w = s + t;
    assert forall|i: int| 0 <= i < w.len() implies #[trigger] link_ok(w, i) by {
        if i < s.len() {
            assert(link_ok(s, i));
        } else {
            assert(link_ok(t, i - s.len()));
        }
    }
    assert forall|i: int, j: int| 0 <= i < w.len() && 0 <= j < w.len() implies #[trigger] links_apart(
        w,
        i,
        j,
    ) by {
        if i < s.len() {
            assert(link_ok(s, i));
        } else {
            assert(link_ok(t, i - s.len()));
        }
        if j < s.len() {
            assert(link_ok(s, j));
        } else {
            assert(link_ok(t, j - s.len()));
        }
        if i < s.len() && j < s.len() {
            assert(links_apart(s, i, j));
        } else if i >= s.len() && j >= s.len() {
            assert(links_apart(t, i - s.len(), j - s.len()));
        }
    }
}

/// Two closed runs of entries, one after the other, are a closed run.
pub proof fn lemma_closed_concat(s: Seq<Event>, t: Seq<Event>)
    requires
        closed(s),
        closed(t),
    ensures
        closed(s + t),
{
    reveal(closed);
    let w = s + t;
    lemma_linked_concat(s, t);
    assert forall|n: int| 0 <= n <= w.len() implies #[trigger] depth(w, n) >= 0 by {
        lemma_depth_concat(s, t, n);
        if n > s.len() {
            assert(depth(t, n - s.len()) >= 0);
        } else {
            assert(depth(s, n) >= 0);
        }
    }
    lemma_depth_concat(s, t, w.len() as int);
}

/// An entry with no forward parent that neither opens nor closes a node.
pub open spec fn flat(e: Event) -> bool {
    e is AddToken || e is Error
}

/// No entries are a closed run.
pub proof fn lemma_closed_empty()
    ensures
        closed(Seq::<Event>::empty()),
{
    reveal(closed);
}

/// A single token or diagnostic is a closed run.
pub proof fn lemma_closed_flat(e: Event)
    requires
        flat(e),
    ensures
        closed(seq![e]),
{
    reveal(closed);
    let s = seq![e];
    assert forall|n: int| 0 <= n <= s.len() implies #[trigger] depth(s, n) >= 0 by {
        reveal_with_fuel(depth, 2);
    }
    reveal_with_fuel(depth, 2);
}

/// A closed run of entries between the opening and the closing of a node is
/// a closed run.
pub proof fn lemma_closed_wrap(s: Seq<Event>, kind: SyntaxKind)
    requires
        closed(s),
    ensures
        closed(
            seq![Event::Startnode { kind, forward_parent: None }] + s + seq![Event::FinishNode],
        ),
        tree_log(
            seq![Event::Startnode { kind, forward_parent: None }] + s + seq![Event::FinishNode],
        ),
{
    reveal(closed);
    let a = seq![Event::Startnode { kind, forward_parent: None }];
    let z = seq![Event::FinishNode];
    let w = a + s + z;
    assert(linked(a));
    assert(linked(z));
    lemma_linked_concat(a, s);
    lemma_linked_concat(a + s, z);
    reveal_with_fuel(depth, 2);
    assert(depth(a, 1) == 1);
    assert(depth(z, 1) == -1);
    assert forall|n: int| 0 <= n <= w.len() implies (#[trigger] depth(w, n) >= 0 && (0 < n < w.len()
        ==> depth(w, n) >= 1)) by {
        lemma_depth_concat(a + s, z, n);
        if n <= (a + s).len() {
            lemma_depth_concat(a, s, n);
            if n >= 1 {
                assert(depth(s, n - 1) >= 0);
            }
        } else {
            lemma_depth_concat(a, s, (a + s).len() as int);
        }
    }
    lemma_depth_concat(a + s, z, w.len() as int);
    lemma_depth_concat(a, s, (a + s).len() as int);
    assert(w[0] == a[0]);
}

/// The mechanism by which a finished node gets a parent that opens after it:
/// in a closed run `s`, the node that opens at `i` takes as forward parent the
/// node that opens just behind `s`, goes on through the closed run `t`, and
/// closes. The whole is a closed run again.
pub proof fn lemma_closed_precede(
    s: Seq<Event>,
    i: int,
    kind: SyntaxKind,
    parent: SyntaxKind,
    t: Seq<Event>,
)
    requires
        closed(s),
        closed(t),
        0 <= i < s.len(),
        s[i] == (Event::Startnode { kind, forward_parent: None }),
        s.len() - i <= usize::MAX,
    ensures
        closed(
            s.update(
                i,
                Event::Startnode { kind, forward_parent: Some((s.len() - i) as usize) },
            ) + seq![Event::Startnode { kind: parent, forward_parent: None }] + t
                + seq![Event::FinishNode],
        ),
{
    reveal(closed);
    let u = s.update(i, Event::Startnode { kind, forward_parent: Some((s.len() - i) as usize) });
    let r = seq![Event::Startnode { kind: parent, forward_parent: None }] + t
        + seq![Event::FinishNode];
    let w = u + r;
    lemma_closed_wrap(t, parent);
    assert(w =~= u + seq![Event::Startnode { kind: parent, forward_parent: None }] + t
        + seq![Event::FinishNode]);
    assert forall|j: int| 0 <= j < w.len() implies #[trigger] link_ok(w, j) by {
        if j < s.len() {
            if j != i {
                assert(link_ok(s, j));
            }
        } else {
            assert(link_ok(r, j - s.len()));
        }
    }
    assert forall|j: int, k: int| 0 <= j < w.len() && 0 <= k < w.len() implies #[trigger] links_apart(
        w,
        j,
        k,
    ) by {
        if j < s.len() {
            assert(link_ok(s, j));
        } else {
            assert(link_ok(r, j - s.len()));
        }
        if k < s.len() {
            assert(link_ok(s, k));
        } else {
            assert(link_ok(r, k - s.len()));
        }
        if j < s.len() && k < s.len() {
            assert(links_apart(s, j, k));
        } else if j >= s.len() && k >= s.len() {
            assert(links_apart(r, j - s.len(), k - s.len()));
        }
    }
    assert forall|n: int| 0 <= n <= w.len() implies #[trigger] depth(w, n) >= 0 by {
        lemma_depth_concat(u, r, n);
        if n <= u.len() {
            lemma_depth_same_delta(u, s, n);
            assert(depth(s, n) >= 0);
        } else {
            lemma_depth_same_delta(u, s, u.len() as int);
            assert(depth(r, n - u.len()) >= 0);
        }
    }
    lemma_depth_concat(u, r, w.len() as int);
    lemma_depth_same_delta(u, s, u.len() as int);
}

} // verus!
