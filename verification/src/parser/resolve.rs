//! What the sink makes of a log depends on the entries' plain values alone,
//! and the steps of a run of entries are the steps of its parts.
use super::event::{forward, views, Event, EventView};
use super::sink::{chain_kinds, is_forward_parent, opens, sink_after, token_steps};
use super::source::skip_trivia;
use crate::green::Step;
use crate::lexer::Token;
use crate::syntax::SyntaxKind;
use vstd::prelude::*;

verus! {

/// The forward parent of an entry, as a distance in the log.
pub open spec fn link(e: EventView) -> Option<int> {
    match e {
        EventView::Startnode { forward_parent: Some(d), .. } => Some(d as int),
        _ => None,
    }
}

/// The node that opens at `j` is the forward parent of an earlier node.
pub open spec fn is_target(log: Seq<EventView>, j: int) -> bool {
    exists|i: int| 0 <= i < j && #[trigger] link(log[i]) == Some(j - i)
}

/// The kinds of the node that opens at `i` and of its forward parents, the
/// innermost first.
pub open spec fn kinds_from(log: Seq<EventView>, i: int) -> Seq<SyntaxKind>
    decreases log.len() - i,
{
    if 0 <= i < log.len() && log[i] is Startnode {
        let kind = log[i]->kind;
        match link(log[i]) {
            Some(d) => if d >= 1 && i + d < log.len() {
                seq![kind] + kinds_from(log, i + d)
            } else {
                seq![kind]
            },
            None => seq![kind],
        }
    } else {
        Seq::empty()
    }
}

/// What the entry at `i` adds to the tree, with the next token at `cursor`.
pub open spec fn own_steps(log: Seq<EventView>, tokens: Seq<Token>, i: int, cursor: int) -> (
    Seq<Step>,
    int,
) {
    match log[i] {
        EventView::Startnode { .. } => if is_target(log, i) {
            (Seq::empty(), cursor)
        } else {
            (opens(kinds_from(log, i)), cursor)
        },
        EventView::AddToken => (token_steps(tokens, cursor, cursor + 1), cursor + 1),
        EventView::FinishNode => (seq![Step::Close], cursor),
        _ => (Seq::empty(), cursor),
    }
}

/// The steps that the first `n` entries add, and the next token after them,
/// when the next token before them is at `cursor`. After each entry the
/// trivia at the cursor is added.
pub open spec fn replay(log: Seq<EventView>, tokens: Seq<Token>, n: int, cursor: int) -> (
    Seq<Step>,
    int,
)
    decreases n,
{
    if n <= 0 {
        (Seq::empty(), cursor)
    } else {
        let (steps, before) = replay(log, tokens, n - 1, cursor);
        let (own, after) = own_steps(log, tokens, n - 1, before);
        let rest = skip_trivia(tokens, after);
        (steps + own + token_steps(tokens, after, rest), rest)
    }
}

/// The steps that all of `log` adds.
pub open spec fn steps_of(log: Seq<EventView>, tokens: Seq<Token>, cursor: int) -> Seq<Step> {
    replay(log, tokens, log.len() as int, cursor).0
}

/// The next token after all of `log`.
pub open spec fn cursor_after(log: Seq<EventView>, tokens: Seq<Token>, cursor: int) -> int {
    replay(log, tokens, log.len() as int, cursor).1
}

proof fn lemma_target_views(events: Seq<Event>, j: int)
    requires
        0 <= j < events.len(),
    ensures
        is_forward_parent(events, j) == is_target(views(events), j),
{
    let log = views(events);
    if is_forward_parent(events, j) {
        let i = choose|i: int| 0 <= i < j && #[trigger] forward(events[i]) == Some(j - i);
        assert(link(log[i]) == Some(j - i));
    }
    if is_target(log, j) {
        let i = choose|i: int| 0 <= i < j && #[trigger] link(log[i]) == Some(j - i);
        assert(forward(events[i]) == Some(j - i));
    }
}

proof fn lemma_kinds_views(events: Seq<Event>, i: int)
    ensures
        chain_kinds(events, i) == kinds_from(views(events), i),
    decreases events.len() - i,
{
    let log = views(events);
    if 0 <= i < events.len() && events[i] is Startnode {
        assert(log[i] == events[i]@);
        match forward(events[i]) {
            Some(d) => {
                if d >= 1 && i + d < events.len() {
                    lemma_kinds_views(events, i + d);
                }
            },
            None => {},
        }
    } else if 0 <= i < events.len() {
        assert(log[i] == events[i]@);
    }
}

/// The steps that the sink makes of a log are those of the entries' plain
/// values.
pub proof fn lemma_sink_views(events: Seq<Event>, tokens: Seq<Token>, n: int)
    requires
        0 <= n <= events.len(),
    ensures
        sink_after(events, tokens, n).steps == replay(views(events), tokens, n, 0).0,
        sink_after(events, tokens, n).cursor == replay(views(events), tokens, n, 0).1,
    decreases n,
{
    if n > 0 {
        lemma_sink_views(events, tokens, n - 1);
        lemma_target_views(events, n - 1);
        lemma_kinds_views(events, n - 1);
        assert(views(events)[n - 1] == events[n - 1]@);
    }
}

/// The forward parent of the entry at `i` is a node that opens later in the
/// same run of entries.
pub open spec fn link_inside(log: Seq<EventView>, i: int) -> bool {
    link(log[i]) matches Some(d) ==> d >= 1 && i + d < log.len() && log[i + d] is Startnode
}

/// Every forward parent in the run opens later in the run.
pub open spec fn inside(log: Seq<EventView>) -> bool {
    forall|i: int| 0 <= i < log.len() ==> #[trigger] link_inside(log, i)
}

/// The node that opens at `b` is the one that opens at `a` or one of its
/// forward parents.
pub open spec fn on_chain(log: Seq<EventView>, a: int, b: int) -> bool
    decreases log.len() - a,
{
    if a == b {
        true
    } else if 0 <= a < log.len() {
        match link(log[a]) {
            Some(d) => d >= 1 && a + d < log.len() && on_chain(log, a + d, b),
            None => false,
        }
    } else {
        false
    }
}

/// Behind trivia stands no trivia: passing over it twice is passing over it
/// once.
pub proof fn lemma_skip_again(tokens: Seq<Token>, c: int)
    ensures
        skip_trivia(tokens, skip_trivia(tokens, c)) == skip_trivia(tokens, c),
        token_steps(tokens, skip_trivia(tokens, c), skip_trivia(tokens, c)) == Seq::<Step>::empty(),
    decreases tokens.len() - c,
{
    if 0 <= c < tokens.len() && tokens[c].kind.trivia() {
        lemma_skip_again(tokens, c + 1);
    }
    assert(token_steps(tokens, skip_trivia(tokens, c), skip_trivia(tokens, c)) =~= Seq::<
        Step,
    >::empty());
}

/// After any entry the cursor stands at a token that is no trivia, or at
/// the end.
pub proof fn lemma_replay_rests(log: Seq<EventView>, tokens: Seq<Token>, n: int, cursor: int)
    requires
        n >= 1,
    ensures
        skip_trivia(tokens, replay(log, tokens, n, cursor).1) == replay(log, tokens, n, cursor).1,
{
    let (steps, before) = replay(log, tokens, n - 1, cursor);
    let (own, after) = own_steps(log, tokens, n - 1, before);
    lemma_skip_again(tokens, after);
}

proof fn lemma_kinds_prefix(s: Seq<EventView>, t: Seq<EventView>, i: int)
    requires
        inside(s),
        0 <= i < s.len(),
    ensures
        kinds_from(s + t, i) == kinds_from(s, i),
    decreases s.len() - i,
{
    assert((s + t)[i] == s[i]);
    assert(link_inside(s, i));
    match link(s[i]) {
        Some(d) => {
            lemma_kinds_prefix(s, t, i + d);
        },
        None => {},
    }
}

proof fn lemma_kinds_shift(s: Seq<EventView>, t: Seq<EventView>, j: int)
    requires
        0 <= j,
    ensures
        kinds_from(s + t, s.len() + j) == kinds_from(t, j),
    decreases t.len() - j,
{
    if j < t.len() {
        assert((s + t)[s.len() + j] == t[j]);
        match link(t[j]) {
            Some(d) => {
                if d >= 1 && j + d < t.len() {
                    lemma_kinds_shift(s, t, j + d);
                }
            },
            None => {},
        }
    }
}

/// Whether a node is a forward parent is told by the entries before it.
pub proof fn lemma_target_prefix(s: Seq<EventView>, t: Seq<EventView>, j: int)
    requires
        0 <= j < s.len(),
    ensures
        is_target(s + t, j) == is_target(s, j),
{
    if is_target(s + t, j) {
        let i = choose|i: int| 0 <= i < j && #[trigger] link((s + t)[i]) == Some(j - i);
        assert((s + t)[i] == s[i]);
        assert(link(s[i]) == Some(j - i));
    }
    if is_target(s, j) {
        let i = choose|i: int| 0 <= i < j && #[trigger] link(s[i]) == Some(j - i);
        assert((s + t)[i] == s[i]);
        assert(link((s + t)[i]) == Some(j - i));
    }
}

proof fn lemma_target_shift(s: Seq<EventView>, t: Seq<EventView>, j: int)
    requires
        inside(s),
        0 <= j < t.len(),
    ensures
        is_target(s + t, s.len() + j) == is_target(t, j),
{
    let w = s + t;
    if is_target(w, s.len() + j) {
        let i = choose|i: int| 0 <= i < s.len() + j && #[trigger] link(w[i]) == Some(s.len() + j - i);
        if i < s.len() {
            assert(w[i] == s[i]);
            assert(link_inside(s, i));
            assert(false);
        } else {
            assert(w[i] == t[i - s.len()]);
            assert(link(t[i - s.len()]) == Some(j - (i - s.len())));
        }
    }
    if is_target(t, j) {
        let i = choose|i: int| 0 <= i < j && #[trigger] link(t[i]) == Some(j - i);
        assert(w[s.len() + i] == t[i]);
        assert(link(w[s.len() + i]) == Some(s.len() + j - (s.len() + i)));
    }
}

proof fn lemma_replay_prefix(
    s: Seq<EventView>,
    t: Seq<EventView>,
    tokens: Seq<Token>,
    n: int,
    cursor: int,
)
    requires
        inside(s),
        0 <= n <= s.len(),
    ensures
        replay(s + t, tokens, n, cursor) == replay(s, tokens, n, cursor),
    decreases n,
{
    if n > 0 {
        lemma_replay_prefix(s, t, tokens, n - 1, cursor);
        lemma_target_prefix(s, t, n - 1);
        lemma_kinds_prefix(s, t, n - 1);
        assert((s + t)[n - 1] == s[n - 1]);
    }
}

/// The steps of two runs of entries, one after the other, are the steps of
/// the first and then those of the second.
pub proof fn lemma_replay_concat(
    s: Seq<EventView>,
    t: Seq<EventView>,
    tokens: Seq<Token>,
    k: int,
    cursor: int,
)
    requires
        inside(s),
        0 <= k <= t.len(),
    ensures
        replay(s + t, tokens, s.len() + k, cursor).0 == steps_of(s, tokens, cursor) + replay(
            t,
            tokens,
            k,
            cursor_after(s, tokens, cursor),
        ).0,
        replay(s + t, tokens, s.len() + k, cursor).1 == replay(
            t,
            tokens,
            k,
            cursor_after(s, tokens, cursor),
        ).1,
    decreases k,
{
    if k == 0 {
        lemma_replay_prefix(s, t, tokens, s.len() as int, cursor);
        assert(steps_of(s, tokens, cursor) + Seq::<Step>::empty() =~= steps_of(s, tokens, cursor));
    } else {
        lemma_replay_concat(s, t, tokens, k - 1, cursor);
        lemma_target_shift(s, t, k - 1);
        lemma_kinds_shift(s, t, k - 1);
        assert((s + t)[s.len() + k - 1] == t[k - 1]);
        let (steps, before) = replay(t, tokens, k - 1, cursor_after(s, tokens, cursor));
        let (own, after) = own_steps(t, tokens, k - 1, before);
        let rest = skip_trivia(tokens, after);
        assert(steps_of(s, tokens, cursor) + steps + own + token_steps(tokens, after, rest)
            =~= steps_of(s, tokens, cursor) + (steps + own + token_steps(tokens, after, rest)));
    }
}

/// Two runs in which forward parents stay inside make one such run.
pub proof fn lemma_inside_concat(s: Seq<EventView>, t: Seq<EventView>)
    requires
        inside(s),
        inside(t),
    ensures
        inside(s + t),
{
    let w = s + t;
    assert forall|i: int| 0 <= i < w.len() implies #[trigger] link_inside(w, i) by {
        if i < s.len() {
            assert(link_inside(s, i));
        } else {
            assert(link_inside(t, i - s.len()));
        }
    }
}

/// The run has the node that opens at `i` as the last of the chain from its
/// first entry, and the node has no forward parent yet. No other chain in
/// the run comes by this node.
pub open spec fn rooted(log: Seq<EventView>, i: int) -> bool {
    &&& 0 <= i < log.len()
    &&& on_chain(log, 0, i)
    &&& log[i] is Startnode
    &&& link(log[i]) is None
    &&& forall|j: int|
        0 < j < log.len() && log[j] is Startnode && !is_target(log, j) ==> !(#[trigger] on_chain(
            log,
            j,
            i,
        ))
}

/// `log` with the node at `i` preceded by a node of kind `parent`, which
/// opens at the end.
pub open spec fn linked_to(log: Seq<EventView>, i: int, parent: SyntaxKind) -> Seq<EventView> {
    log.update(
        i,
        EventView::Startnode {
            kind: log[i]->kind,
            forward_parent: Some((log.len() - i) as usize),
        },
    ).push(EventView::Startnode { kind: parent, forward_parent: None })
}

proof fn lemma_on_chain_ahead(log: Seq<EventView>, a: int, b: int)
    requires
        on_chain(log, a, b),
        a != b,
    ensures
        0 <= a < b < log.len(),
        is_target(log, b),
    decreases log.len() - a,
{
    let d = link(log[a])->0;
    if a + d != b {
        lemma_on_chain_ahead(log, a + d, b);
    } else {
        assert(link(log[a]) == Some(b - a));
    }
}

/// A chain in a run whose forward parents stay inside is not changed by what
/// is written behind the run.
pub proof fn lemma_on_chain_prefix(s: Seq<EventView>, t: Seq<EventView>, a: int, b: int)
    requires
        inside(s),
        0 <= a < s.len(),
        0 <= b < s.len(),
    ensures
        on_chain(s + t, a, b) == on_chain(s, a, b),
    decreases s.len() - a,
{
    assert((s + t)[a] == s[a]);
    assert(link_inside(s, a));
    if a != b {
        match link(s[a]) {
            Some(d) => {
                lemma_on_chain_prefix(s, t, a + d, b);
            },
            None => {},
        }
    }
}

proof fn lemma_on_chain_shift(s: Seq<EventView>, t: Seq<EventView>, a: int, b: int)
    requires
        0 <= a,
        0 <= b,
    ensures
        on_chain(s + t, s.len() + a, s.len() + b) == on_chain(t, a, b),
    decreases t.len() - a,
{
    if a != b && a < t.len() {
        assert((s + t)[s.len() + a] == t[a]);
        match link(t[a]) {
            Some(d) => {
                if d >= 1 && a + d < t.len() {
                    lemma_on_chain_shift(s, t, a + d, b);
                }
            },
            None => {},
        }
    }
}

/// A chain never comes back: from a later entry no earlier one is reached.
pub proof fn lemma_on_chain_forward(log: Seq<EventView>, a: int, b: int)
    requires
        on_chain(log, a, b),
    ensures
        a <= b,
    decreases log.len() - a,
{
    if a != b {
        lemma_on_chain_ahead(log, a, b);
    }
}

proof fn lemma_kinds_extend(log: Seq<EventView>, i: int, parent: SyntaxKind, j: int)
    requires
        inside(log),
        0 <= i < log.len(),
        log[i] is Startnode,
        link(log[i]) is None,
        log.len() - i <= usize::MAX,
        on_chain(log, j, i),
    ensures
        kinds_from(linked_to(log, i, parent), j) == kinds_from(log, j).push(parent),
    decreases log.len() - j,
{
    let new = linked_to(log, i, parent);
    if j == i {
        assert(new[i] == (EventView::Startnode {
            kind: log[i]->kind,
            forward_parent: Some((log.len() - i) as usize),
        }));
        assert(new[log.len() as int] == (EventView::Startnode {
            kind: parent,
            forward_parent: None,
        }));
        assert(kinds_from(new, log.len() as int) =~= seq![parent]);
        assert(kinds_from(new, i) =~= seq![log[i]->kind] + seq![parent]);
        assert(kinds_from(log, i) =~= seq![log[i]->kind]);
        assert(kinds_from(new, i) =~= kinds_from(log, i).push(parent));
    } else {
        lemma_on_chain_ahead(log, j, i);
        assert(link_inside(log, j));
        let d = link(log[j])->0;
        assert(new[j] == log[j]);
        lemma_kinds_extend(log, i, parent, j + d);
        assert(kinds_from(new, j) =~= kinds_from(log, j).push(parent));
    }
}

proof fn lemma_kinds_avoid(log: Seq<EventView>, i: int, parent: SyntaxKind, j: int)
    requires
        inside(log),
        0 <= i < log.len(),
        0 <= j < log.len(),
        !on_chain(log, j, i),
    ensures
        kinds_from(linked_to(log, i, parent), j) == kinds_from(log, j),
    decreases log.len() - j,
{
    let new = linked_to(log, i, parent);
    assert(new[j] == log[j]);
    assert(link_inside(log, j));
    match link(log[j]) {
        Some(d) => {
            lemma_kinds_avoid(log, i, parent, j + d);
        },
        None => {},
    }
}

proof fn lemma_target_linked(log: Seq<EventView>, i: int, parent: SyntaxKind, j: int)
    requires
        0 <= i < log.len(),
        link(log[i]) is None,
        log.len() - i <= usize::MAX,
        0 <= j <= log.len(),
    ensures
        is_target(linked_to(log, i, parent), j) == (is_target(log, j) || j == log.len()),
{
    let new = linked_to(log, i, parent);
    if is_target(new, j) && j < log.len() {
        let x = choose|x: int| 0 <= x < j && #[trigger] link(new[x]) == Some(j - x);
        if x != i {
            assert(new[x] == log[x]);
            assert(link(log[x]) == Some(j - x));
        }
    }
    if is_target(log, j) {
        let x = choose|x: int| 0 <= x < j && #[trigger] link(log[x]) == Some(j - x);
        assert(new[x] == log[x]);
        assert(link(new[x]) == Some(j - x));
    }
    if j == log.len() {
        assert(link(new[i]) == Some(j - i));
    }
}

/// The openings of `kinds` and then of `last` are the opening of `last`
/// before those of `kinds`.
proof fn lemma_opens_push(kinds: Seq<SyntaxKind>, last: SyntaxKind)
    ensures
        opens(kinds.push(last)) == seq![Step::Open(last.raw())] + opens(kinds),
{
    assert(opens(kinds.push(last)) =~= seq![Step::Open(last.raw())] + opens(kinds));
}

proof fn lemma_replay_linked(
    log: Seq<EventView>,
    i: int,
    parent: SyntaxKind,
    tokens: Seq<Token>,
    n: int,
    cursor: int,
)
    requires
        inside(log),
        rooted(log, i),
        log.len() - i <= usize::MAX,
        1 <= n <= log.len(),
    ensures
        replay(linked_to(log, i, parent), tokens, n, cursor).0 == seq![Step::Open(parent.raw())]
            + replay(log, tokens, n, cursor).0,
        replay(linked_to(log, i, parent), tokens, n, cursor).1 == replay(log, tokens, n, cursor).1,
    decreases n,
{
    let new = linked_to(log, i, parent);
    let j = n - 1;
    lemma_target_linked(log, i, parent, j);
    if n == 1 {
        lemma_kinds_extend(log, i, parent, 0);
        lemma_opens_push(kinds_from(log, 0), parent);
        assert(!is_target(log, 0));
        if i != 0 {
            lemma_on_chain_ahead(log, 0, i);
            assert(new[0] == log[0]);
        }
        assert(log[0] is Startnode);
        assert(new[0] is Startnode);
        let (own, after) = own_steps(log, tokens, 0, cursor);
        let rest = skip_trivia(tokens, after);
        assert(!is_target(new, 0));
        assert(replay(new, tokens, 0, cursor) == (Seq::<Step>::empty(), cursor));
        assert(replay(log, tokens, 0, cursor) == (Seq::<Step>::empty(), cursor));
        assert(own == opens(kinds_from(log, 0)));
        assert(own_steps(new, tokens, 0, cursor) == (
            seq![Step::Open(parent.raw())] + own,
            after,
        ));
        assert(Seq::<Step>::empty() + (seq![Step::Open(parent.raw())] + own) + token_steps(
            tokens,
            after,
            rest,
        ) =~= seq![Step::Open(parent.raw())] + (Seq::<Step>::empty() + own + token_steps(
            tokens,
            after,
            rest,
        )));
    } else {
        lemma_replay_linked(log, i, parent, tokens, n - 1, cursor);
        let (steps, before) = replay(log, tokens, n - 1, cursor);
        let (own, after) = own_steps(log, tokens, j, before);
        let rest = skip_trivia(tokens, after);
        if j == i {
            lemma_on_chain_ahead(log, 0, i);
            assert(is_target(log, i));
            assert(new[i] is Startnode);
        } else {
            assert(new[j] == log[j]);
            if log[j] is Startnode && !is_target(log, j) {
                assert(!on_chain(log, j, i));
                lemma_kinds_avoid(log, i, parent, j);
            }
        }
        assert(own_steps(new, tokens, j, before) == own_steps(log, tokens, j, before));
        assert(replay(new, tokens, n - 1, cursor) == (
            seq![Step::Open(parent.raw())] + steps,
            before,
        ));
        assert(seq![Step::Open(parent.raw())] + steps + own + token_steps(tokens, after, rest)
            =~= seq![Step::Open(parent.raw())] + (steps + own + token_steps(tokens, after, rest)));
    }
}

/// Preceding the last node of the chain of a run opens the new node before
/// everything else in the run: the steps are the opening of the new node and
/// then the steps of the run as it was.
pub proof fn lemma_linked_to(
    log: Seq<EventView>,
    i: int,
    parent: SyntaxKind,
    tokens: Seq<Token>,
    cursor: int,
)
    requires
        inside(log),
        rooted(log, i),
        log.len() - i <= usize::MAX,
    ensures
        inside(linked_to(log, i, parent)),
        rooted(linked_to(log, i, parent), log.len() as int),
        steps_of(linked_to(log, i, parent), tokens, cursor) == seq![Step::Open(parent.raw())]
            + steps_of(log, tokens, cursor),
        cursor_after(linked_to(log, i, parent), tokens, cursor) == cursor_after(
            log,
            tokens,
            cursor,
        ),
{
    let new = linked_to(log, i, parent);
    let n = log.len() as int;
    lemma_replay_linked(log, i, parent, tokens, n, cursor);
    lemma_target_linked(log, i, parent, n);
    lemma_replay_rests(new, tokens, n, cursor);
    let (steps, before) = replay(new, tokens, n, cursor);
    lemma_skip_again(tokens, before);
    assert(new[n] is Startnode);
    assert(steps + Seq::<Step>::empty() + token_steps(tokens, before, before) =~= steps);
    assert forall|x: int| 0 <= x < new.len() implies #[trigger] link_inside(new, x) by {
        if x < n && x != i {
            assert(link_inside(log, x));
            assert(new[x] == log[x]);
            let d = link(log[x]);
            if d is Some {
                assert(new[x + d->0] is Startnode);
            }
        }
    }
    lemma_kinds_extend(log, i, parent, 0);
    lemma_on_chain_linked(log, i, parent, 0);
    assert forall|j: int|
        0 < j < new.len() && new[j] is Startnode && !is_target(new, j) implies !(#[trigger] on_chain(
        new,
        j,
        n,
    )) by {
        lemma_target_linked(log, i, parent, j);
        if j < n {
            if j == i {
                lemma_on_chain_ahead(log, 0, i);
            } else {
                assert(new[j] == log[j]);
                assert(!on_chain(log, j, i));
                lemma_off_chain_linked(log, i, parent, j);
            }
        }
    }
}

proof fn lemma_on_chain_linked(log: Seq<EventView>, i: int, parent: SyntaxKind, j: int)
    requires
        inside(log),
        0 <= i < log.len(),
        link(log[i]) is None,
        log.len() - i <= usize::MAX,
        on_chain(log, j, i),
    ensures
        on_chain(linked_to(log, i, parent), j, log.len() as int),
    decreases log.len() - j,
{
    let new = linked_to(log, i, parent);
    if j != i {
        lemma_on_chain_ahead(log, j, i);
        assert(link_inside(log, j));
        assert(new[j] == log[j]);
        lemma_on_chain_linked(log, i, parent, j + link(log[j])->0);
    } else {
        assert(link(new[i]) == Some(log.len() - i));
        assert(on_chain(new, log.len() as int, log.len() as int));
    }
}

proof fn lemma_off_chain_linked(log: Seq<EventView>, i: int, parent: SyntaxKind, j: int)
    requires
        inside(log),
        0 <= i < log.len(),
        0 <= j < log.len(),
        !on_chain(log, j, i),
    ensures
        !on_chain(linked_to(log, i, parent), j, log.len() as int),
    decreases log.len() - j,
{
    let new = linked_to(log, i, parent);
    assert(new[j] == log[j]);
    assert(link_inside(log, j));
    match link(log[j]) {
        Some(d) => {
            lemma_off_chain_linked(log, i, parent, j + d);
        },
        None => {},
    }
}

} // verus!
