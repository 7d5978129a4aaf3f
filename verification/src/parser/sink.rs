use super::event::{
    count_adds, forward, lemma_count_adds_monotonic, link_ok, linked, links_apart,
    no_placeholder, Event,
};
use super::parse_error::ParseError;
use super::source::{count_solid, lemma_count_solid_monotonic, lemma_skip_trivia, skip_trivia};
use crate::green::{
    builder_finish, builder_finish_node, builder_new, builder_start_node, builder_steps,
    builder_token, is_tree, kinds_known, leaf_bytes, leaf_text, lemma_steps_prefix, step_bytes,
    step_depth, Step,
};
use crate::lexer::Token;
use crate::syntax::{SyntaxKind, KIND_COUNT};
use crate::Parse;
use vstd::prelude::*;
use vstd::string::StringSliceAdditionalSpecFns;

verus! {

/// The kinds of the node that opens at `i` and of its forward parents, the
/// innermost first.
pub open spec fn chain_kinds(events: Seq<Event>, i: int) -> Seq<SyntaxKind>
    decreases events.len() - i,
{
    if 0 <= i < events.len() && events[i] is Startnode {
        let kind = events[i]->kind;
        match forward(events[i]) {
            Some(d) => if d >= 1 && i + d < events.len() {
                seq![kind] + chain_kinds(events, i + d)
            } else {
                seq![kind]
            },
            None => seq![kind],
        }
    } else {
        Seq::empty()
    }
}

/// The openings of nodes of `kinds`, the last kind first.
pub open spec fn opens(kinds: Seq<SyntaxKind>) -> Seq<Step> {
    Seq::new(kinds.len(), |j: int| Step::Open(kinds[kinds.len() - 1 - j].raw()))
}

/// The node that opens at `j` is the forward parent of an earlier node.
pub open spec fn is_forward_parent(events: Seq<Event>, j: int) -> bool {
    exists|i: int| 0 <= i < j && #[trigger] forward(events[i]) == Some(j - i)
}

/// The step that adds `token` to the tree.
pub open spec fn token_step(token: Token) -> Step {
    Step::Leaf(SyntaxKind::of_token(token.kind).raw(), token.text@)
}

/// The steps that add the tokens from `from` up to `to`.
pub open spec fn token_steps(tokens: Seq<Token>, from: int, to: int) -> Seq<Step> {
    Seq::new((to - from) as nat, |k: int| token_step(tokens[from + k]))
}

/// The texts of the first `upto` tokens, one after the other.
pub open spec fn tokens_text(tokens: Seq<Token>, upto: int) -> Seq<char>
    decreases upto,
{
    if upto <= 0 {
        Seq::empty()
    } else {
        tokens_text(tokens, upto - 1) + tokens[upto - 1].text@
    }
}

/// The number of bytes in the texts of the first `upto` tokens.
pub open spec fn tokens_bytes(tokens: Seq<Token>, upto: int) -> nat
    decreases upto,
{
    if upto <= 0 {
        0
    } else {
        tokens_bytes(tokens, upto - 1) + tokens[upto - 1].text.spec_bytes().len()
    }
}

/// Where the sink stands: the steps that it has handed to the builder, the
/// index of the next token, and the diagnostics that it has collected.
pub struct Replay {
    pub steps: Seq<Step>,
    pub cursor: int,
    pub errors: Seq<ParseError>,
}

/// What the event at `i` adds to the tree, with the next token at `cursor`:
/// the steps, and the index of the next token after them. A node that is the
/// forward parent of an earlier one has been opened with that one, and opens
/// nothing here. A node with forward parents opens them first, the outermost
/// before the others, then itself.
pub open spec fn event_steps(events: Seq<Event>, tokens: Seq<Token>, i: int, cursor: int) -> (
    Seq<Step>,
    int,
) {
    match events[i] {
        Event::Startnode { .. } => if is_forward_parent(events, i) {
            (Seq::empty(), cursor)
        } else {
            (opens(chain_kinds(events, i)), cursor)
        },
        Event::AddToken => (token_steps(tokens, cursor, cursor + 1), cursor + 1),
        Event::FinishNode => (seq![Step::Close], cursor),
        _ => (Seq::empty(), cursor),
    }
}

/// Where the sink stands after the first `n` events. After each event it adds
/// the trivia that stands at the cursor.
pub open spec fn sink_after(events: Seq<Event>, tokens: Seq<Token>, n: int) -> Replay
    decreases n,
{
    if n <= 0 {
        Replay { steps: Seq::empty(), cursor: 0, errors: Seq::empty() }
    } else {
        let before = sink_after(events, tokens, n - 1);
        let (own, cursor) = event_steps(events, tokens, n - 1, before.cursor);
        let rest = skip_trivia(tokens, cursor);
        Replay {
            steps: before.steps + own + token_steps(tokens, cursor, rest),
            cursor: rest,
            errors: match events[n - 1] {
                Event::Error(e) => before.errors.push(e),
                _ => before.errors,
            },
        }
    }
}

/// What the sink asks of a log and the tokens that it was written for:
/// every forward parent is a node that opens later, no started node is left
/// uncompleted, what the log resolves to is one tree, the log adds no more
/// tokens than there are, and the texts of the tokens have no more bytes than
/// a 32-bit offset can count. Nesting is asked of the steps after forward
/// parents are resolved, not of the entries in the order of the log.
pub open spec fn sink_ready(events: Seq<Event>, tokens: Seq<Token>) -> bool {
    &&& linked(events)
    &&& no_placeholder(events)
    &&& is_tree(sink_after(events, tokens, events.len() as int).steps)
    &&& count_adds(events, events.len() as int) <= count_solid(tokens, tokens.len() as int)
    &&& tokens_bytes(tokens, tokens.len() as int) <= u32::MAX
}

} // verus!

verus! {

/// The first step opens a node, and after every step but the last a node is
/// open.
pub open spec fn rising(steps: Seq<Step>) -> bool {
    &&& steps.len() > 0 ==> steps[0] is Open
    &&& forall|m: int| 0 < m < steps.len() ==> #[trigger] step_depth(steps, m) >= 1
}

/// The number of nodes that are open after all the steps.
pub open spec fn open_now(steps: Seq<Step>) -> int {
    step_depth(steps, steps.len() as int)
}

/// The steps are those of a tree in the making that holds the first `cursor`
/// tokens.
pub open spec fn in_step(steps: Seq<Step>, tokens: Seq<Token>, cursor: int) -> bool {
    &&& 0 <= cursor <= tokens.len()
    &&& rising(steps)
    &&& kinds_known(steps)
    &&& leaf_bytes(steps, steps.len() as int) == tokens_bytes(tokens, cursor)
    &&& leaf_text(steps, steps.len() as int) == tokens_text(tokens, cursor)
}

proof fn lemma_push_step(steps: Seq<Step>, step: Step)
    requires
        rising(steps),
        kinds_known(steps),
        steps.len() > 0 ==> open_now(steps) >= 1,
        steps.len() == 0 ==> step is Open,
        match step {
            Step::Open(kind) => kind < KIND_COUNT,
            Step::Leaf(kind, _) => kind < KIND_COUNT,
            Step::Close => true,
        },
    ensures
        rising(steps.push(step)),
        kinds_known(steps.push(step)),
        open_now(steps.push(step)) == open_now(steps) + crate::green::step_delta(step),
        leaf_bytes(steps.push(step), steps.len() as int + 1) == leaf_bytes(steps, steps.len() as int)
            + step_bytes(step),
        leaf_text(steps.push(step), steps.len() as int + 1) == leaf_text(steps, steps.len() as int)
            + match step {
            Step::Leaf(_, text) => text,
            _ => Seq::empty(),
        },
{
    let more = steps.push(step);
    lemma_steps_prefix(steps, more, steps.len() as int);
    assert forall|m: int| 0 < m < more.len() implies #[trigger] step_depth(more, m) >= 1 by {
        lemma_steps_prefix(steps, more, m);
    }
}

proof fn lemma_tokens_monotonic(tokens: Seq<Token>, a: int, b: int)
    requires
        0 <= a <= b,
    ensures
        tokens_bytes(tokens, a) <= tokens_bytes(tokens, b),
    decreases b,
{
    if a < b {
        lemma_tokens_monotonic(tokens, a, b - 1);
    }
}

/// What the sink has written after some events stands first in what it has
/// written after more.
pub proof fn lemma_sink_grows(events: Seq<Event>, tokens: Seq<Token>, n: int, m: int)
    requires
        0 <= n <= m,
    ensures
        sink_after(events, tokens, n).steps.len() <= sink_after(events, tokens, m).steps.len(),
        sink_after(events, tokens, m).steps.subrange(
            0,
            sink_after(events, tokens, n).steps.len() as int,
        ) == sink_after(events, tokens, n).steps,
    decreases m,
{
    let short = sink_after(events, tokens, n).steps;
    if n < m {
        lemma_sink_grows(events, tokens, n, m - 1);
        let before = sink_after(events, tokens, m - 1).steps;
        assert forall|i: int| 0 <= i < short.len() implies sink_after(events, tokens, m).steps[i]
            == short[i] by {
            assert(before.subrange(0, short.len() as int)[i] == short[i]);
        }
    }
    assert(sink_after(events, tokens, m).steps.subrange(0, short.len() as int) =~= short);
}

/// Steps that are to go on towards a tree have a node open, and the first
/// of all steps opens one.
proof fn lemma_room(goal: Seq<Step>, steps: Seq<Step>, more: Seq<Step>)
    requires
        is_tree(goal),
        (steps + more).len() <= goal.len(),
        goal.subrange(0, (steps + more).len() as int) == steps + more,
        more.len() > 0,
    ensures
        steps.len() > 0 ==> open_now(steps) >= 1,
        steps.len() == 0 ==> more[0] is Open,
{
    let all = steps + more;
    assert forall|i: int| 0 <= i < steps.len() implies #[trigger] goal[i] == steps[i] by {
        assert(goal.subrange(0, all.len() as int)[i] == all[i]);
    }
    lemma_steps_prefix(goal, steps, steps.len() as int);
    if steps.len() == 0 {
        assert(goal.subrange(0, all.len() as int)[0] == all[0]);
    } else {
        assert(step_depth(goal, steps.len() as int) >= 1);
    }
}

/// Whether the node at the end of the link from `i` has been opened is told
/// by `i`: it has been, once `i` has been passed or has itself been opened
/// through a link. `idx` is the event at which the sink stands.
spec fn claim_ok(rt: Seq<Event>, orig: Seq<Event>, idx: int, i: int) -> bool {
    forward(orig[i]) matches Some(d) ==> (idx <= i + d < rt.len() ==> (rt[i + d] is Placeholder
        <==> (i < idx || rt[i] is Placeholder)))
}

/// How the events that are left stand to the log as it was: an event that is
/// left is as it was, or is a node that has been opened through a link and
/// has left a placeholder.
spec fn replayed(rt: Seq<Event>, orig: Seq<Event>, idx: int) -> bool {
    &&& rt.len() == orig.len()
    &&& forall|j: int| idx <= j < rt.len() ==> (#[trigger] rt[j] == orig[j] || rt[j] is Placeholder)
    &&& forall|j: int|
        idx <= j < rt.len() && #[trigger] rt[j] is Placeholder ==> is_forward_parent(orig, j)
    &&& forall|i: int| 0 <= i < rt.len() ==> #[trigger] claim_ok(rt, orig, idx, i)
}

/// Passing an event that opens nothing through a link keeps what is left
/// as it stands to the log.
proof fn lemma_replayed_step(rt0: Seq<Event>, orig: Seq<Event>, idx: int)
    requires
        replayed(rt0, orig, idx),
        0 <= idx < rt0.len(),
        rt0[idx] is Placeholder || forward(orig[idx]) is None,
    ensures
        replayed(rt0.update(idx, Event::Placeholder), orig, idx + 1),
{
    let rt = rt0.update(idx, Event::Placeholder);
    assert forall|j: int| idx + 1 <= j < rt.len() implies (#[trigger] rt[j] == orig[j]
        || rt[j] is Placeholder) by {
        assert(rt0[j] == orig[j] || rt0[j] is Placeholder);
    }
    assert forall|j: int|
        idx + 1 <= j < rt.len() && #[trigger] rt[j] is Placeholder implies is_forward_parent(
        orig,
        j,
    ) by {
        assert(rt0[j] is Placeholder);
    }
    assert forall|i: int| 0 <= i < rt.len() implies #[trigger] claim_ok(rt, orig, idx + 1, i) by {
        assert(claim_ok(rt0, orig, idx, i));
    }
}

fn take_event(events: &mut Vec<Event>, idx: usize) -> (event: Event)
    requires
        idx < old(events)@.len(),
    ensures
        event == old(events)@[idx as int],
        final(events)@ == old(events)@.update(idx as int, Event::Placeholder),
{
    let mut taken = Event::Placeholder;
    core::mem::swap(&mut events[idx], &mut taken);
    taken
}

/// Replays a log of events into a tree.
pub struct Sink<'l, 'input> {
    builder: rowan::GreenNodeBuilder<'static>,
    tokens: &'l [Token<'input>],
    cursor: usize,
    events: Vec<Event>,
    errors: Vec<ParseError>,
}

impl<'l, 'input> Sink<'l, 'input> {
    /// The tokens that the log was written for.
    pub closed spec fn tokens(&self) -> Seq<Token<'input>> {
        self.tokens@
    }

    /// The log that the sink replays.
    pub closed spec fn events(&self) -> Seq<Event> {
        self.events@
    }

    spec fn steps(&self) -> Seq<Step> {
        builder_steps(self.builder)
    }

    spec fn fresh(&self) -> bool {
        &&& self.steps() == Seq::<Step>::empty()
        &&& self.cursor == 0
        &&& self.errors@ == Seq::<ParseError>::empty()
    }

    /// A sink that has replayed nothing yet.
    pub closed spec fn unused(&self) -> bool {
        self.fresh()
    }

    /// A sink for `events`, which were written for `tokens`.
    pub fn new(tokens: &'l [Token<'input>], events: Vec<Event>) -> (sink: Self)
        ensures
            sink.tokens() == tokens@,
            sink.events() == events@,
            sink.unused(),
    {
        Self { builder: builder_new(), tokens, cursor: 0, events, errors: Vec::new() }
    }

    fn token(&mut self)
        requires
            old(self).cursor < old(self).tokens@.len(),
            in_step(old(self).steps(), old(self).tokens@, old(self).cursor as int),
            old(self).steps().len() > 0,
            open_now(old(self).steps()) >= 1,
        ensures
            final(self).steps() == old(self).steps().push(
                token_step(old(self).tokens@[old(self).cursor as int]),
            ),
            final(self).cursor == old(self).cursor + 1,
            final(self).tokens == old(self).tokens,
            final(self).events == old(self).events,
            final(self).errors == old(self).errors,
            in_step(final(self).steps(), final(self).tokens@, final(self).cursor as int),
            open_now(final(self).steps()) == open_now(old(self).steps()),
    {
        let token = &self.tokens[self.cursor];
        let kind = SyntaxKind::from_token(token.kind).to_raw();
        builder_token(&mut self.builder, kind, token.text);
        self.cursor += 1;
        proof {
            lemma_push_step(old(self).steps(), token_step(*token));
        }
    }

    fn eat_trivia(&mut self)
        requires
            in_step(old(self).steps(), old(self).tokens@, old(self).cursor as int),
            skip_trivia(old(self).tokens@, old(self).cursor as int) > old(self).cursor ==> old(
                self,
            ).steps().len() > 0 && open_now(old(self).steps()) >= 1,
        ensures
            final(self).steps() == old(self).steps() + token_steps(
                old(self).tokens@,
                old(self).cursor as int,
                final(self).cursor as int,
            ),
            final(self).cursor == skip_trivia(old(self).tokens@, old(self).cursor as int),
            final(self).tokens == old(self).tokens,
            final(self).events == old(self).events,
            final(self).errors == old(self).errors,
            in_step(final(self).steps(), final(self).tokens@, final(self).cursor as int),
            open_now(final(self).steps()) == open_now(old(self).steps()),
    {
        let count = self.tokens.len();
        proof {
            assert(self.steps() =~= old(self).steps() + token_steps(
                self.tokens@,
                old(self).cursor as int,
                self.cursor as int,
            ));
        }
        loop
            invariant
                count == self.tokens@.len(),
                self.tokens == old(self).tokens,
                self.events == old(self).events,
                self.errors == old(self).errors,
                old(self).cursor <= self.cursor,
                in_step(self.steps(), self.tokens@, self.cursor as int),
                open_now(self.steps()) == open_now(old(self).steps()),
                skip_trivia(self.tokens@, self.cursor as int) == skip_trivia(
                    old(self).tokens@,
                    old(self).cursor as int,
                ),
                self.cursor > old(self).cursor ==> self.steps().len() > 0 && open_now(
                    self.steps(),
                ) >= 1,
                skip_trivia(old(self).tokens@, old(self).cursor as int) > old(self).cursor ==> old(
                    self,
                ).steps().len() > 0 && open_now(old(self).steps()) >= 1,
                self.steps() == old(self).steps() + token_steps(
                    self.tokens@,
                    old(self).cursor as int,
                    self.cursor as int,
                ),
            ensures
                self.tokens == old(self).tokens,
                self.events == old(self).events,
                self.errors == old(self).errors,
                in_step(self.steps(), self.tokens@, self.cursor as int),
                open_now(self.steps()) == open_now(old(self).steps()),
                self.cursor == skip_trivia(old(self).tokens@, old(self).cursor as int),
                self.steps() == old(self).steps() + token_steps(
                    self.tokens@,
                    old(self).cursor as int,
                    self.cursor as int,
                ),
            decreases count - self.cursor,
        {
            if self.cursor >= count {
                break ;
            }
            if !self.tokens[self.cursor].kind.is_trivia() {
                break ;
            }
            proof {
                lemma_skip_trivia(self.tokens@, old(self).cursor as int);
            }
            self.token();
            proof {
                assert(self.steps() =~= old(self).steps() + token_steps(
                    self.tokens@,
                    old(self).cursor as int,
                    self.cursor as int,
                ));
            }
        }
    }

    fn open_nodes(&mut self, kinds: &Vec<SyntaxKind>)
        requires
            in_step(old(self).steps(), old(self).tokens@, old(self).cursor as int),
            kinds@.len() > 0,
            old(self).steps().len() > 0 ==> open_now(old(self).steps()) >= 1,
        ensures
            final(self).steps() == old(self).steps() + opens(kinds@),
            final(self).cursor == old(self).cursor,
            final(self).tokens == old(self).tokens,
            final(self).events == old(self).events,
            final(self).errors == old(self).errors,
            in_step(final(self).steps(), final(self).tokens@, final(self).cursor as int),
            open_now(final(self).steps()) == open_now(old(self).steps()) + kinds@.len(),
            final(self).steps().len() > 0,
    {
        let count = kinds.len();
        let mut k: usize = count;
        proof {
            assert(self.steps() =~= old(self).steps() + opens(kinds@).subrange(0, 0));
        }
        while k > 0
            invariant
                count == kinds@.len(),
                k <= count,
                self.cursor == old(self).cursor,
                self.tokens == old(self).tokens,
                self.events == old(self).events,
                self.errors == old(self).errors,
                in_step(self.steps(), self.tokens@, self.cursor as int),
                self.steps().len() > 0 ==> open_now(self.steps()) >= 1,
                k < count ==> self.steps().len() > 0,
                open_now(self.steps()) == open_now(old(self).steps()) + (count - k),
                self.steps() == old(self).steps() + opens(kinds@).subrange(0, count - k),
            decreases k,
        {
            k -= 1;
            let ghost before = self.steps();
            builder_start_node(&mut self.builder, kinds[k].to_raw());
            proof {
                lemma_push_step(before, Step::Open(kinds@[k as int].raw()));
                assert(opens(kinds@)[count - 1 - k] == Step::Open(kinds@[k as int].raw()));
                assert(self.steps() =~= old(self).steps() + opens(kinds@).subrange(
                    0,
                    count - k,
                ));
            }
        }
        proof {
            assert(opens(kinds@).subrange(0, count as int) =~= opens(kinds@));
        }
    }

    /// Replays the log: opens and closes the nodes, adds the tokens, the
    /// trivia with them, and collects the diagnostics.
    pub fn finish(self) -> (parse: Parse)
        requires
            self.unused(),
            sink_ready(self.events(), self.tokens()),
        ensures
            parse.steps() == sink_after(
                self.events(),
                self.tokens(),
                self.events().len() as int,
            ).steps,
            parse.diagnostics() == sink_after(
                self.events(),
                self.tokens(),
                self.events().len() as int,
            ).errors,
            parse.wf(),
            parse.text() == tokens_text(
                self.tokens(),
                sink_after(self.events(), self.tokens(), self.events().len() as int).cursor,
            ),
            count_adds(self.events(), self.events().len() as int) == count_solid(
                self.tokens(),
                self.tokens().len() as int,
            ) ==> sink_after(self.events(), self.tokens(), self.events().len() as int).cursor
                == self.tokens().len(),
    {
        let mut sink = self;
        let ghost orig = sink.events@;
        let ghost tokens = sink.tokens@;
        let len = sink.events.len();
        let mut idx: usize = 0;
        proof {
            assert forall|i: int| 0 <= i < orig.len() implies #[trigger] claim_ok(
                orig,
                orig,
                0,
                i,
            ) by {
                assert(!(orig[i] is Placeholder));
                if forward(orig[i]) is Some {
                    assert(link_ok(orig, i));
                    assert(!(orig[i + forward(orig[i])->0] is Placeholder));
                }
            }
        }
        let ghost goal = sink_after(orig, tokens, len as int).steps;
        while idx < len
            invariant
                sink_ready(orig, tokens),
                len == orig.len(),
                idx <= len,
                sink.tokens@ == tokens,
                replayed(sink.events@, orig, idx as int),
                sink.steps() == sink_after(orig, tokens, idx as int).steps,
                sink.cursor == sink_after(orig, tokens, idx as int).cursor,
                sink.errors@ == sink_after(orig, tokens, idx as int).errors,
                in_step(sink.steps(), tokens, sink.cursor as int),
                goal == sink_after(orig, tokens, len as int).steps,
                idx > 0 ==> skip_trivia(tokens, sink.cursor as int) == sink.cursor,
                count_solid(tokens, sink.cursor as int) == count_adds(orig, idx as int),
            decreases len - idx,
        {
            let ghost rt0 = sink.events@;
            let ghost before = sink_after(orig, tokens, idx as int);
            let ghost after = sink_after(orig, tokens, idx + 1);
            let ghost own = event_steps(orig, tokens, idx as int, before.cursor).0;
            let ghost trivia = token_steps(
                tokens,
                event_steps(orig, tokens, idx as int, before.cursor).1,
                after.cursor,
            );
            proof {
                lemma_count_adds_monotonic(orig, idx + 1, len as int);
                lemma_count_solid_monotonic(tokens, sink.cursor as int, tokens.len() as int);
                lemma_tokens_monotonic(tokens, sink.cursor as int, tokens.len() as int);
                lemma_skip_trivia(tokens, sink.cursor as int);
                lemma_sink_grows(orig, tokens, idx + 1, len as int);
                assert(after.steps == before.steps + own + trivia);
                let ghost upto = before.steps + own;
                assert(goal.subrange(0, upto.len() as int) =~= upto) by {
                    assert forall|i: int| 0 <= i < upto.len() implies goal[i] == upto[i] by {
                        assert(goal.subrange(0, after.steps.len() as int)[i] == after.steps[i]);
                    }
                }
                if own.len() > 0 {
                    lemma_room(goal, before.steps, own);
                }
                if trivia.len() > 0 {
                    lemma_room(goal, before.steps + own, trivia);
                }
                assert(claim_ok(rt0, orig, idx as int, idx as int));
                if rt0[idx as int] is Placeholder {
                    let i = choose|i: int|
                        0 <= i < idx && #[trigger] forward(orig[i]) == Some(idx - i);
                    assert(link_ok(orig, i));
                } else {
                    assert(rt0[idx as int] == orig[idx as int]);
                    if is_forward_parent(orig, idx as int) {
                        let i = choose|i: int|
                            0 <= i < idx && #[trigger] forward(orig[i]) == Some(idx - i);
                        assert(claim_ok(rt0, orig, idx as int, i));
                        assert(false);
                    }
                }
            }
            let event = take_event(&mut sink.events, idx);
            match event {
                Event::Startnode { kind, forward_parent } => {
                    let kinds = sink.walk_chain(idx, kind, forward_parent, Ghost(orig), Ghost(rt0));
                    sink.open_nodes(&kinds);
                },
                Event::AddToken => {
                    proof {
                        assert(replayed(sink.events@, orig, idx + 1)) by {
                            lemma_replayed_step(rt0, orig, idx as int);
                        }
                        assert(own =~= seq![token_step(tokens[before.cursor])]);
                        assert(idx > 0);
                        if sink.cursor == tokens.len() {
                            assert(false);
                        }
                    }
                    sink.token();
                    proof {
                        assert(token_steps(tokens, before.cursor, before.cursor + 1) =~= seq![
                            token_step(tokens[before.cursor]),
                        ]);
                    }
                },
                Event::FinishNode => {
                    proof {
                        lemma_replayed_step(rt0, orig, idx as int);
                        assert(own[0] == Step::Close);
                    }
                    let ghost steps = sink.steps();
                    builder_finish_node(&mut sink.builder);
                    proof {
                        lemma_push_step(steps, Step::Close);
                    }
                },
                Event::Error(err) => {
                    proof {
                        lemma_replayed_step(rt0, orig, idx as int);
                    }
                    sink.errors.push(err);
                },
                Event::Placeholder => {
                    proof {
                        lemma_replayed_step(rt0, orig, idx as int);
                    }
                },
            }
            proof {
                let cursor = event_steps(orig, tokens, idx as int, before.cursor).1;
                assert(sink.steps() =~= before.steps + own);
                assert(sink.cursor == cursor);
                lemma_skip_trivia(tokens, sink.cursor as int);
                if skip_trivia(tokens, cursor) > cursor {
                    assert(trivia[0] is Leaf);
                }
            }
            sink.eat_trivia();
            idx += 1;
            proof {
                let (own, cursor) = event_steps(orig, tokens, idx - 1, before.cursor);
                assert(sink.steps() =~= before.steps + own + token_steps(
                    tokens,
                    cursor,
                    skip_trivia(tokens, cursor),
                ));
            }
        }
        proof {
            if count_adds(orig, len as int) == count_solid(tokens, tokens.len() as int) {
                lemma_skip_trivia(tokens, sink.cursor as int);
                if sink.cursor < tokens.len() {
                    lemma_count_solid_monotonic(tokens, sink.cursor + 1, tokens.len() as int);
                    assert(idx > 0);
                    assert(false);
                }
            }
            lemma_tokens_monotonic(tokens, sink.cursor as int, tokens.len() as int);
        }
        let Sink { builder, tokens: _, cursor: _, events: _, errors } = sink;
        Parse::new(builder_finish(builder), errors)
    }

    fn walk_chain(
        &mut self,
        idx: usize,
        kind: SyntaxKind,
        forward_parent: Option<usize>,
        Ghost(orig): Ghost<Seq<Event>>,
        Ghost(rt0): Ghost<Seq<Event>>,
    ) -> (kinds: Vec<SyntaxKind>)
        requires
            linked(orig),
            replayed(rt0, orig, idx as int),
            idx < orig.len(),
            rt0[idx as int] == orig[idx as int],
            orig[idx as int] == (Event::Startnode { kind, forward_parent }),
            old(self).events@ == rt0.update(idx as int, Event::Placeholder),
        ensures
            kinds@ == chain_kinds(orig, idx as int),
            kinds@.len() >= 1,
            replayed(final(self).events@, orig, idx + 1),
            final(self).builder == old(self).builder,
            final(self).cursor == old(self).cursor,
            final(self).tokens == old(self).tokens,
            final(self).errors == old(self).errors,
    {
        let len = self.events.len();
        let mut kinds: Vec<SyntaxKind> = Vec::new();
        kinds.push(kind);
        let mut pos: usize = idx;
        let mut fp: Option<usize> = forward_parent;
        let ghost mut chain: Seq<int> = seq![idx as int];
        proof {
            assert(kinds@ =~= seq![kind]);
            assert(link_ok(orig, idx as int));
            assert(chain_kinds(orig, idx as int) =~= kinds@ + match fp {
                Some(d) => chain_kinds(orig, pos + d),
                None => Seq::empty(),
            });
            assert forall|x: int| 0 <= x < len implies #[trigger] self.events@[x]
                == if chain.contains(x) {
                Event::Placeholder
            } else {
                rt0[x]
            } by {
                if x == idx {
                    assert(chain[0] == x);
                } else if chain.contains(x) {
                    let m = choose|m: int| 0 <= m < chain.len() && chain[m] == x;
                    assert(m == 0);
                }
            }
        }
        loop
            invariant
                linked(orig),
                replayed(rt0, orig, idx as int),
                len == orig.len(),
                self.events@.len() == len,
                idx <= pos < len,
                chain.len() >= 1,
                chain[0] == idx,
                chain.last() == pos,
                kinds@.len() == chain.len(),
                forall|m: int| 0 <= m < chain.len() ==> #[trigger] on_chain(rt0, orig, chain, m),
                chain.len() == 1 || chain[chain.len() - 2] < pos,
                forall|m: int|
                    0 <= m < chain.len() ==> idx <= #[trigger] chain[m] <= pos,
                forward(orig[pos as int]) == match fp {
                    Some(d) => Some(d as int),
                    None => None,
                },
                forall|x: int|
                    0 <= x < len ==> #[trigger] self.events@[x] == if chain.contains(x) {
                        Event::Placeholder
                    } else {
                        rt0[x]
                    },
                chain_kinds(orig, idx as int) == kinds@ + match fp {
                    Some(d) => chain_kinds(orig, pos + d),
                    None => Seq::empty(),
                },
                self.builder == old(self).builder,
                self.cursor == old(self).cursor,
                self.tokens == old(self).tokens,
                self.errors == old(self).errors,
            ensures
                fp is None,
                self.events@.len() == len,
                idx <= pos < len,
                chain.len() >= 1,
                chain[0] == idx,
                chain.last() == pos,
                kinds@.len() == chain.len(),
                forall|m: int| 0 <= m < chain.len() ==> #[trigger] on_chain(rt0, orig, chain, m),
                forall|m: int|
                    0 <= m < chain.len() ==> idx <= #[trigger] chain[m] <= pos,
                forward(orig[pos as int]) is None,
                forall|x: int|
                    0 <= x < len ==> #[trigger] self.events@[x] == if chain.contains(x) {
                        Event::Placeholder
                    } else {
                        rt0[x]
                    },
                chain_kinds(orig, idx as int) == kinds@,
                self.builder == old(self).builder,
                self.cursor == old(self).cursor,
                self.tokens == old(self).tokens,
                self.errors == old(self).errors,
            decreases len - pos,
        {
            let d = match fp {
                Some(d) => d,
                None => {
                    proof {
                        assert(kinds@ + Seq::<SyntaxKind>::empty() =~= kinds@);
                    }
                    break ;
                },
            };
            proof {
                assert(link_ok(orig, pos as int));
                assert(claim_ok(rt0, orig, idx as int, pos as int));
                assert(on_chain(rt0, orig, chain, chain.len() - 1));
                assert(!chain.contains(pos + d)) by {
                    if chain.contains(pos + d) {
                        let m = choose|m: int| 0 <= m < chain.len() && chain[m] == pos + d;
                        assert(chain[m] <= pos);
                    }
                }
            }
            let next = pos + d;
            let ghost before = self.events@;
            let event = take_event(&mut self.events, next);
            let ghost longer = chain.push(next as int);
            match event {
                Event::Startnode { kind, forward_parent } => {
                    kinds.push(kind);
                    fp = forward_parent;
                    proof {
                        assert(link_ok(orig, next as int));
                        assert(chain_kinds(orig, idx as int) =~= kinds@ + match fp {
                            Some(d2) => chain_kinds(orig, next + d2),
                            None => Seq::empty(),
                        });
                    }
                },
                _ => {
                    proof {
                        assert(false);
                    }
                },
            }
            proof {
                assert forall|m: int| 0 <= m < longer.len() implies #[trigger] on_chain(
                    rt0,
                    orig,
                    longer,
                    m,
                ) by {
                    if m < chain.len() {
                        assert(on_chain(rt0, orig, chain, m));
                        if m + 1 < chain.len() {
                            assert(longer[m + 1] == chain[m + 1]);
                        }
                    }
                }
                assert forall|x: int| 0 <= x < len implies #[trigger] self.events@[x]
                    == if longer.contains(x) {
                    Event::Placeholder
                } else {
                    rt0[x]
                } by {
                    if x == next {
                        assert(longer[chain.len() as int] == x);
                    } else if chain.contains(x) {
                        let m = choose|m: int| 0 <= m < chain.len() && chain[m] == x;
                        assert(longer[m] == x);
                    } else if longer.contains(x) {
                        let m = choose|m: int| 0 <= m < longer.len() && longer[m] == x;
                        assert(chain[m] == x);
                    }
                }
                chain = longer;
            }
            pos = next;
        }
        proof {
            let rt = self.events@;
            assert forall|j: int| idx + 1 <= j < rt.len() implies (#[trigger] rt[j] == orig[j]
                || rt[j] is Placeholder) by {
                assert(rt0[j] == orig[j] || rt0[j] is Placeholder);
            }
            assert forall|j: int|
                idx + 1 <= j < rt.len() && #[trigger] rt[j] is Placeholder implies is_forward_parent(
                orig,
                j,
            ) by {
                if chain.contains(j) {
                    let m = choose|m: int| 0 <= m < chain.len() && chain[m] == j;
                    assert(on_chain(rt0, orig, chain, m - 1));
                    assert(link_ok(orig, chain[m - 1]));
                    assert(forward(orig[chain[m - 1]]) == Some(j - chain[m - 1]));
                } else {
                    assert(rt0[j] is Placeholder);
                }
            }
            assert forall|i: int| 0 <= i < rt.len() implies #[trigger] claim_ok(
                rt,
                orig,
                idx + 1,
                i,
            ) by {
                if forward(orig[i]) is Some {
                    let j = i + forward(orig[i])->0;
                    assert(link_ok(orig, i));
                    assert(claim_ok(rt0, orig, idx as int, i));
                    if j >= idx + 1 {
                        if chain.contains(i) {
                            let m = choose|m: int| 0 <= m < chain.len() && chain[m] == i;
                            assert(on_chain(rt0, orig, chain, m));
                            assert(m < chain.len() - 1);
                            assert(chain[m + 1] == j);
                            assert(chain.contains(j));
                        } else {
                            if chain.contains(j) {
                                let m = choose|m: int| 0 <= m < chain.len() && chain[m] == j;
                                assert(m > 0);
                                assert(on_chain(rt0, orig, chain, m - 1));
                                assert(links_apart(orig, i, chain[m - 1]));
                                assert(chain.contains(chain[m - 1]));
                                assert(false);
                            }
                        }
                    }
                }
            }
        }
        kinds
    }
}

/// The link of the chain at `m`: it is a node that had not been opened
/// before, and unless it is the last, its forward parent is the next link.
spec fn on_chain(rt0: Seq<Event>, orig: Seq<Event>, chain: Seq<int>, m: int) -> bool {
    &&& 0 <= chain[m] < orig.len()
    &&& rt0[chain[m]] == orig[chain[m]]
    &&& orig[chain[m]] is Startnode
    &&& m + 1 < chain.len() ==> forward(orig[chain[m]]) == Some(chain[m + 1] - chain[m])
}

} // verus!
