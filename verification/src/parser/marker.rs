use super::event::{completed_at, lemma_count_adds_same, preceded_at, Event, EventView};
use super::parser::{node_completed, node_preceded, Parser};
use crate::syntax::SyntaxKind;
use drop_bomb::DropBomb;
use vstd::prelude::*;

verus! {

/// The guard of a marker, as a type that is carried and not looked into.
#[verifier::external_type_specification]
#[verifier::external_body]
pub struct ExDropBomb(DropBomb);

/// `DropBomb::new`: a guard that panics with `message` if it is dropped
/// before it is defused.
#[verifier::external_body]
fn arm(message: &'static str) -> DropBomb {
    DropBomb::new(message)
}

/// `DropBomb::defuse`: the guard may be dropped from now on.
#[verifier::external_body]
fn defuse(bomb: &mut DropBomb) {
    bomb.defuse()
}

/// The handle of a node that has been started and is not yet completed. It
/// must be completed before it is dropped: dropping it before panics.
pub struct Marker {
    pos: usize,
    bomb: DropBomb,
}

impl Marker {
    /// The place in the log of the node's placeholder.
    pub closed spec fn pos(&self) -> int {
        self.pos as int
    }

    /// The marker of the node that starts at `pos` in the log.
    pub fn new(pos: usize) -> (marker: Self)
        ensures
            marker.pos() == pos,
    {
        Self { pos, bomb: arm("Markers _must_ be completed before being dropped!") }
    }

    /// Completes the node: its placeholder becomes the opening of a node of
    /// `kind`, and the closing is written at the end of the log.
    pub fn complete(self, p: &mut Parser, kind: SyntaxKind) -> (done: CompletedMarker)
        requires
            0 <= self.pos() < old(p).events().len(),
            old(p).events()[self.pos()] is Placeholder,
        ensures
            final(p).events() == completed_at(old(p).events(), self.pos(), kind),
            final(p).same_place(old(p)),
            final(p).progress() == node_completed(old(p).progress(), self.pos(), kind),
            done.pos() == self.pos(),
            old(p).wf() ==> final(p).wf(),
    {
        let Marker { pos, bomb } = self;
        let mut bomb = bomb;
        defuse(&mut bomb);
        let event_at_pos = p.event_at_mut(pos);
        *event_at_pos = Event::Startnode { kind, forward_parent: None };
        p.emit_event(Event::FinishNode);
        proof {
            lemma_count_adds_same(old(p).events(), p.events(), old(p).events().len() as int);
            assert(p.log() =~= old(p).log().update(
                pos as int,
                EventView::Startnode { kind, forward_parent: None },
            ) + seq![EventView::FinishNode]);
        }
        CompletedMarker { pos }
    }
}

/// The handle of a completed node.
pub struct CompletedMarker {
    pos: usize,
}

impl CompletedMarker {
    /// The place in the log at which the node opens.
    pub closed spec fn pos(&self) -> int {
        self.pos as int
    }

    /// Starts a node that will enclose this one: the new node's placeholder
    /// is written at the end of the log, and this node's forward parent
    /// becomes the distance to it.
    pub fn precede(self, p: &mut Parser) -> (marker: Marker)
        requires
            0 <= self.pos() < old(p).events().len(),
            old(p).events()[self.pos()] is Startnode,
        ensures
            final(p).events() == preceded_at(old(p).events(), self.pos()),
            final(p).same_place(old(p)),
            final(p).progress() == node_preceded(old(p).progress(), self.pos()),
            marker.pos() == old(p).events().len(),
            old(p).wf() ==> final(p).wf(),
    {
        let new_m = p.start();
        let distance = new_m.pos - self.pos;
        let event_at_pos = p.event_at_mut(self.pos);
        match event_at_pos {
            Event::Startnode { kind, .. } => {
                let kind = *kind;
                *event_at_pos = Event::Startnode { kind, forward_parent: Some(distance) };
            },
            _ => {},
        }
        proof {
            assert(p.events() =~= old(p).events().update(
                self.pos(),
                Event::Startnode {
                    kind: old(p).events()[self.pos()]->kind,
                    forward_parent: Some((old(p).events().len() - self.pos()) as usize),
                },
            ).push(Event::Placeholder));
            lemma_count_adds_same(old(p).events(), p.events(), old(p).events().len() as int);
            assert(p.log() =~= old(p).log().update(
                self.pos(),
                EventView::Startnode {
                    kind: old(p).log()[self.pos()]->kind,
                    forward_parent: Some((old(p).log().len() - self.pos()) as usize),
                },
            ) + seq![EventView::Placeholder]);
        }
        new_m
    }
}

} // verus!
