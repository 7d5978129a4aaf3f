//! The rules of the grammar. Each rule reads tokens from the parser and
//! writes the events of what it has read at the end of the log.
pub mod expr;
pub mod model;
pub mod progress;
pub mod shape;
pub mod stmt;

use super::event::{
    closed, lemma_closed_concat, lemma_closed_empty, lemma_closed_flat, lemma_closed_wrap,
    tree_log, Event,
};
use super::marker::CompletedMarker;
use super::parser::{recovery, reported, Parser};
use crate::lexer::TokenKind;
use crate::syntax::SyntaxKind;
use vstd::prelude::*;

verus! {

/// What the rule has written: the entries of `after` from the end of
/// `before` on.
pub open spec fn written(before: &Parser, after: &Parser) -> Seq<Event> {
    after.events().subrange(before.events().len() as int, after.events().len() as int)
}

/// What holds of every rule, from the parser `before` it to the parser
/// `after` it: the log of before is kept, what was written after it is a
/// closed run of entries, the tokens are the same and the cursor has not gone
/// back.
pub open spec fn parsed(before: &Parser, after: &Parser) -> bool {
    &&& after.wf()
    &&& after.tokens() == before.tokens()
    &&& before.cursor() <= after.cursor()
    &&& before.events().len() <= after.events().len()
    &&& after.events().subrange(0, before.events().len() as int) == before.events()
    &&& closed(written(before, after))
}

/// `done` is a node that the rule has completed and that has no forward
/// parent yet.
pub open spec fn completed(before: &Parser, after: &Parser, done: &CompletedMarker) -> bool {
    &&& before.events().len() <= done.pos() < after.events().len()
    &&& after.events()[done.pos()] matches Event::Startnode { forward_parent: None, .. }
}

/// What `Parser::error` writes is a closed run of entries.
pub proof fn lemma_reported_closed(before: &Parser, after: &Parser, expected: Seq<TokenKind>)
    requires
        reported(before, after, expected),
    ensures
        written(before, after) == seq![after.events()[before.events().len() as int]] + recovery(
            before.peek_spec(),
        ),
        closed(written(before, after)),
        after.events().subrange(0, before.events().len() as int) == before.events(),
{
    let at = before.events().len() as int;
    let e = after.events()[at];
    let rec = recovery(before.peek_spec());
    assert(written(before, after) =~= seq![e] + rec);
    assert(after.events().subrange(0, at) =~= before.events());
    lemma_closed_flat(e);
    if rec.len() > 0 {
        lemma_closed_flat(Event::AddToken);
        lemma_closed_wrap(seq![Event::AddToken], SyntaxKind::Error);
        assert(rec =~= seq![Event::Startnode { kind: SyntaxKind::Error, forward_parent: None }]
            + seq![Event::AddToken] + seq![Event::FinishNode]);
    } else {
        lemma_closed_empty();
    }
    lemma_closed_concat(seq![e], rec);
}

/// One rule after another: what both have written is a closed run.
pub proof fn lemma_parsed_then(before: &Parser, between: &Parser, after: &Parser)
    requires
        before.events().len() <= between.events().len() <= after.events().len(),
        between.events().subrange(0, before.events().len() as int) == before.events(),
        after.events().subrange(0, between.events().len() as int) == between.events(),
        closed(written(before, between)),
        closed(written(between, after)),
    ensures
        written(before, after) == written(before, between) + written(between, after),
        closed(written(before, after)),
        after.events().subrange(0, before.events().len() as int) == before.events(),
{
    let a = before.events().len() as int;
    let b = between.events().len() as int;
    assert forall|i: int| 0 <= i < b implies after.events()[i] == between.events()[i] by {
        assert(after.events().subrange(0, b)[i] == between.events()[i]);
    }
    assert(written(before, after) =~= written(before, between) + written(between, after));
    assert(after.events().subrange(0, a) =~= between.events().subrange(0, a));
    lemma_closed_concat(written(before, between), written(between, after));
}

/// A node around what was parsed: where `opened` is `start` with the node's
/// placeholder, `inner` is the parser before the node is completed and
/// `after` the parser after it, what was written since `start` is the node's
/// opening, what was written since `opened`, and the node's closing.
pub proof fn lemma_wrapped(
    start: &Parser,
    opened: &Parser,
    inner: &Parser,
    after: &Parser,
    kind: SyntaxKind,
)
    requires
        opened.events() == start.events().push(Event::Placeholder),
        opened.events().len() <= inner.events().len(),
        inner.events().subrange(0, opened.events().len() as int) == opened.events(),
        closed(written(opened, inner)),
        after.events() == inner.events().update(
            start.events().len() as int,
            Event::Startnode { kind, forward_parent: None },
        ).push(Event::FinishNode),
    ensures
        written(start, after) == seq![Event::Startnode { kind, forward_parent: None }] + written(
            opened,
            inner,
        ) + seq![Event::FinishNode],
        closed(written(start, after)),
        tree_log(written(start, after)),
        after.events().subrange(0, start.events().len() as int) == start.events(),
        start.events().len() < after.events().len(),
        after.events()[start.events().len() as int] == (Event::Startnode {
            kind,
            forward_parent: None,
        }),
{
    let a = start.events().len() as int;
    let body = written(opened, inner);
    let whole = seq![Event::Startnode { kind, forward_parent: None }] + body
        + seq![Event::FinishNode];
    lemma_closed_wrap(body, kind);
    assert forall|i: int| 0 <= i < opened.events().len() implies inner.events()[i]
        == opened.events()[i] by {
        assert(inner.events().subrange(0, opened.events().len() as int)[i] == opened.events()[i]);
    }
    assert(written(start, after) =~= whole) by {
        assert forall|i: int| 0 <= i < whole.len() implies written(start, after)[i] == whole[i] by {
            if 0 < i < whole.len() - 1 {
                assert(body[i - 1] == inner.events()[a + i]);
            }
        }
    }
    assert(after.events().subrange(0, a) =~= start.events());
}

/// The whole text: statements up to the end, in a node of kind `Root`.
pub fn root(p: &mut Parser) -> (done: CompletedMarker)
    requires
        old(p).wf(),
    ensures
        parsed(old(p), final(p)),
        tree_log(written(old(p), final(p))),
        written(old(p), final(p))[0] == (Event::Startnode {
            kind: SyntaxKind::Root,
            forward_parent: None,
        }),
        done.pos() == old(p).events().len(),
        final(p).peek_spec() is None,
        final(p).progress() == model::root_parsed(old(p).progress(), old(p).tokens()),
{
    let ghost start_len = p.events().len() as int;
    let m = p.start();
    let ghost opened = *p;
    proof {
        lemma_closed_empty();
        assert(written(&opened, p) =~= Seq::<Event>::empty());
        assert(p.events().subrange(0, opened.events().len() as int) =~= opened.events());
    }
    loop
        invariant
            p.wf(),
            p.tokens() == old(p).tokens(),
            opened.cursor() <= p.cursor(),
            opened.events() == old(p).events().push(Event::Placeholder),
            opened.events().len() <= p.events().len(),
            p.events().subrange(0, opened.events().len() as int) == opened.events(),
            closed(written(&opened, p)),
            m.pos() == start_len,
            start_len == old(p).events().len(),
            model::stmts_parsed(opened.progress(), opened.tokens()) == model::stmts_parsed(
                p.progress(),
                p.tokens(),
            ),
        ensures
            p.wf(),
            p.tokens() == old(p).tokens(),
            opened.cursor() <= p.cursor(),
            opened.events() == old(p).events().push(Event::Placeholder),
            opened.events().len() <= p.events().len(),
            p.events().subrange(0, opened.events().len() as int) == opened.events(),
            closed(written(&opened, p)),
            m.pos() == start_len,
            start_len == old(p).events().len(),
            p.peek_spec() is None,
            model::stmts_parsed(opened.progress(), opened.tokens()) == p.progress(),
        decreases p.remaining(),
    {
        proof {
            crate::parser::source::lemma_skip_trivia(p.tokens(), p.cursor());
        }
        if p.at_end() {
            break ;
        }
        let ghost before = *p;
        stmt::stmt(p);
        proof {
            lemma_parsed_then(&opened, &before, p);
            assert(model::kept(p.progress(), before.progress().cursor + 1, p.tokens())
                == p.progress());
        }
    }
    let ghost inner = *p;
    let done = m.complete(p, SyntaxKind::Root);
    proof {
        lemma_wrapped(old(p), &opened, &inner, p, SyntaxKind::Root);
        assert(written(old(p), p)[0] == (Event::Startnode {
            kind: SyntaxKind::Root,
            forward_parent: None,
        }));
        assert(p.peek_spec() == inner.peek_spec());
    }
    done
}

} // verus!
