use super::expr::expr;
use super::model::{place, stmt_parsed, variable_def_parsed};
use super::{completed, lemma_parsed_then, lemma_reported_closed, parsed, written};
use crate::lexer::TokenKind;
use crate::parser::event::{lemma_closed_flat, Event};
use crate::parser::marker::CompletedMarker;
use crate::parser::parser::Parser;
use crate::parser::source::lemma_skip_trivia;
use crate::syntax::SyntaxKind;
use vstd::prelude::*;

verus! {

/// A statement: a variable definition where `let` stands, an expression
/// elsewhere. A token is taken wherever one is left.
pub fn stmt(p: &mut Parser) -> (done: Option<CompletedMarker>)
    requires
        old(p).wf(),
        old(p).peek_spec() is Some,
    ensures
        parsed(old(p), final(p)),
        final(p).cursor() > old(p).next_solid(),
        done matches Some(d) ==> completed(old(p), final(p), &d),
        (final(p).progress(), place(done)) == stmt_parsed(old(p).progress(), old(p).tokens()),
{
    proof {
        lemma_skip_trivia(p.tokens(), p.cursor());
    }
    if p.at(TokenKind::LetKw) {
        Some(variable_def(p))
    } else {
        expr(p)
    }
}

/// A variable definition: `let`, a name, `=` and a value, in a node of kind
/// `VariableDef`. What is missing is reported and left out.
fn variable_def(p: &mut Parser) -> (done: CompletedMarker)
    requires
        old(p).wf(),
        old(p).peek_spec() == Some(TokenKind::LetKw),
    ensures
        parsed(old(p), final(p)),
        final(p).cursor() > old(p).next_solid(),
        completed(old(p), final(p), &done),
        done.pos() == old(p).events().len(),
        final(p).progress() == variable_def_parsed(old(p).progress(), old(p).tokens()),
{
    proof {
        lemma_skip_trivia(p.tokens(), p.cursor());
    }
    let ghost start_len = p.events().len() as int;
    let m = p.start();
    let ghost opened = *p;
    p.bump();
    let ghost s1 = *p;
    proof {
        lemma_skip_trivia(p.tokens(), p.cursor());
        lemma_closed_flat(Event::AddToken);
        assert(written(&opened, &s1) =~= seq![Event::AddToken]);
        assert(s1.events().subrange(0, opened.events().len() as int) =~= opened.events());
    }
    p.expect(TokenKind::Ident);
    let ghost s2 = *p;
    proof {
        lemma_skip_trivia(p.tokens(), p.cursor());
        if s1.peek_spec() == Some(TokenKind::Ident) {
            assert(written(&s1, &s2) =~= seq![Event::AddToken]);
            assert(s2.events().subrange(0, s1.events().len() as int) =~= s1.events());
        } else {
            lemma_reported_closed(&s1, &s2, s1.expected().push(TokenKind::Ident));
        }
        lemma_parsed_then(&opened, &s1, &s2);
    }
    p.expect(TokenKind::Equals);
    let ghost s3 = *p;
    proof {
        lemma_skip_trivia(p.tokens(), p.cursor());
        if s2.peek_spec() == Some(TokenKind::Equals) {
            assert(written(&s2, &s3) =~= seq![Event::AddToken]);
            assert(s3.events().subrange(0, s2.events().len() as int) =~= s2.events());
        } else {
            lemma_reported_closed(&s2, &s3, s2.expected().push(TokenKind::Equals));
        }
        lemma_parsed_then(&opened, &s2, &s3);
    }
    expr(p);
    let ghost s4 = *p;
    proof {
        lemma_parsed_then(&opened, &s3, &s4);
        assert(s4.events()[start_len] == opened.events()[start_len]) by {
            assert(s4.events().subrange(0, opened.events().len() as int)[start_len]
                == opened.events()[start_len]);
        }
    }
    let done = m.complete(p, SyntaxKind::VariableDef);
    proof {
        super::lemma_wrapped(old(p), &opened, &s4, p, SyntaxKind::VariableDef);
    }
    done
}

} // verus!
