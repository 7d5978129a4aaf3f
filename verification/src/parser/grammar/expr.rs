use super::model::{
    expr_parsed, kept, leaf_parsed, lemma_looked_again, lhs_parsed, operators, operators_parsed,
    paren_parsed, place, prefix_parsed, tried, within,
};
use super::{completed, lemma_parsed_then, lemma_reported_closed, lemma_wrapped, parsed, written};
use crate::lexer::TokenKind;
use crate::lexer::Token;
use crate::parser::event::{
    closed, completed_at, lemma_closed_concat, lemma_closed_flat, lemma_closed_precede,
    preceded_at, Event,
};
use crate::parser::marker::CompletedMarker;
use crate::parser::parser::{
    bumped, looked, node_completed, node_preceded, peek_at, reported, Parser, Progress,
};
use crate::parser::source::lemma_skip_trivia;
use crate::syntax::SyntaxKind;
use vstd::prelude::*;

verus! {

/// An operator between two operands.
#[derive(Debug, Clone, Copy, PartialEq, Eq, Structural)]
pub enum InfixOp {
    Add,
    Sub,
    Mul,
    Div,
}

impl InfixOp {
    /// How strongly the operator binds the operand on its left and the one on
    /// its right. The right side binds more strongly, so that a chain of
    /// operators of one strength groups to the left.
    pub open spec fn binding_power_spec(self) -> (u8, u8) {
        match self {
            InfixOp::Add | InfixOp::Sub => (1, 2),
            InfixOp::Mul | InfixOp::Div => (3, 4),
        }
    }

    /// How strongly the operator binds on its left and on its right.
    pub fn binding_power(self) -> (power: (u8, u8))
        ensures
            power == self.binding_power_spec(),
    {
        match self {
            InfixOp::Add | InfixOp::Sub => (1, 2),
            InfixOp::Mul | InfixOp::Div => (3, 4),
        }
    }

    /// The operator that a token of `kind` stands for.
    pub open spec fn of_kind(kind: Option<TokenKind>) -> Option<InfixOp> {
        match kind {
            Some(TokenKind::Plus) => Some(InfixOp::Add),
            Some(TokenKind::Minus) => Some(InfixOp::Sub),
            Some(TokenKind::Star) => Some(InfixOp::Mul),
            Some(TokenKind::Slash) => Some(InfixOp::Div),
            _ => None,
        }
    }
}

/// How strongly the sign of a negation binds its operand: more strongly than
/// any operator between two operands.
pub const NEGATION_POWER: u8 = 5;

/// The kinds of token with which an expression can start.
pub open spec fn starts_expr(kind: Option<TokenKind>) -> bool {
    kind == Some(TokenKind::Number) || kind == Some(TokenKind::Ident) || kind == Some(
        TokenKind::Minus,
    ) || kind == Some(TokenKind::LParen)
}

/// The kinds that are looked for where an expression starts, in the order in
/// which a diagnostic names them.
pub open spec fn expr_starters() -> Seq<TokenKind> {
    seq![TokenKind::Number, TokenKind::Ident, TokenKind::Minus, TokenKind::LParen]
}

/// An expression. Where none starts, an error is reported and nothing else
/// is written.
pub fn expr(p: &mut Parser) -> (done: Option<CompletedMarker>)
    requires
        old(p).wf(),
        old(p).tokens().len() > 0,
    ensures
        parsed(old(p), final(p)),
        done is Some <==> starts_expr(old(p).peek_spec()),
        done matches Some(d) ==> completed(old(p), final(p), &d) && final(p).cursor() > old(
            p,
        ).next_solid(),
        done is None ==> reported(old(p), final(p), old(p).expected() + expr_starters()),
        (final(p).progress(), place(done)) == expr_parsed(old(p).progress(), old(p).tokens(), 0),
    decreases old(p).remaining(), 3int,
{
    expr_binding_power(p, 0)
}

/// An expression whose operators bind at least as strongly as
/// `minimum_binding_power` on their left: an operand, then, as long as such an
/// operator follows, the operator and its right operand. Each operator's node
/// encloses what was parsed before it.
pub fn expr_binding_power(p: &mut Parser, minimum_binding_power: u8) -> (done: Option<
    CompletedMarker,
>)
    requires
        old(p).wf(),
        old(p).tokens().len() > 0,
    ensures
        parsed(old(p), final(p)),
        done is Some <==> starts_expr(old(p).peek_spec()),
        done matches Some(d) ==> completed(old(p), final(p), &d) && final(p).cursor() > old(
            p,
        ).next_solid(),
        done is None ==> reported(old(p), final(p), old(p).expected() + expr_starters()),
        (final(p).progress(), place(done)) == expr_parsed(
            old(p).progress(),
            old(p).tokens(),
            minimum_binding_power,
        ),
    decreases old(p).remaining(), 2int,
{
    let ghost a = p.events().len() as int;
    let ghost tokens = p.tokens();
    proof {
        lemma_skip_trivia(p.tokens(), p.cursor());
    }
    let mut lhs = match lhs(p) {
        Some(lhs) => lhs,
        None => {
            return None;
        },
    };
    loop
        invariant_except_break
            expr_parsed(old(p).progress(), tokens, minimum_binding_power) == operators_parsed(
                p.progress(),
                tokens,
                lhs.pos(),
                minimum_binding_power,
            ),
        invariant
            parsed(old(p), p),
            tokens == old(p).tokens(),
            completed(old(p), p, &lhs),
            p.cursor() > old(p).next_solid(),
            p.tokens().len() > 0,
            a == old(p).events().len(),
            old(p).cursor() <= old(p).next_solid(),
        ensures
            parsed(old(p), p),
            completed(old(p), p, &lhs),
            p.cursor() > old(p).next_solid(),
            expr_parsed(old(p).progress(), old(p).tokens(), minimum_binding_power) == (
                p.progress(),
                Some(lhs.pos()),
            ),
        decreases p.remaining(),
    {
        let ghost at_top = p.progress();
        proof {
            lemma_skip_trivia(p.tokens(), p.cursor());
            lemma_looked_again(
                at_top,
                tokens,
                seq![TokenKind::Plus],
                seq![TokenKind::Minus],
            );
            lemma_looked_again(
                at_top,
                tokens,
                seq![TokenKind::Plus, TokenKind::Minus],
                seq![TokenKind::Star],
            );
            lemma_looked_again(
                at_top,
                tokens,
                seq![TokenKind::Plus, TokenKind::Minus, TokenKind::Star],
                seq![TokenKind::Slash],
            );
            assert(seq![TokenKind::Plus] + seq![TokenKind::Minus] =~= seq![
                TokenKind::Plus,
                TokenKind::Minus,
            ]);
            assert(seq![TokenKind::Plus, TokenKind::Minus] + seq![TokenKind::Star] =~= seq![
                TokenKind::Plus,
                TokenKind::Minus,
                TokenKind::Star,
            ]);
            assert(seq![TokenKind::Plus, TokenKind::Minus, TokenKind::Star] + seq![
                TokenKind::Slash,
            ] =~= operators());
        }
        let op = if p.at(TokenKind::Plus) {
            InfixOp::Add
        } else if p.at(TokenKind::Minus) {
            InfixOp::Sub
        } else if p.at(TokenKind::Star) {
            InfixOp::Mul
        } else if p.at(TokenKind::Slash) {
            InfixOp::Div
        } else {
            break ;
        };
        proof {
            assert(InfixOp::of_kind(peek_at(tokens, at_top.cursor)) == Some(op));
            assert(p.progress() == looked(at_top, tokens, tried(op)));
        }
        let (left_binding_power, right_binding_power) = op.binding_power();
        if left_binding_power < minimum_binding_power {
            break ;
        }
        let ghost s0 = *p;
        p.bump();
        let ghost s1 = *p;
        let ghost at = lhs.pos();
        let m = lhs.precede(p);
        let ghost s2 = *p;
        proof {
            lemma_skip_trivia(p.tokens(), p.cursor());
        }
        let parsed_rhs = expr_binding_power(p, right_binding_power).is_some();
        let ghost s3 = *p;
        proof {
            assert(s3.events()[m.pos()] == s2.events()[m.pos()]) by {
                assert(s3.events().subrange(0, s2.events().len() as int)[m.pos()]
                    == s2.events()[m.pos()]);
            }
        }
        lhs = m.complete(p, SyntaxKind::InfixExpr);
        proof {
            lemma_infix_written(old(p), &s0, &s1, &s2, &s3, p, at);
            lemma_operator_parsed(
                at_top,
                tokens,
                at,
                minimum_binding_power,
                op,
                s3.progress(),
                p.progress(),
                parsed_rhs,
            );
        }
        if !parsed_rhs {
            break ;
        }
    }
    Some(lhs)
}

/// What an operator and its right operand add to what was written: the node
/// that stood at `at` has the operator's node as forward parent, and all that
/// was written since `start` is a closed run of entries.
proof fn lemma_infix_written(
    start: &Parser,
    s0: &Parser,
    s1: &Parser,
    s2: &Parser,
    s3: &Parser,
    after: &Parser,
    at: int,
)
    requires
        start.events().len() <= s0.events().len(),
        s0.events().subrange(0, start.events().len() as int) == start.events(),
        closed(written(start, s0)),
        start.events().len() <= at < s0.events().len(),
        s0.events()[at] matches Event::Startnode { forward_parent: None, .. },
        s1.events() == s0.events().push(Event::AddToken),
        s1.events().len() <= usize::MAX,
        s2.events() == preceded_at(s1.events(), at),
        s2.events().len() <= s3.events().len(),
        s3.events().subrange(0, s2.events().len() as int) == s2.events(),
        closed(written(s2, s3)),
        after.events() == completed_at(
            s3.events(),
            s1.events().len() as int,
            SyntaxKind::InfixExpr,
        ),
    ensures
        start.events().len() <= after.events().len(),
        after.events().subrange(0, start.events().len() as int) == start.events(),
        closed(written(start, after)),
        after.events()[s1.events().len() as int] == (Event::Startnode {
            kind: SyntaxKind::InfixExpr,
            forward_parent: None,
        }),
{
    let a = start.events().len() as int;
    let i = at - a;
    let kind = s0.events()[at]->kind;
    let s = written(start, s1);
    let t = written(s2, s3);
    assert(s =~= written(start, s0) + seq![Event::AddToken]);
    lemma_closed_flat(Event::AddToken);
    lemma_closed_concat(written(start, s0), seq![Event::AddToken]);
    assert(s[i] == s0.events()[at]);
    lemma_closed_precede(s, i, kind, SyntaxKind::InfixExpr, t);
    let whole = s.update(
        i,
        Event::Startnode { kind, forward_parent: Some((s.len() - i) as usize) },
    ) + seq![Event::Startnode { kind: SyntaxKind::InfixExpr, forward_parent: None }] + t
        + seq![Event::FinishNode];
    assert forall|j: int| 0 <= j < s2.events().len() implies s3.events()[j] == s2.events()[j] by {
        assert(s3.events().subrange(0, s2.events().len() as int)[j] == s2.events()[j]);
    }
    assert forall|j: int| 0 <= j < a implies s0.events()[j] == start.events()[j] by {
        assert(s0.events().subrange(0, a)[j] == start.events()[j]);
    }
    assert(written(start, after) =~= whole) by {
        assert forall|j: int| 0 <= j < whole.len() implies written(start, after)[j] == whole[j] by {
            if s.len() < j < whole.len() - 1 {
                assert(t[j - s.len() - 1] == s3.events()[a + j]);
            }
        }
    }
    assert(after.events().subrange(0, a) =~= start.events());
}

/// One turn of the rule for operators: where the operator `op` follows and
/// binds strongly enough, the rule goes on from `after`, the parser behind
/// the operator's completed node, or ends there where the right operand is
/// missing.
proof fn lemma_operator_parsed(
    s: Progress,
    tokens: Seq<Token>,
    lhs: int,
    minimum: u8,
    op: InfixOp,
    inner: Progress,
    after: Progress,
    rhs: bool,
)
    requires
        within(s, tokens),
        0 <= lhs < s.log.len(),
        InfixOp::of_kind(peek_at(tokens, s.cursor)) == Some(op),
        op.binding_power_spec().0 >= minimum,
        ({
            let s2 = node_preceded(bumped(looked(s, tokens, tried(op)), tokens), lhs);
            let (r, found) = expr_parsed(s2, tokens, op.binding_power_spec().1);
            &&& r == inner
            &&& s2.cursor <= r.cursor <= tokens.len()
            &&& rhs == (found is Some)
            &&& after == node_completed(r, s2.log.len() - 1, SyntaxKind::InfixExpr)
        }),
    ensures
        operators_parsed(s, tokens, lhs, minimum) == if rhs {
            operators_parsed(
                after,
                tokens,
                node_preceded(bumped(looked(s, tokens, tried(op)), tokens), lhs).log.len() - 1,
                minimum,
            )
        } else {
            (
                after,
                Some(
                    node_preceded(bumped(looked(s, tokens, tried(op)), tokens), lhs).log.len()
                        - 1,
                ),
            )
        },
{
    let s1 = bumped(looked(s, tokens, tried(op)), tokens);
    let s2 = node_preceded(s1, lhs);
    assert(s1.log.len() == s2.log.len() - 1);
    assert(kept(inner, s2.cursor, tokens) == inner);
}

/// An operand: a literal, a variable, a negation or an expression in
/// parentheses, as the next token tells. Where none of them starts, an error
/// is reported.
fn lhs(p: &mut Parser) -> (done: Option<CompletedMarker>)
    requires
        old(p).wf(),
        old(p).tokens().len() > 0,
    ensures
        parsed(old(p), final(p)),
        done is Some <==> starts_expr(old(p).peek_spec()),
        done matches Some(d) ==> completed(old(p), final(p), &d) && final(p).cursor() > old(
            p,
        ).next_solid(),
        done is None ==> reported(old(p), final(p), old(p).expected() + expr_starters()),
        (final(p).progress(), place(done)) == lhs_parsed(old(p).progress(), old(p).tokens()),
    decreases old(p).remaining(), 1int,
{
    let ghost tokens = p.tokens();
    let ghost at_top = p.progress();
    proof {
        lemma_skip_trivia(p.tokens(), p.cursor());
        lemma_looked_again(at_top, tokens, seq![TokenKind::Number], seq![TokenKind::Ident]);
        lemma_looked_again(
            at_top,
            tokens,
            seq![TokenKind::Number, TokenKind::Ident],
            seq![TokenKind::Minus],
        );
        lemma_looked_again(
            at_top,
            tokens,
            seq![TokenKind::Number, TokenKind::Ident, TokenKind::Minus],
            seq![TokenKind::LParen],
        );
        assert(seq![TokenKind::Number] + seq![TokenKind::Ident] =~= seq![
            TokenKind::Number,
            TokenKind::Ident,
        ]);
        assert(seq![TokenKind::Number, TokenKind::Ident] + seq![TokenKind::Minus] =~= seq![
            TokenKind::Number,
            TokenKind::Ident,
            TokenKind::Minus,
        ]);
        assert(seq![TokenKind::Number, TokenKind::Ident, TokenKind::Minus] + seq![
            TokenKind::LParen,
        ] =~= expr_starters());
    }
    let cm = if p.at(TokenKind::Number) {
        literal(p)
    } else if p.at(TokenKind::Ident) {
        variable_ref(p)
    } else if p.at(TokenKind::Minus) {
        prefix_expr(p)
    } else if p.at(TokenKind::LParen) {
        paren_expr(p)
    } else {
        let ghost before = *p;
        p.error();
        proof {
            assert(before.expected() =~= old(p).expected() + expr_starters());
            lemma_reported_closed(&before, p, before.expected());
        }
        return None;
    };
    Some(cm)
}

/// A number, in a node of kind `Literal`.
fn literal(p: &mut Parser) -> (done: CompletedMarker)
    requires
        old(p).wf(),
        old(p).peek_spec() == Some(TokenKind::Number),
    ensures
        parsed(old(p), final(p)),
        completed(old(p), final(p), &done),
        final(p).cursor() == old(p).next_solid() + 1,
        written(old(p), final(p)) == leaf_node(SyntaxKind::Literal),
        done.pos() == old(p).events().len(),
        final(p).progress() == leaf_parsed(old(p).progress(), old(p).tokens(), SyntaxKind::Literal),
{
    leaf(p, SyntaxKind::Literal)
}

/// A name, in a node of kind `VariableRef`.
fn variable_ref(p: &mut Parser) -> (done: CompletedMarker)
    requires
        old(p).wf(),
        old(p).peek_spec() == Some(TokenKind::Ident),
    ensures
        parsed(old(p), final(p)),
        completed(old(p), final(p), &done),
        final(p).cursor() == old(p).next_solid() + 1,
        written(old(p), final(p)) == leaf_node(SyntaxKind::VariableRef),
        done.pos() == old(p).events().len(),
        final(p).progress() == leaf_parsed(
            old(p).progress(),
            old(p).tokens(),
            SyntaxKind::VariableRef,
        ),
{
    leaf(p, SyntaxKind::VariableRef)
}

/// The entries of a node of `kind` that holds one token.
pub open spec fn leaf_node(kind: SyntaxKind) -> Seq<Event> {
    seq![Event::Startnode { kind, forward_parent: None }, Event::AddToken, Event::FinishNode]
}

/// The next token, in a node of `kind`.
fn leaf(p: &mut Parser, kind: SyntaxKind) -> (done: CompletedMarker)
    requires
        old(p).wf(),
        old(p).peek_spec() is Some,
    ensures
        parsed(old(p), final(p)),
        completed(old(p), final(p), &done),
        final(p).cursor() == old(p).next_solid() + 1,
        written(old(p), final(p)) == leaf_node(kind),
        done.pos() == old(p).events().len(),
        final(p).progress() == leaf_parsed(old(p).progress(), old(p).tokens(), kind),
{
    proof {
        lemma_skip_trivia(p.tokens(), p.cursor());
    }
    let m = p.start();
    let ghost opened = *p;
    p.bump();
    let ghost inner = *p;
    let done = m.complete(p, kind);
    proof {
        lemma_closed_flat(Event::AddToken);
        assert(written(&opened, &inner) =~= seq![Event::AddToken]);
        assert(inner.events().subrange(0, opened.events().len() as int) =~= opened.events());
        lemma_wrapped(old(p), &opened, &inner, p, kind);
        assert(written(old(p), p) =~= leaf_node(kind));
    }
    done
}

/// A negation: `-` and the expression that it negates, in a node of kind
/// `PrefixExpr`.
fn prefix_expr(p: &mut Parser) -> (done: CompletedMarker)
    requires
        old(p).wf(),
        old(p).peek_spec() == Some(TokenKind::Minus),
    ensures
        parsed(old(p), final(p)),
        completed(old(p), final(p), &done),
        final(p).cursor() > old(p).next_solid(),
        done.pos() == old(p).events().len(),
        final(p).progress() == prefix_parsed(old(p).progress(), old(p).tokens()),
    decreases old(p).remaining(), 0int,
{
    proof {
        lemma_skip_trivia(p.tokens(), p.cursor());
    }
    let m = p.start();
    let ghost opened = *p;
    p.bump();
    let ghost s1 = *p;
    proof {
        lemma_closed_flat(Event::AddToken);
        assert(written(&opened, &s1) =~= seq![Event::AddToken]);
        assert(s1.events().subrange(0, opened.events().len() as int) =~= opened.events());
    }
    expr_binding_power(p, NEGATION_POWER);
    let ghost inner = *p;
    proof {
        lemma_parsed_then(&opened, &s1, &inner);
        assert(inner.events()[m.pos()] == opened.events()[m.pos()]) by {
            assert(inner.events().subrange(0, opened.events().len() as int)[m.pos()]
                == opened.events()[m.pos()]);
        }
    }
    let done = m.complete(p, SyntaxKind::PrefixExpr);
    proof {
        lemma_wrapped(old(p), &opened, &inner, p, SyntaxKind::PrefixExpr);
    }
    done
}

/// An expression in parentheses, in a node of kind `ParenExpr`. The
/// expression may be missing; a missing `)` is reported.
fn paren_expr(p: &mut Parser) -> (done: CompletedMarker)
    requires
        old(p).wf(),
        old(p).peek_spec() == Some(TokenKind::LParen),
    ensures
        parsed(old(p), final(p)),
        completed(old(p), final(p), &done),
        final(p).cursor() > old(p).next_solid(),
        done.pos() == old(p).events().len(),
        final(p).progress() == paren_parsed(old(p).progress(), old(p).tokens()),
    decreases old(p).remaining(), 0int,
{
    proof {
        lemma_skip_trivia(p.tokens(), p.cursor());
    }
    let m = p.start();
    let ghost opened = *p;
    p.bump();
    let ghost s1 = *p;
    proof {
        lemma_closed_flat(Event::AddToken);
        assert(written(&opened, &s1) =~= seq![Event::AddToken]);
        assert(s1.events().subrange(0, opened.events().len() as int) =~= opened.events());
    }
    expr_binding_power(p, 0);
    let ghost s2 = *p;
    proof {
        lemma_parsed_then(&opened, &s1, &s2);
        lemma_skip_trivia(p.tokens(), p.cursor());
    }
    p.expect(TokenKind::RParen);
    let ghost inner = *p;
    proof {
        if s2.peek_spec() == Some(TokenKind::RParen) {
            assert(written(&s2, &inner) =~= seq![Event::AddToken]);
            assert(inner.events().subrange(0, s2.events().len() as int) =~= s2.events());
        } else {
            lemma_reported_closed(&s2, &inner, s2.expected().push(TokenKind::RParen));
        }
        lemma_parsed_then(&opened, &s2, &inner);
        assert(inner.events()[m.pos()] == opened.events()[m.pos()]) by {
            assert(inner.events().subrange(0, opened.events().len() as int)[m.pos()]
                == opened.events()[m.pos()]);
        }
    }
    let done = m.complete(p, SyntaxKind::ParenExpr);
    proof {
        lemma_wrapped(old(p), &opened, &inner, p, SyntaxKind::ParenExpr);
    }
    done
}

} // verus!
