//! What the marker mechanism makes of a chain of operators.
use super::event::{completed_at, forward, preceded_at, views, Event, EventView};
use super::grammar::expr::{leaf_node, InfixOp};
use super::grammar::model::{
    expr_parsed, kept, leaf_parsed, lhs_parsed, operators, operators_parsed, root_parsed,
    stmt_parsed, stmts_parsed, tried,
};
use super::parser::{
    at_start, bumped, looked, node_completed, node_preceded, node_started, peek_at, Progress,
};
use super::resolve::{
    cursor_after, inside, lemma_inside_concat, lemma_replay_concat, lemma_sink_views, link,
    link_inside, replay, steps_of,
};
use super::parse_error::ParseError;
use crate::lexer::TokenKind;
use super::sink::{
    chain_kinds, event_steps, is_forward_parent, opens, sink_after, token_step, token_steps,
    Replay,
};
use super::source::skip_trivia;
use crate::green::Step;
use crate::lexer::Token;
use crate::syntax::SyntaxKind;
use vstd::prelude::*;

verus! {

/// Where the node of a chain of `n` operators opens in its log.
pub open spec fn chain_top(n: nat) -> int {
    if n == 0 {
        0
    } else {
        6 * n - 2
    }
}

/// The log of an operand followed by `n` operators, each with its right
/// operand, as the parser writes it: the operand; then, for each operator,
/// its token, the node of what stands so far preceded by a new node, the
/// right operand, and the new node completed as an `InfixExpr`.
pub open spec fn chain_log(n: nat) -> Seq<Event>
    decreases n,
{
    if n == 0 {
        leaf_node(SyntaxKind::Literal)
    } else {
        let bumped = chain_log((n - 1) as nat).push(Event::AddToken);
        let preceded = preceded_at(bumped, chain_top((n - 1) as nat));
        completed_at(preceded + leaf_node(SyntaxKind::Literal), 6 * n - 2, SyntaxKind::InfixExpr)
    }
}

/// The tree of a chain of `n` operators over `tokens`, written down from
/// left to right: for no operator, the operand; else a node that holds the
/// tree of the chain without its last operator, then that operator and its
/// right operand. Every operator's node is the first child of the next, so
/// the tree is `n` operator nodes deep along its left edge.
pub open spec fn left_tree(n: nat, tokens: Seq<Token>) -> Seq<Step>
    decreases n,
{
    if n == 0 {
        operand(tokens, 0)
    } else {
        seq![Step::Open(SyntaxKind::InfixExpr.raw())] + left_tree((n - 1) as nat, tokens)
            + last_operand(tokens, n as int)
    }
}

/// An operand: a literal that holds the token at `at`.
pub open spec fn operand(tokens: Seq<Token>, at: int) -> Seq<Step> {
    seq![Step::Open(SyntaxKind::Literal.raw()), token_step(tokens[at]), Step::Close]
}

/// The `b`th operator, its right operand, and the closing of its node.
pub open spec fn last_operand(tokens: Seq<Token>, b: int) -> Seq<Step> {
    seq![token_step(tokens[2 * b - 1])] + operand(tokens, 2 * b) + seq![Step::Close]
}

/// The entry at `i` in the log of a chain of `n` operators.
spec fn chain_event(n: nat, i: int) -> Event {
    if i == 0 {
        Event::Startnode {
            kind: SyntaxKind::Literal,
            forward_parent: if n >= 1 {
                Some(4usize)
            } else {
                None
            },
        }
    } else if i == 1 {
        Event::AddToken
    } else if i == 2 {
        Event::FinishNode
    } else {
        let b = (i + 3) / 6;
        let r = (i + 3) % 6;
        if r == 0 {
            Event::AddToken
        } else if r == 1 {
            Event::Startnode {
                kind: SyntaxKind::InfixExpr,
                forward_parent: if b < n {
                    Some(6usize)
                } else {
                    None
                },
            }
        } else if r == 2 {
            Event::Startnode { kind: SyntaxKind::Literal, forward_parent: None }
        } else if r == 3 {
            Event::AddToken
        } else {
            Event::FinishNode
        }
    }
}

proof fn lemma_chain_events(n: nat)
    ensures
        chain_log(n).len() == 6 * n + 3,
        forall|i: int| 0 <= i < 6 * n + 3 ==> #[trigger] chain_log(n)[i] == chain_event(n, i),
    decreases n,
{
    if n > 0 {
        lemma_chain_events((n - 1) as nat);
        let before = chain_log((n - 1) as nat);
        assert(before[chain_top((n - 1) as nat)] == chain_event(
            (n - 1) as nat,
            chain_top((n - 1) as nat),
        ));
        assert forall|i: int| 0 <= i < 6 * n + 3 implies #[trigger] chain_log(n)[i] == chain_event(
            n,
            i,
        ) by {
            if i < 6 * n - 3 {
                assert(before[i] == chain_event((n - 1) as nat, i));
            }
        }
    }
}

/// Every forward parent in the log of a chain opens at the place of an
/// operator's node.
proof fn lemma_chain_links(n: nat, j: int)
    requires
        0 <= j < 6 * n + 3,
    ensures
        is_forward_parent(chain_log(n), j) <==> (j >= 4 && (j + 3) % 6 == 1),
{
    lemma_chain_events(n);
    let log = chain_log(n);
    if j >= 4 && (j + 3) % 6 == 1 {
        let i = if j == 4 {
            0
        } else {
            j - 6
        };
        assert(log[i] == chain_event(n, i));
        assert(forward(log[i]) == Some(j - i));
    } else {
        if is_forward_parent(log, j) {
            let i = choose|i: int| 0 <= i < j && #[trigger] forward(log[i]) == Some(j - i);
            assert(log[i] == chain_event(n, i));
            assert(false);
        }
    }
}

/// The kinds along the chain from the node of the first `b` operators:
/// that node's kind, then one `InfixExpr` for each later operator.
spec fn kinds_from(n: nat, b: nat) -> Seq<SyntaxKind>
    decreases n - b,
{
    if b >= n {
        seq![
            if b == 0 {
                SyntaxKind::Literal
            } else {
                SyntaxKind::InfixExpr
            },
        ]
    } else {
        seq![
            if b == 0 {
                SyntaxKind::Literal
            } else {
                SyntaxKind::InfixExpr
            },
        ] + kinds_from(n, b + 1)
    }
}

proof fn lemma_chain_kinds(n: nat, b: nat)
    requires
        b <= n,
    ensures
        chain_kinds(chain_log(n), chain_top(b)) == kinds_from(n, b),
    decreases n - b,
{
    lemma_chain_events(n);
    let log = chain_log(n);
    assert(log[chain_top(b)] == chain_event(n, chain_top(b)));
    if b < n {
        lemma_chain_kinds(n, b + 1);
    }
}

/// As many openings of an `InfixExpr` as there are operators.
spec fn heads(n: nat) -> Seq<Step> {
    Seq::new(n, |i: int| Step::Open(SyntaxKind::InfixExpr.raw()))
}

proof fn lemma_opens_of_chain(n: nat, b: nat)
    requires
        b <= n,
    ensures
        opens(kinds_from(n, b)) == heads((n - b) as nat) + seq![
            Step::Open(
                if b == 0 {
                    SyntaxKind::Literal.raw()
                } else {
                    SyntaxKind::InfixExpr.raw()
                },
            ),
        ],
        kinds_from(n, b).len() == n - b + 1,
    decreases n - b,
{
    if b < n {
        lemma_opens_of_chain(n, b + 1);
        let rest = kinds_from(n, b + 1);
        let all = kinds_from(n, b);
        assert(all.len() == rest.len() + 1);
        assert forall|j: int| 0 <= j < all.len() implies #[trigger] opens(all)[j] == (heads(
            (n - b) as nat,
        ) + seq![
            Step::Open(
                if b == 0 {
                    SyntaxKind::Literal.raw()
                } else {
                    SyntaxKind::InfixExpr.raw()
                },
            ),
        ])[j] by {
            if j < all.len() - 1 {
                assert(all[all.len() - 1 - j] == rest[rest.len() - 1 - j]);
                assert(opens(rest)[j] == Step::Open(rest[rest.len() - 1 - j].raw()));
                if j < rest.len() - 1 {
                    assert(opens(rest)[j] == heads((n - b - 1) as nat)[j]);
                }
            }
        }
        assert(opens(all) =~= heads((n - b) as nat) + seq![
            Step::Open(
                if b == 0 {
                    SyntaxKind::Literal.raw()
                } else {
                    SyntaxKind::InfixExpr.raw()
                },
            ),
        ]);
    } else {
        assert(opens(kinds_from(n, b)) =~= heads(0) + seq![
            Step::Open(
                if b == 0 {
                    SyntaxKind::Literal.raw()
                } else {
                    SyntaxKind::InfixExpr.raw()
                },
            ),
        ]);
    }
}

/// No token is trivia.
pub open spec fn all_solid(tokens: Seq<Token>) -> bool {
    forall|i: int| 0 <= i < tokens.len() ==> !(#[trigger] tokens[i]).kind.trivia()
}

/// What the sink has written after the first operand and `b` operators.
spec fn written_after(n: nat, tokens: Seq<Token>, b: nat) -> Seq<Step>
    decreases b,
{
    if b == 0 {
        heads(n) + operand(tokens, 0)
    } else {
        written_after(n, tokens, (b - 1) as nat) + last_operand(tokens, b as int)
    }
}

proof fn lemma_solid_rest(tokens: Seq<Token>, c: int)
    requires
        all_solid(tokens),
        0 <= c <= tokens.len(),
    ensures
        skip_trivia(tokens, c) == c,
        token_steps(tokens, c, c) == Seq::<Step>::empty(),
{
    assert(token_steps(tokens, c, c) =~= Seq::<Step>::empty());
}

/// One step of the sink over a log of a chain, where no token is trivia.
proof fn lemma_sink_step(n: nat, tokens: Seq<Token>, k: int, own: Seq<Step>, cursor: int)
    requires
        all_solid(tokens),
        0 < k <= 6 * n + 3,
        0 <= cursor <= tokens.len(),
        event_steps(
            chain_log(n),
            tokens,
            k - 1,
            sink_after(chain_log(n), tokens, k - 1).cursor,
        ) == (own, cursor),
        !(chain_log(n)[k - 1] is Error),
    ensures
        sink_after(chain_log(n), tokens, k) == (Replay {
            steps: sink_after(chain_log(n), tokens, k - 1).steps + own,
            cursor,
            errors: sink_after(chain_log(n), tokens, k - 1).errors,
        }),
{
    lemma_solid_rest(tokens, cursor);
    let before = sink_after(chain_log(n), tokens, k - 1);
    assert(before.steps + own + Seq::<Step>::empty() =~= before.steps + own);
}

proof fn lemma_sink_blocks(n: nat, tokens: Seq<Token>, b: nat)
    requires
        all_solid(tokens),
        tokens.len() == 2 * n + 1,
        b <= n,
    ensures
        sink_after(chain_log(n), tokens, 6 * b as int + 3) == (Replay {
            steps: written_after(n, tokens, b),
            cursor: 2 * b as int + 1,
            errors: Seq::empty(),
        }),
    decreases b,
{
    lemma_chain_events(n);
    let log = chain_log(n);
    let lit = Step::Open(SyntaxKind::Literal.raw());
    if b == 0 {
        assert(log[0] == chain_event(n, 0));
        assert(log[1] == chain_event(n, 1));
        assert(log[2] == chain_event(n, 2));
        lemma_chain_kinds(n, 0);
        lemma_opens_of_chain(n, 0);
        assert(!is_forward_parent(log, 0));
        let s0 = sink_after(log, tokens, 0);
        assert(s0.steps =~= Seq::<Step>::empty());
        lemma_sink_step(n, tokens, 1, heads(n) + seq![lit], 0);
        assert(token_steps(tokens, 0, 1) =~= seq![token_step(tokens[0])]);
        lemma_sink_step(n, tokens, 2, seq![token_step(tokens[0])], 1);
        lemma_sink_step(n, tokens, 3, seq![Step::Close], 1);
        assert(sink_after(log, tokens, 3).steps =~= written_after(n, tokens, 0));
    } else {
        lemma_sink_blocks(n, tokens, (b - 1) as nat);
        let k = 6 * b - 3;
        assert(log[k] == chain_event(n, k));
        assert(log[k + 1] == chain_event(n, k + 1));
        assert(log[k + 2] == chain_event(n, k + 2));
        assert(log[k + 3] == chain_event(n, k + 3));
        assert(log[k + 4] == chain_event(n, k + 4));
        assert(log[k + 5] == chain_event(n, k + 5));
        lemma_chain_links(n, k + 1);
        lemma_chain_links(n, k + 2);
        assert(chain_kinds(log, k + 2) =~= seq![SyntaxKind::Literal]);
        assert(opens(seq![SyntaxKind::Literal]) =~= seq![lit]);
        let c = 2 * b - 1;
        assert(token_steps(tokens, c, c + 1) =~= seq![token_step(tokens[c])]);
        assert(token_steps(tokens, c + 1, c + 2) =~= seq![token_step(tokens[c + 1])]);
        lemma_sink_step(n, tokens, k + 1, seq![token_step(tokens[c])], c + 1);
        lemma_sink_step(n, tokens, k + 2, Seq::empty(), c + 1);
        lemma_sink_step(n, tokens, k + 3, seq![lit], c + 1);
        lemma_sink_step(n, tokens, k + 4, seq![token_step(tokens[c + 1])], c + 2);
        lemma_sink_step(n, tokens, k + 5, seq![Step::Close], c + 2);
        lemma_sink_step(n, tokens, k + 6, seq![Step::Close], c + 2);
        assert(sink_after(log, tokens, k + 6).steps =~= written_after(n, tokens, b));
    }
}

proof fn lemma_written_is_tree(n: nat, tokens: Seq<Token>, b: nat)
    requires
        b <= n,
    ensures
        written_after(n, tokens, b) == heads((n - b) as nat) + left_tree(b, tokens),
    decreases b,
{
    if b == 0 {
    } else {
        lemma_written_is_tree(n, tokens, (b - 1) as nat);
        assert(heads((n - b + 1) as nat) =~= heads((n - b) as nat) + seq![
            Step::Open(SyntaxKind::InfixExpr.raw()),
        ]);
        assert(written_after(n, tokens, b) =~= heads((n - b) as nat) + left_tree(b, tokens));
    }
}

/// A chain of `n` operators becomes a tree that leans to the left: the sink
/// makes of the parser's log the tree in which each operator's node holds,
/// as its first child, the node of the operators before it. The tree is
/// neither flat nor leaning to the right, whatever `n` is.
pub proof fn lemma_chain_leans_left(n: nat, tokens: Seq<Token>)
    requires
        all_solid(tokens),
        tokens.len() == 2 * n + 1,
    ensures
        sink_after(chain_log(n), tokens, chain_log(n).len() as int).steps == left_tree(n, tokens),
        sink_after(chain_log(n), tokens, chain_log(n).len() as int).cursor == tokens.len(),
{
    lemma_chain_events(n);
    lemma_sink_blocks(n, tokens, n);
    lemma_written_is_tree(n, tokens, n);
    assert(heads(0) + left_tree(n, tokens) =~= left_tree(n, tokens));
}

/// The kinds of operator of one binding power: `+` and `-` where `low`
/// holds, `*` and `/` where not.
pub open spec fn of_power(kind: TokenKind, low: bool) -> bool {
    if low {
        kind == TokenKind::Plus || kind == TokenKind::Minus
    } else {
        kind == TokenKind::Star || kind == TokenKind::Slash
    }
}

/// The tokens are a chain of `n` operators of one binding power: numbers
/// with one operator between each two, and no trivia.
pub open spec fn chain_tokens(tokens: Seq<Token>, n: nat, low: bool) -> bool {
    &&& tokens.len() == 2 * n + 1
    &&& forall|j: int|
        0 <= j < tokens.len() ==> if j % 2 == 0 {
            (#[trigger] tokens[j]).kind == TokenKind::Number
        } else {
            of_power(tokens[j].kind, low)
        }
}

/// How strongly the operators of a chain bind on their right.
pub open spec fn right_power(low: bool) -> u8 {
    if low {
        2
    } else {
        4
    }
}

proof fn lemma_chain_solid(tokens: Seq<Token>, n: nat, low: bool, c: int)
    requires
        chain_tokens(tokens, n, low),
        0 <= c <= tokens.len(),
    ensures
        all_solid(tokens),
        skip_trivia(tokens, c) == c,
        peek_at(tokens, c) == if c < tokens.len() {
            Some(tokens[c].kind)
        } else {
            None
        },
{
    assert forall|i: int| 0 <= i < tokens.len() implies !(#[trigger] tokens[i]).kind.trivia() by {
        if i % 2 == 0 {
        } else {
            assert(of_power(tokens[i].kind, low));
        }
    }
    if c < tokens.len() {
        assert(!tokens[c].kind.trivia());
    }
}

/// The right operand of an operator of a chain is one number: the operator
/// behind it binds no more strongly on its left than the one before it on
/// its right.
proof fn lemma_chain_operand(s: Progress, tokens: Seq<Token>, n: nat, low: bool)
    requires
        chain_tokens(tokens, n, low),
        0 <= s.cursor < tokens.len(),
        s.cursor % 2 == 0,
    ensures
        expr_parsed(s, tokens, right_power(low)).0.log == s.log + views(
            leaf_node(SyntaxKind::Literal),
        ),
        expr_parsed(s, tokens, right_power(low)).0.cursor == s.cursor + 1,
        expr_parsed(s, tokens, right_power(low)).1 is Some,
{
    let c = s.cursor;
    lemma_chain_solid(tokens, n, low, c);
    lemma_chain_solid(tokens, n, low, c + 1);
    assert(tokens[c].kind == TokenKind::Number);
    let s1 = looked(s, tokens, seq![TokenKind::Number]);
    let leaf = leaf_parsed(s1, tokens, SyntaxKind::Literal);
    assert(lhs_parsed(s, tokens) == (leaf, Some(s.log.len() as int)));
    assert(leaf.cursor == c + 1);
    assert(leaf.log =~= s.log + views(leaf_node(SyntaxKind::Literal)));
    assert(kept(leaf, s.cursor, tokens) == leaf);
    let pos = s.log.len() as int;
    if c + 1 < tokens.len() {
        assert(of_power(tokens[c + 1].kind, low));
        let op = InfixOp::of_kind(Some(tokens[c + 1].kind))->0;
        assert(op.binding_power_spec().0 < right_power(low));
        assert(operators_parsed(leaf, tokens, pos, right_power(low)) == (
            looked(leaf, tokens, tried(op)),
            Some(pos),
        ));
    } else {
        assert(operators_parsed(leaf, tokens, pos, right_power(low)) == (
            looked(leaf, tokens, operators()),
            Some(pos),
        ));
    }
}

/// Behind `k` operators of a chain the rule for operators writes the rest
/// of the chain, one node of an operator around the other.
proof fn lemma_chain_operators(
    s: Progress,
    pre: Seq<EventView>,
    tokens: Seq<Token>,
    n: nat,
    low: bool,
    k: nat,
)
    requires
        chain_tokens(tokens, n, low),
        k <= n,
        s.cursor == 2 * k + 1,
        s.log == pre + views(chain_log(k)),
    ensures
        operators_parsed(s, tokens, pre.len() + chain_top(k), 0).0.log == pre + views(
            chain_log(n),
        ),
        operators_parsed(s, tokens, pre.len() + chain_top(k), 0).0.cursor == tokens.len(),
    decreases n - k,
{
    let c = s.cursor;
    let lhs = pre.len() + chain_top(k);
    lemma_chain_solid(tokens, n, low, c);
    lemma_chain_events(k);
    if k < n {
        lemma_chain_solid(tokens, n, low, c + 1);
        assert(of_power(tokens[c].kind, low));
        let op = InfixOp::of_kind(Some(tokens[c].kind))->0;
        let s0 = looked(s, tokens, tried(op));
        let s1 = bumped(s0, tokens);
        let s2 = node_preceded(s1, lhs);
        lemma_chain_operand(s2, tokens, n, low);
        assert(op.binding_power_spec().1 == right_power(low));
        let (r, rhs) = expr_parsed(s2, tokens, op.binding_power_spec().1);
        let node = s1.log.len() as int;
        assert(kept(r, s2.cursor, tokens) == r);
        let s3 = node_completed(r, node, SyntaxKind::InfixExpr);
        lemma_chain_events(k + 1);
        assert(chain_log(k)[chain_top(k)] is Startnode);
        assert(s3.log =~= pre + views(chain_log(k + 1))) by {
            let next = chain_log(k + 1);
            assert(s3.log.len() == pre.len() + next.len());
            assert forall|j: int| 0 <= j < s3.log.len() implies s3.log[j] == (pre + views(next))[j] by {
                if j < pre.len() {
                } else {
                    let x = j - pre.len();
                    assert(views(next)[x] == next[x]@);
                    if x < 6 * k + 3 {
                        assert(views(chain_log(k))[x] == chain_log(k)[x]@);
                    }
                }
            }
        }
        assert(operators_parsed(s, tokens, lhs, 0) == operators_parsed(s3, tokens, node, 0));
        lemma_chain_operators(s3, pre, tokens, n, low, k + 1);
    } else {
        assert(operators_parsed(s, tokens, lhs, 0) == (
            looked(s, tokens, operators()),
            Some(lhs),
        ));
    }
}

/// What the grammar writes for a chain of operators: the log of the chain,
/// in the node of the root.
proof fn lemma_chain_root(tokens: Seq<Token>, n: nat, low: bool)
    requires
        chain_tokens(tokens, n, low),
    ensures
        root_parsed(at_start(), tokens).log == seq![
            EventView::Startnode { kind: SyntaxKind::Root, forward_parent: None },
        ] + views(chain_log(n)) + seq![EventView::FinishNode],
{
    let opened = node_started(at_start());
    let pre = seq![EventView::Placeholder];
    lemma_chain_solid(tokens, n, low, 0);
    lemma_chain_solid(tokens, n, low, 1);
    lemma_chain_solid(tokens, n, low, tokens.len() as int);
    assert(tokens[0].kind == TokenKind::Number);
    let s0 = looked(opened, tokens, Seq::empty());
    let s1 = looked(s0, tokens, seq![TokenKind::LetKw]);
    let s2 = looked(s1, tokens, seq![TokenKind::Number]);
    let leaf = leaf_parsed(s2, tokens, SyntaxKind::Literal);
    assert(lhs_parsed(s1, tokens) == (leaf, Some(1int)));
    assert(leaf.log =~= pre + views(chain_log(0)));
    assert(kept(leaf, s1.cursor, tokens) == leaf);
    lemma_chain_operators(leaf, pre, tokens, n, low, 0);
    let done = operators_parsed(leaf, tokens, 1, 0).0;
    assert(expr_parsed(s1, tokens, 0).0 == done);
    assert(stmt_parsed(s0, tokens).0 == done);
    assert(kept(done, s0.cursor + 1, tokens) == done);
    assert(stmts_parsed(done, tokens) == looked(done, tokens, Seq::empty()));
    assert(stmts_parsed(opened, tokens) == looked(done, tokens, Seq::empty()));
    lemma_chain_events(n);
    assert(root_parsed(at_start(), tokens).log =~= seq![
        EventView::Startnode { kind: SyntaxKind::Root, forward_parent: None },
    ] + views(chain_log(n)) + seq![EventView::FinishNode]);
}

proof fn lemma_chain_inside(n: nat)
    ensures
        inside(views(chain_log(n))),
{
    lemma_chain_events(n);
    let log = views(chain_log(n));
    assert forall|i: int| 0 <= i < log.len() implies #[trigger] link_inside(log, i) by {
        assert(log[i] == chain_log(n)[i]@);
        assert(chain_log(n)[i] == chain_event(n, i));
        if link(log[i]) is Some {
            let d = link(log[i])->0;
            assert(log[i + d] == chain_log(n)[i + d]@);
            assert(chain_log(n)[i + d] == chain_event(n, i + d));
        }
    }
}

/// The parser makes of a chain of `n` operators of one binding power the
/// tree that leans to the left: in the root stands the node of the last
/// operator, which holds the node of the operators before it, that operator,
/// and its right operand. The tree is `n` operator nodes deep, neither flat
/// nor leaning to the right.
pub proof fn lemma_chain_parsed(tokens: Seq<Token>, n: nat, low: bool)
    requires
        chain_tokens(tokens, n, low),
    ensures
        steps_of(root_parsed(at_start(), tokens).log, tokens, 0) == seq![
            Step::Open(SyntaxKind::Root.raw()),
        ] + left_tree(n, tokens) + seq![Step::Close],
{
    let first = seq![EventView::Startnode { kind: SyntaxKind::Root, forward_parent: None }];
    let last = seq![EventView::FinishNode];
    let mid = views(chain_log(n));
    lemma_chain_root(tokens, n, low);
    lemma_chain_solid(tokens, n, low, 0);
    lemma_chain_solid(tokens, n, low, tokens.len() as int);
    lemma_chain_inside(n);
    lemma_chain_events(n);
    lemma_chain_leans_left(n, tokens);
    lemma_sink_views(chain_log(n), tokens, chain_log(n).len() as int);
    assert(first + mid + last =~= first + (mid + last));
    assert forall|i: int| 0 <= i < first.len() implies #[trigger] link_inside(first, i) by {}
    assert forall|i: int| 0 <= i < last.len() implies #[trigger] link_inside(last, i) by {}
    lemma_inside_concat(mid, last);
    lemma_replay_concat(first, mid + last, tokens, (mid + last).len() as int, 0);
    lemma_replay_concat(mid, last, tokens, 1, 0);
    assert(replay(first, tokens, 0, 0) == (Seq::<Step>::empty(), 0int));
    assert(!super::resolve::is_target(first, 0));
    assert(super::resolve::kinds_from(first, 0) =~= seq![SyntaxKind::Root]);
    assert(opens(seq![SyntaxKind::Root]) =~= seq![Step::Open(SyntaxKind::Root.raw())]);
    assert(token_steps(tokens, 0, 0) =~= Seq::<Step>::empty());
    assert(steps_of(first, tokens, 0) =~= seq![Step::Open(SyntaxKind::Root.raw())]);
    assert(cursor_after(first, tokens, 0) == 0);
    let c = tokens.len() as int;
    assert(replay(last, tokens, 0, c) == (Seq::<Step>::empty(), c));
    assert(token_steps(tokens, c, c) =~= Seq::<Step>::empty());
    assert(steps_of(last, tokens, c) =~= seq![Step::Close]);
    assert(steps_of(first + (mid + last), tokens, 0) =~= seq![Step::Open(SyntaxKind::Root.raw())]
        + left_tree(n, tokens) + seq![Step::Close]);
}

/// Parsing a text whose tokens are a chain of `n` operators of one binding
/// power yields the tree that leans to the left.
pub proof fn lemma_chain_parse(
    input: &str,
    tokens: Seq<Token>,
    events: Seq<Event>,
    parse: crate::Parse,
    n: nat,
    low: bool,
)
    requires
        super::parser::parsed_from(input, tokens, events, parse),
        chain_tokens(tokens, n, low),
    ensures
        parse.steps() == seq![Step::Open(SyntaxKind::Root.raw())] + left_tree(n, tokens) + seq![
            Step::Close,
        ],
        parse.diagnostics().len() == 0,
{
    lemma_chain_parsed(tokens, n, low);
    lemma_sink_views(events, tokens, events.len() as int);
    lemma_chain_root(tokens, n, low);
    lemma_chain_events(n);
    let log = views(events);
    assert forall|i: int| 0 <= i < log.len() implies !(#[trigger] log[i] is Error) by {
        if 0 < i < log.len() - 1 {
            assert(log[i] == views(chain_log(n))[i - 1]);
            assert(views(chain_log(n))[i - 1] == chain_log(n)[i - 1]@);
            assert(chain_log(n)[i - 1] == chain_event(n, i - 1));
        }
    }
    super::determined::lemma_no_diagnostics(log, log.len() as int);
    super::determined::lemma_errors_views(events, tokens, events.len() as int);
    assert(parse.diagnostics().map_values(|e: ParseError| super::determined::shown(e)).len()
        == 0);
}

} // verus!
