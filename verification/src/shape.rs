//! What holds of the nodes that the grammar writes: a node of an operator
//! has its operator among its children, and a variable starts with its name.
use crate::green::{lemma_steps_concat, lemma_steps_prefix, step_depth, Step};
use crate::syntax::SyntaxKind;
use vstd::prelude::*;

verus! {

/// Never more nodes close than have opened, and in the end all are closed.
pub open spec fn balanced(steps: Seq<Step>) -> bool {
    &&& forall|n: int| 0 <= n <= steps.len() ==> #[trigger] step_depth(steps, n) >= 0
    &&& step_depth(steps, steps.len() as int) == 0
}

/// The raw kinds of the operators between two operands.
pub open spec fn operator_raw(kind: u16) -> bool {
    kind == SyntaxKind::Plus.raw() || kind == SyntaxKind::Minus.raw() || kind
        == SyntaxKind::Star.raw() || kind == SyntaxKind::Slash.raw()
}

/// `step` is the token that a node of the raw kind `node` must have among
/// its children: an operator for an `InfixExpr`, a `-` for a `PrefixExpr`.
pub open spec fn wanted_leaf(step: Step, node: u16) -> bool {
    match step {
        Step::Leaf(kind, _) => (node == SyntaxKind::InfixExpr.raw() && operator_raw(kind)) || (node
            == SyntaxKind::PrefixExpr.raw() && kind == SyntaxKind::Minus.raw()),
        _ => false,
    }
}

/// The step at `q` is a token that the node that opens at `p` must have, and
/// it is a child of that node: it stands where only that node is open
/// within.
pub open spec fn child_leaf(steps: Seq<Step>, p: int, q: int) -> bool {
    &&& 0 <= p < q < steps.len()
    &&& steps[p] is Open
    &&& wanted_leaf(steps[q], steps[p]->Open_0)
    &&& step_depth(steps, q) == step_depth(steps, p + 1)
    &&& forall|x: int| p < x <= q ==> #[trigger] step_depth(steps, x) >= step_depth(steps, p + 1)
}

/// The node that opens at `p`, if one opens there, has what lowering asks
/// of it: an `InfixExpr` or a `PrefixExpr` its operator as a child, a
/// `VariableRef` a token as its first child.
pub open spec fn need_met(steps: Seq<Step>, p: int) -> bool {
    match steps[p] {
        Step::Open(kind) => if kind == SyntaxKind::InfixExpr.raw() || kind
            == SyntaxKind::PrefixExpr.raw() {
            exists|q: int| #[trigger] child_leaf(steps, p, q)
        } else if kind == SyntaxKind::VariableRef.raw() {
            p + 1 < steps.len() && steps[p + 1] is Leaf
        } else {
            true
        },
        _ => true,
    }
}

/// Every node in the steps has what lowering asks of it.
pub open spec fn sound(steps: Seq<Step>) -> bool {
    forall|p: int| 0 <= p < steps.len() ==> #[trigger] need_met(steps, p)
}

/// The steps are those of whole nodes and tokens, each node with what
/// lowering asks of it.
#[verifier::opaque]
pub open spec fn shaped(steps: Seq<Step>) -> bool {
    balanced(steps) && sound(steps)
}

/// Every step is a token.
pub open spec fn all_leaves(steps: Seq<Step>) -> bool {
    forall|i: int| 0 <= i < steps.len() ==> #[trigger] steps[i] is Leaf
}

/// The depths in steps put one after the other.
pub proof fn lemma_depth_concat(a: Seq<Step>, b: Seq<Step>)
    ensures
        forall|n: int| 0 <= n <= a.len() ==> #[trigger] step_depth(a + b, n) == step_depth(a, n),
        forall|n: int|
            0 <= n <= b.len() ==> step_depth(a + b, a.len() + n) == step_depth(a, a.len() as int)
                + #[trigger] step_depth(b, n),
{
    assert forall|n: int| 0 <= n <= a.len() implies #[trigger] step_depth(a + b, n) == step_depth(
        a,
        n,
    ) by {
        lemma_steps_prefix(a + b, a, n);
    }
    assert forall|n: int| 0 <= n <= b.len() implies step_depth(a + b, a.len() + n) == step_depth(
        a,
        a.len() as int,
    ) + #[trigger] step_depth(b, n) by {
        lemma_steps_concat(a, b, n);
    }
}

/// Tokens open and close nothing.
pub proof fn lemma_leaves_depth(steps: Seq<Step>, n: int)
    requires
        all_leaves(steps),
        0 <= n <= steps.len(),
    ensures
        step_depth(steps, n) == 0,
    decreases n,
{
    if n > 0 {
        lemma_leaves_depth(steps, n - 1);
    }
}

/// Tokens alone are well shaped.
pub proof fn lemma_shaped_leaves(steps: Seq<Step>)
    requires
        all_leaves(steps),
    ensures
        shaped(steps),
{
    reveal(shaped);
    assert forall|n: int| 0 <= n <= steps.len() implies #[trigger] step_depth(steps, n) >= 0 by {
        lemma_leaves_depth(steps, n);
    }
    lemma_leaves_depth(steps, steps.len() as int);
    assert forall|p: int| 0 <= p < steps.len() implies #[trigger] need_met(steps, p) by {
        assert(steps[p] is Leaf);
    }
}

proof fn lemma_need_left(a: Seq<Step>, b: Seq<Step>, p: int)
    requires
        0 <= p < a.len(),
        need_met(a, p),
    ensures
        need_met(a + b, p),
{
    lemma_depth_concat(a, b);
    let w = a + b;
    assert(w[p] == a[p]);
    match a[p] {
        Step::Open(kind) => {
            if kind == SyntaxKind::InfixExpr.raw() || kind == SyntaxKind::PrefixExpr.raw() {
                let q = choose|q: int| #[trigger] child_leaf(a, p, q);
                assert(w[q] == a[q]);
                assert forall|x: int| p < x <= q implies #[trigger] step_depth(w, x) >= step_depth(
                    w,
                    p + 1,
                ) by {
                    assert(step_depth(a, x) >= step_depth(a, p + 1));
                }
                assert(child_leaf(w, p, q));
            } else if kind == SyntaxKind::VariableRef.raw() {
                assert(w[p + 1] == a[p + 1]);
            }
        },
        _ => {},
    }
}

proof fn lemma_need_right(a: Seq<Step>, b: Seq<Step>, p: int)
    requires
        0 <= p < b.len(),
        need_met(b, p),
    ensures
        need_met(a + b, a.len() + p),
{
    lemma_depth_concat(a, b);
    let w = a + b;
    let o = a.len() as int;
    assert(w[o + p] == b[p]);
    match b[p] {
        Step::Open(kind) => {
            if kind == SyntaxKind::InfixExpr.raw() || kind == SyntaxKind::PrefixExpr.raw() {
                let q = choose|q: int| #[trigger] child_leaf(b, p, q);
                assert(w[o + q] == b[q]);
                assert(step_depth(w, o + q) == step_depth(a, o) + step_depth(b, q));
                assert(step_depth(w, o + p + 1) == step_depth(a, o) + step_depth(b, p + 1));
                assert forall|x: int| o + p < x <= o + q implies #[trigger] step_depth(w, x)
                    >= step_depth(w, o + p + 1) by {
                    assert(step_depth(b, x - o) >= step_depth(b, p + 1));
                    assert(step_depth(w, o + (x - o)) == step_depth(a, o) + step_depth(b, x - o));
                }
                assert(child_leaf(w, o + p, o + q));
            } else if kind == SyntaxKind::VariableRef.raw() {
                assert(w[o + p + 1] == b[p + 1]);
            }
        },
        _ => {},
    }
}

/// Well-shaped steps, one after the other, are well shaped.
pub proof fn lemma_shaped_concat(a: Seq<Step>, b: Seq<Step>)
    requires
        shaped(a),
        shaped(b),
    ensures
        shaped(a + b),
{
    reveal(shaped);
    lemma_depth_concat(a, b);
    let w = a + b;
    assert forall|n: int| 0 <= n <= w.len() implies #[trigger] step_depth(w, n) >= 0 by {
        if n <= a.len() {
            assert(step_depth(a, n) >= 0);
        } else {
            assert(step_depth(b, n - a.len()) >= 0);
            assert(step_depth(w, a.len() + (n - a.len())) == step_depth(a, a.len() as int)
                + step_depth(b, n - a.len()));
        }
    }
    assert(step_depth(w, a.len() as int + b.len()) == step_depth(a, a.len() as int) + step_depth(
        b,
        b.len() as int,
    ));
    assert forall|p: int| 0 <= p < w.len() implies #[trigger] need_met(w, p) by {
        if p < a.len() {
            assert(need_met(a, p));
            lemma_need_left(a, b, p);
        } else {
            assert(need_met(b, p - a.len()));
            lemma_need_right(a, b, p - a.len());
        }
    }
}

/// What a node of the raw kind `kind` asks of the steps of its children:
/// an operator's node a child that is its operator, a variable a token as
/// its first child.
pub open spec fn need_within(kind: u16, inner: Seq<Step>) -> bool {
    if kind == SyntaxKind::InfixExpr.raw() || kind == SyntaxKind::PrefixExpr.raw() {
        exists|q: int|
            0 <= q < inner.len() && wanted_leaf(#[trigger] inner[q], kind) && step_depth(inner, q)
                == 0
    } else if kind == SyntaxKind::VariableRef.raw() {
        inner.len() > 0 && inner[0] is Leaf
    } else {
        true
    }
}

/// A node around well-shaped steps is well shaped, where the steps hold what
/// the node asks for.
pub proof fn lemma_shaped_wrap(kind: u16, inner: Seq<Step>)
    requires
        shaped(inner),
        need_within(kind, inner),
    ensures
        shaped(seq![Step::Open(kind)] + inner + seq![Step::Close]),
{
    reveal(shaped);
    let first = seq![Step::Open(kind)];
    let last = seq![Step::Close];
    let w = first + inner + last;
    lemma_depth_concat(first, inner);
    lemma_depth_concat(first + inner, last);
    assert(step_depth(first, 1) == 1) by {
        assert(step_depth(first, 0) == 0);
    }
    assert(step_depth(last, 1) == -1) by {
        assert(step_depth(last, 0) == 0);
    }
    assert(step_depth(last, 0) == 0);
    assert forall|n: int| 0 <= n <= inner.len() implies #[trigger] step_depth(w, 1 + n) == 1
        + step_depth(inner, n) by {
        assert(step_depth(first + inner, first.len() + n) == step_depth(first, 1) + step_depth(
            inner,
            n,
        ));
        assert(step_depth(w, 1 + n) == step_depth(first + inner, 1 + n));
    }
    assert forall|n: int| 0 <= n <= w.len() implies #[trigger] step_depth(w, n) >= 0 by {
        if n == 0 {
        } else if n <= inner.len() + 1 {
            assert(step_depth(inner, n - 1) >= 0);
            assert(step_depth(w, 1 + (n - 1)) == 1 + step_depth(inner, n - 1));
        } else {
            assert(step_depth(w, (first + inner).len() as int + 1) == step_depth(
                first + inner,
                (first + inner).len() as int,
            ) + step_depth(last, 1));
            assert(step_depth(w, 1 + inner.len() as int) == 1 + step_depth(inner, inner.len() as int));
        }
    }
    assert(step_depth(w, w.len() as int) == 0) by {
        assert(step_depth(w, (first + inner).len() as int + 1) == step_depth(
            first + inner,
            (first + inner).len() as int,
        ) + step_depth(last, 1));
        assert(step_depth(w, 1 + inner.len() as int) == 1 + step_depth(inner, inner.len() as int));
    }
    assert forall|p: int| 0 <= p < w.len() implies #[trigger] need_met(w, p) by {
        if p == 0 {
            assert(w[0] == Step::Open(kind));
            if kind == SyntaxKind::InfixExpr.raw() || kind == SyntaxKind::PrefixExpr.raw() {
                let q = choose|q: int|
                    0 <= q < inner.len() && wanted_leaf(#[trigger] inner[q], kind) && step_depth(
                        inner,
                        q,
                    ) == 0;
                assert(w[1 + q] == inner[q]);
                assert(step_depth(w, 1 + q) == 1 + step_depth(inner, q));
                assert(step_depth(w, 1 + 0int) == 1 + step_depth(inner, 0));
                assert forall|x: int| 0 < x <= 1 + q implies #[trigger] step_depth(w, x)
                    >= step_depth(w, 1) by {
                    assert(step_depth(inner, x - 1) >= 0);
                    assert(step_depth(w, 1 + (x - 1)) == 1 + step_depth(inner, x - 1));
                }
                assert(child_leaf(w, 0, 1 + q));
            } else if kind == SyntaxKind::VariableRef.raw() {
                assert(w[1] == inner[0]);
            }
        } else if p <= inner.len() {
            assert(need_met(inner, p - 1));
            lemma_need_right(first, inner, p - 1);
            lemma_need_left(first + inner, last, p);
        } else {
            assert(w[p] == Step::Close);
        }
    }
}

/// No steps are well shaped.
pub proof fn lemma_shaped_empty()
    ensures
        shaped(Seq::<Step>::empty()),
{
    lemma_shaped_leaves(Seq::<Step>::empty());
}

} // verus!
