//! From the steps of a tree to the tree: a node whose steps are sound has
//! what lowering asks of it, and so has every node below it.
use super::kind::SyntaxKind;
use super::tree::{elements_steps, SyntaxElement, SyntaxNode};
use crate::ast::tree::{find, first_operator, first_token, first_token_of, wanted, Want};
use crate::green::{is_tree, step_depth, Step};
use crate::shape::{balanced, child_leaf, lemma_depth_concat, need_met, operator_raw, sound};
use vstd::prelude::*;

verus! {

/// The node itself has what lowering asks of it: an `InfixExpr` an operator
/// among its children, a `PrefixExpr` a `-`, a `VariableRef` a first token.
pub open spec fn need_had(node: SyntaxNode) -> bool {
    match node.kind {
        SyntaxKind::InfixExpr => first_operator(node) is Some,
        SyntaxKind::PrefixExpr => first_token_of(node, SyntaxKind::Minus) is Some,
        SyntaxKind::VariableRef => first_token(node) is Some,
        _ => true,
    }
}

/// The node and every node below it has what lowering asks of it.
pub open spec fn node_sound(node: SyntaxNode) -> bool
    decreases node, 0int,
{
    need_had(node) && elements_sound(node.children@, node.children@.len() as int)
}

/// Every node among the first `n` of `elements`, and every node below them,
/// has what lowering asks of it.
pub open spec fn elements_sound(elements: Seq<SyntaxElement>, n: int) -> bool
    decreases elements, n,
{
    if 0 < n <= elements.len() {
        elements_sound(elements, n - 1) && match elements[n - 1] {
            SyntaxElement::Node(child) => node_sound(child),
            SyntaxElement::Token(_) => true,
        }
    } else {
        true
    }
}

/// The steps of a node are those of one tree, and the steps of elements
/// close every node that they open.
pub proof fn lemma_tree_steps(node: SyntaxNode)
    ensures
        is_tree(node.steps()),
        balanced(elements_steps(node.children@, node.children@.len() as int)),
    decreases node, 0int,
{
    let inner = elements_steps(node.children@, node.children@.len() as int);
    lemma_forest_steps(node.children@, node.children@.len() as int);
    let first = seq![Step::Open(node.kind.raw())];
    let last = seq![Step::Close];
    let w = node.steps();
    lemma_depth_concat(first, inner);
    lemma_depth_concat(first + inner, last);
    assert(step_depth(first, 1) == 1) by {
        assert(step_depth(first, 0) == 0);
    }
    assert(step_depth(last, 1) == -1) by {
        assert(step_depth(last, 0) == 0);
    }
    assert forall|n: int| 0 < n < w.len() implies #[trigger] step_depth(w, n) >= 1 by {
        assert(step_depth(inner, n - 1) >= 0);
        assert(step_depth(first + inner, first.len() + (n - 1)) == step_depth(first, 1)
            + step_depth(inner, n - 1));
        assert(step_depth(w, n) == step_depth(first + inner, n));
    }
    assert(step_depth(w, w.len() as int) == 0) by {
        assert(step_depth(first + inner, first.len() as int + inner.len()) == step_depth(first, 1)
            + step_depth(inner, inner.len() as int));
        assert(step_depth(w, (first + inner).len() as int + 1) == step_depth(
            first + inner,
            (first + inner).len() as int,
        ) + step_depth(last, 1));
    }
    assert(w[0] == first[0]);
}

/// The steps of elements close every node that they open.
pub proof fn lemma_forest_steps(elements: Seq<SyntaxElement>, n: int)
    ensures
        balanced(elements_steps(elements, n)),
    decreases elements, n,
{
    if 0 < n <= elements.len() {
        lemma_forest_steps(elements, n - 1);
        let before = elements_steps(elements, n - 1);
        let own = elements[n - 1].steps();
        match elements[n - 1] {
            SyntaxElement::Node(child) => {
                lemma_tree_steps(child);
                assert(step_depth(own, 0) == 0);
            },
            SyntaxElement::Token(token) => {
                assert(step_depth(own, 0) == 0);
                assert(step_depth(own, 1) == 0);
            },
        }
        lemma_depth_concat(before, own);
        let w = before + own;
        assert forall|x: int| 0 <= x <= w.len() implies #[trigger] step_depth(w, x) >= 0 by {
            if x <= before.len() {
                assert(step_depth(before, x) >= 0);
            } else {
                assert(step_depth(own, x - before.len()) >= 0);
                assert(step_depth(w, before.len() + (x - before.len())) == step_depth(
                    before,
                    before.len() as int,
                ) + step_depth(own, x - before.len()));
            }
        }
        assert(step_depth(w, before.len() as int + own.len()) == step_depth(before, before.len() as int)
            + step_depth(own, own.len() as int));
    } else {
        assert(step_depth(elements_steps(elements, n), 0) == 0);
    }
}

/// A token where no node is open within the steps of elements is one of the
/// elements.
pub proof fn lemma_forest_leaf(elements: Seq<SyntaxElement>, n: int, q: int) -> (j: int)
    requires
        0 <= n <= elements.len(),
        0 <= q < elements_steps(elements, n).len(),
        elements_steps(elements, n)[q] is Leaf,
        step_depth(elements_steps(elements, n), q) == 0,
    ensures
        0 <= j < n,
        elements[j] is Token,
        elements[j]->Token_0.step() == elements_steps(elements, n)[q],
    decreases n,
{
    let before = elements_steps(elements, n - 1);
    let own = elements[n - 1].steps();
    let w = elements_steps(elements, n);
    lemma_depth_concat(before, own);
    lemma_forest_steps(elements, n - 1);
    if q < before.len() {
        assert(w[q] == before[q]);
        lemma_forest_leaf(elements, n - 1, q)
    } else {
        let x = q - before.len();
        assert(w[q] == own[x]);
        assert(step_depth(w, before.len() + x) == step_depth(before, before.len() as int)
            + step_depth(own, x));
        match elements[n - 1] {
            SyntaxElement::Node(child) => {
                lemma_tree_steps(child);
                if x > 0 {
                    assert(step_depth(own, x) >= 1);
                }
                assert(false);
            },
            SyntaxElement::Token(token) => {},
        }
        n - 1
    }
}

/// Where one of the elements is what is looked for, the first such element
/// is found.
pub proof fn lemma_find_some(elements: Seq<SyntaxElement>, want: Want, from: int, j: int)
    requires
        0 <= from <= j < elements.len(),
        wanted(elements[j], want),
    ensures
        from <= find(elements, want, from) <= j,
        wanted(elements[find(elements, want, from)], want),
    decreases elements.len() - from,
{
    if !wanted(elements[from], want) {
        lemma_find_some(elements, want, from + 1, j);
    }
}

/// The steps of elements are sound where the steps of more are.
proof fn lemma_window(steps: Seq<Step>, o: int, part: Seq<Step>, p: int)
    requires
        0 <= o,
        o + part.len() <= steps.len(),
        steps.subrange(o, o + part.len()) == part,
        is_tree(part),
        0 <= p < part.len(),
        need_met(steps, o + p),
    ensures
        need_met(part, p),
{
    let pre = steps.subrange(0, o);
    let post = steps.subrange(o + part.len(), steps.len() as int);
    assert(steps =~= pre + part + post);
    lemma_depth_concat(pre, part);
    lemma_depth_concat(pre + part, post);
    let base = step_depth(pre, o);
    assert forall|x: int| 0 <= x <= part.len() implies step_depth(steps, o + x) == base
        + #[trigger] step_depth(part, x) by {
        assert(step_depth(pre + part, pre.len() + x) == step_depth(pre, pre.len() as int)
            + step_depth(part, x));
        assert(step_depth(pre + part + post, o + x) == step_depth(pre + part, o + x));
    }
    assert(part[p] == steps.subrange(o, o + part.len())[p]);
    match part[p] {
        Step::Open(kind) => {
            assert(p < part.len() - 1) by {
                if p == part.len() - 1 {
                    assert(step_depth(part, part.len() as int) == step_depth(part, p)
                        + crate::green::step_delta(part[p]));
                    if p > 0 {
                        assert(step_depth(part, p) >= 1);
                    } else {
                        assert(step_depth(part, 0) == 0);
                    }
                }
            }
            if kind == SyntaxKind::InfixExpr.raw() || kind == SyntaxKind::PrefixExpr.raw() {
                let q = choose|q: int| #[trigger] child_leaf(steps, o + p, q);
                assert(step_depth(part, p + 1) >= 1);
                assert(step_depth(steps, o + (p + 1)) == base + step_depth(part, p + 1));
                if q >= o + part.len() {
                    assert(step_depth(steps, o + part.len()) >= step_depth(steps, o + p + 1));
                    assert(step_depth(steps, o + part.len()) == base + step_depth(
                        part,
                        part.len() as int,
                    ));
                    assert(false);
                }
                let y = q - o;
                assert(part[y] == steps.subrange(o, o + part.len())[y]);
                assert(step_depth(steps, o + y) == base + step_depth(part, y));
                assert forall|x: int| p < x <= y implies #[trigger] step_depth(part, x)
                    >= step_depth(part, p + 1) by {
                    assert(step_depth(steps, o + x) >= step_depth(steps, o + p + 1));
                    assert(step_depth(steps, o + x) == base + step_depth(part, x));
                }
                assert(child_leaf(part, p, y));
            } else if kind == SyntaxKind::VariableRef.raw() {
                assert(part[p + 1] == steps.subrange(o, o + part.len())[p + 1]);
            }
        },
        _ => {},
    }
}

/// A node whose steps are sound has what lowering asks of it, and so has
/// every node below it.
pub proof fn lemma_node_sound(node: SyntaxNode)
    requires
        sound(node.steps()),
    ensures
        node_sound(node),
    decreases node, 1int,
{
    let steps = node.steps();
    let children = node.children@;
    let count = children.len() as int;
    let inner = elements_steps(children, count);
    lemma_tree_steps(node);
    let first = seq![Step::Open(node.kind.raw())];
    lemma_depth_concat(first, inner);
    lemma_depth_concat(first + inner, seq![Step::Close]);
    assert(step_depth(first, 1) == 1) by {
        assert(step_depth(first, 0) == 0);
    }
    assert(steps[0] == Step::Open(node.kind.raw()));
    assert(need_met(steps, 0));
    if node.kind == SyntaxKind::InfixExpr || node.kind == SyntaxKind::PrefixExpr {
        let q = choose|q: int| #[trigger] child_leaf(steps, 0, q);
        assert(step_depth(steps, 1) == 1) by {
            assert(step_depth(steps, 0) == 0);
        }
        if q == steps.len() - 1 {
            assert(steps[q] == Step::Close);
        }
        assert(steps[q] == inner[q - 1]);
        assert(step_depth(first + inner, first.len() + (q - 1)) == step_depth(first, 1)
            + step_depth(inner, q - 1));
        assert(step_depth(steps, q) == step_depth(first + inner, q));
        let j = lemma_forest_leaf(children, count, q - 1);
        let token = children[j]->Token_0;
        if node.kind == SyntaxKind::InfixExpr {
            assert(operator_raw(token.kind.raw()));
            assert(wanted(children[j], Want::Operator));
            lemma_find_some(children, Want::Operator, 0, j);
        } else {
            assert(token.kind.raw() == SyntaxKind::Minus.raw());
            assert(token.kind == SyntaxKind::Minus);
            assert(wanted(children[j], Want::Token(SyntaxKind::Minus)));
            lemma_find_some(children, Want::Token(SyntaxKind::Minus), 0, j);
        }
    } else if node.kind == SyntaxKind::VariableRef {
        assert(steps[1] is Leaf);
        assert(count > 0) by {
            if count == 0 {
                assert(inner =~= Seq::<Step>::empty());
                assert(steps[1] == Step::Close);
            }
        }
        assert(steps[1] == inner[0]);
        lemma_first_element(children, count);
    }
    lemma_elements_sound(node, count);
}

/// The first step of elements is the first step of the first element.
proof fn lemma_first_element(elements: Seq<SyntaxElement>, n: int)
    requires
        0 < n <= elements.len(),
    ensures
        elements_steps(elements, n).len() > 0,
        elements_steps(elements, n)[0] == elements[0].steps()[0],
        elements[0].steps().len() > 0,
    decreases n,
{
    match elements[0] {
        SyntaxElement::Node(child) => {
            lemma_tree_steps(child);
        },
        SyntaxElement::Token(_) => {},
    }
    if n > 1 {
        lemma_first_element(elements, n - 1);
    } else {
        assert(elements_steps(elements, 0) =~= Seq::<Step>::empty());
        assert(elements_steps(elements, 1) =~= elements[0].steps());
    }
}

proof fn lemma_elements_sound(node: SyntaxNode, n: int)
    requires
        sound(node.steps()),
        0 <= n <= node.children@.len(),
    ensures
        elements_sound(node.children@, n),
    decreases node, 0int, n,
{
    if n > 0 {
        lemma_elements_sound(node, n - 1);
        let children = node.children@;
        match children[n - 1] {
            SyntaxElement::Node(child) => {
                let steps = node.steps();
                let part = child.steps();
                let o = 1 + elements_steps(children, n - 1).len() as int;
                lemma_tree_steps(child);
                lemma_element_place(node, n - 1);
                assert forall|p: int| 0 <= p < part.len() implies #[trigger] need_met(part, p) by {
                    assert(need_met(steps, o + p));
                    lemma_window(steps, o, part, p);
                }
                lemma_node_sound(child);
            },
            SyntaxElement::Token(_) => {},
        }
    }
}

/// The steps of the element at `j` stand in the steps of the node behind
/// the opening and the steps of the elements before it.
proof fn lemma_element_place(node: SyntaxNode, j: int)
    requires
        0 <= j < node.children@.len(),
    ensures
        1 + elements_steps(node.children@, j).len() + node.children@[j].steps().len()
            <= node.steps().len(),
        node.steps().subrange(
            1 + elements_steps(node.children@, j).len() as int,
            1 + elements_steps(node.children@, j).len() as int + node.children@[j].steps().len(),
        ) == node.children@[j].steps(),
{
    let children = node.children@;
    let count = children.len() as int;
    lemma_elements_prefix_steps(children, j + 1, count);
    let upto = elements_steps(children, j + 1);
    let all = elements_steps(children, count);
    let before = elements_steps(children, j);
    let own = children[j].steps();
    assert(upto == before + own);
    let o = 1 + before.len() as int;
    assert(node.steps().subrange(o, o + own.len()) =~= own) by {
        assert forall|x: int| 0 <= x < own.len() implies node.steps()[o + x] == own[x] by {
            assert(all.subrange(0, upto.len() as int)[before.len() + x] == upto[before.len() + x]);
            assert(node.steps()[o + x] == all[before.len() + x]);
        }
    }
}

proof fn lemma_elements_prefix_steps(elements: Seq<SyntaxElement>, k: int, n: int)
    requires
        0 <= k <= n <= elements.len(),
    ensures
        elements_steps(elements, k).len() <= elements_steps(elements, n).len(),
        elements_steps(elements, n).subrange(0, elements_steps(elements, k).len() as int)
            == elements_steps(elements, k),
    decreases n,
{
    if k < n {
        lemma_elements_prefix_steps(elements, k, n - 1);
    }
    assert(elements_steps(elements, n).subrange(0, elements_steps(elements, k).len() as int)
        =~= elements_steps(elements, k));
}

} // verus!
