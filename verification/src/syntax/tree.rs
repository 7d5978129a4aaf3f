use super::kind::{SyntaxKind, KIND_COUNT};
use crate::green::{
    child_steps, children_steps, green_children, green_kind, green_steps, kinds_known, leaf_bytes,
    leaf_text, lemma_leaf_bytes_monotonic, lemma_steps_concat, lemma_steps_prefix, token_kind,
    token_text, GreenChild, Step,
};
use crate::text::TextRange;
use vstd::prelude::*;
use vstd::string::StringSliceAdditionalSpecFns;
use vstd::utf8::encode_utf8;

verus! {

/// A token in a syntax tree: its kind, its text and the bytes of the source
/// that it covers.
#[derive(Debug, PartialEq, Eq)]
pub struct SyntaxToken {
    pub kind: SyntaxKind,
    pub text: String,
    pub range: TextRange,
}

/// A child of a node: a node or a token.
#[derive(Debug, PartialEq, Eq)]
pub enum SyntaxElement {
    Node(SyntaxNode),
    Token(SyntaxToken),
}

/// A node of a syntax tree: its kind, the bytes of the source that it covers,
/// and its children from left to right.
#[derive(Debug, PartialEq, Eq)]
pub struct SyntaxNode {
    pub kind: SyntaxKind,
    pub range: TextRange,
    pub children: Vec<SyntaxElement>,
}

impl SyntaxToken {
    /// The step that writes this token down.
    pub open spec fn step(&self) -> Step {
        Step::Leaf(self.kind.raw(), self.text@)
    }

    /// The token covers as many bytes as its text has.
    pub open spec fn laid_out(&self) -> bool {
        self.range.end - self.range.start == encode_utf8(self.text@).len()
    }

    /// The kind of the token.
    pub fn kind(&self) -> (kind: SyntaxKind)
        ensures
            kind == self.kind,
    {
        self.kind
    }

    /// The text of the token.
    pub fn text(&self) -> (text: &str)
        ensures
            text@ == self.text@,
    {
        self.text.as_str()
    }

    /// The bytes of the source that the token covers.
    pub fn text_range(&self) -> (range: TextRange)
        ensures
            range == self.range,
    {
        self.range
    }
}

impl SyntaxElement {
    /// The steps that write this element down.
    pub open spec fn steps(self) -> Seq<Step>
        decreases self, 1int,
    {
        match self {
            SyntaxElement::Node(node) => node.steps(),
            SyntaxElement::Token(token) => seq![token.step()],
        }
    }

    /// The bytes of the source that the element covers.
    pub open spec fn range(self) -> TextRange {
        match self {
            SyntaxElement::Node(node) => node.range,
            SyntaxElement::Token(token) => token.range,
        }
    }

    /// The element and all below it cover the bytes of their texts.
    pub open spec fn laid_out(self) -> bool
        decreases self, 1int,
    {
        match self {
            SyntaxElement::Node(node) => node.laid_out(),
            SyntaxElement::Token(token) => token.laid_out(),
        }
    }
}

/// The steps that write the first `n` of `elements` down.
pub open spec fn elements_steps(elements: Seq<SyntaxElement>, n: int) -> Seq<Step>
    decreases elements, n,
{
    if 0 < n <= elements.len() {
        elements_steps(elements, n - 1) + elements[n - 1].steps()
    } else {
        Seq::empty()
    }
}

/// The first `n` of `elements` stand one behind the other from `from` on:
/// each starts where the one before it ends, and each is laid out within.
pub open spec fn elements_laid_out(elements: Seq<SyntaxElement>, n: int, from: int) -> bool
    decreases elements, n,
{
    if 0 < n <= elements.len() {
        &&& elements_laid_out(elements, n - 1, from)
        &&& elements[n - 1].range().start == elements_end(elements, n - 1, from)
        &&& elements[n - 1].laid_out()
    } else {
        true
    }
}

/// Where the first `n` of `elements` end, when they start at `from`.
pub open spec fn elements_end(elements: Seq<SyntaxElement>, n: int, from: int) -> int {
    if 0 < n <= elements.len() {
        elements[n - 1].range().end as int
    } else {
        from
    }
}

impl SyntaxNode {
    /// The steps that write this node down: its opening, its children, its
    /// closing.
    pub open spec fn steps(self) -> Seq<Step>
        decreases self, 0int,
    {
        seq![Step::Open(self.kind.raw())] + elements_steps(
            self.children@,
            self.children@.len() as int,
        ) + seq![Step::Close]
    }

    /// The text of the node: the texts of the tokens in it, from left to
    /// right.
    pub open spec fn text(self) -> Seq<char> {
        leaf_text(self.steps(), self.steps().len() as int)
    }

    /// The ranges fit the texts: the children stand one behind the other
    /// from the start of the node to its end, without a gap and without
    /// overlap, and so within each child.
    pub open spec fn laid_out(self) -> bool
        decreases self, 0int,
    {
        &&& self.range.start <= self.range.end
        &&& elements_laid_out(
            self.children@,
            self.children@.len() as int,
            self.range.start as int,
        )
        &&& self.range.end == elements_end(
            self.children@,
            self.children@.len() as int,
            self.range.start as int,
        )
    }

    /// The kind of the node.
    pub fn kind(&self) -> (kind: SyntaxKind)
        ensures
            kind == self.kind,
    {
        self.kind
    }

    /// The bytes of the source that the node covers.
    pub fn text_range(&self) -> (range: TextRange)
        ensures
            range == self.range,
    {
        self.range
    }
}

} // verus!

verus! {

/// What is said of the first `n` elements depends on these elements alone.
pub proof fn lemma_elements_prefix(
    s: Seq<SyntaxElement>,
    t: Seq<SyntaxElement>,
    n: int,
    from: int,
)
    requires
        0 <= n <= s.len(),
        n <= t.len(),
        forall|i: int| 0 <= i < n ==> #[trigger] s[i] == t[i],
    ensures
        elements_steps(s, n) == elements_steps(t, n),
        elements_laid_out(s, n, from) == elements_laid_out(t, n, from),
        elements_end(s, n, from) == elements_end(t, n, from),
    decreases n,
{
    if n > 0 {
        lemma_elements_prefix(s, t, n - 1, from);
    }
}

/// What the first `k` children are written as stands first in what more of
/// them are written as.
proof fn lemma_children_prefix(children: Seq<GreenChild>, k: int, n: int)
    requires
        0 <= k <= n,
    ensures
        children_steps(children, k).len() <= children_steps(children, n).len(),
        children_steps(children, n).subrange(0, children_steps(children, k).len() as int)
            == children_steps(children, k),
    decreases n,
{
    if k < n {
        lemma_children_prefix(children, k, n - 1);
        assert(children_steps(children, n).subrange(
            0,
            children_steps(children, k).len() as int,
        ) =~= children_steps(children, k));
    } else {
        assert(children_steps(children, n).subrange(
            0,
            children_steps(children, k).len() as int,
        ) =~= children_steps(children, k));
    }
}

/// What holds of the `i`th child of a node whose steps are `all`: its steps
/// are among them, so its kinds are known, and its bytes with those of the
/// children before it are no more than those of the node.
proof fn lemma_child_within(all: Seq<Step>, children: Seq<GreenChild>, i: int)
    requires
        all == seq![all[0]] + children_steps(children, children.len() as int) + seq![Step::Close],
        kinds_known(all),
        all[0] is Open,
        0 <= i < children.len(),
    ensures
        kinds_known(child_steps(children[i])),
        child_steps(children[i]).len() < all.len(),
        leaf_bytes(children_steps(children, i + 1), children_steps(children, i + 1).len() as int)
            == leaf_bytes(children_steps(children, i), children_steps(children, i).len() as int)
            + leaf_bytes(child_steps(children[i]), child_steps(children[i]).len() as int),
        leaf_bytes(children_steps(children, i + 1), children_steps(children, i + 1).len() as int)
            <= leaf_bytes(all, all.len() as int),
{
    let inner = children_steps(children, children.len() as int);
    let upto = children_steps(children, i + 1);
    let before = children_steps(children, i);
    let own = child_steps(children[i]);
    lemma_children_prefix(children, i + 1, children.len() as int);
    assert(upto == before + own);
    assert forall|q: int| 0 <= q < own.len() implies match #[trigger] own[q] {
        Step::Open(kind) => kind < KIND_COUNT,
        Step::Leaf(kind, _) => kind < KIND_COUNT,
        Step::Close => true,
    } by {
        assert(upto[before.len() + q] == own[q]);
        assert(inner.subrange(0, upto.len() as int)[before.len() + q] == inner[before.len() + q]);
        assert(all[1 + before.len() + q] == inner[before.len() + q]);
    }
    lemma_steps_concat(before, own, own.len() as int);
    assert forall|q: int| 0 <= q < upto.len() implies #[trigger] inner[q] == upto[q] by {
        assert(inner.subrange(0, upto.len() as int)[q] == inner[q]);
    }
    lemma_steps_prefix(inner, upto, upto.len() as int);
    lemma_leaf_bytes_monotonic(inner, upto.len() as int, inner.len() as int);
    lemma_whole_bytes(all, inner);
}

/// The opening and the closing of a node hold no text.
proof fn lemma_whole_bytes(all: Seq<Step>, inner: Seq<Step>)
    requires
        all == seq![all[0]] + inner + seq![Step::Close],
        all[0] is Open,
    ensures
        leaf_bytes(all, all.len() as int) == leaf_bytes(inner, inner.len() as int),
        leaf_text(all, all.len() as int) == leaf_text(inner, inner.len() as int),
{
    let first = seq![all[0]];
    let last = seq![Step::Close];
    lemma_steps_concat(first, inner, inner.len() as int);
    lemma_steps_concat(first + inner, last, 1);
    assert(leaf_bytes(first, 1) == 0) by {
        assert(leaf_bytes(first, 0) == 0);
    }
    assert(leaf_bytes(last, 1) == 0) by {
        assert(leaf_bytes(last, 0) == 0);
    }
    assert(leaf_text(first, 1) =~= Seq::<char>::empty()) by {
        assert(leaf_text(first, 0) =~= Seq::<char>::empty());
    }
    assert(leaf_text(last, 1) =~= Seq::<char>::empty()) by {
        assert(leaf_text(last, 0) =~= Seq::<char>::empty());
    }
    assert(leaf_text(all, all.len() as int) =~= leaf_text(inner, inner.len() as int));
}

/// The tree that a green node stands for, with its first byte at `offset`.
pub fn node_from_green(node: &rowan::GreenNode, offset: u32) -> (tree: SyntaxNode)
    requires
        kinds_known(green_steps(*node)),
        offset + leaf_bytes(green_steps(*node), green_steps(*node).len() as int) <= u32::MAX,
    ensures
        tree.steps() == green_steps(*node),
        tree.laid_out(),
        tree.range.start == offset,
        tree.range.end == offset + leaf_bytes(
            green_steps(*node),
            green_steps(*node).len() as int,
        ),
    decreases green_steps(*node).len(),
{
    let raw = green_kind(node);
    let children = green_children(node);
    let ghost all = green_steps(*node);
    let ghost inner = children_steps(children@, children@.len() as int);
    proof {
        assert(all[0] == Step::Open(raw));
        lemma_whole_bytes(all, inner);
    }
    let kind = match SyntaxKind::from_raw(raw) {
        Some(kind) => kind,
        None => {
            proof {
                assert(false);
            }
            SyntaxKind::Error
        },
    };
    let count = children.len();
    let mut elements: Vec<SyntaxElement> = Vec::new();
    let mut at: u32 = offset;
    let mut i: usize = 0;
    while i < count
        invariant
            count == children@.len(),
            i <= count,
            all == green_steps(*node),
            all == seq![all[0]] + children_steps(children@, children@.len() as int) + seq![
                Step::Close,
            ],
            all[0] is Open,
            kinds_known(all),
            offset + leaf_bytes(all, all.len() as int) <= u32::MAX,
            elements@.len() == i,
            elements_steps(elements@, i as int) == children_steps(children@, i as int),
            elements_laid_out(elements@, i as int, offset as int),
            at == elements_end(elements@, i as int, offset as int),
            at == offset + leaf_bytes(
                children_steps(children@, i as int),
                children_steps(children@, i as int).len() as int,
            ),
        decreases count - i,
    {
        let ghost before = elements@;
        proof {
            lemma_child_within(all, children@, i as int);
        }
        let element = match &children[i] {
            GreenChild::Node(child) => {
                let sub = node_from_green(child, at);
                SyntaxElement::Node(sub)
            },
            GreenChild::Token(token) => {
                let raw = token_kind(token);
                let text = token_text(token);
                proof {
                    let own = child_steps(children@[i as int]);
                    assert(own[0] == Step::Leaf(raw, text@));
                    assert(leaf_bytes(own, 1) == text.spec_bytes().len()) by {
                        assert(leaf_bytes(own, 0) == 0);
                    }
                }
                let kind = match SyntaxKind::from_raw(raw) {
                    Some(kind) => kind,
                    None => {
                        proof {
                            assert(false);
                        }
                        SyntaxKind::Error
                    },
                };
                let size = text.len();
                let end = at + size as u32;
                SyntaxElement::Token(
                    SyntaxToken { kind, text: text.to_owned(), range: TextRange { start: at, end } },
                )
            },
        };
        let ghost start = at;
        proof {
            assert(element.steps() == child_steps(children@[i as int]));
            assert(element.laid_out());
            assert(element.range().start == start);
        }
        at = match &element {
            SyntaxElement::Node(sub) => sub.range.end,
            SyntaxElement::Token(token) => token.range.end,
        };
        elements.push(element);
        i += 1;
        proof {
            lemma_elements_prefix(before, elements@, i - 1, offset as int);
            assert(elements@[i - 1] == element);
            assert(elements_end(elements@, i - 1, offset as int) == start);
        }
    }
    proof {
        assert(elements_steps(elements@, count as int) == inner);
    }
    SyntaxNode { kind, range: TextRange { start: offset, end: at }, children: elements }
}

/// The text that the first `n` of `elements` hold.
pub open spec fn elements_text(elements: Seq<SyntaxElement>, n: int) -> Seq<char> {
    leaf_text(elements_steps(elements, n), elements_steps(elements, n).len() as int)
}

/// The text of a node is the text of its children.
pub proof fn lemma_node_text(node: SyntaxNode)
    ensures
        node.text() == elements_text(node.children@, node.children@.len() as int),
{
    lemma_whole_bytes(node.steps(), elements_steps(node.children@, node.children@.len() as int));
}

/// The text of elements is the text of each, one after the other.
pub proof fn lemma_elements_text(elements: Seq<SyntaxElement>, n: int)
    requires
        0 < n <= elements.len(),
    ensures
        elements_text(elements, n) == elements_text(elements, n - 1) + match elements[n - 1] {
            SyntaxElement::Node(child) => child.text(),
            SyntaxElement::Token(token) => token.text@,
        },
{
    let before = elements_steps(elements, n - 1);
    let own = elements[n - 1].steps();
    lemma_steps_concat(before, own, own.len() as int);
    match elements[n - 1] {
        SyntaxElement::Node(child) => {},
        SyntaxElement::Token(token) => {
            assert(leaf_text(own, 1) =~= token.text@) by {
                assert(leaf_text(own, 0) =~= Seq::<char>::empty());
            }
        },
    }
}

impl SyntaxNode {
    /// Writes the text of the node at the end of `out`.
    pub fn push_text(&self, out: &mut String)
        ensures
            final(out)@ == old(out)@ + self.text(),
        decreases self,
    {
        let count = self.children.len();
        let mut i: usize = 0;
        proof {
            lemma_node_text(*self);
            assert(out@ =~= old(out)@ + elements_text(self.children@, 0));
        }
        while i < count
            invariant
                count == self.children@.len(),
                i <= count,
                out@ == old(out)@ + elements_text(self.children@, i as int),
            decreases count - i,
        {
            match &self.children[i] {
                SyntaxElement::Node(child) => {
                    child.push_text(out);
                },
                SyntaxElement::Token(token) => {
                    out.append(token.text.as_str());
                },
            }
            i += 1;
            proof {
                lemma_elements_text(self.children@, i as int);
                assert(out@ =~= old(out)@ + elements_text(self.children@, i as int));
            }
        }
    }

    /// The text of the node: the texts of the tokens in it, from left to
    /// right.
    pub fn to_text(&self) -> (text: String)
        ensures
            text@ == self.text(),
    {
        let mut text = String::new();
        self.push_text(&mut text);
        assert(text@ =~= self.text());
        text
    }
}

/// Where the ranges fit the texts, the elements cover as many bytes as
/// their texts have.
pub proof fn lemma_elements_length(elements: Seq<SyntaxElement>, n: int, from: int)
    requires
        0 <= n <= elements.len(),
        elements_laid_out(elements, n, from),
    ensures
        elements_end(elements, n, from) - from == leaf_bytes(
            elements_steps(elements, n),
            elements_steps(elements, n).len() as int,
        ),
    decreases elements, n,
{
    if n > 0 {
        lemma_elements_length(elements, n - 1, from);
        let before = elements_steps(elements, n - 1);
        let own = elements[n - 1].steps();
        lemma_steps_concat(before, own, own.len() as int);
        assert(elements_laid_out(elements, n - 1, from));
        assert(elements[n - 1].laid_out());
        assert(elements[n - 1].range().start == elements_end(elements, n - 1, from));
        match elements[n - 1] {
            SyntaxElement::Node(child) => {
                assert(child.laid_out());
                lemma_node_length(child);
            },
            SyntaxElement::Token(token) => {
                assert(token.laid_out());
                assert(leaf_bytes(own, 1) == encode_utf8(token.text@).len()) by {
                    assert(leaf_bytes(own, 0) == 0);
                }
            },
        }
    } else {
        assert(leaf_bytes(elements_steps(elements, n), 0) == 0);
    }
}

/// Where the ranges fit the texts, a node covers as many bytes as its text
/// has: the ranges of its children add up to its own.
pub proof fn lemma_node_length(node: SyntaxNode)
    requires
        node.laid_out(),
    ensures
        node.range.end - node.range.start == leaf_bytes(node.steps(), node.steps().len() as int),
    decreases node, 0int,
{
    lemma_elements_length(
        node.children@,
        node.children@.len() as int,
        node.range.start as int,
    );
    lemma_whole_bytes(node.steps(), elements_steps(node.children@, node.children@.len() as int));
}

} // verus!
