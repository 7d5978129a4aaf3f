//! The green tree: the tree builder of `rowan`, the tree that it returns, and
//! what the library states of both.
use vstd::prelude::*;
use crate::syntax::KIND_COUNT;
use vstd::utf8::encode_utf8;

verus! {

/// The builder of green trees, as a type that is carried and not looked into.
#[verifier::external_type_specification]
#[verifier::external_body]
pub struct ExGreenNodeBuilder<'cache>(rowan::GreenNodeBuilder<'cache>);

/// A node of a green tree, as a type that is carried and not looked into.
#[verifier::external_type_specification]
#[verifier::external_body]
pub struct ExGreenNode(rowan::GreenNode);

/// A token of a green tree, as a type that is carried and not looked into.
#[verifier::external_type_specification]
#[verifier::external_body]
pub struct ExGreenToken(rowan::GreenToken);

/// One step in writing a tree down from left to right: a node of a raw kind
/// opens, a token of a raw kind with its text stands, or the innermost open
/// node closes.
pub enum Step {
    Open(u16),
    Leaf(u16, Seq<char>),
    Close,
}

/// The calls that a builder has received, in their order: `start_node` as
/// `Open`, `token` as `Leaf`, `finish_node` as `Close`.
pub uninterp spec fn builder_steps(builder: rowan::GreenNodeBuilder<'static>) -> Seq<Step>;

/// A green node written down from left to right: its opening, what its
/// children are written as, and its closing.
pub uninterp spec fn green_steps(node: rowan::GreenNode) -> Seq<Step>;

/// The raw kind of a green token.
pub uninterp spec fn green_token_kind(token: rowan::GreenToken) -> u16;

/// The text of a green token.
pub uninterp spec fn green_token_text(token: rowan::GreenToken) -> Seq<char>;

/// By how much a step changes the number of open nodes.
pub open spec fn step_delta(step: Step) -> int {
    match step {
        Step::Open(_) => 1,
        Step::Leaf(_, _) => 0,
        Step::Close => -1,
    }
}

/// The number of nodes that are open after the first `n` steps.
pub open spec fn step_depth(steps: Seq<Step>, n: int) -> int
    decreases n,
{
    if n <= 0 {
        0
    } else {
        step_depth(steps, n - 1) + step_delta(steps[n - 1])
    }
}

/// The number of bytes of text that a step holds.
pub open spec fn step_bytes(step: Step) -> nat {
    match step {
        Step::Leaf(_, text) => encode_utf8(text).len(),
        _ => 0,
    }
}

/// The number of bytes of text that the first `n` steps hold.
pub open spec fn leaf_bytes(steps: Seq<Step>, n: int) -> nat
    decreases n,
{
    if n <= 0 {
        0
    } else {
        leaf_bytes(steps, n - 1) + step_bytes(steps[n - 1])
    }
}

/// The text that the first `n` steps hold, from left to right.
pub open spec fn leaf_text(steps: Seq<Step>, n: int) -> Seq<char>
    decreases n,
{
    if n <= 0 {
        Seq::empty()
    } else {
        leaf_text(steps, n - 1) + match steps[n - 1] {
            Step::Leaf(_, text) => text,
            _ => Seq::empty(),
        }
    }
}

/// The steps write down one tree: a node opens first, it is the last to
/// close, and every node that opens closes.
pub open spec fn is_tree(steps: Seq<Step>) -> bool {
    &&& steps.len() >= 2
    &&& steps[0] is Open
    &&& forall|n: int| 0 < n < steps.len() ==> #[trigger] step_depth(steps, n) >= 1
    &&& step_depth(steps, steps.len() as int) == 0
}

/// Every kind in the steps is the raw value of a kind.
pub open spec fn kinds_known(steps: Seq<Step>) -> bool {
    forall|i: int|
        0 <= i < steps.len() ==> match #[trigger] steps[i] {
            Step::Open(kind) => kind < KIND_COUNT,
            Step::Leaf(kind, _) => kind < KIND_COUNT,
            Step::Close => true,
        }
}

/// What is said of the first `n` steps depends on these steps alone.
pub proof fn lemma_steps_prefix(s: Seq<Step>, t: Seq<Step>, n: int)
    requires
        0 <= n <= s.len(),
        n <= t.len(),
        forall|i: int| 0 <= i < n ==> #[trigger] s[i] == t[i],
    ensures
        step_depth(s, n) == step_depth(t, n),
        leaf_bytes(s, n) == leaf_bytes(t, n),
        leaf_text(s, n) == leaf_text(t, n),
    decreases n,
{
    if n > 0 {
        lemma_steps_prefix(s, t, n - 1);
    }
}

/// The bytes and the text of steps put one after the other are those of
/// both.
pub proof fn lemma_steps_concat(s: Seq<Step>, t: Seq<Step>, n: int)
    requires
        0 <= n <= t.len(),
    ensures
        leaf_bytes(s + t, s.len() + n) == leaf_bytes(s, s.len() as int) + leaf_bytes(t, n),
        leaf_text(s + t, s.len() + n) == leaf_text(s, s.len() as int) + leaf_text(t, n),
        step_depth(s + t, s.len() + n) == step_depth(s, s.len() as int) + step_depth(t, n),
    decreases n,
{
    if n > 0 {
        lemma_steps_concat(s, t, n - 1);
        assert((s + t)[s.len() + n - 1] == t[n - 1]);
        assert(leaf_text(s + t, s.len() + n) =~= leaf_text(s, s.len() as int) + leaf_text(t, n));
    } else {
        lemma_steps_prefix(s + t, s, s.len() as int);
        assert(leaf_text(s, s.len() as int) + leaf_text(t, 0) =~= leaf_text(s, s.len() as int));
    }
}

/// The bytes of the first steps are no more than the bytes of all.
pub proof fn lemma_leaf_bytes_monotonic(s: Seq<Step>, a: int, b: int)
    requires
        0 <= a <= b,
    ensures
        leaf_bytes(s, a) <= leaf_bytes(s, b),
    decreases b,
{
    if a < b {
        lemma_leaf_bytes_monotonic(s, a, b - 1);
    }
}

/// A child of a green node.
pub enum GreenChild {
    Node(rowan::GreenNode),
    Token(rowan::GreenToken),
}

/// What a child of a green node is written as.
pub open spec fn child_steps(child: GreenChild) -> Seq<Step> {
    match child {
        GreenChild::Node(node) => green_steps(node),
        GreenChild::Token(token) => seq![
            Step::Leaf(green_token_kind(token), green_token_text(token)),
        ],
    }
}

/// What the first `n` of the children are written as, one after the other.
pub open spec fn children_steps(children: Seq<GreenChild>, n: int) -> Seq<Step>
    decreases n,
{
    if n <= 0 {
        Seq::empty()
    } else {
        children_steps(children, n - 1) + child_steps(children[n - 1])
    }
}

/// `GreenNodeBuilder::new`: a builder that has received no call.
#[verifier::external_body]
pub(crate) fn builder_new() -> (builder: rowan::GreenNodeBuilder<'static>)
    ensures
        builder_steps(builder) == Seq::<Step>::empty(),
{
    rowan::GreenNodeBuilder::new()
}

/// `GreenNodeBuilder::start_node`: a node of the raw kind `kind` opens.
#[verifier::external_body]
pub(crate) fn builder_start_node(builder: &mut rowan::GreenNodeBuilder<'static>, kind: u16)
    ensures
        builder_steps(*final(builder)) == builder_steps(*old(builder)).push(Step::Open(kind)),
{
    builder.start_node(rowan::SyntaxKind(kind))
}

/// `GreenNodeBuilder::token`: a token of the raw kind `kind` with `text` is
/// added to the innermost open node.
#[verifier::external_body]
pub(crate) fn builder_token(builder: &mut rowan::GreenNodeBuilder<'static>, kind: u16, text: &str)
    ensures
        builder_steps(*final(builder)) == builder_steps(*old(builder)).push(
            Step::Leaf(kind, text@),
        ),
{
    builder.token(rowan::SyntaxKind(kind), text)
}

/// `GreenNodeBuilder::finish_node`: the innermost open node closes. The
/// builder panics where no node is open; it adds up the lengths of the texts
/// in 32 bits, so the call is made only where they fit.
#[verifier::external_body]
pub(crate) fn builder_finish_node(builder: &mut rowan::GreenNodeBuilder<'static>)
    requires
        step_depth(builder_steps(*old(builder)), builder_steps(*old(builder)).len() as int) >= 1,
        leaf_bytes(builder_steps(*old(builder)), builder_steps(*old(builder)).len() as int)
            <= u32::MAX,
    ensures
        builder_steps(*final(builder)) == builder_steps(*old(builder)).push(Step::Close),
{
    builder.finish_node()
}

/// `GreenNodeBuilder::finish`: the tree that the calls have built. The
/// builder panics unless the calls built exactly one node.
#[verifier::external_body]
pub(crate) fn builder_finish(builder: rowan::GreenNodeBuilder<'static>) -> (node: rowan::GreenNode)
    requires
        is_tree(builder_steps(builder)),
    ensures
        green_steps(node) == builder_steps(builder),
{
    builder.finish()
}

/// `GreenNodeData::kind`: the raw kind with which the node opens.
#[verifier::external_body]
pub(crate) fn green_kind(node: &rowan::GreenNode) -> (kind: u16)
    ensures
        green_steps(*node)[0] == Step::Open(kind),
{
    node.kind().0
}

/// `GreenNodeData::children`: the children of the node, from left to right.
/// Between its opening and its closing the node is written as its children.
#[verifier::external_body]
pub(crate) fn green_children(node: &rowan::GreenNode) -> (children: Vec<GreenChild>)
    ensures
        green_steps(*node) == seq![green_steps(*node)[0]] + children_steps(
            children@,
            children@.len() as int,
        ) + seq![Step::Close],
{
    let mut children = Vec::new();
    for child in node.children() {
        children.push(
            match child {
                rowan::NodeOrToken::Node(n) => GreenChild::Node(n.to_owned()),
                rowan::NodeOrToken::Token(t) => GreenChild::Token(t.to_owned()),
            },
        );
    }
    children
}

/// `GreenTokenData::kind`: the raw kind of the token.
#[verifier::external_body]
pub(crate) fn token_kind(token: &rowan::GreenToken) -> (kind: u16)
    ensures
        kind == green_token_kind(*token),
{
    token.kind().0
}

/// `GreenTokenData::text`: the text of the token.
#[verifier::external_body]
pub(crate) fn token_text(token: &rowan::GreenToken) -> (text: &str)
    ensures
        text@ == green_token_text(*token),
{
    token.text()
}

} // verus!
