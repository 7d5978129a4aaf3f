use crate::syntax::{SyntaxElement, SyntaxKind, SyntaxNode, SyntaxToken};
use crate::text::{parse_u64, parse_u64_spec};
use vstd::prelude::*;
use vstd::string::StringSliceAdditionalSpecFns;
use vstd::utf8::encode_utf8;

verus! {

/// What is looked for among the children of a node.
#[derive(Debug, Clone, Copy, PartialEq, Eq)]
pub enum Want {
    /// A node that is an expression.
    Expr,
    /// A node that is a statement.
    Stmt,
    /// A token of one kind.
    Token(SyntaxKind),
    /// A token that is one of `+`, `-`, `*` and `/`.
    Operator,
}

/// The kinds of the nodes that are expressions.
pub open spec fn is_expr_kind(kind: SyntaxKind) -> bool {
    kind == SyntaxKind::InfixExpr || kind == SyntaxKind::Literal || kind == SyntaxKind::ParenExpr
        || kind == SyntaxKind::PrefixExpr || kind == SyntaxKind::VariableRef
}

/// The kinds of the tokens that are operators between two operands.
pub open spec fn is_operator_kind(kind: SyntaxKind) -> bool {
    kind == SyntaxKind::Plus || kind == SyntaxKind::Minus || kind == SyntaxKind::Star || kind
        == SyntaxKind::Slash
}

/// Whether `element` is what is looked for.
pub open spec fn wanted(element: SyntaxElement, want: Want) -> bool {
    match (element, want) {
        (SyntaxElement::Node(node), Want::Expr) => is_expr_kind(node.kind),
        (SyntaxElement::Node(node), Want::Stmt) => node.kind == SyntaxKind::VariableDef
            || is_expr_kind(node.kind),
        (SyntaxElement::Token(token), Want::Token(kind)) => token.kind == kind,
        (SyntaxElement::Token(token), Want::Operator) => is_operator_kind(token.kind),
        _ => false,
    }
}

/// The index of the first of `elements` at or after `from` that is what is
/// looked for; the number of elements where there is none.
pub open spec fn find(elements: Seq<SyntaxElement>, want: Want, from: int) -> int
    decreases elements.len() - from,
{
    if 0 <= from < elements.len() && !wanted(elements[from], want) {
        find(elements, want, from + 1)
    } else {
        from
    }
}

/// What is found stands at or behind `from`, and is what was looked for.
pub proof fn lemma_find(elements: Seq<SyntaxElement>, want: Want, from: int)
    requires
        0 <= from <= elements.len(),
    ensures
        from <= find(elements, want, from) <= elements.len(),
        find(elements, want, from) < elements.len() ==> wanted(
            elements[find(elements, want, from)],
            want,
        ),
    decreases elements.len() - from,
{
    if from < elements.len() && !wanted(elements[from], want) {
        lemma_find(elements, want, from + 1);
    }
}

fn is_expr(kind: SyntaxKind) -> (b: bool)
    ensures
        b == is_expr_kind(kind),
{
    match kind {
        SyntaxKind::InfixExpr
        | SyntaxKind::Literal
        | SyntaxKind::ParenExpr
        | SyntaxKind::PrefixExpr
        | SyntaxKind::VariableRef => true,
        _ => false,
    }
}

fn is_operator(kind: SyntaxKind) -> (b: bool)
    ensures
        b == is_operator_kind(kind),
{
    match kind {
        SyntaxKind::Plus | SyntaxKind::Minus | SyntaxKind::Star | SyntaxKind::Slash => true,
        _ => false,
    }
}

fn is_wanted(element: &SyntaxElement, want: &Want) -> (b: bool)
    ensures
        b == wanted(*element, *want),
{
    match element {
        SyntaxElement::Node(node) => match want {
            Want::Expr => is_expr(node.kind),
            Want::Stmt => node.kind == SyntaxKind::VariableDef || is_expr(node.kind),
            _ => false,
        },
        SyntaxElement::Token(token) => match want {
            Want::Token(kind) => token.kind == *kind,
            Want::Operator => is_operator(token.kind),
            _ => false,
        },
    }
}

/// The index of the first child of `node` at or after `from` that is what is
/// looked for; the number of children where there is none.
pub fn find_child(node: &SyntaxNode, want: Want, from: usize) -> (at: usize)
    requires
        from <= node.children@.len(),
    ensures
        at == find(node.children@, want, from as int),
        from <= at <= node.children@.len(),
        at < node.children@.len() ==> wanted(node.children@[at as int], want),
{
    proof {
        lemma_find(node.children@, want, from as int);
    }
    let count = node.children.len();
    let mut at = from;
    while at < count && !is_wanted(&node.children[at], &want)
        invariant
            count == node.children@.len(),
            from <= at <= count,
            find(node.children@, want, at as int) == find(node.children@, want, from as int),
        decreases count - at,
    {
        at += 1;
    }
    at
}

/// The node among the children of `node` at `at`, if a node stands there.
pub open spec fn node_at(node: SyntaxNode, at: int) -> Option<SyntaxNode> {
    if 0 <= at < node.children@.len() && node.children@[at] is Node {
        Some(node.children@[at]->Node_0)
    } else {
        None
    }
}

/// The token among the children of `node` at `at`, if a token stands there.
pub open spec fn token_at(node: SyntaxNode, at: int) -> Option<SyntaxToken> {
    if 0 <= at < node.children@.len() && node.children@[at] is Token {
        Some(node.children@[at]->Token_0)
    } else {
        None
    }
}

fn child_node<'a>(node: &'a SyntaxNode, at: usize) -> (child: Option<&'a SyntaxNode>)
    ensures
        match child {
            Some(c) => node_at(*node, at as int) == Some(*c),
            None => node_at(*node, at as int) is None,
        },
{
    if at < node.children.len() {
        match &node.children[at] {
            SyntaxElement::Node(child) => Some(child),
            SyntaxElement::Token(_) => None,
        }
    } else {
        None
    }
}

fn child_token<'a>(node: &'a SyntaxNode, at: usize) -> (child: Option<&'a SyntaxToken>)
    ensures
        match child {
            Some(c) => token_at(*node, at as int) == Some(*c),
            None => token_at(*node, at as int) is None,
        },
{
    if at < node.children.len() {
        match &node.children[at] {
            SyntaxElement::Token(child) => Some(child),
            SyntaxElement::Node(_) => None,
        }
    } else {
        None
    }
}

/// The first child of `node` that is an expression.
pub open spec fn first_expr(node: SyntaxNode) -> Option<SyntaxNode> {
    node_at(node, find(node.children@, Want::Expr, 0))
}

/// The second child of `node` that is an expression.
pub open spec fn second_expr(node: SyntaxNode) -> Option<SyntaxNode> {
    node_at(node, find(node.children@, Want::Expr, find(node.children@, Want::Expr, 0) + 1))
}

/// The first child of `node` that is a token of `kind`.
pub open spec fn first_token_of(node: SyntaxNode, kind: SyntaxKind) -> Option<SyntaxToken> {
    token_at(node, find(node.children@, Want::Token(kind), 0))
}

/// The first child of `node` that is an operator between two operands.
pub open spec fn first_operator(node: SyntaxNode) -> Option<SyntaxToken> {
    token_at(node, find(node.children@, Want::Operator, 0))
}

/// The leftmost token below `node`, found by going down through first
/// children: none where a first child is missing on the way.
pub open spec fn first_token(node: SyntaxNode) -> Option<SyntaxToken>
    decreases node,
{
    if node.children@.len() == 0 {
        None
    } else {
        match node.children@[0] {
            SyntaxElement::Token(token) => Some(token),
            SyntaxElement::Node(child) => first_token(child),
        }
    }
}

/// The leftmost token below `node`.
pub fn leftmost_token<'a>(node: &'a SyntaxNode) -> (token: Option<&'a SyntaxToken>)
    ensures
        match token {
            Some(t) => first_token(*node) == Some(*t),
            None => first_token(*node) is None,
        },
    decreases node,
{
    if node.children.len() == 0 {
        None
    } else {
        match &node.children[0] {
            SyntaxElement::Token(token) => Some(token),
            SyntaxElement::Node(child) => leftmost_token(child),
        }
    }
}

/// The whole of a parsed text. A view of a node of kind `Root`.
#[derive(Debug)]
pub struct Root<'a> {
    node: &'a SyntaxNode,
}

impl<'a> Root<'a> {
    #[verifier::type_invariant]
    spec fn inv(self) -> bool {
        self.node.kind == SyntaxKind::Root
    }

    /// The node that is viewed.
    pub closed spec fn syntax(self) -> SyntaxNode {
        *self.node
    }

    /// The view of `node`; none unless the node is of kind `Root`.
    pub fn cast(node: &'a SyntaxNode) -> (view: Option<Self>)
        ensures
            view is Some <==> node.kind == SyntaxKind::Root,
            view matches Some(v) ==> v.syntax() == *node,
    {
        if node.kind == SyntaxKind::Root {
            Some(Root { node })
        } else {
            None
        }
    }

    /// The node that is viewed.
    pub fn inner(&self) -> (node: &'a SyntaxNode)
        ensures
            *node == self.syntax(),
            node.kind == SyntaxKind::Root,
    {
        proof {
            use_type_invariant(self);
        }
        self.node
    }
}

/// An operator between two operands. A view of a node of kind `InfixExpr`.
#[derive(Debug)]
pub struct BinaryExpr<'a> {
    node: &'a SyntaxNode,
}

impl<'a> BinaryExpr<'a> {
    #[verifier::type_invariant]
    spec fn inv(self) -> bool {
        self.node.kind == SyntaxKind::InfixExpr
    }

    /// The node that is viewed.
    pub closed spec fn syntax(self) -> SyntaxNode {
        *self.node
    }

    /// The view of `node`; none unless the node is of kind `InfixExpr`.
    pub fn cast(node: &'a SyntaxNode) -> (view: Option<Self>)
        ensures
            view is Some <==> node.kind == SyntaxKind::InfixExpr,
            view matches Some(v) ==> v.syntax() == *node,
    {
        if node.kind == SyntaxKind::InfixExpr {
            Some(BinaryExpr { node })
        } else {
            None
        }
    }

    /// The node that is viewed.
    pub fn inner(&self) -> (node: &'a SyntaxNode)
        ensures
            *node == self.syntax(),
            node.kind == SyntaxKind::InfixExpr,
    {
        proof {
            use_type_invariant(self);
        }
        self.node
    }
}

/// A number. A view of a node of kind `Literal`.
#[derive(Debug)]
pub struct Literal<'a> {
    node: &'a SyntaxNode,
}

impl<'a> Literal<'a> {
    #[verifier::type_invariant]
    spec fn inv(self) -> bool {
        self.node.kind == SyntaxKind::Literal
    }

    /// The node that is viewed.
    pub closed spec fn syntax(self) -> SyntaxNode {
        *self.node
    }

    /// The view of `node`; none unless the node is of kind `Literal`.
    pub fn cast(node: &'a SyntaxNode) -> (view: Option<Self>)
        ensures
            view is Some <==> node.kind == SyntaxKind::Literal,
            view matches Some(v) ==> v.syntax() == *node,
    {
        if node.kind == SyntaxKind::Literal {
            Some(Literal { node })
        } else {
            None
        }
    }

    /// The node that is viewed.
    pub fn inner(&self) -> (node: &'a SyntaxNode)
        ensures
            *node == self.syntax(),
            node.kind == SyntaxKind::Literal,
    {
        proof {
            use_type_invariant(self);
        }
        self.node
    }
}

/// An expression in parentheses. A view of a node of kind `ParenExpr`.
#[derive(Debug)]
pub struct ParenExpr<'a> {
    node: &'a SyntaxNode,
}

impl<'a> ParenExpr<'a> {
    #[verifier::type_invariant]
    spec fn inv(self) -> bool {
        self.node.kind == SyntaxKind::ParenExpr
    }

    /// The node that is viewed.
    pub closed spec fn syntax(self) -> SyntaxNode {
        *self.node
    }

    /// The view of `node`; none unless the node is of kind `ParenExpr`.
    pub fn cast(node: &'a SyntaxNode) -> (view: Option<Self>)
        ensures
            view is Some <==> node.kind == SyntaxKind::ParenExpr,
            view matches Some(v) ==> v.syntax() == *node,
    {
        if node.kind == SyntaxKind::ParenExpr {
            Some(ParenExpr { node })
        } else {
            None
        }
    }

    /// The node that is viewed.
    pub fn inner(&self) -> (node: &'a SyntaxNode)
        ensures
            *node == self.syntax(),
            node.kind == SyntaxKind::ParenExpr,
    {
        proof {
            use_type_invariant(self);
        }
        self.node
    }
}

/// An operator before its operand. A view of a node of kind `PrefixExpr`.
#[derive(Debug)]
pub struct UnaryExpr<'a> {
    node: &'a SyntaxNode,
}

impl<'a> UnaryExpr<'a> {
    #[verifier::type_invariant]
    spec fn inv(self) -> bool {
        self.node.kind == SyntaxKind::PrefixExpr
    }

    /// The node that is viewed.
    pub closed spec fn syntax(self) -> SyntaxNode {
        *self.node
    }

    /// The view of `node`; none unless the node is of kind `PrefixExpr`.
    pub fn cast(node: &'a SyntaxNode) -> (view: Option<Self>)
        ensures
            view is Some <==> node.kind == SyntaxKind::PrefixExpr,
            view matches Some(v) ==> v.syntax() == *node,
    {
        if node.kind == SyntaxKind::PrefixExpr {
            Some(UnaryExpr { node })
        } else {
            None
        }
    }

    /// The node that is viewed.
    pub fn inner(&self) -> (node: &'a SyntaxNode)
        ensures
            *node == self.syntax(),
            node.kind == SyntaxKind::PrefixExpr,
    {
        proof {
            use_type_invariant(self);
        }
        self.node
    }
}

/// The definition of a variable. A view of a node of kind `VariableDef`.
#[derive(Debug)]
pub struct VariableDef<'a> {
    node: &'a SyntaxNode,
}

impl<'a> VariableDef<'a> {
    #[verifier::type_invariant]
    spec fn inv(self) -> bool {
        self.node.kind == SyntaxKind::VariableDef
    }

    /// The node that is viewed.
    pub closed spec fn syntax(self) -> SyntaxNode {
        *self.node
    }

    /// The view of `node`; none unless the node is of kind `VariableDef`.
    pub fn cast(node: &'a SyntaxNode) -> (view: Option<Self>)
        ensures
            view is Some <==> node.kind == SyntaxKind::VariableDef,
            view matches Some(v) ==> v.syntax() == *node,
    {
        if node.kind == SyntaxKind::VariableDef {
            Some(VariableDef { node })
        } else {
            None
        }
    }

    /// The node that is viewed.
    pub fn inner(&self) -> (node: &'a SyntaxNode)
        ensures
            *node == self.syntax(),
            node.kind == SyntaxKind::VariableDef,
    {
        proof {
            use_type_invariant(self);
        }
        self.node
    }
}

/// The use of a variable. A view of a node of kind `VariableRef`.
#[derive(Debug)]
pub struct VariableRef<'a> {
    node: &'a SyntaxNode,
}

impl<'a> VariableRef<'a> {
    #[verifier::type_invariant]
    spec fn inv(self) -> bool {
        self.node.kind == SyntaxKind::VariableRef
    }

    /// The node that is viewed.
    pub closed spec fn syntax(self) -> SyntaxNode {
        *self.node
    }

    /// The view of `node`; none unless the node is of kind `VariableRef`.
    pub fn cast(node: &'a SyntaxNode) -> (view: Option<Self>)
        ensures
            view is Some <==> node.kind == SyntaxKind::VariableRef,
            view matches Some(v) ==> v.syntax() == *node,
    {
        if node.kind == SyntaxKind::VariableRef {
            Some(VariableRef { node })
        } else {
            None
        }
    }

    /// The node that is viewed.
    pub fn inner(&self) -> (node: &'a SyntaxNode)
        ensures
            *node == self.syntax(),
            node.kind == SyntaxKind::VariableRef,
    {
        proof {
            use_type_invariant(self);
        }
        self.node
    }
}

/// A statement.
#[derive(Debug)]
pub enum Stmt<'a> {
    VariableDef(VariableDef<'a>),
    Expr(Expr<'a>),
}

/// An expression.
#[derive(Debug)]
pub enum Expr<'a> {
    BinaryExpr(BinaryExpr<'a>),
    Literal(Literal<'a>),
    ParenExpr(ParenExpr<'a>),
    UnaryExpr(UnaryExpr<'a>),
    VariableRef(VariableRef<'a>),
}

impl<'a> Expr<'a> {
    /// The node of this expression.
    pub open spec fn syntax(self) -> SyntaxNode {
        match self {
            Expr::BinaryExpr(e) => e.syntax(),
            Expr::Literal(e) => e.syntax(),
            Expr::ParenExpr(e) => e.syntax(),
            Expr::UnaryExpr(e) => e.syntax(),
            Expr::VariableRef(e) => e.syntax(),
        }
    }

    /// The view is the one for the kind of its node.
    pub open spec fn well_typed(self) -> bool {
        match self {
            Expr::BinaryExpr(e) => e.syntax().kind == SyntaxKind::InfixExpr,
            Expr::Literal(e) => e.syntax().kind == SyntaxKind::Literal,
            Expr::ParenExpr(e) => e.syntax().kind == SyntaxKind::ParenExpr,
            Expr::UnaryExpr(e) => e.syntax().kind == SyntaxKind::PrefixExpr,
            Expr::VariableRef(e) => e.syntax().kind == SyntaxKind::VariableRef,
        }
    }

    /// The node of this expression.
    pub fn inner(&self) -> (node: &'a SyntaxNode)
        ensures
            *node == self.syntax(),
            self.well_typed(),
            is_expr_kind(node.kind),
    {
        match self {
            Expr::BinaryExpr(e) => e.inner(),
            Expr::Literal(e) => e.inner(),
            Expr::ParenExpr(e) => e.inner(),
            Expr::UnaryExpr(e) => e.inner(),
            Expr::VariableRef(e) => e.inner(),
        }
    }

    /// The typed view of a node, by its kind; none where the node is no
    /// expression.
    pub fn cast(node: &'a SyntaxNode) -> (expr: Option<Self>)
        ensures
            expr is Some <==> is_expr_kind(node.kind),
            expr matches Some(e) ==> e.syntax() == *node && e.well_typed(),
    {
        match node.kind {
            SyntaxKind::InfixExpr => Some(Expr::BinaryExpr(BinaryExpr { node })),
            SyntaxKind::Literal => Some(Expr::Literal(Literal { node })),
            SyntaxKind::ParenExpr => Some(Expr::ParenExpr(ParenExpr { node })),
            SyntaxKind::PrefixExpr => Some(Expr::UnaryExpr(UnaryExpr { node })),
            SyntaxKind::VariableRef => Some(Expr::VariableRef(VariableRef { node })),
            _ => None,
        }
    }
}

/// The node of an expression that may be missing.
pub open spec fn node_of(ast: Option<Expr>) -> Option<SyntaxNode> {
    match ast {
        Some(expr) => Some(expr.syntax()),
        None => None,
    }
}

/// `ast` views the node that `found` is, with the view for its kind; it is
/// missing where `found` is.
pub open spec fn views(ast: Option<Expr>, found: Option<SyntaxNode>) -> bool {
    &&& node_of(ast) == found
    &&& ast matches Some(expr) ==> expr.well_typed()
}

fn expr_from<'a>(node: &'a SyntaxNode, at: usize) -> (expr: Option<Expr<'a>>)
    requires
        at <= node.children@.len(),
        at < node.children@.len() ==> wanted(node.children@[at as int], Want::Expr),
    ensures
        views(expr, node_at(*node, at as int)),
        expr is Some <==> at < node.children@.len(),
{
    match child_node(node, at) {
        Some(child) => Expr::cast(child),
        None => None,
    }
}

impl<'a> Stmt<'a> {
    /// The node of this statement.
    pub open spec fn syntax(self) -> SyntaxNode {
        match self {
            Stmt::VariableDef(def) => def.syntax(),
            Stmt::Expr(expr) => expr.syntax(),
        }
    }

    /// The view is the one for the kind of its node.
    pub open spec fn well_typed(self) -> bool {
        match self {
            Stmt::VariableDef(def) => def.syntax().kind == SyntaxKind::VariableDef,
            Stmt::Expr(expr) => expr.well_typed(),
        }
    }

    /// The node of this statement.
    pub fn inner(&self) -> (node: &'a SyntaxNode)
        ensures
            *node == self.syntax(),
            self.well_typed(),
    {
        match self {
            Stmt::VariableDef(def) => def.inner(),
            Stmt::Expr(expr) => expr.inner(),
        }
    }

    /// The typed view of a node: a variable definition or an expression;
    /// none where the node is neither.
    pub fn cast(node: &'a SyntaxNode) -> (stmt: Option<Self>)
        ensures
            stmt is Some <==> (node.kind == SyntaxKind::VariableDef || is_expr_kind(node.kind)),
            stmt matches Some(s) ==> s.syntax() == *node && s.well_typed(),
    {
        if node.kind == SyntaxKind::VariableDef {
            Some(Stmt::VariableDef(VariableDef { node }))
        } else {
            match Expr::cast(node) {
                Some(expr) => Some(Stmt::Expr(expr)),
                None => None,
            }
        }
    }
}

/// The nodes among the first `n` of `elements` that are statements, in
/// their order.
pub open spec fn stmt_nodes(elements: Seq<SyntaxElement>, n: int) -> Seq<SyntaxNode>
    decreases n,
{
    if n <= 0 {
        Seq::empty()
    } else if wanted(elements[n - 1], Want::Stmt) {
        stmt_nodes(elements, n - 1).push(elements[n - 1]->Node_0)
    } else {
        stmt_nodes(elements, n - 1)
    }
}

/// `stmts` view `nodes`, one each and in their order, each with the view
/// for the kind of its node.
pub open spec fn view_all(stmts: Seq<Stmt>, nodes: Seq<SyntaxNode>) -> bool {
    &&& stmts.len() == nodes.len()
    &&& forall|i: int|
        0 <= i < stmts.len() ==> (#[trigger] stmts[i]).syntax() == nodes[i] && stmts[i].well_typed()
}

impl<'a> Root<'a> {
    /// The statements: the children that are variable definitions or
    /// expressions, in their order.
    pub fn stmts(&self) -> (stmts: Vec<Stmt<'a>>)
        ensures
            view_all(
                stmts@,
                stmt_nodes(self.syntax().children@, self.syntax().children@.len() as int),
            ),
    {
        let node: &'a SyntaxNode = self.node;
        let count = node.children.len();
        let mut stmts: Vec<Stmt<'a>> = Vec::new();
        let mut i: usize = 0;
        while i < count
            invariant
                count == node.children@.len(),
                i <= count,
                view_all(stmts@, stmt_nodes(node.children@, i as int)),
            decreases count - i,
        {
            match child_node(node, i) {
                Some(child) => match Stmt::cast(child) {
                    Some(stmt) => {
                        stmts.push(stmt);
                    },
                    None => {},
                },
                None => {},
            }
            i += 1;
        }
        stmts
    }
}

impl<'a> VariableDef<'a> {
    /// The name: the first child that is an identifier.
    pub fn name(&self) -> (name: Option<&'a SyntaxToken>)
        ensures
            match name {
                Some(token) => first_token_of(self.syntax(), SyntaxKind::Ident) == Some(*token),
                None => first_token_of(self.syntax(), SyntaxKind::Ident) is None,
            },
    {
        let node: &'a SyntaxNode = self.node;
        let at = find_child(node, Want::Token(SyntaxKind::Ident), 0);
        child_token(node, at)
    }

    /// The value: the first child that is an expression.
    pub fn value(&self) -> (value: Option<Expr<'a>>)
        ensures
            views(value, first_expr(self.syntax())),
    {
        let node: &'a SyntaxNode = self.node;
        let at = find_child(node, Want::Expr, 0);
        expr_from(node, at)
    }
}

impl<'a> BinaryExpr<'a> {
    /// The left operand: the first child that is an expression.
    pub fn lhs(&self) -> (lhs: Option<Expr<'a>>)
        ensures
            views(lhs, first_expr(self.syntax())),
    {
        let node: &'a SyntaxNode = self.node;
        let at = find_child(node, Want::Expr, 0);
        expr_from(node, at)
    }

    /// The right operand: the second child that is an expression.
    pub fn rhs(&self) -> (rhs: Option<Expr<'a>>)
        ensures
            views(rhs, second_expr(self.syntax())),
    {
        let node: &'a SyntaxNode = self.node;
        let first = find_child(node, Want::Expr, 0);
        if first < node.children.len() {
            let at = find_child(node, Want::Expr, first + 1);
            expr_from(node, at)
        } else {
            None
        }
    }

    /// The operator: the first child that is one of `+`, `-`, `*` and `/`.
    pub fn op(&self) -> (op: Option<&'a SyntaxToken>)
        ensures
            match op {
                Some(token) => first_operator(self.syntax()) == Some(*token),
                None => first_operator(self.syntax()) is None,
            },
    {
        let node: &'a SyntaxNode = self.node;
        let at = find_child(node, Want::Operator, 0);
        child_token(node, at)
    }
}

impl<'a> Literal<'a> {
    /// The number that the literal's text stands for, if it stands for one
    /// that 64 bits hold.
    pub open spec fn value(self) -> Option<u64> {
        match first_token(self.syntax()) {
            Some(token) => parse_u64_spec(encode_utf8(token.text@)),
            None => None,
        }
    }

    /// The number that the literal's text stands for; none where the number
    /// is too large for 64 bits.
    pub fn parse(&self) -> (n: Option<u64>)
        ensures
            n == self.value(),
    {
        let node: &'a SyntaxNode = self.node;
        match leftmost_token(node) {
            Some(token) => parse_u64(token.text()),
            None => None,
        }
    }
}

impl<'a> ParenExpr<'a> {
    /// The expression in the parentheses: the first child that is an
    /// expression.
    pub fn expr(&self) -> (expr: Option<Expr<'a>>)
        ensures
            views(expr, first_expr(self.syntax())),
    {
        let node: &'a SyntaxNode = self.node;
        let at = find_child(node, Want::Expr, 0);
        expr_from(node, at)
    }
}

impl<'a> UnaryExpr<'a> {
    /// The operand: the first child that is an expression.
    pub fn expr(&self) -> (expr: Option<Expr<'a>>)
        ensures
            views(expr, first_expr(self.syntax())),
    {
        let node: &'a SyntaxNode = self.node;
        let at = find_child(node, Want::Expr, 0);
        expr_from(node, at)
    }

    /// The operator: the first child that is a `-`.
    pub fn op(&self) -> (op: Option<&'a SyntaxToken>)
        ensures
            match op {
                Some(token) => first_token_of(self.syntax(), SyntaxKind::Minus) == Some(*token),
                None => first_token_of(self.syntax(), SyntaxKind::Minus) is None,
            },
    {
        let node: &'a SyntaxNode = self.node;
        let at = find_child(node, Want::Token(SyntaxKind::Minus), 0);
        child_token(node, at)
    }
}

impl<'a> VariableRef<'a> {
    /// The name: the leftmost token of the node.
    pub fn name(&self) -> (name: Option<&'a SyntaxToken>)
        ensures
            match name {
                Some(token) => first_token(self.syntax()) == Some(*token),
                None => first_token(self.syntax()) is None,
            },
    {
        let node: &'a SyntaxNode = self.node;
        leftmost_token(node)
    }
}

} // verus!
