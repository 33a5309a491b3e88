use vstd::prelude::*;
use crate::position::Range;
use crate::translator::TranslationError;

verus! {

/// The kind of an AST node: the root, the two built-in terminals, or a kind
/// named after the rule that produced it.
#[derive(Debug, Clone)]
pub enum NodeKind {
    Root,
    Name,
    Type,
    Node(String),
}

/// The mathematical value of a `NodeKind`.
pub ghost enum KindView {
    Root,
    Name,
    Type,
    Node(Seq<char>),
}

impl View for NodeKind {
    type V = KindView;

    open spec fn view(&self) -> KindView {
        match self {
            NodeKind::Root => KindView::Root,
            NodeKind::Name => KindView::Name,
            NodeKind::Type => KindView::Type,
            NodeKind::Node(s) => KindView::Node(s@),
        }
    }
}

impl PartialEq for NodeKind {
    fn eq(&self, other: &NodeKind) -> (r: bool) {
        match (self, other) {
            (NodeKind::Root, NodeKind::Root) => true,
            (NodeKind::Name, NodeKind::Name) => true,
            (NodeKind::Type, NodeKind::Type) => true,
            (NodeKind::Node(a), NodeKind::Node(b)) => *a == *b,
            _ => false,
        }
    }
}

impl vstd::std_specs::cmp::PartialEqSpecImpl for NodeKind {
    open spec fn obeys_eq_spec() -> bool {
        true
    }

    open spec fn eq_spec(&self, other: &NodeKind) -> bool {
        self@ == other@
    }
}

impl NodeKind {
    /// A copy of this kind.
    pub fn duplicate(&self) -> (r: NodeKind)
        ensures
            r@ == self@,
    {
        match self {
            NodeKind::Root => NodeKind::Root,
            NodeKind::Name => NodeKind::Name,
            NodeKind::Type => NodeKind::Type,
            NodeKind::Node(s) => NodeKind::Node(s.clone()),
        }
    }
}

/// One node of an AST: its kind, where it stands in the source, the source
/// text it covers, and the arena indices of its children in source order.
#[derive(Debug, Clone)]
pub struct Node {
    pub kind: NodeKind,
    pub range: Range,
    pub content: String,
    /// The node is a reference to a symbol, to be resolved against the
    /// nearest enclosing declaration of its name.
    pub usage: bool,
    pub children: Vec<usize>,
}

/// An AST snapshot: every node lives in one arena and is known by its index.
/// A child always stands after its parent, so the links form a tree.
#[derive(Debug, Clone)]
pub struct Ast {
    pub nodes: Vec<Node>,
    pub root_id: usize,
    /// What translation could not fit to the rule set.
    pub diagnostics: Vec<TranslationError>,
}

/// Every child index of every node lies after the node and inside the arena.
pub open spec fn arena_wf(nodes: Seq<Node>) -> bool {
    forall|i: int, j: int|
        0 <= i < nodes.len() && 0 <= j < nodes[i].children@.len() ==> i < #[trigger] nodes[i].children@[j]
            < nodes.len()
}

/// No node appears twice among the children lists: each has at most one parent.
pub open spec fn slots_unique(nodes: Seq<Node>) -> bool {
    forall|i1: int, x1: int, i2: int, x2: int|
        0 <= i1 < nodes.len() && 0 <= x1 < nodes[i1].children@.len() && 0 <= i2 < nodes.len() && 0 <= x2 < nodes[i2].children@.len()
            && #[trigger] nodes[i1].children@[x1] == #[trigger] nodes[i2].children@[x2] ==> i1 == i2 && x1 == x2
}

/// Node `j` is nobody's child.
pub open spec fn not_a_child(nodes: Seq<Node>, j: int) -> bool {
    forall|i: int, x: int| 0 <= i < nodes.len() && 0 <= x < nodes[i].children@.len() ==> #[trigger] nodes[i].children@[x] != j
}

/// Node `j` is some node's child.
pub open spec fn has_parent(nodes: Seq<Node>, j: int) -> bool {
    exists|i: int, x: int| 0 <= i < nodes.len() && 0 <= x < nodes[i].children@.len() && #[trigger] nodes[i].children@[x] == j
}

/// An AST node as a mathematical tree.
pub ghost struct AstTree {
    pub kind: KindView,
    pub range: Range,
    pub content: Seq<char>,
    pub usage: bool,
    pub children: Seq<AstTree>,
}

/// The tree rooted at arena index `i`.
pub open spec fn ast_tree(nodes: Seq<Node>, i: int) -> AstTree
    decreases nodes.len() - i, 1int, 0int when arena_wf(nodes) && 0 <= i < nodes.len()
{
    AstTree {
        kind: nodes[i].kind@,
        range: nodes[i].range,
        content: nodes[i].content@,
        usage: nodes[i].usage,
        children: ast_trees(nodes, nodes[i].children@, i),
    }
}

/// The trees at the given arena indices, each after `bound`.
pub open spec fn ast_trees(nodes: Seq<Node>, kids: Seq<usize>, bound: int) -> Seq<AstTree>
    decreases nodes.len() - bound, 0int, kids.len() when arena_wf(nodes) && 0 <= bound && (forall|j: int| 0 <= j < kids.len() ==> bound < #[trigger] kids[j] < nodes.len())
{
    if kids.len() == 0 {
        Seq::empty()
    } else {
        ast_trees(nodes, kids.drop_last(), bound).push(ast_tree(nodes, kids.last() as int))
    }
}

pub proof fn lemma_ast_trees(nodes: Seq<Node>, kids: Seq<usize>, bound: int)
    requires
        arena_wf(nodes),
        0 <= bound,
        forall|j: int| 0 <= j < kids.len() ==> bound < #[trigger] kids[j] < nodes.len(),
    ensures
        ast_trees(nodes, kids, bound).len() == kids.len(),
        forall|j: int| 0 <= j < kids.len() ==> #[trigger] ast_trees(nodes, kids, bound)[j] == ast_tree(nodes, kids[j] as int),
    decreases kids.len(),
{
    if kids.len() > 0 {
        lemma_ast_trees(nodes, kids.drop_last(), bound);
    }
}

pub proof fn lemma_ast_tree_unfold(nodes: Seq<Node>, i: int)
    requires
        arena_wf(nodes),
        0 <= i < nodes.len(),
    ensures
        ast_tree(nodes, i).kind == nodes[i].kind@,
        ast_tree(nodes, i).range == nodes[i].range,
        ast_tree(nodes, i).content == nodes[i].content@,
        ast_tree(nodes, i).usage == nodes[i].usage,
        ast_tree(nodes, i).children.len() == nodes[i].children@.len(),
        forall|j: int| 0 <= j < nodes[i].children@.len() ==> #[trigger] ast_tree(nodes, i).children[j] == ast_tree(nodes, nodes[i].children@[j] as int),
{
    lemma_ast_trees(nodes, nodes[i].children@, i);
}

/// Changing the arena outside `[a, t1.len())` leaves the trees rooted in that
/// range unchanged.
pub proof fn lemma_ast_frame(t1: Seq<Node>, t2: Seq<Node>, a: int, i: int)
    requires
        arena_wf(t1),
        arena_wf(t2),
        t1.len() <= t2.len(),
        forall|j: int| a <= j < t1.len() ==> #[trigger] t2[j] == t1[j],
        0 <= a <= i < t1.len(),
    ensures
        ast_tree(t2, i) == ast_tree(t1, i),
    decreases t1.len() - i,
{
    lemma_ast_tree_unfold(t1, i);
    lemma_ast_tree_unfold(t2, i);
    assert forall|j: int| 0 <= j < t1[i].children@.len() implies #[trigger] ast_tree(t2, i).children[j] == ast_tree(t1, i).children[j] by {
        lemma_ast_frame(t1, t2, a, t1[i].children@[j] as int);
    }
    assert(ast_tree(t2, i).children =~= ast_tree(t1, i).children);
}

impl Ast {
    pub open spec fn wf(&self) -> bool {
        &&& self.root_id < self.nodes@.len()
        &&& arena_wf(self.nodes@)
    }

    /// Whether the arena is well formed: the root and every child index lie
    /// inside it, and every child stands after its parent.
    pub fn is_wf(&self) -> (r: bool)
        ensures
            r == self.wf(),
    {
        if self.root_id >= self.nodes.len() {
            return false;
        }
        let mut i: usize = 0;
        while i < self.nodes.len()
            invariant
                i <= self.nodes@.len(),
                forall|a: int, b: int| 0 <= a < i && 0 <= b < self.nodes@[a].children@.len() ==> a < #[trigger] self.nodes@[a].children@[b] < self.nodes@.len(),
            decreases self.nodes.len() - i,
        {
            let kids = &self.nodes[i].children;
            let mut j: usize = 0;
            while j < kids.len()
                invariant
                    i < self.nodes@.len(),
                    kids@ == self.nodes@[i as int].children@,
                    j <= kids@.len(),
                    forall|b: int| 0 <= b < j ==> i < #[trigger] kids@[b] < self.nodes@.len(),
                decreases kids.len() - j,
            {
                if !(i < kids[j] && kids[j] < self.nodes.len()) {
                    return false;
                }
                j = j + 1;
            }
            i = i + 1;
        }
        true
    }
}

} // verus!
