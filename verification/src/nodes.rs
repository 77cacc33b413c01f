//! Expression subtrees as the caller builds them, before interning.
//!
//! A subtree is an owned value: a `LeafNode` names a predicate by its 64-bit
//! identifier, while `InnerNode` and `RootNode` combine children under a
//! logical operation.  Every node has a content-derived identifier
//! (`tree_id`): a leaf's identifier is its predicate identifier, and an
//! inner or root node folds its children's identifiers with wrapping
//! arithmetic, so that the identifier is a structural fingerprint that is
//! insensitive to reordering of siblings (`lemma_tree_id_sibling_swap`).
//!
//! A subtree only points downward: parent back-references exist in the
//! interned DAG, where `ATree::insert` wires them while it canonicalises
//! the children.

use vstd::prelude::*;

verus! {

/// The logical operation an inner or root node applies to its children.
#[derive(Clone, Copy, Debug, PartialEq, Eq, Structural)]
pub enum LogOperation {
    And,
    Or,
}

/// A leaf of an expression subtree: a reference to one predicate.
#[derive(Clone, Debug)]
pub struct LeafNode {
    pub predicate_id: u64,
}

/// An intermediate boolean combination of child subtrees.
#[derive(Debug)]
pub struct InnerNode {
    pub log_operation: LogOperation,
    pub childrens: Vec<NodeType>,
}

/// The apex of one registered expression.
#[derive(Debug)]
pub struct RootNode {
    pub log_operation: LogOperation,
    pub childrens: Vec<NodeType>,
}

/// One node of an expression subtree, of any of the three variants.
#[derive(Debug)]
pub enum NodeType {
    LeafNodeType(LeafNode),
    InnerNodeType(InnerNode),
    RootNodeType(RootNode),
}

/// The accumulator a child-identifier fold starts from: 0 for `And`
/// (wrapping addition), 1 for `Or` (wrapping multiplication).
pub open spec fn fold_init(op: LogOperation) -> u64 {
    match op {
        LogOperation::And => 0u64,
        LogOperation::Or => 1u64,
    }
}

/// One step of the child-identifier fold.
pub open spec fn fold_step(op: LogOperation, acc: u64, id: u64) -> u64 {
    match op {
        LogOperation::And => acc.wrapping_add(id),
        LogOperation::Or => acc.wrapping_mul(id),
    }
}

/// The content-derived identifier of a subtree.
pub open spec fn tree_id(t: NodeType) -> u64
    decreases t, 0int,
{
    match t {
        NodeType::LeafNodeType(leaf) => leaf.predicate_id,
        NodeType::InnerNodeType(inner) => fold_tree_ids(
            inner.log_operation,
            inner.childrens@,
            0,
            fold_init(inner.log_operation),
        ),
        NodeType::RootNodeType(root) => fold_tree_ids(
            root.log_operation,
            root.childrens@,
            0,
            fold_init(root.log_operation),
        ),
    }
}

/// Folds the identifiers of `cs[k..]` into `acc`.
pub open spec fn fold_tree_ids(op: LogOperation, cs: Seq<NodeType>, k: int, acc: u64) -> u64
    decreases cs, cs.len() - k,
{
    if k < 0 || k >= cs.len() {
        acc
    } else {
        fold_tree_ids(op, cs, k + 1, fold_step(op, acc, tree_id(cs[k])))
    }
}

/// The level a subtree reports when asked from accumulated depth `lv`:
/// a leaf answers `lv + 1`, an inner or root node asks its children at
/// `lv + 1` and reports the maximum of their answers (0 with no children).
pub open spec fn spec_level(t: NodeType, lv: int) -> int
    decreases t, 0int,
{
    match t {
        NodeType::LeafNodeType(_) => lv + 1,
        NodeType::InnerNodeType(inner) => fold_levels(inner.childrens@, 0, lv + 1, 0),
        NodeType::RootNodeType(root) => fold_levels(root.childrens@, 0, lv + 1, 0),
    }
}

/// The maximum of `m` and the levels of `cs[k..]` asked from depth `lv`.
pub open spec fn fold_levels(cs: Seq<NodeType>, k: int, lv: int, m: int) -> int
    decreases cs, cs.len() - k,
{
    if k < 0 || k >= cs.len() {
        m
    } else {
        let l = spec_level(cs[k], lv);
        fold_levels(cs, k + 1, lv, if l > m { l } else { m })
    }
}

/// The height of a subtree: 1 for a leaf, one more than the tallest child
/// otherwise.  It bounds how far `get_level` increments its argument.
pub open spec fn tree_height(t: NodeType) -> int
    decreases t, 0int,
{
    match t {
        NodeType::LeafNodeType(_) => 1,
        NodeType::InnerNodeType(inner) => 1 + fold_heights(inner.childrens@, 0),
        NodeType::RootNodeType(root) => 1 + fold_heights(root.childrens@, 0),
    }
}

/// The maximum height among `cs[k..]`, or 0 when the range is empty.
pub open spec fn fold_heights(cs: Seq<NodeType>, k: int) -> int
    decreases cs, cs.len() - k,
{
    if k < 0 || k >= cs.len() {
        0
    } else {
        let h = tree_height(cs[k]);
        let rest = fold_heights(cs, k + 1);
        if h > rest {
            h
        } else {
            rest
        }
    }
}

/// The number of nodes in a subtree.
pub open spec fn tree_size(t: NodeType) -> int
    decreases t, 0int,
{
    match t {
        NodeType::LeafNodeType(_) => 1,
        NodeType::InnerNodeType(inner) => 1 + fold_sizes(inner.childrens@, 0),
        NodeType::RootNodeType(root) => 1 + fold_sizes(root.childrens@, 0),
    }
}

/// The total node count of `cs[k..]`.
pub open spec fn fold_sizes(cs: Seq<NodeType>, k: int) -> int
    decreases cs, cs.len() - k,
{
    if k < 0 || k >= cs.len() {
        0
    } else {
        tree_size(cs[k]) + fold_sizes(cs, k + 1)
    }
}

/// The set of identifiers of all nodes of a subtree.
pub open spec fn tree_ids(t: NodeType) -> Set<u64>
    decreases t, 1int,
{
    match t {
        NodeType::LeafNodeType(leaf) => Set::empty().insert(leaf.predicate_id),
        NodeType::InnerNodeType(inner) => fold_ids_union(inner.childrens@, 0).insert(tree_id(t)),
        NodeType::RootNodeType(root) => fold_ids_union(root.childrens@, 0).insert(tree_id(t)),
    }
}

/// The union of the identifier sets of `cs[k..]`.
pub open spec fn fold_ids_union(cs: Seq<NodeType>, k: int) -> Set<u64>
    decreases cs, cs.len() - k,
{
    if k < 0 || k >= cs.len() {
        Set::empty()
    } else {
        tree_ids(cs[k]).union(fold_ids_union(cs, k + 1))
    }
}

/// The children sequence of a subtree node; empty for a leaf.
pub open spec fn children_of(t: NodeType) -> Seq<NodeType> {
    match t {
        NodeType::LeafNodeType(_) => Seq::empty(),
        NodeType::InnerNodeType(inner) => inner.childrens@,
        NodeType::RootNodeType(root) => root.childrens@,
    }
}

/// The logical operation of a subtree node; `And` for a leaf, which never
/// applies one.
pub open spec fn op_of(t: NodeType) -> LogOperation {
    match t {
        NodeType::LeafNodeType(_) => LogOperation::And,
        NodeType::InnerNodeType(inner) => inner.log_operation,
        NodeType::RootNodeType(root) => root.log_operation,
    }
}

/// How `add_children` relates a node before and after a child is appended:
/// leaves are unchanged, inner and root nodes gain the child at the end.
pub open spec fn add_child_rel(pre: NodeType, c: NodeType, post: NodeType) -> bool {
    match pre {
        NodeType::LeafNodeType(_) => post == pre,
        NodeType::InnerNodeType(inner) => {
            &&& post matches NodeType::InnerNodeType(post_inner)
            &&& post_inner.log_operation == inner.log_operation
            &&& post_inner.childrens@ == inner.childrens@.push(c)
        },
        NodeType::RootNodeType(root) => {
            &&& post matches NodeType::RootNodeType(post_root)
            &&& post_root.log_operation == root.log_operation
            &&& post_root.childrens@ == root.childrens@.push(c)
        },
    }
}

/// The maximum height of a range of children bounds each child's height,
/// and is never negative.
pub proof fn lemma_fold_heights(cs: Seq<NodeType>, k: int)
    requires
        0 <= k,
    ensures
        fold_heights(cs, k) >= 0,
        forall|j: int| k <= j < cs.len() ==> fold_heights(cs, k) >= tree_height(cs[j]),
    decreases cs.len() - k,
{
    if 0 <= k < cs.len() {
        lemma_fold_heights(cs, k + 1);
        assert forall|j: int| k <= j < cs.len() implies fold_heights(cs, k) >= tree_height(
            cs[j],
        ) by {
            if j > k {
                assert(fold_heights(cs, k + 1) >= tree_height(cs[j]));
            }
        }
    }
}

/// Every subtree has height at least 1.
pub proof fn lemma_tree_height_pos(t: NodeType)
    ensures
        tree_height(t) >= 1,
{
    match t {
        NodeType::LeafNodeType(_) => {},
        NodeType::InnerNodeType(inner) => {
            lemma_fold_heights(inner.childrens@, 0);
        },
        NodeType::RootNodeType(root) => {
            lemma_fold_heights(root.childrens@, 0);
        },
    }
}

/// Every subtree has at least one node.
pub proof fn lemma_tree_size_pos(t: NodeType)
    ensures
        tree_size(t) >= 1,
    decreases t, 1int,
{
    match t {
        NodeType::LeafNodeType(_) => {},
        NodeType::InnerNodeType(inner) => {
            lemma_fold_sizes_pos(inner.childrens@, 0);
        },
        NodeType::RootNodeType(root) => {
            lemma_fold_sizes_pos(root.childrens@, 0);
        },
    }
}

/// Every range of children has a non-negative total size.
pub proof fn lemma_fold_sizes_pos(cs: Seq<NodeType>, k: int)
    ensures
        fold_sizes(cs, k) >= 0,
    decreases cs, cs.len() - k,
{
    if 0 <= k < cs.len() {
        lemma_tree_size_pos(cs[k]);
        lemma_fold_sizes_pos(cs, k + 1);
    }
}

/// The identifier set of a subtree is finite.
pub proof fn lemma_tree_ids_finite(t: NodeType)
    ensures
        tree_ids(t).finite(),
    decreases t, 1int,
{
    match t {
        NodeType::LeafNodeType(_) => {},
        NodeType::InnerNodeType(inner) => {
            lemma_fold_ids_union_finite(inner.childrens@, 0);
        },
        NodeType::RootNodeType(root) => {
            lemma_fold_ids_union_finite(root.childrens@, 0);
        },
    }
}

/// The union of the identifier sets of a range of children is finite.
pub proof fn lemma_fold_ids_union_finite(cs: Seq<NodeType>, k: int)
    ensures
        fold_ids_union(cs, k).finite(),
    decreases cs, cs.len() - k,
{
    if 0 <= k < cs.len() {
        lemma_tree_ids_finite(cs[k]);
        lemma_fold_ids_union_finite(cs, k + 1);
    }
}

/// A subtree's own identifier is in its identifier set.
pub proof fn lemma_tree_id_in_ids(t: NodeType)
    ensures
        tree_ids(t).contains(tree_id(t)),
{
}

/// The identifier set of each child in a range is contained in the union
/// over the range.
pub proof fn lemma_fold_ids_union_covers(cs: Seq<NodeType>, k: int)
    requires
        0 <= k,
    ensures
        forall|j: int| k <= j < cs.len() ==> tree_ids(cs[j]).subset_of(fold_ids_union(cs, k)),
    decreases cs.len() - k,
{
    if 0 <= k < cs.len() {
        lemma_fold_ids_union_covers(cs, k + 1);
        assert forall|j: int| k <= j < cs.len() implies tree_ids(cs[j]).subset_of(
            fold_ids_union(cs, k),
        ) by {
            if j > k {
                assert(tree_ids(cs[j]).subset_of(fold_ids_union(cs, k + 1)));
            }
        }
    }
}

/// One fold step commutes with the next: folding `x` then `y` equals
/// folding `y` then `x`, for either operation.  This is why the
/// identifier is insensitive to the order of siblings.
pub proof fn lemma_fold_step_swap(op: LogOperation, acc: u64, x: u64, y: u64)
    ensures
        fold_step(op, fold_step(op, acc, x), y) == fold_step(op, fold_step(op, acc, y), x),
{
    match op {
        LogOperation::And => {},
        LogOperation::Or => {
            let m = 0x1_0000_0000_0000_0000int;
            assert(fold_step(op, fold_step(op, acc, x), y) as int == ((acc as int * x as int) % m)
                * (y as int) % m) by {
                assert(acc.wrapping_mul(x) as int == (acc as int * x as int) % m);
            }
            vstd::arithmetic::div_mod::lemma_mul_mod_noop_left(
                acc as int * x as int,
                y as int,
                m,
            );
            vstd::arithmetic::div_mod::lemma_mul_mod_noop_left(
                acc as int * y as int,
                x as int,
                m,
            );
            assert(acc as int * x as int * y as int == acc as int * y as int * x as int)
                by (nonlinear_arith);
        },
    }
}

/// Folds over two child lists that agree in identifier from `k` on are
/// equal.
pub proof fn lemma_fold_tree_ids_agree(
    op: LogOperation,
    cs1: Seq<NodeType>,
    cs2: Seq<NodeType>,
    k: int,
    acc: u64,
)
    requires
        cs1.len() == cs2.len(),
        forall|j: int| k <= j < cs1.len() ==> tree_id(#[trigger] cs1[j]) == tree_id(cs2[j]),
    ensures
        fold_tree_ids(op, cs1, k, acc) == fold_tree_ids(op, cs2, k, acc),
    decreases cs1.len() - k,
{
    if 0 <= k < cs1.len() {
        lemma_fold_tree_ids_agree(op, cs1, cs2, k + 1, fold_step(op, acc, tree_id(cs1[k])));
    }
}

/// Swapping two adjacent children leaves the child-identifier fold
/// unchanged.
proof fn lemma_fold_swap_adjacent(
    op: LogOperation,
    cs: Seq<NodeType>,
    sw: Seq<NodeType>,
    j: int,
    k: int,
    acc: u64,
)
    requires
        0 <= j,
        j + 1 < cs.len(),
        sw == cs.update(j, cs[j + 1]).update(j + 1, cs[j]),
        0 <= k <= j,
    ensures
        fold_tree_ids(op, sw, k, acc) == fold_tree_ids(op, cs, k, acc),
    decreases j - k,
{
    if k < j {
        assert(sw[k] == cs[k]);
        lemma_fold_swap_adjacent(op, cs, sw, j, k + 1, fold_step(op, acc, tree_id(cs[k])));
    } else {
        assert(sw[j] == cs[j + 1] && sw[j + 1] == cs[j]);
        assert(sw.len() == cs.len());
        let a1 = fold_step(op, acc, tree_id(cs[j]));
        let a2 = fold_step(op, a1, tree_id(cs[j + 1]));
        let b1 = fold_step(op, acc, tree_id(cs[j + 1]));
        let b2 = fold_step(op, b1, tree_id(cs[j]));
        assert(fold_tree_ids(op, cs, j, acc) == fold_tree_ids(op, cs, j + 1, a1));
        assert(fold_tree_ids(op, cs, j + 1, a1) == fold_tree_ids(op, cs, j + 2, a2));
        assert(fold_tree_ids(op, sw, j, acc) == fold_tree_ids(op, sw, j + 1, b1));
        assert(fold_tree_ids(op, sw, j + 1, b1) == fold_tree_ids(op, sw, j + 2, b2));
        lemma_fold_step_swap(op, acc, tree_id(cs[j]), tree_id(cs[j + 1]));
        assert(a2 == b2);
        assert forall|j2: int| j + 2 <= j2 < sw.len() implies tree_id(#[trigger] sw[j2])
            == tree_id(cs[j2]) by {
            assert(sw[j2] == cs[j2]);
        }
        lemma_fold_tree_ids_agree(op, sw, cs, j + 2, b2);
    }
}

/// Two inner or root nodes under the same operation whose child lists
/// differ only by a swap of two adjacent children carry the same
/// identifier: sibling order does not enter the structural fingerprint,
/// so logically equivalent subtrees collide in the interner by design.
pub proof fn lemma_tree_id_sibling_swap(t1: NodeType, t2: NodeType, j: int)
    requires
        !(t1 is LeafNodeType),
        !(t2 is LeafNodeType),
        op_of(t1) == op_of(t2),
        0 <= j,
        j + 1 < children_of(t1).len(),
        children_of(t2) == children_of(t1).update(j, children_of(t1)[j + 1]).update(
            j + 1,
            children_of(t1)[j],
        ),
    ensures
        tree_id(t2) == tree_id(t1),
{
    let op = op_of(t1);
    lemma_fold_swap_adjacent(op, children_of(t1), children_of(t2), j, 0, fold_init(op));
}

impl NodeType {
    /// Wraps a leaf node.
    pub fn new_leaf(node: LeafNode) -> (t: NodeType)
        ensures
            t == NodeType::LeafNodeType(node),
    {
        NodeType::LeafNodeType(node)
    }

    /// Wraps an inner node.
    pub fn new_inner(node: InnerNode) -> (t: NodeType)
        ensures
            t == NodeType::InnerNodeType(node),
    {
        NodeType::InnerNodeType(node)
    }

    /// Wraps a root node.
    pub fn new_root(node: RootNode) -> (t: NodeType)
        ensures
            t == NodeType::RootNodeType(node),
    {
        NodeType::RootNodeType(node)
    }

    /// The content-derived identifier of this subtree.
    pub fn get_id(&self) -> (r: u64)
        ensures
            r == tree_id(*self),
        decreases *self, 0int,
    {
        match self {
            NodeType::LeafNodeType(leaf) => leaf.predicate_id,
            NodeType::InnerNodeType(inner) => fold_children_ids(
                inner.log_operation,
                &inner.childrens,
            ),
            NodeType::RootNodeType(root) => fold_children_ids(root.log_operation, &root.childrens),
        }
    }

    /// The level of this subtree when asked from accumulated depth `level`:
    /// the distance from `level` down to the deepest leaf, or 0 for a
    /// childless inner or root node.
    pub fn get_level(&self, level: u32) -> (r: u32)
        requires
            level as int + tree_height(*self) <= u32::MAX as int,
        ensures
            r as int == spec_level(*self, level as int),
        decreases *self, 0int,
    {
        proof {
            lemma_tree_height_pos(*self);
        }
        match self {
            NodeType::LeafNodeType(_) => level + 1,
            NodeType::InnerNodeType(inner) => fold_children_levels(&inner.childrens, level + 1),
            NodeType::RootNodeType(root) => fold_children_levels(&root.childrens, level + 1),
        }
    }

    /// The children of this node, if its variant has any.
    pub fn get_children(&self) -> (r: Option<&Vec<NodeType>>)
        ensures
            (*self is LeafNodeType) ==> r is None,
            !(*self is LeafNodeType) ==> (r matches Some(cs) && cs@ == children_of(*self)),
    {
        match self {
            NodeType::LeafNodeType(_) => None,
            NodeType::InnerNodeType(inner) => Some(&inner.childrens),
            NodeType::RootNodeType(root) => Some(&root.childrens),
        }
    }
}

/// Folds the identifiers of all children under the node's operation.
fn fold_children_ids(op: LogOperation, cs: &Vec<NodeType>) -> (r: u64)
    ensures
        r == fold_tree_ids(op, cs@, 0, fold_init(op)),
    decreases cs@, 0int,
{
    let mut acc: u64 = match op {
        LogOperation::And => 0,
        LogOperation::Or => 1,
    };
    let mut j: usize = 0;
    while j < cs.len()
        invariant
            j <= cs@.len(),
            fold_tree_ids(op, cs@, j as int, acc) == fold_tree_ids(op, cs@, 0, fold_init(op)),
        decreases cs@.len() - j,
    {
        let id = cs[j].get_id();
        acc = match op {
            LogOperation::And => acc.wrapping_add(id),
            LogOperation::Or => acc.wrapping_mul(id),
        };
        j += 1;
    }
    acc
}

/// The maximum level among all children, each asked from depth `lv`.
fn fold_children_levels(cs: &Vec<NodeType>, lv: u32) -> (r: u32)
    requires
        lv as int + fold_heights(cs@, 0) <= u32::MAX as int,
    ensures
        r as int == fold_levels(cs@, 0, lv as int, 0),
    decreases cs@, 0int,
{
    let mut m: u32 = 0;
    let mut j: usize = 0;
    while j < cs.len()
        invariant
            j <= cs@.len(),
            lv as int + fold_heights(cs@, 0) <= u32::MAX as int,
            fold_levels(cs@, j as int, lv as int, m as int) == fold_levels(cs@, 0, lv as int, 0),
        decreases cs@.len() - j,
    {
        proof {
            lemma_fold_heights(cs@, 0);
        }
        let l = cs[j].get_level(lv);
        if l > m {
            m = l;
        }
        j += 1;
    }
    m
}

/// Appends `children` to `node`'s child list; a leaf is left unchanged.
pub fn add_children(node: &mut NodeType, children: NodeType)
    ensures
        add_child_rel(*old(node), children, *final(node)),
{
    match node {
        NodeType::LeafNodeType(_) => {},
        NodeType::InnerNodeType(inner) => {
            inner.childrens.push(children);
        },
        NodeType::RootNodeType(root) => {
            root.childrens.push(children);
        },
    }
}

impl LeafNode {
    /// A leaf for the predicate with the given identifier.
    pub fn new(predicate_id: u64) -> (n: LeafNode)
        ensures
            n.predicate_id == predicate_id,
    {
        LeafNode { predicate_id }
    }
}

impl InnerNode {
    /// An inner node with the given operation and no children yet.
    pub fn new(log_operation: LogOperation) -> (n: InnerNode)
        ensures
            n.log_operation == log_operation,
            n.childrens@.len() == 0,
    {
        InnerNode { log_operation, childrens: Vec::new() }
    }

    /// An `And` inner node with no children yet.
    pub fn and() -> (n: InnerNode)
        ensures
            n.log_operation == LogOperation::And,
            n.childrens@.len() == 0,
    {
        InnerNode { log_operation: LogOperation::And, childrens: Vec::new() }
    }

    /// An `Or` inner node with no children yet.
    pub fn or() -> (n: InnerNode)
        ensures
            n.log_operation == LogOperation::Or,
            n.childrens@.len() == 0,
    {
        InnerNode { log_operation: LogOperation::Or, childrens: Vec::new() }
    }
}

impl RootNode {
    /// A root node with the given operation and no children yet.
    pub fn new(log_operation: LogOperation) -> (n: RootNode)
        ensures
            n.log_operation == log_operation,
            n.childrens@.len() == 0,
    {
        RootNode { log_operation, childrens: Vec::new() }
    }

    /// An `And` root node with no children yet.
    pub fn and() -> (n: RootNode)
        ensures
            n.log_operation == LogOperation::And,
            n.childrens@.len() == 0,
    {
        RootNode { log_operation: LogOperation::And, childrens: Vec::new() }
    }

    /// An `Or` root node with no children yet.
    pub fn or() -> (n: RootNode)
        ensures
            n.log_operation == LogOperation::Or,
            n.childrens@.len() == 0,
    {
        RootNode { log_operation: LogOperation::Or, childrens: Vec::new() }
    }
}

/// Builds a root node by collecting inner and leaf children.
pub struct RootNodeBuilder {
    pub node: RootNode,
}

impl RootNodeBuilder {
    /// Starts an `And` root.
    pub fn and() -> (b: RootNodeBuilder)
        ensures
            b.node.log_operation == LogOperation::And,
            b.node.childrens@.len() == 0,
    {
        RootNodeBuilder { node: RootNode::and() }
    }

    /// Starts an `Or` root.
    pub fn or() -> (b: RootNodeBuilder)
        ensures
            b.node.log_operation == LogOperation::Or,
            b.node.childrens@.len() == 0,
    {
        RootNodeBuilder { node: RootNode::or() }
    }

    /// Appends an inner node as the next child of the root.
    pub fn with_inner_node(self, node: InnerNode) -> (b: RootNodeBuilder)
        ensures
            b.node.log_operation == self.node.log_operation,
            b.node.childrens@ == self.node.childrens@.push(NodeType::InnerNodeType(node)),
    {
        let mut root = self.node;
        root.childrens.push(NodeType::InnerNodeType(node));
        RootNodeBuilder { node: root }
    }

    /// Appends a leaf node as the next child of the root.
    pub fn with_leaf_node(self, node: LeafNode) -> (b: RootNodeBuilder)
        ensures
            b.node.log_operation == self.node.log_operation,
            b.node.childrens@ == self.node.childrens@.push(NodeType::LeafNodeType(node)),
    {
        let mut root = self.node;
        root.childrens.push(NodeType::LeafNodeType(node));
        RootNodeBuilder { node: root }
    }

    /// Finishes the build, yielding the root as a subtree.
    pub fn build(self) -> (t: NodeType)
        ensures
            t == NodeType::RootNodeType(self.node),
    {
        NodeType::RootNodeType(self.node)
    }
}

} // verus!
