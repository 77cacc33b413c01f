//! The interning DAG and the matching engine.
//!
//! An `ATree` owns an arena of canonical nodes.  Children point down the
//! arena (a child always sits at a smaller index than its parent, so the
//! graph is acyclic by construction) and parents point up.  A table maps
//! each canonical identifier to the arena index of its canonical node;
//! when two structurally distinct nodes collide on an identifier, the
//! later one takes over the table entry while the earlier node stays in
//! the arena and keeps serving as a shared child.
//!
//! Matching walks the arena bottom-up: the arena order is a topological
//! order, so one pass evaluates every node after all of its children,
//! which is exactly the level-stratified order the design asks for.

use crate::nodes::LogOperation;
use crate::nodes::NodeType;
use crate::nodes::fold_ids_union;
use crate::nodes::fold_init;
use crate::nodes::fold_sizes;
use crate::nodes::fold_step;
use crate::nodes::fold_tree_ids;
use crate::nodes::op_of;
use crate::nodes::tree_id;
use crate::nodes::tree_ids;
use crate::nodes::tree_size;
use vstd::prelude::*;

verus! {

/// The variant of a canonical node, with the logical operation where the
/// variant has one.
#[derive(Clone, Copy, Debug, PartialEq, Eq, Structural)]
pub enum NodeKind {
    Leaf,
    Inner(LogOperation),
    Root(LogOperation),
}

/// One canonical node of the DAG.
#[derive(Debug)]
pub struct DagNode {
    /// The content-derived identifier: the predicate identifier for a
    /// leaf, the child-identifier fold for an inner or root node.
    pub id: u64,
    pub kind: NodeKind,
    /// Arena indices of the children, each smaller than this node's index.
    pub children: Vec<usize>,
    /// Arena indices of the parents that reuse this node, each larger
    /// than this node's index.
    pub parents: Vec<usize>,
    /// 1 for a leaf, one more than the deepest child otherwise, 0 for a
    /// childless inner or root node.
    pub level: u32,
}

/// One predicate outcome for one event: `None` means undetermined.
#[derive(Clone, Copy, Debug)]
pub struct PredResult {
    pub id: u64,
    pub result: Option<bool>,
}

/// The interning DAG: the arena of canonical nodes and the table from
/// canonical identifier to arena index.
#[derive(Debug)]
pub struct ATree {
    pub nodes: Vec<DagNode>,
    pub table: Vec<(u64, usize)>,
}

/// The logical operation of a canonical node; `And` for a leaf, which
/// never applies one.
pub open spec fn kind_op(k: NodeKind) -> LogOperation {
    match k {
        NodeKind::Leaf => LogOperation::And,
        NodeKind::Inner(op) => op,
        NodeKind::Root(op) => op,
    }
}

/// Folds the identifiers of the nodes at indices `cs[k..]` into `acc`.
pub open spec fn fold_node_ids(
    nodes: Seq<DagNode>,
    cs: Seq<usize>,
    k: int,
    acc: u64,
    op: LogOperation,
) -> u64
    decreases cs.len() - k,
{
    if k < 0 || k >= cs.len() {
        acc
    } else {
        fold_node_ids(nodes, cs, k + 1, fold_step(op, acc, nodes[cs[k] as int].id), op)
    }
}

/// Whether some table entry carries this identifier.
pub open spec fn table_contains(table: Seq<(u64, usize)>, id: u64) -> bool {
    exists|k: int| 0 <= k < table.len() && table[k].0 == id
}

/// The position of the entry carrying this identifier.
pub open spec fn table_pos(table: Seq<(u64, usize)>, id: u64) -> int {
    choose|k: int| 0 <= k < table.len() && table[k].0 == id
}

/// The arena index the table maps this identifier to.
pub open spec fn table_at(table: Seq<(u64, usize)>, id: u64) -> int {
    table[table_pos(table, id)].1 as int
}

/// The keys of the table, in entry order.
pub open spec fn key_seq(table: Seq<(u64, usize)>) -> Seq<u64> {
    table.map_values(|e: (u64, usize)| e.0)
}

/// The set of identifiers the table holds.
pub open spec fn table_keys(table: Seq<(u64, usize)>) -> Set<u64> {
    key_seq(table).to_set()
}

/// Children always sit strictly below their parent in the arena.
pub open spec fn children_below(nodes: Seq<DagNode>) -> bool {
    forall|i: int, j: int|
        0 <= i < nodes.len() && 0 <= j < nodes[i].children@.len() ==> (
        #[trigger] nodes[i].children@[j] as int) < i
}

/// The per-node shape invariant: levels are computed from the children,
/// identifiers are the child-identifier fold, parents point up to nodes
/// that really list this node as a child, children of non-root kind point
/// back, and roots have no parents.
pub open spec fn wf_node_at(nodes: Seq<DagNode>, i: int) -> bool {
    let n = nodes[i];
    &&& (n.kind is Leaf ==> n.children@.len() == 0 && n.level == 1)
    &&& (!(n.kind is Leaf) && n.children@.len() == 0 ==> n.level == 0)
    &&& (!(n.kind is Leaf) && n.children@.len() > 0 ==> {
        &&& (forall|j: int|
            0 <= j < n.children@.len() ==> nodes[#[trigger] n.children@[j] as int].level
                < n.level)
        &&& (exists|j: int|
            0 <= j < n.children@.len() && n.level == nodes[#[trigger] n.children@[j] as int].level
                + 1)
    })
    &&& (!(n.kind is Leaf) ==> n.id == fold_node_ids(
        nodes,
        n.children@,
        0,
        fold_init(kind_op(n.kind)),
        kind_op(n.kind),
    ))
    &&& n.level as int <= i + 1
    &&& (n.kind is Root ==> n.parents@.len() == 0)
    &&& (forall|j: int|
        0 <= j < n.parents@.len() ==> i < (#[trigger] n.parents@[j] as int) && (n.parents@[j] as int)
            < nodes.len() && nodes[n.parents@[j] as int].children@.contains(i as usize))
    &&& (forall|j: int|
        0 <= j < n.children@.len() ==> (!(nodes[#[trigger] n.children@[j] as int].kind is Root)
            ==> nodes[n.children@[j] as int].parents@.contains(i as usize)))
}

/// The table invariant: every entry points into the arena at a node that
/// carries the entry's identifier, and identifiers appear at most once.
pub open spec fn wf_table(nodes: Seq<DagNode>, table: Seq<(u64, usize)>) -> bool {
    &&& (forall|k: int|
        0 <= k < table.len() ==> (#[trigger] table[k].1 as int) < nodes.len()
            && nodes[table[k].1 as int].id == table[k].0)
    &&& (forall|k1: int, k2: int|
        0 <= k1 < k2 < table.len() ==> #[trigger] table[k1].0 != #[trigger] table[k2].0)
}

/// Two nodes that agree on everything a finished node keeps fixed; only
/// the parent list may have grown.
pub open spec fn core_same(a: DagNode, b: DagNode) -> bool {
    &&& b.id == a.id
    &&& b.kind == a.kind
    &&& b.children@ == a.children@
    &&& b.level == a.level
}

/// The arena only ever grows: earlier nodes keep their content, and their
/// parent lists are extended at the end, if at all.
pub open spec fn grown_from(pre: Seq<DagNode>, post: Seq<DagNode>) -> bool {
    &&& pre.len() <= post.len()
    &&& (forall|i: int|
        0 <= i < pre.len() ==> core_same(#[trigger] pre[i], post[i]) && pre[i].parents@.is_prefix_of(
            post[i].parents@,
        ))
}

/// A child-identifier fold reads only the identifiers of the referenced
/// nodes, so it survives any arena change that keeps those identifiers.
pub proof fn lemma_fold_node_ids_stable(
    nodes1: Seq<DagNode>,
    nodes2: Seq<DagNode>,
    cs: Seq<usize>,
    k: int,
    acc: u64,
    op: LogOperation,
)
    requires
        forall|j: int|
            0 <= j < cs.len() ==> (#[trigger] cs[j] as int) < nodes1.len() && (cs[j] as int)
                < nodes2.len() && nodes1[cs[j] as int].id == nodes2[cs[j] as int].id,
    ensures
        fold_node_ids(nodes1, cs, k, acc, op) == fold_node_ids(nodes2, cs, k, acc, op),
    decreases cs.len() - k,
{
    if 0 <= k < cs.len() {
        lemma_fold_node_ids_stable(
            nodes1,
            nodes2,
            cs,
            k + 1,
            fold_step(op, acc, nodes1[cs[k] as int].id),
            op,
        );
    }
}

/// `grown_from` composes.
pub proof fn lemma_grown_trans(a: Seq<DagNode>, b: Seq<DagNode>, c: Seq<DagNode>)
    requires
        grown_from(a, b),
        grown_from(b, c),
    ensures
        grown_from(a, c),
{
    assert forall|i: int| 0 <= i < a.len() implies core_same(#[trigger] a[i], c[i])
        && a[i].parents@.is_prefix_of(c[i].parents@) by {
        assert(core_same(a[i], b[i]) && a[i].parents@.is_prefix_of(b[i].parents@));
        assert(core_same(b[i], c[i]) && b[i].parents@.is_prefix_of(c[i].parents@));
    }
}

impl ATree {
    /// The full invariant of the DAG.
    pub open spec fn wf(self) -> bool {
        &&& children_below(self.nodes@)
        &&& (forall|i: int| 0 <= i < self.nodes@.len() ==> wf_node_at(self.nodes@, i))
        &&& wf_table(self.nodes@, self.table@)
    }

    /// The set of canonical identifiers the DAG holds.
    pub open spec fn ids(self) -> Set<u64> {
        table_keys(self.table@)
    }

    /// An empty DAG.
    pub fn new() -> (t: ATree)
        ensures
            t.wf(),
            t.nodes@.len() == 0,
            t.table@.len() == 0,
    {
        ATree { nodes: Vec::new(), table: Vec::new() }
    }

    /// The number of canonical nodes: leaves, inners and roots together.
    pub fn len(&self) -> (r: usize)
        ensures
            r == self.table@.len(),
    {
        self.table.len()
    }

    /// Looks an identifier up in the table.
    fn table_get(&self, id: u64) -> (r: Option<usize>)
        ensures
            r is Some <==> table_contains(self.table@, id),
            r matches Some(idx) ==> exists|k: int|
                0 <= k < self.table@.len() && self.table@[k].0 == id && self.table@[k].1 == idx,
    {
        let mut k: usize = 0;
        while k < self.table.len()
            invariant
                k <= self.table@.len(),
                forall|k2: int| 0 <= k2 < k ==> #[trigger] self.table@[k2].0 != id,
            decreases self.table@.len() - k,
        {
            if self.table[k].0 == id {
                return Some(self.table[k].1);
            }
            k += 1;
        }
        None
    }

    /// Maps `id` to `idx`, replacing the entry for `id` if one exists.
    fn table_set(&mut self, id: u64, idx: usize)
        requires
            wf_table(old(self).nodes@, old(self).table@),
            idx < old(self).nodes@.len(),
            old(self).nodes@[idx as int].id == id,
        ensures
            final(self).nodes@ == old(self).nodes@,
            wf_table(final(self).nodes@, final(self).table@),
            table_keys(final(self).table@) == table_keys(old(self).table@).insert(id),
            table_contains(final(self).table@, id),
            final(self).table@.len() == if table_contains(old(self).table@, id) {
                old(self).table@.len() as int
            } else {
                old(self).table@.len() + 1int
            },
            // Entries for other identifiers keep their position and value,
            // and every key keeps its position.
            forall|k: int|
                0 <= k < old(self).table@.len() && #[trigger] old(self).table@[k].0 != id
                    ==> final(self).table@[k] == old(self).table@[k],
            forall|k: int|
                0 <= k < final(self).table@.len() ==> (#[trigger] final(self).table@[k].0 == id
                    ==> final(self).table@[k].1 == idx),
            forall|k: int|
                0 <= k < old(self).table@.len() ==> #[trigger] final(self).table@[k].0 == old(
                    self,
                ).table@[k].0,
    {
        let ghost pre = self.table@;
        let mut k: usize = 0;
        while k < self.table.len()
            invariant
                self.table@ == pre,
                self.nodes@ == old(self).nodes@,
                pre == old(self).table@,
                wf_table(old(self).nodes@, pre),
                idx < old(self).nodes@.len(),
                old(self).nodes@[idx as int].id == id,
                k <= pre.len(),
                forall|k2: int| 0 <= k2 < k ==> #[trigger] pre[k2].0 != id,
            decreases pre.len() - k,
        {
            if self.table[k].0 == id {
                proof {
                    assert(table_contains(pre, id)) by {
                        assert(0 <= k < pre.len() && pre[k as int].0 == id);
                    }
                }
                self.table[k].1 = idx;
                proof {
                    assert(self.table@ =~= pre.update(k as int, (id, idx)));
                    assert(key_seq(self.table@) =~= key_seq(pre));
                    assert(key_seq(pre)[k as int] == id);
                    assert(key_seq(pre).contains(id));
                    assert(table_keys(self.table@) =~= table_keys(pre).insert(id));
                }
                return ;
            }
            k += 1;
        }
        proof {
            assert(!table_contains(pre, id));
        }
        self.table.push((id, idx));
        proof {
            assert(self.table@ =~= pre.push((id, idx)));
            assert(key_seq(self.table@) =~= key_seq(pre).push(id));
            key_seq(pre).lemma_push_to_set_commute(id);
            assert(table_keys(self.table@) =~= table_keys(pre).insert(id));
            assert(self.table@[pre.len() as int].0 == id);
            assert(table_contains(self.table@, id));
        }
    }

    /// The height of the DAG: the largest level among canonical nodes,
    /// 0 when the DAG is empty.
    pub fn get_m(&self) -> (m: u32)
        requires
            self.wf(),
        ensures
            forall|k: int|
                0 <= k < self.table@.len() ==> self.nodes@[#[trigger] self.table@[k].1 as int].level
                    <= m,
            self.table@.len() == 0 ==> m == 0,
            self.table@.len() > 0 ==> exists|k: int|
                0 <= k < self.table@.len() && self.nodes@[#[trigger] self.table@[k].1 as int].level
                    == m,
    {
        let mut max: u32 = 0;
        let mut k: usize = 0;
        while k < self.table.len()
            invariant
                self.wf(),
                k <= self.table@.len(),
                forall|k2: int|
                    0 <= k2 < k ==> self.nodes@[#[trigger] self.table@[k2].1 as int].level <= max,
                k == 0 ==> max == 0,
                k > 0 ==> exists|k2: int|
                    0 <= k2 < k && self.nodes@[#[trigger] self.table@[k2].1 as int].level == max,
            decreases self.table@.len() - k,
        {
            let idx = self.table[k].1;
            let lvl = self.nodes[idx].level;
            if lvl > max {
                max = lvl;
            }
            k += 1;
        }
        max
    }

    /// Allocates a fresh canonical node shaped like `node`, wired to the
    /// already canonical children in `child_nodes`; each non-root child
    /// gains this node as a parent.  A leaf template copies its predicate
    /// identifier and ignores `child_nodes`, as a leaf has no children.
    pub fn create_new_node(&mut self, node: &NodeType, child_nodes: &[usize]) -> (h: usize)
        requires
            old(self).wf(),
            old(self).nodes@.len() + 1 < u32::MAX as int,
            forall|j: int|
                0 <= j < child_nodes@.len() ==> (#[trigger] child_nodes@[j] as int) < old(
                    self,
                ).nodes@.len(),
        ensures
            final(self).wf(),
            final(self).table@ == old(self).table@,
            final(self).nodes@.len() == old(self).nodes@.len() + 1,
            h == old(self).nodes@.len(),
            grown_from(old(self).nodes@, final(self).nodes@),
            final(self).nodes@[h as int].parents@.len() == 0,
            (*node is LeafNodeType) ==> {
                let n = final(self).nodes@[h as int];
                &&& n.kind is Leaf
                &&& n.id == tree_id(*node)
                &&& n.children@.len() == 0
                &&& n.level == 1
            },
            !(*node is LeafNodeType) ==> {
                let n = final(self).nodes@[h as int];
                &&& n.kind == (if *node is InnerNodeType {
                    NodeKind::Inner(op_of(*node))
                } else {
                    NodeKind::Root(op_of(*node))
                })
                &&& n.children@ == child_nodes@
                &&& n.id == fold_node_ids(
                    old(self).nodes@,
                    child_nodes@,
                    0,
                    fold_init(op_of(*node)),
                    op_of(*node),
                )
                &&& n.level as int == (if child_nodes@.len() == 0 {
                    0int
                } else {
                    1 + max_child_level(old(self).nodes@, child_nodes@, child_nodes@.len() as int)
                })
            },
    {
        match node {
            NodeType::LeafNodeType(leaf) => {
                let h = self.nodes.len();
                self.nodes.push(
                    DagNode {
                        id: leaf.predicate_id,
                        kind: NodeKind::Leaf,
                        children: Vec::new(),
                        parents: Vec::new(),
                        level: 1,
                    },
                );
                proof {
                    lemma_wf_after_push(old(self).nodes@, self.nodes@, old(self).table@);
                }
                h
            },
            NodeType::InnerNodeType(inner) => self.push_composite(
                NodeKind::Inner(inner.log_operation),
                child_nodes,
            ),
            NodeType::RootNodeType(root) => self.push_composite(
                NodeKind::Root(root.log_operation),
                child_nodes,
            ),
        }
    }
}

impl ATree {
    /// Allocates a fresh inner or root node over the given canonical
    /// children: its identifier folds the children's identifiers, its
    /// level is one above the deepest child (0 with no children), and
    /// every non-root child gains it as a parent.
    fn push_composite(&mut self, kind: NodeKind, child_nodes: &[usize]) -> (h: usize)
        requires
            old(self).wf(),
            !(kind is Leaf),
            old(self).nodes@.len() + 1 < u32::MAX as int,
            forall|j: int|
                0 <= j < child_nodes@.len() ==> (#[trigger] child_nodes@[j] as int) < old(
                    self,
                ).nodes@.len(),
        ensures
            final(self).wf(),
            final(self).table@ == old(self).table@,
            final(self).nodes@.len() == old(self).nodes@.len() + 1,
            h == old(self).nodes@.len(),
            grown_from(old(self).nodes@, final(self).nodes@),
            final(self).nodes@[h as int].parents@.len() == 0,
            final(self).nodes@[h as int].kind == kind,
            final(self).nodes@[h as int].children@ == child_nodes@,
            final(self).nodes@[h as int].id == fold_node_ids(
                old(self).nodes@,
                child_nodes@,
                0,
                fold_init(kind_op(kind)),
                kind_op(kind),
            ),
            final(self).nodes@[h as int].level as int == (if child_nodes@.len() == 0 {
                0int
            } else {
                1 + max_child_level(old(self).nodes@, child_nodes@, child_nodes@.len() as int)
            }),
    {
        let ghost pre = self.nodes@;
        let op = match kind {
            NodeKind::Leaf => LogOperation::And,
            NodeKind::Inner(op) => op,
            NodeKind::Root(op) => op,
        };
        // The identifier: fold the children's identifiers under `op`.
        let mut acc: u64 = match op {
            LogOperation::And => 0,
            LogOperation::Or => 1,
        };
        let mut j: usize = 0;
        while j < child_nodes.len()
            invariant
                self.nodes@ == pre,
                self.table@ == old(self).table@,
                pre == old(self).nodes@,
                old(self).wf(),
                forall|j2: int|
                    0 <= j2 < child_nodes@.len() ==> (#[trigger] child_nodes@[j2] as int)
                        < pre.len(),
                j <= child_nodes@.len(),
                fold_node_ids(pre, child_nodes@, j as int, acc, op) == fold_node_ids(
                    pre,
                    child_nodes@,
                    0,
                    fold_init(op),
                    op,
                ),
            decreases child_nodes@.len() - j,
        {
            let c = child_nodes[j];
            let id = self.nodes[c].id;
            acc = match op {
                LogOperation::And => acc.wrapping_add(id),
                LogOperation::Or => acc.wrapping_mul(id),
            };
            j += 1;
        }
        // The level: one above the deepest child, 0 with no children.
        let mut lvl: u32 = 0;
        let mut j2: usize = 0;
        while j2 < child_nodes.len()
            invariant
                self.nodes@ == pre,
                self.table@ == old(self).table@,
                pre == old(self).nodes@,
                old(self).wf(),
                pre.len() + 1 < u32::MAX as int,
                forall|j3: int|
                    0 <= j3 < child_nodes@.len() ==> (#[trigger] child_nodes@[j3] as int)
                        < pre.len(),
                j2 <= child_nodes@.len(),
                lvl as int <= pre.len(),
                lvl as int == max_child_level(pre, child_nodes@, j2 as int),
                forall|j3: int|
                    0 <= j3 < j2 ==> pre[#[trigger] child_nodes@[j3] as int].level <= lvl,
                j2 == 0 ==> lvl == 0,
                j2 > 0 ==> exists|j3: int|
                    0 <= j3 < j2 && pre[#[trigger] child_nodes@[j3] as int].level == lvl,
            decreases child_nodes@.len() - j2,
        {
            let c = child_nodes[j2];
            let l = self.nodes[c].level;
            proof {
                assert(wf_node_at(pre, c as int));
            }
            if l > lvl {
                lvl = l;
            }
            j2 += 1;
        }
        if child_nodes.len() > 0 {
            lvl = lvl + 1;
        }
        // The children, as an owned list.
        let mut children: Vec<usize> = Vec::new();
        let mut j4: usize = 0;
        while j4 < child_nodes.len()
            invariant
                self.nodes@ == pre,
                self.table@ == old(self).table@,
                j4 <= child_nodes@.len(),
                children@ == child_nodes@.subrange(0, j4 as int),
            decreases child_nodes@.len() - j4,
        {
            children.push(child_nodes[j4]);
            proof {
                assert(children@ =~= child_nodes@.subrange(0, j4 + 1));
            }
            j4 += 1;
        }
        proof {
            assert(children@ =~= child_nodes@);
        }
        let h = self.nodes.len();
        self.nodes.push(
            DagNode { id: acc, kind, children, parents: Vec::new(), level: lvl },
        );
        // Wire the parent backlink into every non-root child.
        let mut j5: usize = 0;
        while j5 < child_nodes.len()
            invariant
                self.table@ == old(self).table@,
                pre == old(self).nodes@,
                old(self).wf(),
                h == pre.len(),
                pre.len() + 1 < u32::MAX as int,
                !(kind is Leaf),
                op == kind_op(kind),
                acc == fold_node_ids(pre, child_nodes@, 0, fold_init(op), op),
                child_nodes@.len() == 0 ==> lvl == 0,
                child_nodes@.len() > 0 ==> lvl as int == 1 + max_child_level(
                    pre,
                    child_nodes@,
                    child_nodes@.len() as int,
                ),
                child_nodes@.len() > 0 ==> (forall|j6: int|
                    0 <= j6 < child_nodes@.len() ==> pre[#[trigger] child_nodes@[j6] as int].level
                        < lvl) && (exists|j6: int|
                    0 <= j6 < child_nodes@.len() && pre[#[trigger] child_nodes@[j6] as int].level
                        + 1 == lvl),
                lvl as int <= pre.len() + 1,
                forall|j6: int|
                    0 <= j6 < child_nodes@.len() ==> (#[trigger] child_nodes@[j6] as int)
                        < pre.len(),
                j5 <= child_nodes@.len(),
                self.nodes@.len() == pre.len() + 1,
                // Earlier nodes keep their content; non-root children may
                // have gained `h` as a parent, once per occurrence.
                forall|i: int|
                    0 <= i < pre.len() ==> core_same(#[trigger] pre[i], self.nodes@[i])
                        && pre[i].parents@.is_prefix_of(self.nodes@[i].parents@),
                forall|i: int, p: int|
                    0 <= i < pre.len() && pre[i].parents@.len() <= p
                        < self.nodes@[i].parents@.len() ==> #[trigger] self.nodes@[i].parents@[p]
                        == h,
                forall|i: int|
                    0 <= i < pre.len() && self.nodes@[i].parents@.len() > pre[i].parents@.len()
                        ==> child_nodes@.contains(i as usize),
                forall|i: int|
                    0 <= i < pre.len() && pre[i].kind is Root ==> self.nodes@[i].parents@
                        == pre[i].parents@,
                // The new node itself never changes.
                self.nodes@[h as int].id == acc && self.nodes@[h as int].kind == kind
                    && self.nodes@[h as int].children@ == child_nodes@
                    && self.nodes@[h as int].parents@.len() == 0 && self.nodes@[h as int].level
                    == lvl,
                // Backlinks wired so far.
                forall|j6: int|
                    0 <= j6 < j5 ==> (!(self.nodes@[#[trigger] child_nodes@[j6] as int].kind
                        is Root) ==> self.nodes@[child_nodes@[j6] as int].parents@.contains(h)),
            decreases child_nodes@.len() - j5,
        {
            let c = child_nodes[j5];
            let is_root = match self.nodes[c].kind {
                NodeKind::Root(_) => true,
                _ => false,
            };
            if !is_root {
                let ghost before = self.nodes@;
                self.nodes[c].parents.push(h);
                proof {
                    assert(child_nodes@[j5 as int] == c);
                    assert(child_nodes@.contains(c));
                    assert forall|i: int|
                        0 <= i < pre.len() implies core_same(#[trigger] pre[i], self.nodes@[i])
                        && pre[i].parents@.is_prefix_of(self.nodes@[i].parents@) by {
                        if i == c as int {
                            assert(self.nodes@[i].parents@ == before[i].parents@.push(h));
                            assert(pre[i].parents@.is_prefix_of(before[i].parents@));
                            assert(self.nodes@[i].parents@.subrange(
                                0,
                                pre[i].parents@.len() as int,
                            ) =~= before[i].parents@.subrange(0, pre[i].parents@.len() as int));
                        } else {
                            assert(self.nodes@[i] == before[i]);
                        }
                    }
                    assert(self.nodes@[c as int].parents@[self.nodes@[c as int].parents@.len()
                        - 1] == h);
                    assert(self.nodes@[c as int].parents@.contains(h));
                }
            }
            j5 += 1;
        }
        proof {
            lemma_wf_after_composite(
                pre,
                self.nodes@,
                old(self).table@,
                child_nodes@,
                kind,
                lvl,
                acc,
            );
        }
        h
    }
}

/// The canonical node at `h` mirrors the top level of the subtree `t`:
/// same variant and operation, and one child handle per child of `t`, in
/// order, each pointing at a canonical node that carries that child's
/// identifier.
pub open spec fn node_mirrors_tree(nodes: Seq<DagNode>, h: int, t: NodeType) -> bool {
    let n = nodes[h];
    match t {
        NodeType::LeafNodeType(_) => n.kind is Leaf && n.children@.len() == 0,
        NodeType::InnerNodeType(inner) => {
            &&& n.kind == NodeKind::Inner(inner.log_operation)
            &&& n.children@.len() == inner.childrens@.len()
            &&& forall|j: int|
                0 <= j < n.children@.len() ==> (#[trigger] n.children@[j] as int) < nodes.len()
                    && nodes[n.children@[j] as int].id == tree_id(inner.childrens@[j])
        },
        NodeType::RootNodeType(root) => {
            &&& n.kind == NodeKind::Root(root.log_operation)
            &&& n.children@.len() == root.childrens@.len()
            &&& forall|j: int|
                0 <= j < n.children@.len() ==> (#[trigger] n.children@[j] as int) < nodes.len()
                    && nodes[n.children@[j] as int].id == tree_id(root.childrens@[j])
        },
    }
}

/// The invariant-level guarantees of one interning call: the canonical
/// node for the subtree's identifier exists and is returned; the arena
/// and the table only grow, by at most the subtree's node count; every
/// addition carries an identifier of the subtree that was not canonical
/// before; a freshly interned subtree gets a canonical node mirroring
/// its top level; and a subtree whose identifier was already canonical
/// changes nothing.  (The exact outcome is `spec_insert` on the ghost
/// model, stated separately in `insert`'s contract.)
pub open spec fn insert_post(pre: ATree, post: ATree, t: NodeType, h: int) -> bool {
    &&& post.wf()
    &&& 0 <= h < post.nodes@.len()
    &&& post.nodes@[h].id == tree_id(t)
    &&& table_contains(post.table@, tree_id(t))
    &&& (forall|k: int|
        0 <= k < post.table@.len() && #[trigger] post.table@[k].0 == tree_id(t)
            ==> post.table@[k].1 == h)
    &&& grown_from(pre.nodes@, post.nodes@)
    &&& pre.table@.is_prefix_of(post.table@)
    &&& post.nodes@.len() <= pre.nodes@.len() + tree_size(t)
    &&& post.table@.len() <= pre.table@.len() + tree_size(t)
    &&& (forall|i: int|
        pre.nodes@.len() <= i < post.nodes@.len() ==> tree_ids(t).contains(
            #[trigger] post.nodes@[i].id,
        ) && !table_contains(pre.table@, post.nodes@[i].id))
    &&& (forall|k: int|
        pre.table@.len() <= k < post.table@.len() ==> tree_ids(t).contains(
            #[trigger] post.table@[k].0,
        ) && !table_contains(pre.table@, post.table@[k].0))
    &&& (!table_contains(pre.table@, tree_id(t)) ==> h == post.nodes@.len() - 1
        && node_mirrors_tree(post.nodes@, h, t))
    &&& (table_contains(pre.table@, tree_id(t)) ==> post.nodes@ == pre.nodes@ && post.table@
        == pre.table@)
}

/// What interning a whole child list guarantees: the composition of
/// `insert_post` over the children, with handles to their canonical nodes.
pub open spec fn children_insert_post(pre: ATree, post: ATree, cs: Seq<NodeType>, hs: Seq<usize>) -> bool {
    &&& post.wf()
    &&& grown_from(pre.nodes@, post.nodes@)
    &&& pre.table@.is_prefix_of(post.table@)
    &&& hs.len() == cs.len()
    &&& (forall|j: int|
        0 <= j < cs.len() ==> (#[trigger] hs[j] as int) < post.nodes@.len()
            && post.nodes@[hs[j] as int].id == tree_id(cs[j]))
    &&& post.nodes@.len() <= pre.nodes@.len() + fold_sizes(cs, 0)
    &&& post.table@.len() <= pre.table@.len() + fold_sizes(cs, 0)
    &&& (forall|i: int|
        pre.nodes@.len() <= i < post.nodes@.len() ==> fold_ids_union(cs, 0).contains(
            #[trigger] post.nodes@[i].id,
        ) && !table_contains(pre.table@, post.nodes@[i].id))
    &&& (forall|k: int|
        pre.table@.len() <= k < post.table@.len() ==> fold_ids_union(cs, 0).contains(
            #[trigger] post.table@[k].0,
        ) && !table_contains(pre.table@, post.table@[k].0))
}

/// A canonical node as the ghost model sees it: parent links are
/// abstracted away, the rest is the node verbatim.
#[verifier::ext_equal]
pub struct NodeModel {
    pub id: u64,
    pub kind: NodeKind,
    pub children: Seq<int>,
    pub level: int,
}

/// The ghost model of the whole DAG: the arena without parent links, and
/// the table over mathematical indices.
#[verifier::ext_equal]
pub struct DagModel {
    pub nodes: Seq<NodeModel>,
    pub table: Seq<(u64, int)>,
}

/// One arena node, abstracted.
pub open spec fn node_model(n: DagNode) -> NodeModel {
    NodeModel {
        id: n.id,
        kind: n.kind,
        children: n.children@.map_values(|c: usize| c as int),
        level: n.level as int,
    }
}

/// The arena, abstracted.
pub open spec fn model_nodes(nodes: Seq<DagNode>) -> Seq<NodeModel> {
    nodes.map_values(|n: DagNode| node_model(n))
}

/// The table, abstracted.
pub open spec fn model_table(table: Seq<(u64, usize)>) -> Seq<(u64, int)> {
    table.map_values(|e: (u64, usize)| (e.0, e.1 as int))
}

/// The whole DAG, abstracted.
pub open spec fn dag_model(a: ATree) -> DagModel {
    DagModel { nodes: model_nodes(a.nodes@), table: model_table(a.table@) }
}

/// Arena handles, as mathematical indices.
pub open spec fn handle_ints(hs: Seq<usize>) -> Seq<int> {
    hs.map_values(|h: usize| h as int)
}

/// Whether the model table holds this identifier.
pub open spec fn m_contains(table: Seq<(u64, int)>, id: u64) -> bool {
    exists|k: int| 0 <= k < table.len() && table[k].0 == id
}

/// The position of the entry carrying this identifier.
pub open spec fn m_pos(table: Seq<(u64, int)>, id: u64) -> int {
    choose|k: int| 0 <= k < table.len() && table[k].0 == id
}

/// The handle the model table maps this identifier to.
pub open spec fn m_at(table: Seq<(u64, int)>, id: u64) -> int {
    table[m_pos(table, id)].1
}

/// Maps `id` to `idx` in the model table, replacing its entry if any.
pub open spec fn m_upsert(table: Seq<(u64, int)>, id: u64, idx: int) -> Seq<(u64, int)> {
    if m_contains(table, id) {
        table.update(m_pos(table, id), (id, idx))
    } else {
        table.push((id, idx))
    }
}

/// The node kind an interned subtree produces.
pub open spec fn model_kind(t: NodeType) -> NodeKind {
    match t {
        NodeType::LeafNodeType(_) => NodeKind::Leaf,
        NodeType::InnerNodeType(inner) => NodeKind::Inner(inner.log_operation),
        NodeType::RootNodeType(root) => NodeKind::Root(root.log_operation),
    }
}

/// The largest level among the first `k` model handles, or 0 without any.
pub open spec fn m_max_level(nodes: Seq<NodeModel>, hs: Seq<int>, k: int) -> int
    decreases k,
{
    if k <= 0 {
        0
    } else {
        let rest = m_max_level(nodes, hs, k - 1);
        let l = nodes[hs[k - 1]].level;
        if l > rest {
            l
        } else {
            rest
        }
    }
}

/// The largest level among the first `k` arena handles, or 0 without any.
pub open spec fn max_child_level(nodes: Seq<DagNode>, cs: Seq<usize>, k: int) -> int
    decreases k,
{
    if k <= 0 {
        0
    } else {
        let rest = max_child_level(nodes, cs, k - 1);
        let l = nodes[cs[k - 1] as int].level as int;
        if l > rest {
            l
        } else {
            rest
        }
    }
}

/// What `insert` computes, stated on the ghost model: an already
/// canonical identifier returns its handle and changes nothing;
/// otherwise the children are interned left to right, a fresh node over
/// their handles is appended (level one above the deepest child handle,
/// 0 without children, 1 for a leaf), and the table maps the identifier
/// to it, taking over a colliding entry.
pub open spec fn spec_insert(g: DagModel, t: NodeType) -> (DagModel, int)
    decreases t, 1int,
{
    if m_contains(g.table, tree_id(t)) {
        (g, m_at(g.table, tree_id(t)))
    } else {
        let (g1, hs) = spec_insert_children(g, t);
        let h = g1.nodes.len() as int;
        let n = NodeModel {
            id: tree_id(t),
            kind: model_kind(t),
            children: hs,
            level: if t is LeafNodeType {
                1
            } else if hs.len() == 0 {
                0
            } else {
                1 + m_max_level(g1.nodes, hs, hs.len() as int)
            },
        };
        (DagModel { nodes: g1.nodes.push(n), table: m_upsert(g1.table, tree_id(t), h) }, h)
    }
}

/// The children phase of `spec_insert`: a leaf has none.
pub open spec fn spec_insert_children(g: DagModel, t: NodeType) -> (DagModel, Seq<int>)
    decreases t, 0int,
{
    match t {
        NodeType::LeafNodeType(_) => (g, Seq::empty()),
        NodeType::InnerNodeType(inner) => spec_insert_upto(
            g,
            inner.childrens@,
            inner.childrens@.len() as int,
        ),
        NodeType::RootNodeType(root) => spec_insert_upto(
            g,
            root.childrens@,
            root.childrens@.len() as int,
        ),
    }
}

/// Interns the first `k` children in order, threading the model.
pub open spec fn spec_insert_upto(g: DagModel, cs: Seq<NodeType>, k: int) -> (DagModel, Seq<int>)
    decreases cs, k,
{
    if k <= 0 || k > cs.len() {
        (g, Seq::empty())
    } else {
        let (g1, hs) = spec_insert_upto(g, cs, k - 1);
        let (g2, h) = spec_insert(g1, cs[k - 1]);
        (g2, hs.push(h))
    }
}

/// The model table holds an identifier exactly when the table does.
pub proof fn lemma_model_contains(table: Seq<(u64, usize)>, id: u64)
    ensures
        m_contains(model_table(table), id) <==> table_contains(table, id),
{
    let mt = model_table(table);
    if table_contains(table, id) {
        let k = choose|k: int| 0 <= k < table.len() && table[k].0 == id;
        assert(mt[k].0 == id);
    }
    if m_contains(mt, id) {
        let k = choose|k: int| 0 <= k < mt.len() && mt[k].0 == id;
        assert(table[k].0 == id);
    }
}

/// Under key uniqueness every entry for `id` carries one index, and the
/// model looks it up.
pub proof fn lemma_model_at(nodes: Seq<DagNode>, table: Seq<(u64, usize)>, id: u64, idx: usize)
    requires
        wf_table(nodes, table),
        exists|k: int| 0 <= k < table.len() && table[k].0 == id && table[k].1 == idx,
    ensures
        m_contains(model_table(table), id),
        m_at(model_table(table), id) == idx as int,
{
    let k = choose|k: int| 0 <= k < table.len() && table[k].0 == id && table[k].1 == idx;
    let mt = model_table(table);
    assert(mt[k].0 == id);
    let p = m_pos(mt, id);
    assert(0 <= p < mt.len() && mt[p].0 == id);
    assert(table[p].0 == id);
    if p != k {
        assert(false);
    }
}

/// The model's maximum child level agrees with the arena's.
pub proof fn lemma_model_max_level(nodes: Seq<DagNode>, hs: Seq<usize>, k: int)
    requires
        0 <= k <= hs.len(),
        forall|j: int| 0 <= j < hs.len() ==> (#[trigger] hs[j] as int) < nodes.len(),
    ensures
        m_max_level(model_nodes(nodes), handle_ints(hs), k) == max_child_level(nodes, hs, k),
    decreases k,
{
    if k > 0 {
        lemma_model_max_level(nodes, hs, k - 1);
        assert(handle_ints(hs)[k - 1] == hs[k - 1] as int);
        assert(model_nodes(nodes)[hs[k - 1] as int].level == nodes[hs[k - 1] as int].level as int);
    }
}

/// Nothing grows from a state to itself.
pub proof fn lemma_grown_refl(a: Seq<DagNode>)
    ensures
        grown_from(a, a),
{
    assert forall|i: int| 0 <= i < a.len() implies core_same(#[trigger] a[i], a[i])
        && a[i].parents@.is_prefix_of(a[i].parents@) by {
        assert(a[i].parents@.subrange(0, a[i].parents@.len() as int) =~= a[i].parents@);
    }
}

/// A table is a prefix of itself.
pub proof fn lemma_table_prefix_refl(a: Seq<(u64, usize)>)
    ensures
        a.is_prefix_of(a),
{
    assert(a.subrange(0, a.len() as int) =~= a);
}

/// Table prefixes compose.
pub proof fn lemma_table_prefix_trans(a: Seq<(u64, usize)>, b: Seq<(u64, usize)>, c: Seq<(u64, usize)>)
    requires
        a.is_prefix_of(b),
        b.is_prefix_of(c),
    ensures
        a.is_prefix_of(c),
{
    assert(a =~= c.subrange(0, a.len() as int)) by {
        assert forall|i: int| 0 <= i < a.len() implies a[i] == c.subrange(0, a.len() as int)[i] by {
            assert(a[i] == b.subrange(0, a.len() as int)[i]);
            assert(b[i] == c.subrange(0, b.len() as int)[i]);
        }
    }
}

/// An identifier present in a prefix is present in the whole table.
pub proof fn lemma_prefix_contains(a: Seq<(u64, usize)>, b: Seq<(u64, usize)>, id: u64)
    requires
        a.is_prefix_of(b),
        table_contains(a, id),
    ensures
        table_contains(b, id),
{
    let k = choose|k: int| 0 <= k < a.len() && a[k].0 == id;
    assert(a[k] == b.subrange(0, a.len() as int)[k]);
    assert(b[k].0 == id);
}

/// Composes the three phases of a fresh interning on the ghost model:
/// the resulting state and handle are exactly what `spec_insert`
/// computes.
proof fn lemma_insert_model(
    pre: ATree,
    mid: ATree,
    mid2: ATree,
    post: ATree,
    t: NodeType,
    h: usize,
    ch: Seq<usize>,
)
    requires
        !table_contains(pre.table@, tree_id(t)),
        // Children phase.
        spec_insert_children(dag_model(pre), t) == (dag_model(mid), handle_ints(ch)),
        forall|j: int| 0 <= j < ch.len() ==> (#[trigger] ch[j] as int) < mid.nodes@.len(),
        // Allocation phase.
        mid2.table@ == mid.table@,
        mid2.nodes@.len() == mid.nodes@.len() + 1,
        h == mid.nodes@.len(),
        grown_from(mid.nodes@, mid2.nodes@),
        mid2.nodes@[h as int].id == tree_id(t),
        mid2.nodes@[h as int].kind == model_kind(t),
        t is LeafNodeType ==> mid2.nodes@[h as int].children@.len() == 0 && mid2.nodes@[
            h as int
        ].level == 1,
        !(t is LeafNodeType) ==> mid2.nodes@[h as int].children@ == ch && mid2.nodes@[
            h as int
        ].level as int == (if ch.len() == 0 {
            0int
        } else {
            1 + max_child_level(mid.nodes@, ch, ch.len() as int)
        }),
        // Table phase.
        wf_table(mid2.nodes@, mid2.table@),
        post.nodes@ == mid2.nodes@,
        table_contains(post.table@, tree_id(t)),
        post.table@.len() == (if table_contains(mid2.table@, tree_id(t)) {
            mid2.table@.len() as int
        } else {
            mid2.table@.len() + 1int
        }),
        forall|k: int|
            0 <= k < mid2.table@.len() && #[trigger] mid2.table@[k].0 != tree_id(t)
                ==> post.table@[k] == mid2.table@[k],
        forall|k: int|
            0 <= k < post.table@.len() ==> (#[trigger] post.table@[k].0 == tree_id(t)
                ==> post.table@[k].1 == h),
        forall|k: int|
            0 <= k < mid2.table@.len() ==> #[trigger] post.table@[k].0 == mid2.table@[k].0,
    ensures
        spec_insert(dag_model(pre), t) == (dag_model(post), h as int),
{
    let tid = tree_id(t);
    lemma_model_contains(pre.table@, tid);
    let g1 = dag_model(mid);
    let hs = handle_ints(ch);
    assert(g1.nodes.len() == mid.nodes@.len());
    // The arena grew by exactly the node the specification appends.
    let n_new = mid2.nodes@[h as int];
    assert(model_nodes(post.nodes@) =~= g1.nodes.push(node_model(n_new))) by {
        assert forall|i: int| 0 <= i < mid.nodes@.len() implies model_nodes(mid2.nodes@)[i]
            =~= model_nodes(mid.nodes@)[i] by {
            assert(core_same(mid.nodes@[i], mid2.nodes@[i]));
        }
    }
    let n_spec = NodeModel {
        id: tid,
        kind: model_kind(t),
        children: hs,
        level: if t is LeafNodeType {
            1
        } else if hs.len() == 0 {
            0
        } else {
            1 + m_max_level(g1.nodes, hs, hs.len() as int)
        },
    };
    assert(node_model(n_new) =~= n_spec) by {
        if t is LeafNodeType {
            assert(node_model(n_new).children =~= Seq::<int>::empty());
            assert(handle_ints(ch).len() == ch.len());
            assert(ch =~= Seq::<usize>::empty()) by {
                if ch.len() != 0 {
                    assert(spec_insert_children(dag_model(pre), t).1 == Seq::<int>::empty());
                    assert(handle_ints(ch).len() == 0);
                }
            }
            assert(hs =~= Seq::<int>::empty());
        } else {
            assert(node_model(n_new).children =~= hs) by {
                assert(n_new.children@ == ch);
                assert(n_new.children@.map_values(|c: usize| c as int) =~= handle_ints(ch));
            }
            if ch.len() > 0 {
                lemma_model_max_level(mid.nodes@, ch, ch.len() as int);
            }
        }
    }
    // The table is exactly the specification's upsert.
    let mt1 = g1.table;
    assert(mt1 == model_table(mid2.table@));
    lemma_model_contains(mid2.table@, tid);
    assert(model_table(post.table@) =~= m_upsert(mt1, tid, h as int)) by {
        if m_contains(mt1, tid) {
            let p = m_pos(mt1, tid);
            assert(0 <= p < mt1.len() && mt1[p].0 == tid);
            assert(mid2.table@[p].0 == tid);
            assert(post.table@.len() == mid2.table@.len());
            assert forall|k: int|
                0 <= k < post.table@.len() implies model_table(post.table@)[k] == m_upsert(
                mt1,
                tid,
                h as int,
            )[k] by {
                if k == p {
                    assert(post.table@[k].0 == tid);
                    assert(post.table@[k].1 == h);
                } else {
                    assert(mid2.table@[k].0 != tid) by {
                        if mid2.table@[k].0 == tid {
                            assert(false);
                        }
                    }
                    assert(post.table@[k] == mid2.table@[k]);
                }
            }
        } else {
            assert(!table_contains(mid2.table@, tid));
            assert(post.table@.len() == mid2.table@.len() + 1);
            assert forall|k: int|
                0 <= k < post.table@.len() implies model_table(post.table@)[k] == m_upsert(
                mt1,
                tid,
                h as int,
            )[k] by {
                if k < mid2.table@.len() {
                    assert(mid2.table@[k].0 != tid) by {
                        if mid2.table@[k].0 == tid {
                            assert(table_contains(mid2.table@, tid));
                        }
                    }
                    assert(post.table@[k] == mid2.table@[k]);
                } else {
                    assert(post.table@[k].0 == tid) by {
                        if post.table@[k].0 != tid {
                            let w = choose|w: int|
                                0 <= w < post.table@.len() && post.table@[w].0 == tid;
                            assert(w < mid2.table@.len());
                            assert(mid2.table@[w].0 == tid);
                            assert(table_contains(mid2.table@, tid));
                        }
                    }
                    assert(post.table@[k].1 == h);
                }
            }
        }
    }
    assert(dag_model(post) =~= spec_insert(dag_model(pre), t).0);
    assert(h as int == spec_insert(dag_model(pre), t).1);
}

/// Folding the identifiers of canonical handles equals folding the
/// identifiers of the subtrees they canonicalise.
pub proof fn lemma_fold_handles(
    nodes: Seq<DagNode>,
    hs: Seq<usize>,
    cs: Seq<NodeType>,
    k: int,
    acc: u64,
    op: LogOperation,
)
    requires
        hs.len() == cs.len(),
        forall|j: int|
            0 <= j < cs.len() ==> (#[trigger] hs[j] as int) < nodes.len() && nodes[hs[j] as int].id
                == tree_id(cs[j]),
    ensures
        fold_node_ids(nodes, hs, k, acc, op) == fold_tree_ids(op, cs, k, acc),
    decreases cs.len() - k,
{
    if 0 <= k < cs.len() {
        lemma_fold_handles(nodes, hs, cs, k + 1, fold_step(op, acc, tree_id(cs[k])), op);
    }
}

impl ATree {
    /// Interns a subtree, bottom-up, and returns the arena handle of its
    /// canonical node.  If the subtree's identifier is already canonical
    /// the existing handle is returned and nothing changes; otherwise the
    /// children are interned first, a fresh node is wired to their
    /// canonical nodes, and the table maps the identifier to it.
    ///
    /// The call's whole effect is `spec_insert` on the ghost model, so
    /// table sizes, node shapes and levels after any insertion follow
    /// from the contract alone; `insert_post` states the same call's
    /// invariant-level consequences, which the growth and idempotence
    /// laws build on.
    pub fn insert(&mut self, node: &NodeType) -> (h: usize)
        requires
            old(self).wf(),
            old(self).nodes@.len() + tree_size(*node) < u32::MAX as int,
        ensures
            insert_post(*old(self), *final(self), *node, h as int),
            dag_model(*final(self)) == spec_insert(dag_model(*old(self)), *node).0,
            h as int == spec_insert(dag_model(*old(self)), *node).1,
        decreases *node, 0int,
    {
        proof {
            crate::nodes::lemma_tree_size_pos(*node);
            crate::nodes::lemma_tree_id_in_ids(*node);
        }
        let id = node.get_id();
        if let Some(idx) = self.table_get(id) {
            proof {
                lemma_grown_refl(self.nodes@);
                lemma_table_prefix_refl(self.table@);
                let k = choose|k: int|
                    0 <= k < self.table@.len() && self.table@[k].0 == id && self.table@[k].1
                        == idx;
                assert forall|k2: int|
                    0 <= k2 < self.table@.len() && #[trigger] self.table@[k2].0 == id implies
                    self.table@[k2].1 == idx as int by {
                    if k2 != k {
                        assert(false);
                    }
                }
                assert(self.nodes@[idx as int].id == id);
                lemma_model_contains(self.table@, id);
                lemma_model_at(self.nodes@, self.table@, id, idx);
            }
            return idx;
        }
        let child_handles: Vec<usize> = match node {
            NodeType::LeafNodeType(_) => Vec::new(),
            NodeType::InnerNodeType(inner) => {
                proof {
                    assert(tree_size(*node) == 1 + fold_sizes(inner.childrens@, 0));
                }
                self.insert_children(&inner.childrens)
            },
            NodeType::RootNodeType(root) => {
                proof {
                    assert(tree_size(*node) == 1 + fold_sizes(root.childrens@, 0));
                }
                self.insert_children(&root.childrens)
            },
        };
        let ghost mid = *self;
        proof {
            match node {
                NodeType::LeafNodeType(_) => {
                    assert(handle_ints(child_handles@) =~= Seq::<int>::empty());
                },
                NodeType::InnerNodeType(_) => {},
                NodeType::RootNodeType(_) => {},
            }
            assert(spec_insert_children(dag_model(*old(self)), *node) == (
                dag_model(mid),
                handle_ints(child_handles@),
            ));
        }
        let h = self.create_new_node(node, child_handles.as_slice());
        proof {
            match node {
                NodeType::LeafNodeType(_) => {},
                NodeType::InnerNodeType(inner) => {
                    lemma_fold_handles(
                        mid.nodes@,
                        child_handles@,
                        inner.childrens@,
                        0,
                        fold_init(inner.log_operation),
                        inner.log_operation,
                    );
                },
                NodeType::RootNodeType(root) => {
                    lemma_fold_handles(
                        mid.nodes@,
                        child_handles@,
                        root.childrens@,
                        0,
                        fold_init(root.log_operation),
                        root.log_operation,
                    );
                },
            }
            assert(self.nodes@[h as int].id == tree_id(*node));
        }
        let ghost mid2 = *self;
        self.table_set(id, h);
        proof {
            assert(node_mirrors_tree(mid2.nodes@, h as int, *node)) by {
                match node {
                    NodeType::LeafNodeType(_) => {},
                    NodeType::InnerNodeType(inner) => {
                        assert forall|j: int|
                            0 <= j < mid2.nodes@[h as int].children@.len() implies (
                        #[trigger] mid2.nodes@[h as int].children@[j] as int) < mid2.nodes@.len()
                            && mid2.nodes@[mid2.nodes@[h as int].children@[j] as int].id
                            == tree_id(inner.childrens@[j]) by {
                            assert(mid2.nodes@[h as int].children@[j] == child_handles@[j]);
                            assert(core_same(
                                mid.nodes@[child_handles@[j] as int],
                                mid2.nodes@[child_handles@[j] as int],
                            ));
                        }
                    },
                    NodeType::RootNodeType(root) => {
                        assert forall|j: int|
                            0 <= j < mid2.nodes@[h as int].children@.len() implies (
                        #[trigger] mid2.nodes@[h as int].children@[j] as int) < mid2.nodes@.len()
                            && mid2.nodes@[mid2.nodes@[h as int].children@[j] as int].id
                            == tree_id(root.childrens@[j]) by {
                            assert(mid2.nodes@[h as int].children@[j] == child_handles@[j]);
                            assert(core_same(
                                mid.nodes@[child_handles@[j] as int],
                                mid2.nodes@[child_handles@[j] as int],
                            ));
                        }
                    },
                }
            }
            lemma_insert_compose(*old(self), mid, mid2, *self, *node, h as int);
            assert(mid2.nodes@[h as int].kind == model_kind(*node));
            lemma_insert_model(*old(self), mid, mid2, *self, *node, h, child_handles@);
        }
        h
    }

    /// Matches one event against every registered expression.
    ///
    /// The batch seeds each canonical leaf with the event's outcome for
    /// its predicate identifier (identifiers the table does not map to a
    /// leaf are silently ignored, and a later entry for the same
    /// identifier overrides an earlier one).  Outcomes then propagate
    /// bottom-up in arena order, which processes every node after all of
    /// its children, level by level.  The result lists the identifiers of
    /// the root nodes whose outcome is `True`, in arena order; the DAG
    /// itself is left untouched, so a second call with the same batch
    /// returns the same list.
    pub fn matches(&mut self, predicates: &[PredResult]) -> (r: Vec<u64>)
        requires
            old(self).wf(),
        ensures
            *final(self) == *old(self),
            r@ == matched_upto(
                old(self).nodes@,
                old(self).table@,
                predicates@,
                old(self).nodes@.len() as int,
            ),
    {
        let mut vals: Vec<Option<bool>> = Vec::new();
        let mut out: Vec<u64> = Vec::new();
        let mut i: usize = 0;
        while i < self.nodes.len()
            invariant
                *self == *old(self),
                old(self).wf(),
                i <= self.nodes@.len(),
                vals@.len() == i,
                forall|i2: int|
                    0 <= i2 < i ==> vals@[i2] == node_val(
                        self.nodes@,
                        self.table@,
                        predicates@,
                        i2,
                    ),
                out@ == matched_upto(self.nodes@, self.table@, predicates@, i as int),
            decreases self.nodes@.len() - i,
        {
            let ghost nodes = self.nodes@;
            let ghost table = self.table@;
            let nid = self.nodes[i].id;
            let kind = self.nodes[i].kind;
            let v: Option<bool> = match kind {
                NodeKind::Leaf => {
                    let owner = self.table_get(nid);
                    let seeded = match owner {
                        Some(idx) => idx == i,
                        None => false,
                    };
                    proof {
                        if seeded {
                            let k = choose|k: int|
                                0 <= k < table.len() && table[k].0 == nid && table[k].1 == i;
                            let p = table_pos(table, nid);
                            assert(0 <= p < table.len() && table[p].0 == nid);
                            if p != k {
                                assert(false);
                            }
                            assert(table_at(table, nid) == i);
                        } else {
                            if table_contains(table, nid) && table_at(table, nid) == i {
                                let p = table_pos(table, nid);
                                assert(0 <= p < table.len() && table[p].0 == nid && table[p].1
                                    == i);
                                assert(owner is Some);
                                let idx = owner->0;
                                let k2 = choose|k2: int|
                                    0 <= k2 < table.len() && table[k2].0 == nid && table[k2].1
                                        == idx;
                                if k2 != p {
                                    assert(false);
                                }
                                assert(false);
                            }
                        }
                    }
                    if seeded {
                        seed_lookup(predicates, nid)
                    } else {
                        None
                    }
                },
                NodeKind::Inner(op) => self.combine_children(i, op, &vals, Ghost(predicates@)),
                NodeKind::Root(op) => self.combine_children(i, op, &vals, Ghost(predicates@)),
            };
            proof {
                assert(v == node_val(nodes, table, predicates@, i as int));
            }
            let is_root = match kind {
                NodeKind::Root(_) => true,
                _ => false,
            };
            let emit = match v {
                Some(true) => true,
                _ => false,
            };
            if is_root && emit {
                out.push(nid);
            }
            vals.push(v);
            i += 1;
            proof {
                assert(out@ == matched_upto(nodes, table, predicates@, i as int));
            }
        }
        out
    }

    /// Evaluates node `i` from its children's already computed outcomes:
    /// the operands are collected in child order and folded under the
    /// node's operation, or the node stays undetermined without children.
    fn combine_children(
        &self,
        i: usize,
        op: LogOperation,
        vals: &Vec<Option<bool>>,
        preds: Ghost<Seq<PredResult>>,
    ) -> (v: Option<bool>)
        requires
            self.wf(),
            i < self.nodes@.len(),
            self.nodes@[i as int].kind == NodeKind::Inner(op) || self.nodes@[i as int].kind
                == NodeKind::Root(op),
            vals@.len() == i,
            forall|i2: int|
                0 <= i2 < i ==> vals@[i2] == node_val(self.nodes@, self.table@, preds@, i2),
        ensures
            v == node_val(self.nodes@, self.table@, preds@, i as int),
    {
        let cl = self.nodes[i].children.len();
        if cl == 0 {
            return None;
        }
        let mut operands: Vec<Option<bool>> = Vec::new();
        let mut j: usize = 0;
        while j < cl
            invariant
                self.wf(),
                i < self.nodes@.len(),
                cl == self.nodes@[i as int].children@.len(),
                vals@.len() == i,
                forall|i2: int|
                    0 <= i2 < i ==> vals@[i2] == node_val(self.nodes@, self.table@, preds@, i2),
                j <= cl,
                operands@.len() == j,
                forall|j2: int|
                    0 <= j2 < j ==> operands@[j2] == node_val(
                        self.nodes@,
                        self.table@,
                        preds@,
                        self.nodes@[i as int].children@[j2] as int,
                    ),
            decreases cl - j,
        {
            let c = self.nodes[i].children[j];
            proof {
                assert(children_below(self.nodes@));
                assert((self.nodes@[i as int].children@[j as int] as int) < i as int);
            }
            operands.push(vals[c]);
            j += 1;
        }
        let r = evaluate_operands(op, &operands);
        proof {
            let nodes = self.nodes@;
            let table = self.table@;
            let cs = nodes[i as int].children@;
            assert(operands@.len() == cs.len());
            assert(operands@[0] == node_val(nodes, table, preds@, cs[0] as int));
            lemma_fold_vals_eq(nodes, table, preds@, op, i as int, operands@, 1, operands@[0]);
            assert(r == fold_child_vals(
                nodes,
                table,
                preds@,
                op,
                i as int,
                1,
                node_val(nodes, table, preds@, cs[0] as int),
            ));
        }
        r
    }

    /// Interns every child in order, collecting the canonical handles.
    fn insert_children(&mut self, cs: &Vec<NodeType>) -> (hs: Vec<usize>)
        requires
            old(self).wf(),
            old(self).nodes@.len() + fold_sizes(cs@, 0) < u32::MAX as int,
        ensures
            children_insert_post(*old(self), *final(self), cs@, hs@),
            spec_insert_upto(dag_model(*old(self)), cs@, cs@.len() as int).0 == dag_model(
                *final(self),
            ),
            spec_insert_upto(dag_model(*old(self)), cs@, cs@.len() as int).1 == handle_ints(hs@),
        decreases cs@, 0int,
    {
        let mut hs: Vec<usize> = Vec::new();
        proof {
            lemma_grown_refl(self.nodes@);
            lemma_table_prefix_refl(self.table@);
            crate::nodes::lemma_fold_sizes_pos(cs@, 0);
            assert(handle_ints(hs@) =~= Seq::<int>::empty());
        }
        let mut j: usize = 0;
        while j < cs.len()
            invariant
                self.wf(),
                j <= cs@.len(),
                hs@.len() == j,
                old(self).nodes@.len() + fold_sizes(cs@, 0) < u32::MAX as int,
                grown_from(old(self).nodes@, self.nodes@),
                old(self).table@.is_prefix_of(self.table@),
                self.nodes@.len() + fold_sizes(cs@, j as int) <= old(self).nodes@.len()
                    + fold_sizes(cs@, 0),
                self.table@.len() + fold_sizes(cs@, j as int) <= old(self).table@.len()
                    + fold_sizes(cs@, 0),
                forall|j2: int|
                    0 <= j2 < j ==> (#[trigger] hs@[j2] as int) < self.nodes@.len()
                        && self.nodes@[hs@[j2] as int].id == tree_id(cs@[j2]),
                forall|i: int|
                    old(self).nodes@.len() <= i < self.nodes@.len() ==> fold_ids_union(
                        cs@,
                        0,
                    ).contains(#[trigger] self.nodes@[i].id) && !table_contains(
                        old(self).table@,
                        self.nodes@[i].id,
                    ),
                forall|k: int|
                    old(self).table@.len() <= k < self.table@.len() ==> fold_ids_union(
                        cs@,
                        0,
                    ).contains(#[trigger] self.table@[k].0) && !table_contains(
                        old(self).table@,
                        self.table@[k].0,
                    ),
                spec_insert_upto(dag_model(*old(self)), cs@, j as int).0 == dag_model(*self),
                spec_insert_upto(dag_model(*old(self)), cs@, j as int).1 == handle_ints(hs@),
            decreases cs@.len() - j,
        {
            proof {
                crate::nodes::lemma_tree_size_pos(cs@[j as int]);
                crate::nodes::lemma_fold_sizes_pos(cs@, j + 1);
                assert(fold_sizes(cs@, j as int) == tree_size(cs@[j as int]) + fold_sizes(
                    cs@,
                    j + 1,
                ));
            }
            let ghost before = *self;
            let ghost hs_pre = hs@;
            let hj = self.insert(&cs[j]);
            hs.push(hj);
            proof {
                lemma_children_step(
                    *old(self),
                    before,
                    *self,
                    cs@,
                    j as int,
                    hj as int,
                    hs@,
                );
                assert(spec_insert(dag_model(before), cs@[j as int]) == (
                    dag_model(*self),
                    hj as int,
                ));
                assert(handle_ints(hs_pre.push(hj)) =~= handle_ints(hs_pre).push(hj as int));
                assert(spec_insert_upto(dag_model(*old(self)), cs@, j + 1).0 == dag_model(
                    *self,
                ));
                assert(spec_insert_upto(dag_model(*old(self)), cs@, j + 1).1 == handle_ints(
                    hs@,
                ));
            }
            j += 1;
        }
        hs
    }
}

/// One step of `insert_children`: folds a child's `insert_post` into the
/// accumulated invariant.
proof fn lemma_children_step(
    pre: ATree,
    before: ATree,
    after: ATree,
    cs: Seq<NodeType>,
    j: int,
    hj: int,
    hs: Seq<usize>,
)
    requires
        0 <= j < cs.len(),
        hs.len() == j + 1,
        hs[j] == hj,
        insert_post(before, after, cs[j], hj),
        grown_from(pre.nodes@, before.nodes@),
        pre.table@.is_prefix_of(before.table@),
        before.nodes@.len() + fold_sizes(cs, j) <= pre.nodes@.len() + fold_sizes(cs, 0),
        before.table@.len() + fold_sizes(cs, j) <= pre.table@.len() + fold_sizes(cs, 0),
        forall|j2: int|
            0 <= j2 < j ==> (#[trigger] hs[j2] as int) < before.nodes@.len()
                && before.nodes@[hs[j2] as int].id == tree_id(cs[j2]),
        forall|i: int|
            pre.nodes@.len() <= i < before.nodes@.len() ==> fold_ids_union(cs, 0).contains(
                #[trigger] before.nodes@[i].id,
            ) && !table_contains(pre.table@, before.nodes@[i].id),
        forall|k: int|
            pre.table@.len() <= k < before.table@.len() ==> fold_ids_union(cs, 0).contains(
                #[trigger] before.table@[k].0,
            ) && !table_contains(pre.table@, before.table@[k].0),
    ensures
        grown_from(pre.nodes@, after.nodes@),
        pre.table@.is_prefix_of(after.table@),
        after.nodes@.len() + fold_sizes(cs, j + 1) <= pre.nodes@.len() + fold_sizes(cs, 0),
        after.table@.len() + fold_sizes(cs, j + 1) <= pre.table@.len() + fold_sizes(cs, 0),
        forall|j2: int|
            0 <= j2 < j + 1 ==> (#[trigger] hs[j2] as int) < after.nodes@.len()
                && after.nodes@[hs[j2] as int].id == tree_id(cs[j2]),
        forall|i: int|
            pre.nodes@.len() <= i < after.nodes@.len() ==> fold_ids_union(cs, 0).contains(
                #[trigger] after.nodes@[i].id,
            ) && !table_contains(pre.table@, after.nodes@[i].id),
        forall|k: int|
            pre.table@.len() <= k < after.table@.len() ==> fold_ids_union(cs, 0).contains(
                #[trigger] after.table@[k].0,
            ) && !table_contains(pre.table@, after.table@[k].0),
{
    lemma_grown_trans(pre.nodes@, before.nodes@, after.nodes@);
    lemma_table_prefix_trans(pre.table@, before.table@, after.table@);
    assert(fold_sizes(cs, j) == tree_size(cs[j]) + fold_sizes(cs, j + 1));
    crate::nodes::lemma_fold_ids_union_covers(cs, 0);
    // Handles stay valid: the arena only grew and identifiers are fixed.
    assert forall|j2: int|
        0 <= j2 < j + 1 implies (#[trigger] hs[j2] as int) < after.nodes@.len()
        && after.nodes@[hs[j2] as int].id == tree_id(cs[j2]) by {
        if j2 < j {
            assert(core_same(before.nodes@[hs[j2] as int], after.nodes@[hs[j2] as int]));
        }
    }
    // New arena entries: either from before (invariant) or added by this
    // child (inside the child's identifier set).
    assert forall|i: int|
        pre.nodes@.len() <= i < after.nodes@.len() implies fold_ids_union(cs, 0).contains(
        #[trigger] after.nodes@[i].id,
    ) && !table_contains(pre.table@, after.nodes@[i].id) by {
        if i < before.nodes@.len() {
            assert(core_same(before.nodes@[i], after.nodes@[i]));
            assert(fold_ids_union(cs, 0).contains(before.nodes@[i].id));
        } else {
            assert(tree_ids(cs[j]).contains(after.nodes@[i].id));
            assert(tree_ids(cs[j]).subset_of(fold_ids_union(cs, 0)));
            assert(!table_contains(before.table@, after.nodes@[i].id));
            if table_contains(pre.table@, after.nodes@[i].id) {
                lemma_prefix_contains(pre.table@, before.table@, after.nodes@[i].id);
            }
        }
    }
    assert forall|k: int|
        pre.table@.len() <= k < after.table@.len() implies fold_ids_union(cs, 0).contains(
        #[trigger] after.table@[k].0,
    ) && !table_contains(pre.table@, after.table@[k].0) by {
        if k < before.table@.len() {
            assert(before.table@[k] == after.table@.subrange(0, before.table@.len() as int)[k]);
            assert(after.table@[k] == before.table@[k]);
        } else {
            assert(tree_ids(cs[j]).contains(after.table@[k].0));
            assert(tree_ids(cs[j]).subset_of(fold_ids_union(cs, 0)));
            if table_contains(pre.table@, after.table@[k].0) {
                lemma_prefix_contains(pre.table@, before.table@, after.table@[k].0);
            }
        }
    }
}

/// Composes the three phases of a fresh interning: the children's
/// insertions, the node allocation, and the table update.
proof fn lemma_insert_compose(
    pre: ATree,
    mid: ATree,
    mid2: ATree,
    post: ATree,
    t: NodeType,
    h: int,
)
    requires
        pre.wf(),
        post.wf(),
        !table_contains(pre.table@, tree_id(t)),
        pre.nodes@.len() + tree_size(t) < u32::MAX as int,
        // Phase 1: children interned.
        grown_from(pre.nodes@, mid.nodes@),
        pre.table@.is_prefix_of(mid.table@),
        mid.nodes@.len() + 1 <= pre.nodes@.len() + tree_size(t),
        mid.table@.len() <= pre.table@.len() + tree_size(t) - 1,
        forall|i: int|
            pre.nodes@.len() <= i < mid.nodes@.len() ==> tree_ids(t).contains(
                #[trigger] mid.nodes@[i].id,
            ) && !table_contains(pre.table@, mid.nodes@[i].id),
        forall|k: int|
            pre.table@.len() <= k < mid.table@.len() ==> tree_ids(t).contains(
                #[trigger] mid.table@[k].0,
            ) && !table_contains(pre.table@, mid.table@[k].0),
        // Phase 2: the node allocated at `h`.
        grown_from(mid.nodes@, mid2.nodes@),
        mid2.table@ == mid.table@,
        mid2.nodes@.len() == mid.nodes@.len() + 1,
        h == mid.nodes@.len(),
        mid2.nodes@[h].id == tree_id(t),
        node_mirrors_tree(mid2.nodes@, h, t),
        // Phase 3: the table updated.
        post.nodes@ == mid2.nodes@,
        table_keys(post.table@) == table_keys(mid2.table@).insert(tree_id(t)),
        table_contains(post.table@, tree_id(t)),
        post.table@.len() <= mid2.table@.len() + 1,
        forall|k: int|
            0 <= k < mid2.table@.len() && #[trigger] mid2.table@[k].0 != tree_id(t)
                ==> post.table@[k] == mid2.table@[k],
        forall|k: int|
            0 <= k < post.table@.len() ==> (#[trigger] post.table@[k].0 == tree_id(t)
                ==> post.table@[k].1 == h),
        forall|k: int|
            0 <= k < mid2.table@.len() ==> #[trigger] post.table@[k].0 == mid2.table@[k].0,
    ensures
        insert_post(pre, post, t, h),
{
    crate::nodes::lemma_tree_id_in_ids(t);
    crate::nodes::lemma_tree_size_pos(t);
    lemma_grown_trans(pre.nodes@, mid.nodes@, mid2.nodes@);
    // Old table entries carry other identifiers, so the update left them
    // in place.
    assert forall|k: int| 0 <= k < pre.table@.len() implies #[trigger] mid.table@[k]
        == pre.table@[k] by {
        assert(pre.table@[k] == mid.table@.subrange(0, pre.table@.len() as int)[k]);
    }
    assert forall|k: int| 0 <= k < pre.table@.len() implies #[trigger] post.table@[k]
        == pre.table@[k] by {
        assert(mid2.table@[k] == pre.table@[k]);
        if mid2.table@[k].0 == tree_id(t) {
            assert(table_contains(pre.table@, tree_id(t)));
        }
    }
    assert(pre.table@.is_prefix_of(post.table@)) by {
        assert(pre.table@ =~= post.table@.subrange(0, pre.table@.len() as int));
    }
    assert(0 <= h < post.nodes@.len());
    assert(post.nodes@[h].id == tree_id(t));
    // Fresh arena entries carry subtree identifiers new to the old table.
    assert forall|i: int|
        pre.nodes@.len() <= i < post.nodes@.len() implies tree_ids(t).contains(
        #[trigger] post.nodes@[i].id,
    ) && !table_contains(pre.table@, post.nodes@[i].id) by {
        if i < mid.nodes@.len() {
            assert(core_same(mid.nodes@[i], mid2.nodes@[i]));
            assert(tree_ids(t).contains(mid.nodes@[i].id));
        } else {
            assert(i == h);
        }
    }
    // Fresh table entries: inherited from the children phase, or the new
    // entry for the subtree's own identifier.
    assert forall|k: int|
        pre.table@.len() <= k < post.table@.len() implies tree_ids(t).contains(
        #[trigger] post.table@[k].0,
    ) && !table_contains(pre.table@, post.table@[k].0) by {
        if k < mid2.table@.len() {
            assert(post.table@[k].0 == mid2.table@[k].0);
            assert(tree_ids(t).contains(mid.table@[k].0));
        } else {
            assert(post.table@[k].0 == tree_id(t)) by {
                if post.table@[k].0 != tree_id(t) {
                    assert(table_keys(post.table@).contains(post.table@[k].0)) by {
                        assert(key_seq(post.table@)[k] == post.table@[k].0);
                    }
                    assert(
                        table_keys(mid2.table@).contains(post.table@[k].0)
                    );
                    let w = choose|w: int|
                        0 <= w < key_seq(mid2.table@).len() && key_seq(mid2.table@)[w]
                            == post.table@[k].0;
                    assert(mid2.table@[w].0 == post.table@[k].0);
                    assert(post.table@[w].0 == post.table@[k].0);
                    assert(false);
                }
            }
        }
    }
    assert(post.nodes@.len() <= pre.nodes@.len() + tree_size(t));
    assert(post.table@.len() <= pre.table@.len() + tree_size(t));
}

/// The last outcome the input batch supplies for this predicate
/// identifier; `None` when the batch never names it.
pub open spec fn seed_of(preds: Seq<PredResult>, pid: u64) -> Option<bool>
    decreases preds.len(),
{
    if preds.len() == 0 {
        None
    } else if preds.last().id == pid {
        preds.last().result
    } else {
        seed_of(preds.drop_last(), pid)
    }
}

/// Three-valued conjunction: `False` dominates, otherwise undetermined
/// poisons, otherwise `True`.
pub open spec fn kleene_and(a: Option<bool>, b: Option<bool>) -> Option<bool> {
    match (a, b) {
        (None, Some(true)) => None,
        (None, Some(false)) => Some(false),
        (Some(true), None) => None,
        (Some(false), None) => Some(false),
        (Some(x), Some(y)) => Some(x && y),
        (None, None) => None,
    }
}

/// Three-valued disjunction: `True` dominates, otherwise undetermined
/// poisons, otherwise `False`.
pub open spec fn kleene_or(a: Option<bool>, b: Option<bool>) -> Option<bool> {
    match (a, b) {
        (None, Some(true)) => Some(true),
        (None, Some(false)) => None,
        (Some(true), None) => Some(true),
        (Some(false), None) => None,
        (Some(x), Some(y)) => Some(x || y),
        (None, None) => None,
    }
}

/// The three-valued combination a node's operation applies.
pub open spec fn kleene(op: LogOperation, a: Option<bool>, b: Option<bool>) -> Option<bool> {
    match op {
        LogOperation::And => kleene_and(a, b),
        LogOperation::Or => kleene_or(a, b),
    }
}

/// Folds `s[k..]` into `acc` under the operation's three-valued table.
pub open spec fn fold_ops(op: LogOperation, s: Seq<Option<bool>>, k: int, acc: Option<bool>) -> Option<bool>
    decreases s.len() - k,
{
    if k < 0 || k >= s.len() {
        acc
    } else {
        fold_ops(op, s, k + 1, kleene(op, acc, s[k]))
    }
}

/// The three-valued outcome of one canonical node for one event.
///
/// A leaf answers the batch's outcome for its predicate identifier, but
/// only while it still owns the table entry for that identifier (a later
/// colliding node takes the seeding over, exactly as a table lookup in a
/// seeding step would find the newer node).  An inner or root node folds
/// the outcomes of all of its children under its operation's three-valued
/// table, starting from the first child.  A childless inner or root node
/// stays undetermined.
pub open spec fn node_val(
    nodes: Seq<DagNode>,
    table: Seq<(u64, usize)>,
    preds: Seq<PredResult>,
    i: int,
) -> Option<bool>
    decreases i, 1int, 0int,
        when 0 <= i < nodes.len() && children_below(nodes)
{
    let n = nodes[i];
    match n.kind {
        NodeKind::Leaf => {
            if table_contains(table, n.id) && table_at(table, n.id) == i {
                seed_of(preds, n.id)
            } else {
                None
            }
        },
        NodeKind::Inner(op) => {
            if n.children@.len() == 0 {
                None
            } else {
                fold_child_vals(
                    nodes,
                    table,
                    preds,
                    op,
                    i,
                    1,
                    node_val(nodes, table, preds, n.children@[0] as int),
                )
            }
        },
        NodeKind::Root(op) => {
            if n.children@.len() == 0 {
                None
            } else {
                fold_child_vals(
                    nodes,
                    table,
                    preds,
                    op,
                    i,
                    1,
                    node_val(nodes, table, preds, n.children@[0] as int),
                )
            }
        },
    }
}

/// Folds the outcomes of children `k..` of node `i` into `acc` under the
/// operation's three-valued table.
pub open spec fn fold_child_vals(
    nodes: Seq<DagNode>,
    table: Seq<(u64, usize)>,
    preds: Seq<PredResult>,
    op: LogOperation,
    i: int,
    k: int,
    acc: Option<bool>,
) -> Option<bool>
    decreases i, 0int, nodes[i].children@.len() - k,
        when 0 <= i < nodes.len() && children_below(nodes)
{
    if k < 0 || k >= nodes[i].children@.len() {
        acc
    } else {
        fold_child_vals(
            nodes,
            table,
            preds,
            op,
            i,
            k + 1,
            kleene(op, acc, node_val(nodes, table, preds, nodes[i].children@[k] as int)),
        )
    }
}

/// An operand list that mirrors the children's outcomes folds to the same
/// value as the children themselves.
proof fn lemma_fold_vals_eq(
    nodes: Seq<DagNode>,
    table: Seq<(u64, usize)>,
    preds: Seq<PredResult>,
    op: LogOperation,
    i: int,
    operands: Seq<Option<bool>>,
    k: int,
    acc: Option<bool>,
)
    requires
        0 <= i < nodes.len(),
        children_below(nodes),
        operands.len() == nodes[i].children@.len(),
        forall|j: int|
            0 <= j < operands.len() ==> operands[j] == node_val(
                nodes,
                table,
                preds,
                #[trigger] nodes[i].children@[j] as int,
            ),
    ensures
        fold_ops(op, operands, k, acc) == fold_child_vals(nodes, table, preds, op, i, k, acc),
    decreases operands.len() - k,
{
    if 0 <= k < operands.len() {
        lemma_fold_vals_eq(
            nodes,
            table,
            preds,
            op,
            i,
            operands,
            k + 1,
            kleene(op, acc, operands[k]),
        );
    }
}

/// The identifiers `matches` has emitted after scanning the first `k`
/// arena nodes: the roots among them whose outcome is `True`, in arena
/// order.
pub open spec fn matched_upto(
    nodes: Seq<DagNode>,
    table: Seq<(u64, usize)>,
    preds: Seq<PredResult>,
    k: int,
) -> Seq<u64>
    decreases k,
{
    if k <= 0 {
        Seq::empty()
    } else {
        let rest = matched_upto(nodes, table, preds, k - 1);
        if nodes[k - 1].kind is Root && node_val(nodes, table, preds, k - 1) == Some(true) {
            rest.push(nodes[k - 1].id)
        } else {
            rest
        }
    }
}

/// Folds a non-empty operand list under the node's three-valued logic,
/// exactly as an inner or root node evaluates the outcomes its children
/// delivered: the first operand starts the fold and each further operand
/// is combined by the operation's table.
pub fn evaluate_operands(op: LogOperation, operands: &Vec<Option<bool>>) -> (r: Option<bool>)
    requires
        operands@.len() >= 1,
    ensures
        r == fold_ops(op, operands@, 1, operands@[0]),
        op == LogOperation::And ==> ((r == Some(false) <==> exists|j: int|
            0 <= j < operands@.len() && operands@[j] == Some(false)) && (r == Some(true)
            <==> forall|j: int| 0 <= j < operands@.len() ==> operands@[j] == Some(true))),
        op == LogOperation::Or ==> ((r == Some(true) <==> exists|j: int|
            0 <= j < operands@.len() && operands@[j] == Some(true)) && (r == Some(false)
            <==> forall|j: int| 0 <= j < operands@.len() ==> operands@[j] == Some(false))),
{
    let mut acc: Option<bool> = operands[0];
    let mut j: usize = 1;
    while j < operands.len()
        invariant
            1 <= j <= operands@.len(),
            operands@.len() >= 1,
            fold_ops(op, operands@, j as int, acc) == fold_ops(op, operands@, 1, operands@[0]),
            op == LogOperation::And ==> ((acc == Some(false) <==> exists|j2: int|
                0 <= j2 < j && operands@[j2] == Some(false)) && (acc == Some(true)
                <==> forall|j2: int| 0 <= j2 < j ==> operands@[j2] == Some(true))),
            op == LogOperation::Or ==> ((acc == Some(true) <==> exists|j2: int|
                0 <= j2 < j && operands@[j2] == Some(true)) && (acc == Some(false)
                <==> forall|j2: int| 0 <= j2 < j ==> operands@[j2] == Some(false))),
        decreases operands@.len() - j,
    {
        let b = operands[j];
        let next: Option<bool> = match op {
            LogOperation::And => match (acc, b) {
                (None, Some(true)) => None,
                (None, Some(false)) => Some(false),
                (Some(true), None) => None,
                (Some(false), None) => Some(false),
                (Some(x), Some(y)) => Some(x && y),
                (None, None) => None,
            },
            LogOperation::Or => match (acc, b) {
                (None, Some(true)) => Some(true),
                (None, Some(false)) => None,
                (Some(true), None) => Some(true),
                (Some(false), None) => None,
                (Some(x), Some(y)) => Some(x || y),
                (None, None) => None,
            },
        };
        proof {
            assert(next == kleene(op, acc, b));
        }
        acc = next;
        j += 1;
    }
    acc
}

/// The batch's last outcome for this predicate identifier.
fn seed_lookup(predicates: &[PredResult], pid: u64) -> (r: Option<bool>)
    ensures
        r == seed_of(predicates@, pid),
{
    let mut cur: Option<bool> = None;
    let mut j: usize = 0;
    proof {
        assert(predicates@.subrange(0, 0) =~= Seq::<PredResult>::empty());
    }
    while j < predicates.len()
        invariant
            j <= predicates@.len(),
            cur == seed_of(predicates@.subrange(0, j as int), pid),
        decreases predicates@.len() - j,
    {
        proof {
            assert(predicates@.subrange(0, j + 1).drop_last() =~= predicates@.subrange(
                0,
                j as int,
            ));
            assert(predicates@.subrange(0, j + 1).last() == predicates@[j as int]);
        }
        if predicates[j].id == pid {
            cur = predicates[j].result;
        }
        j += 1;
    }
    proof {
        assert(predicates@.subrange(0, predicates@.len() as int) =~= predicates@);
    }
    cur
}

/// After a composite node is appended at `h` over children `cs` and the
/// backlinks are wired, the whole arena is well formed again.
proof fn lemma_wf_after_composite(
    pre: Seq<DagNode>,
    post: Seq<DagNode>,
    table: Seq<(u64, usize)>,
    cs: Seq<usize>,
    kind: NodeKind,
    lvl: u32,
    acc: u64,
)
    requires
        children_below(pre),
        forall|i: int| 0 <= i < pre.len() ==> wf_node_at(pre, i),
        wf_table(pre, table),
        !(kind is Leaf),
        post.len() == pre.len() + 1,
        pre.len() < usize::MAX as int,
        forall|j: int| 0 <= j < cs.len() ==> (#[trigger] cs[j] as int) < pre.len(),
        forall|i: int|
            0 <= i < pre.len() ==> core_same(#[trigger] pre[i], post[i])
                && pre[i].parents@.is_prefix_of(post[i].parents@),
        forall|i: int, p: int|
            0 <= i < pre.len() && pre[i].parents@.len() <= p < post[i].parents@.len()
                ==> #[trigger] post[i].parents@[p] == pre.len() as usize,
        forall|i: int|
            0 <= i < pre.len() && post[i].parents@.len() > pre[i].parents@.len() ==> cs.contains(
                i as usize,
            ),
        forall|i: int|
            0 <= i < pre.len() && pre[i].kind is Root ==> post[i].parents@ == pre[i].parents@,
        post[pre.len() as int].id == acc,
        acc == fold_node_ids(pre, cs, 0, fold_init(kind_op(kind)), kind_op(kind)),
        post[pre.len() as int].kind == kind,
        post[pre.len() as int].children@ == cs,
        post[pre.len() as int].parents@.len() == 0,
        post[pre.len() as int].level == lvl,
        cs.len() == 0 ==> lvl == 0,
        cs.len() > 0 ==> (forall|j: int|
            0 <= j < cs.len() ==> pre[#[trigger] cs[j] as int].level < lvl) && (exists|j: int|
            0 <= j < cs.len() && pre[#[trigger] cs[j] as int].level + 1 == lvl),
        lvl as int <= pre.len() + 1,
        forall|j: int|
            0 <= j < cs.len() ==> (!(post[#[trigger] cs[j] as int].kind is Root)
                ==> post[cs[j] as int].parents@.contains(pre.len() as usize)),
    ensures
        children_below(post),
        forall|i: int| 0 <= i < post.len() ==> wf_node_at(post, i),
        wf_table(post, table),
{
    let h = pre.len() as int;
    assert(children_below(post)) by {
        assert forall|i: int, j: int|
            0 <= i < post.len() && 0 <= j < post[i].children@.len() implies (
        #[trigger] post[i].children@[j] as int) < i by {
            if i < h {
                assert(core_same(pre[i], post[i]));
                assert((pre[i].children@[j] as int) < i);
            }
        }
    }
    assert(wf_table(post, table)) by {
        assert forall|k: int|
            0 <= k < table.len() implies (#[trigger] table[k].1 as int) < post.len()
            && post[table[k].1 as int].id == table[k].0 by {
            assert(core_same(pre[table[k].1 as int], post[table[k].1 as int]));
        }
    }
    assert forall|i: int| 0 <= i < post.len() implies wf_node_at(post, i) by {
        if i < h {
            assert(wf_node_at(pre, i));
            assert(core_same(pre[i], post[i]));
            // Levels of the children are unchanged.
            assert forall|j: int|
                0 <= j < post[i].children@.len() implies core_same(
                pre[#[trigger] post[i].children@[j] as int],
                post[post[i].children@[j] as int],
            ) by {
                assert((pre[i].children@[j] as int) < i);
            }
            // The identifier fold only reads untouched identifiers.
            if !(post[i].kind is Leaf) {
                lemma_fold_node_ids_stable(
                    pre,
                    post,
                    pre[i].children@,
                    0,
                    fold_init(kind_op(pre[i].kind)),
                    kind_op(pre[i].kind),
                );
            }
            // Parent entries: the old ones still point at real parents,
            // the new ones point at the appended node, whose child list
            // contains `i` whenever a backlink was added.
            assert forall|j: int|
                0 <= j < post[i].parents@.len() implies i < (
            #[trigger] post[i].parents@[j] as int) && (post[i].parents@[j] as int) < post.len()
                && post[post[i].parents@[j] as int].children@.contains(i as usize) by {
                if j < pre[i].parents@.len() {
                    assert(pre[i].parents@[j] == post[i].parents@[j]);
                    assert(wf_node_at(pre, i));
                    let p = pre[i].parents@[j] as int;
                    assert(i < p && p < pre.len());
                    assert(pre[p].children@.contains(i as usize));
                    assert(core_same(pre[p], post[p]));
                } else {
                    assert(post[i].parents@[j] == pre.len() as usize);
                    assert(post[i].parents@.len() > pre[i].parents@.len());
                    assert(cs.contains(i as usize));
                    assert(post[h].children@ == cs);
                }
            }
            // Children backlinks survive, since parent lists only grew.
            assert forall|j: int|
                0 <= j < post[i].children@.len() implies (!(post[#[trigger] post[i].children@[j] as int].kind
                is Root) ==> post[post[i].children@[j] as int].parents@.contains(i as usize)) by {
                let c = post[i].children@[j] as int;
                assert((pre[i].children@[j] as int) < i);
                assert(core_same(pre[c], post[c]));
                if !(post[c].kind is Root) {
                    assert(pre[c].parents@.contains(i as usize));
                    let w = choose|w: int|
                        0 <= w < pre[c].parents@.len() && pre[c].parents@[w] == i as usize;
                    assert(pre[c].parents@.is_prefix_of(post[c].parents@));
                    assert(post[c].parents@[w] == pre[c].parents@.subrange(
                        0,
                        pre[c].parents@.len() as int,
                    )[w]);
                    assert(post[c].parents@[w] == i as usize);
                }
            }
        } else {
            // The appended node itself.
            assert(post[i].kind == kind);
            lemma_fold_node_ids_stable(
                pre,
                post,
                cs,
                0,
                fold_init(kind_op(kind)),
                kind_op(kind),
            );
            assert forall|j: int|
                0 <= j < post[i].children@.len() implies post[#[trigger] post[i].children@[j] as int].level
                < post[i].level || !(cs.len() > 0) by {
                assert(core_same(pre[cs[j] as int], post[cs[j] as int]));
            }
        }
    }
}

/// Pushing a node that satisfies its own shape invariant, has no parents
/// yet, and needs no backlinks (no children, or a root's children) keeps
/// the whole arena well formed.
proof fn lemma_wf_after_push(pre: Seq<DagNode>, post: Seq<DagNode>, table: Seq<(u64, usize)>)
    requires
        children_below(pre),
        forall|i: int| 0 <= i < pre.len() ==> wf_node_at(pre, i),
        wf_table(pre, table),
        post.len() == pre.len() + 1,
        forall|i: int| 0 <= i < pre.len() ==> post[i] == pre[i],
        post[pre.len() as int].kind is Leaf,
        post[pre.len() as int].children@.len() == 0,
        post[pre.len() as int].parents@.len() == 0,
        post[pre.len() as int].level == 1,
    ensures
        children_below(post),
        forall|i: int| 0 <= i < post.len() ==> wf_node_at(post, i),
        wf_table(post, table),
{
    let n = pre.len() as int;
    assert forall|i: int| 0 <= i < post.len() implies wf_node_at(post, i) by {
        if i < n {
            assert(wf_node_at(pre, i));
            assert(post[i] == pre[i]);
            assert forall|j: int|
                0 <= j < post[i].parents@.len() implies i < (
            #[trigger] post[i].parents@[j] as int) && (post[i].parents@[j] as int) < post.len()
                && post[post[i].parents@[j] as int].children@.contains(i as usize) by {
                assert(post[post[i].parents@[j] as int] == pre[pre[i].parents@[j] as int]);
            }
            assert forall|j: int|
                0 <= j < post[i].children@.len() implies (!(post[#[trigger] post[i].children@[j] as int].kind
                is Root) ==> post[post[i].children@[j] as int].parents@.contains(i as usize)) by {
                assert(post[post[i].children@[j] as int] == pre[pre[i].children@[j] as int]);
            }
            if !(post[i].kind is Leaf) {
                lemma_fold_node_ids_stable(
                    pre,
                    post,
                    pre[i].children@,
                    0,
                    fold_init(kind_op(pre[i].kind)),
                    kind_op(pre[i].kind),
                );
            }
        }
    }
}

/// A well-formed table's key set is finite and exactly as large as the
/// table: keys never repeat.
pub proof fn lemma_table_keys_card(nodes: Seq<DagNode>, table: Seq<(u64, usize)>)
    requires
        wf_table(nodes, table),
    ensures
        table_keys(table).finite(),
        table_keys(table).len() == table.len(),
{
    let ks = key_seq(table);
    assert(ks.no_duplicates()) by {
        assert forall|k1: int, k2: int|
            0 <= k1 < ks.len() && 0 <= k2 < ks.len() && k1 != k2 implies ks[k1] != ks[k2] by {
            assert(ks[k1] == table[k1].0 && ks[k2] == table[k2].0);
        }
    }
    vstd::seq_lib::seq_to_set_is_finite::<u64>(ks);
    ks.unique_seq_to_set();
}

/// Inserting a subtree whose identifier is already canonical changes
/// nothing: the node count stays the same and the same canonical handle
/// comes back.  In particular two consecutive insertions of the same
/// subtree leave the second one without any effect.
pub proof fn lemma_insert_idempotent(
    pre: ATree,
    mid: ATree,
    post: ATree,
    t: NodeType,
    h1: int,
    h2: int,
)
    requires
        insert_post(pre, mid, t, h1),
        insert_post(mid, post, t, h2),
    ensures
        post.nodes@ == mid.nodes@,
        post.table@ == mid.table@,
        h2 == h1,
{
    assert(table_contains(mid.table@, tree_id(t)));
    assert(post.nodes@ == mid.nodes@ && post.table@ == mid.table@);
    let k = choose|k: int| 0 <= k < mid.table@.len() && mid.table@[k].0 == tree_id(t);
    assert(mid.table@[k].1 == h1);
    assert(post.table@[k].1 == h2);
}

/// Interning two subtrees grows the table by at most the number of
/// identifiers of the two subtrees that were not canonical before; shared
/// or already known subtrees are never stored twice.
pub proof fn lemma_insert_growth(
    pre: ATree,
    mid: ATree,
    post: ATree,
    s: NodeType,
    t: NodeType,
    h1: int,
    h2: int,
)
    requires
        pre.wf(),
        insert_post(pre, mid, s, h1),
        insert_post(mid, post, t, h2),
    ensures
        post.table@.len() - pre.table@.len() <= tree_ids(s).union(tree_ids(t)).difference(
            table_keys(pre.table@),
        ).len(),
{
    let u = tree_ids(s).union(tree_ids(t));
    let k0 = table_keys(pre.table@);
    let d = u.difference(k0);
    crate::nodes::lemma_tree_ids_finite(s);
    crate::nodes::lemma_tree_ids_finite(t);
    lemma_table_keys_card(pre.nodes@, pre.table@);
    lemma_table_keys_card(post.nodes@, post.table@);
    // Every key of the final table is an old key or an identifier of one
    // of the two subtrees.
    assert(table_keys(post.table@).subset_of(k0.union(d))) by {
        assert forall|x: u64| table_keys(post.table@).contains(x) implies k0.union(d).contains(
            x,
        ) by {
            let k = choose|k: int| 0 <= k < key_seq(post.table@).len() && key_seq(post.table@)[k]
                == x;
            assert(post.table@[k].0 == x);
            if k < pre.table@.len() {
                assert(pre.table@[k] == mid.table@.subrange(0, pre.table@.len() as int)[k]);
                assert(mid.table@[k] == post.table@.subrange(0, mid.table@.len() as int)[k]);
                assert(pre.table@[k].0 == x);
                assert(key_seq(pre.table@)[k] == x);
                assert(k0.contains(x));
            } else if k < mid.table@.len() {
                assert(mid.table@[k] == post.table@.subrange(0, mid.table@.len() as int)[k]);
                assert(mid.table@[k].0 == x);
                assert(tree_ids(s).contains(x) && !table_contains(pre.table@, x));
                assert(!k0.contains(x)) by {
                    if k0.contains(x) {
                        let w = choose|w: int|
                            0 <= w < key_seq(pre.table@).len() && key_seq(pre.table@)[w] == x;
                        assert(pre.table@[w].0 == x);
                        assert(table_contains(pre.table@, x));
                    }
                }
                assert(d.contains(x));
            } else {
                assert(tree_ids(t).contains(x) && !table_contains(mid.table@, x));
                assert(!k0.contains(x)) by {
                    if k0.contains(x) {
                        let w = choose|w: int|
                            0 <= w < key_seq(pre.table@).len() && key_seq(pre.table@)[w] == x;
                        assert(pre.table@[w].0 == x);
                        assert(table_contains(pre.table@, x));
                        lemma_prefix_contains(pre.table@, mid.table@, x);
                    }
                }
                assert(d.contains(x));
            }
        }
    }
    vstd::set_lib::lemma_len_subset(d, u);
    vstd::set_lib::lemma_len_union(k0, d);
    vstd::set_lib::lemma_len_subset(table_keys(post.table@), k0.union(d));
}

/// Every canonical node sits at a positive level as soon as it has any
/// structure below it: leaves sit at level 1 exactly, and an inner or
/// root node always sits strictly above every one of its children, one
/// above the deepest of them.  (A degenerate inner or root node without
/// children sits at level 0.)
pub proof fn lemma_levels(a: ATree)
    requires
        a.wf(),
    ensures
        forall|i: int|
            0 <= i < a.nodes@.len() && a.nodes@[i].kind is Leaf ==> (#[trigger] a.nodes@[i].level)
                == 1,
        forall|i: int|
            0 <= i < a.nodes@.len() && a.nodes@[i].children@.len() > 0 ==> (
            #[trigger] a.nodes@[i].level) >= 1,
        forall|i: int, j: int|
            0 <= i < a.nodes@.len() && 0 <= j < a.nodes@[i].children@.len()
                ==> a.nodes@[#[trigger] a.nodes@[i].children@[j] as int].level
                < a.nodes@[i].level,
        forall|i: int|
            0 <= i < a.nodes@.len() && a.nodes@[i].children@.len() > 0 ==> exists|j: int|
                0 <= j < a.nodes@[i].children@.len() && a.nodes@[i].level == a.nodes@[
                    #[trigger] a.nodes@[i].children@[j] as int
                ].level + 1,
{
    assert forall|i: int|
        0 <= i < a.nodes@.len() && a.nodes@[i].kind is Leaf implies (
    #[trigger] a.nodes@[i].level) == 1 by {
        assert(wf_node_at(a.nodes@, i));
    }
    assert forall|i: int|
        0 <= i < a.nodes@.len() && a.nodes@[i].children@.len() > 0 implies exists|j: int|
            0 <= j < a.nodes@[i].children@.len() && a.nodes@[i].level == a.nodes@[
                #[trigger] a.nodes@[i].children@[j] as int
            ].level + 1 by {
        assert(wf_node_at(a.nodes@, i));
        let n = a.nodes@[i];
        assert(!(n.kind is Leaf));
        let j0 = choose|j: int|
            0 <= j < n.children@.len() && n.level == a.nodes@[n.children@[j] as int].level + 1;
        assert(0 <= j0 < a.nodes@[i].children@.len() && a.nodes@[i].level == a.nodes@[a.nodes@[i].children@[j0] as int].level
            + 1);
    }
    assert forall|i: int|
        0 <= i < a.nodes@.len() && a.nodes@[i].children@.len() > 0 implies (
    #[trigger] a.nodes@[i].level) >= 1 by {
        assert(wf_node_at(a.nodes@, i));
        let j = choose|j: int|
            0 <= j < a.nodes@[i].children@.len() && a.nodes@[i].level == a.nodes@[a.nodes@[i].children@[j] as int].level
                + 1;
    }
    assert forall|i: int, j: int|
        0 <= i < a.nodes@.len() && 0 <= j < a.nodes@[i].children@.len() implies a.nodes@[
        #[trigger] a.nodes@[i].children@[j] as int
    ].level < a.nodes@[i].level by {
        assert(wf_node_at(a.nodes@, i));
        if a.nodes@[i].kind is Leaf {
            assert(a.nodes@[i].children@.len() == 0);
        }
    }
}

/// The three-valued tables, row by row: for `And`, a determined `False`
/// absorbs an undetermined operand, a determined `True` does not, and two
/// determined operands combine classically; mirrored for `Or`, where a
/// determined `True` absorbs.
pub proof fn lemma_kleene_tables()
    ensures
        kleene_and(None, Some(false)) == Some(false),
        kleene_and(Some(false), None) == Some(false),
        kleene_and(None, Some(true)) == None::<bool>,
        kleene_and(Some(true), None) == None::<bool>,
        kleene_and(None, None) == None::<bool>,
        kleene_and(Some(true), Some(true)) == Some(true),
        kleene_and(Some(true), Some(false)) == Some(false),
        kleene_and(Some(false), Some(true)) == Some(false),
        kleene_and(Some(false), Some(false)) == Some(false),
        kleene_or(None, Some(true)) == Some(true),
        kleene_or(Some(true), None) == Some(true),
        kleene_or(None, Some(false)) == None::<bool>,
        kleene_or(Some(false), None) == None::<bool>,
        kleene_or(None, None) == None::<bool>,
        kleene_or(Some(true), Some(true)) == Some(true),
        kleene_or(Some(true), Some(false)) == Some(true),
        kleene_or(Some(false), Some(true)) == Some(true),
        kleene_or(Some(false), Some(false)) == Some(false),
{
}

/// An inner or root node with exactly two children combines their
/// outcomes by one application of its operation's three-valued table.
pub proof fn lemma_two_operand_node(
    nodes: Seq<DagNode>,
    table: Seq<(u64, usize)>,
    preds: Seq<PredResult>,
    i: int,
    op: LogOperation,
)
    requires
        0 <= i < nodes.len(),
        children_below(nodes),
        nodes[i].kind == NodeKind::Inner(op) || nodes[i].kind == NodeKind::Root(op),
        nodes[i].children@.len() == 2,
    ensures
        node_val(nodes, table, preds, i) == kleene(
            op,
            node_val(nodes, table, preds, nodes[i].children@[0] as int),
            node_val(nodes, table, preds, nodes[i].children@[1] as int),
        ),
{
    let v0 = node_val(nodes, table, preds, nodes[i].children@[0] as int);
    let v1 = node_val(nodes, table, preds, nodes[i].children@[1] as int);
    assert(node_val(nodes, table, preds, i) == fold_child_vals(nodes, table, preds, op, i, 1, v0));
    assert(fold_child_vals(nodes, table, preds, op, i, 1, v0) == fold_child_vals(
        nodes,
        table,
        preds,
        op,
        i,
        2,
        kleene(op, v0, v1),
    ));
    assert(fold_child_vals(nodes, table, preds, op, i, 2, kleene(op, v0, v1)) == kleene(
        op,
        v0,
        v1,
    ));
}

/// Characterises the tail of a child fold: for `And`, the fold is
/// `False` exactly when the accumulator already is or some remaining
/// child is, and `True` exactly when the accumulator is and every
/// remaining child is; mirrored for `Or`.
proof fn lemma_fold_char(
    nodes: Seq<DagNode>,
    table: Seq<(u64, usize)>,
    preds: Seq<PredResult>,
    op: LogOperation,
    i: int,
    k: int,
    acc: Option<bool>,
)
    requires
        0 <= i < nodes.len(),
        children_below(nodes),
        0 <= k,
    ensures
        op == LogOperation::And ==> ((fold_child_vals(nodes, table, preds, op, i, k, acc)
            == Some(false) <==> (acc == Some(false) || exists|j: int|
            k <= j < nodes[i].children@.len() && node_val(
                nodes,
                table,
                preds,
                #[trigger] nodes[i].children@[j] as int,
            ) == Some(false))) && (fold_child_vals(nodes, table, preds, op, i, k, acc) == Some(
            true,
        ) <==> (acc == Some(true) && forall|j: int|
            k <= j < nodes[i].children@.len() ==> node_val(
                nodes,
                table,
                preds,
                #[trigger] nodes[i].children@[j] as int,
            ) == Some(true)))),
        op == LogOperation::Or ==> ((fold_child_vals(nodes, table, preds, op, i, k, acc) == Some(
            true,
        ) <==> (acc == Some(true) || exists|j: int|
            k <= j < nodes[i].children@.len() && node_val(
                nodes,
                table,
                preds,
                #[trigger] nodes[i].children@[j] as int,
            ) == Some(true))) && (fold_child_vals(nodes, table, preds, op, i, k, acc) == Some(
            false,
        ) <==> (acc == Some(false) && forall|j: int|
            k <= j < nodes[i].children@.len() ==> node_val(
                nodes,
                table,
                preds,
                #[trigger] nodes[i].children@[j] as int,
            ) == Some(false)))),
    decreases nodes[i].children@.len() - k,
{
    if k < nodes[i].children@.len() {
        let v = node_val(nodes, table, preds, nodes[i].children@[k] as int);
        lemma_fold_char(nodes, table, preds, op, i, k + 1, kleene(op, acc, v));
    }
}

/// The three-valued value of an inner or root node, characterised over
/// all of its children at once: an `And` node is `False` exactly when
/// some child is `False`, `True` exactly when every child is `True`,
/// and undetermined otherwise; mirrored for `Or`.
pub proof fn lemma_node_val_characterisation(
    nodes: Seq<DagNode>,
    table: Seq<(u64, usize)>,
    preds: Seq<PredResult>,
    i: int,
    op: LogOperation,
)
    requires
        0 <= i < nodes.len(),
        children_below(nodes),
        nodes[i].kind == NodeKind::Inner(op) || nodes[i].kind == NodeKind::Root(op),
        nodes[i].children@.len() > 0,
    ensures
        op == LogOperation::And ==> ((node_val(nodes, table, preds, i) == Some(false) <==> exists|
            j: int,
        |
            0 <= j < nodes[i].children@.len() && node_val(
                nodes,
                table,
                preds,
                #[trigger] nodes[i].children@[j] as int,
            ) == Some(false)) && (node_val(nodes, table, preds, i) == Some(true) <==> forall|
            j: int,
        |
            0 <= j < nodes[i].children@.len() ==> node_val(
                nodes,
                table,
                preds,
                #[trigger] nodes[i].children@[j] as int,
            ) == Some(true))),
        op == LogOperation::Or ==> ((node_val(nodes, table, preds, i) == Some(true) <==> exists|
            j: int,
        |
            0 <= j < nodes[i].children@.len() && node_val(
                nodes,
                table,
                preds,
                #[trigger] nodes[i].children@[j] as int,
            ) == Some(true)) && (node_val(nodes, table, preds, i) == Some(false) <==> forall|
            j: int,
        |
            0 <= j < nodes[i].children@.len() ==> node_val(
                nodes,
                table,
                preds,
                #[trigger] nodes[i].children@[j] as int,
            ) == Some(false))),
{
    let v0 = node_val(nodes, table, preds, nodes[i].children@[0] as int);
    assert(node_val(nodes, table, preds, i) == fold_child_vals(nodes, table, preds, op, i, 1, v0));
    lemma_fold_char(nodes, table, preds, op, i, 1, v0);
}

/// Matching is deterministic: the emitted identifier list is a function
/// of the DAG and the predicate batch alone, so two calls on the same
/// state and batch return the same list.
pub proof fn lemma_matches_deterministic(
    a: ATree,
    preds: Seq<PredResult>,
    r1: Seq<u64>,
    r2: Seq<u64>,
)
    requires
        r1 == matched_upto(a.nodes@, a.table@, preds, a.nodes@.len() as int),
        r2 == matched_upto(a.nodes@, a.table@, preds, a.nodes@.len() as int),
    ensures
        r1 == r2,
{
}

} // verus!