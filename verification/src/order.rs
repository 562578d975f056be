//! Document order: each node is appended under the node before it or under
//! one of that node's ancestors. Then the descendants of a node are the nodes
//! that follow it up to the end of its subtree.

use vstd::prelude::*;
use crate::defs::NodeIdx;
use crate::node_info::NodeInfo;
use crate::tree::{
    children_of,
    lemma_chain_links,
    lemma_chain_sorted,
    lemma_child_in_chain,
    lemma_subtree_end,
    link_ok,
    subtree_end,
    tree_wf,
};

verus! {

/// Node `a` is node `x` or an ancestor of it.
pub open spec fn on_path(nodes: Seq<NodeInfo>, a: int, x: int) -> bool
    decreases x,
{
    if x == a {
        true
    } else if 0 < x < nodes.len() && nodes[x].parent_idx < x {
        on_path(nodes, a, nodes[x].parent_idx as int)
    } else {
        false
    }
}

/// The parent of node `n` is the node before `n` or an ancestor of that node.
pub open spec fn hangs_on_path(nodes: Seq<NodeInfo>, n: int) -> bool {
    on_path(nodes, nodes[n].parent_idx as int, n - 1)
}

/// The nodes stand in document order.
pub open spec fn document_order(nodes: Seq<NodeInfo>) -> bool {
    forall|n: int| 1 <= n < nodes.len() ==> #[trigger] hangs_on_path(nodes, n)
}

/// The parent of a node is an ancestor of it.
pub proof fn lemma_parent_on_path(nodes: Seq<NodeInfo>, n: int)
    requires
        0 < n < nodes.len(),
        nodes[n].parent_idx < n,
    ensures
        on_path(nodes, nodes[n].parent_idx as int, n),
{
    let p = nodes[n].parent_idx as int;
    assert(on_path(nodes, p, p));
}

/// Whether a node is an ancestor of another depends only on the parents of the nodes up to the other.
pub proof fn lemma_same_paths(before: Seq<NodeInfo>, after: Seq<NodeInfo>, a: int, x: int)
    requires
        x < before.len() <= after.len(),
        forall|i: int| 0 <= i < before.len() ==> (#[trigger] after[i]).parent_idx == before[i].parent_idx,
    ensures
        on_path(after, a, x) == on_path(before, a, x),
    decreases x,
{
    if x != a && 0 < x {
        assert(after[x].parent_idx == before[x].parent_idx);
        if before[x].parent_idx < x {
            lemma_same_paths(before, after, a, before[x].parent_idx as int);
        }
    }
}

/// Nodes that are appended in document order keep the nodes in document order.
pub proof fn lemma_order_grows(before: Seq<NodeInfo>, after: Seq<NodeInfo>)
    requires
        document_order(before),
        1 <= before.len() <= after.len(),
        forall|i: int| 0 <= i < before.len() ==> (#[trigger] after[i]).parent_idx == before[i].parent_idx,
        forall|n: int| before.len() <= n < after.len() ==> #[trigger] hangs_on_path(after, n),
    ensures
        document_order(after),
{
    assert forall|n: int| 1 <= n < after.len() implies #[trigger] hangs_on_path(after, n) by {
        if n < before.len() {
            assert(hangs_on_path(before, n));
            lemma_same_paths(before, after, before[n].parent_idx as int, n - 1);
        }
    }
}

/// An ancestor comes before its descendants.
pub proof fn lemma_path_rises(nodes: Seq<NodeInfo>, a: int, x: int)
    requires
        on_path(nodes, a, x),
    ensures
        a <= x,
    decreases x,
{
    if x != a {
        lemma_path_rises(nodes, a, nodes[x].parent_idx as int);
    }
}

/// An ancestor of an ancestor is an ancestor.
pub proof fn lemma_path_joins(nodes: Seq<NodeInfo>, a: int, b: int, c: int)
    requires
        on_path(nodes, a, b),
        on_path(nodes, b, c),
    ensures
        on_path(nodes, a, c),
    decreases c,
{
    if c != b && c != a {
        lemma_path_joins(nodes, a, b, nodes[c].parent_idx as int);
    }
}

/// Of two ancestors of a node, the earlier is an ancestor of the later.
pub proof fn lemma_path_is_chain(nodes: Seq<NodeInfo>, a: int, b: int, x: int)
    requires
        on_path(nodes, a, x),
        on_path(nodes, b, x),
        a <= b,
    ensures
        on_path(nodes, a, b),
    decreases x,
{
    if x != b {
        lemma_path_rises(nodes, b, x);
        lemma_path_is_chain(nodes, a, b, nodes[x].parent_idx as int);
    }
}

/// The nodes between a node and one of its descendants are its descendants.
pub proof fn lemma_subtree_is_run(nodes: Seq<NodeInfo>, n: int, m: int, top: int)
    requires
        document_order(nodes),
        on_path(nodes, n, top),
        0 <= n <= m <= top < nodes.len(),
    ensures
        on_path(nodes, n, m),
    decreases top - m,
{
    if m != top {
        assert(hangs_on_path(nodes, top));
        lemma_path_joins(nodes, n, nodes[top].parent_idx as int, top - 1);
        lemma_subtree_is_run(nodes, n, m, top - 1);
    }
}

/// The node at the end of a subtree is outside the subtree.
pub proof fn lemma_end_is_outside(nodes: Seq<NodeInfo>, n: int)
    requires
        tree_wf(nodes),
        1 <= n < nodes.len(),
        subtree_end(nodes, n) < nodes.len(),
    ensures
        !on_path(nodes, n, subtree_end(nodes, n)),
    decreases n,
{
    assert(link_ok(nodes, n));
    assert(subtree_end(nodes, 0) == nodes.len());
    let end = subtree_end(nodes, n);
    let p = nodes[n].parent_idx as int;
    if nodes[n].next_sibling != 0 {
        assert(link_ok(nodes, end));
        if on_path(nodes, n, end) {
            lemma_path_rises(nodes, n, p);
        }
    } else if p >= 1 {
        lemma_end_is_outside(nodes, p);
        if on_path(nodes, n, end) {
            lemma_parent_on_path(nodes, n);
            lemma_path_joins(nodes, p, n, end);
        }
    }
}

/// The end of a subtree lies after its node.
pub proof fn lemma_end_is_after(nodes: Seq<NodeInfo>, n: int)
    requires
        tree_wf(nodes),
        document_order(nodes),
        1 <= n < nodes.len(),
    ensures
        n < subtree_end(nodes, n) <= nodes.len(),
    decreases n,
{
    assert(link_ok(nodes, n));
    lemma_subtree_end(nodes, n);
    let p = nodes[n].parent_idx as int;
    if nodes[n].next_sibling == 0 && p >= 1 {
        lemma_end_is_after(nodes, p);
        let end = subtree_end(nodes, p);
        if end <= n {
            lemma_end_is_outside(nodes, p);
            lemma_parent_on_path(nodes, n);
            lemma_subtree_is_run(nodes, p, end, n);
        }
    }
}

/// Of two children of a node, the earlier has a next sibling, which is not after the later.
pub proof fn lemma_next_sibling_is_next(nodes: Seq<NodeInfo>, c1: int, c2: int)
    requires
        tree_wf(nodes),
        1 <= c1 < c2 < nodes.len(),
        nodes[c1].parent_idx == nodes[c2].parent_idx,
    ensures
        nodes[c1].next_sibling != 0,
        nodes[c1].next_sibling <= c2,
{
    let p = nodes[c1].parent_idx as int;
    let kids = children_of(nodes, p);
    lemma_child_in_chain(nodes, c1);
    lemma_child_in_chain(nodes, c2);
    assert(link_ok(nodes, c1));
    let first = nodes[p].first_child as int;
    if p > 0 {
        assert(link_ok(nodes, p));
    }
    lemma_chain_links(nodes, first);
    let k1 = choose|k: int| 0 <= k < kids.len() && kids[k] == c1 as NodeIdx;
    let k2 = choose|k: int| 0 <= k < kids.len() && kids[k] == c2 as NodeIdx;
    if k2 < k1 {
        lemma_chain_sorted(nodes, first, k2, k1);
    }
    assert(nodes[kids[k1] as int].next_sibling == kids[k1 + 1]);
    if k1 + 1 < k2 {
        lemma_chain_sorted(nodes, first, k1 + 1, k2);
    }
}

/// Where the nodes after node `n` up to node `m` are descendants of `n`, and
/// `m` is a child of an ancestor of `n`, the subtree of `n` ends before `m`.
pub proof fn lemma_end_before(nodes: Seq<NodeInfo>, n: int, a: int, m: int)
    requires
        tree_wf(nodes),
        document_order(nodes),
        1 <= n < m < nodes.len(),
        nodes[m].parent_idx == a,
        on_path(nodes, a, n),
        a < n,
        forall|j: int| n < j < m ==> #[trigger] on_path(nodes, n, j),
    ensures
        subtree_end(nodes, n) <= m,
    decreases n,
{
    assert(link_ok(nodes, n));
    assert(link_ok(nodes, m));
    let p = nodes[n].parent_idx as int;
    let next = nodes[n].next_sibling as int;
    if a == p {
        lemma_next_sibling_is_next(nodes, n, m);
    } else {
        lemma_path_rises(nodes, a, p);
        if next != 0 {
            if next > m {
                assert(link_ok(nodes, next));
                lemma_parent_on_path(nodes, next);
                lemma_subtree_is_run(nodes, p, m, next);
                lemma_path_rises(nodes, p, a);
            }
        } else {
            lemma_parent_on_path(nodes, n);
            assert forall|j: int| p < j < m implies #[trigger] on_path(nodes, p, j) by {
                if j <= n {
                    lemma_subtree_is_run(nodes, p, j, n);
                } else {
                    lemma_path_joins(nodes, p, n, j);
                }
            }
            lemma_end_before(nodes, p, a, m);
        }
    }
}

/// The nodes after a node and before the end of its subtree are its descendants.
pub proof fn lemma_inside_is_descendant(nodes: Seq<NodeInfo>, n: int, m: int)
    requires
        tree_wf(nodes),
        document_order(nodes),
        1 <= n < m < subtree_end(nodes, n),
    ensures
        on_path(nodes, n, m),
    decreases m - n,
{
    lemma_subtree_end(nodes, n);
    assert(link_ok(nodes, m));
    assert(hangs_on_path(nodes, m));
    let a = nodes[m].parent_idx as int;
    assert forall|j: int| n < j < m implies #[trigger] on_path(nodes, n, j) by {
        lemma_subtree_end(nodes, n);
        lemma_inside_is_descendant(nodes, n, j);
    }
    assert(on_path(nodes, n, m - 1));
    if a >= n {
        lemma_path_is_chain(nodes, n, a, m - 1);
    } else {
        lemma_path_is_chain(nodes, a, n, m - 1);
        lemma_end_before(nodes, n, a, m);
    }
}

/// In document order, the descendants of a node are the nodes after it and
/// before the end of its subtree.
pub proof fn lemma_descendants_are_run(nodes: Seq<NodeInfo>, n: int, m: int)
    requires
        tree_wf(nodes),
        document_order(nodes),
        1 <= n < nodes.len(),
        0 <= m < nodes.len(),
    ensures
        (n < m < subtree_end(nodes, n)) <==> (m != n && on_path(nodes, n, m)),
{
    lemma_end_is_after(nodes, n);
    if n < m < subtree_end(nodes, n) {
        lemma_inside_is_descendant(nodes, n, m);
    }
    if m != n && on_path(nodes, n, m) {
        lemma_path_rises(nodes, n, m);
        let end = subtree_end(nodes, n);
        if end <= m {
            lemma_end_is_outside(nodes, n);
            lemma_subtree_is_run(nodes, n, end, m);
        }
    }
}

} // verus!
