//! The shape of the node array: what makes its links a tree, and how a node is appended.

use vstd::prelude::*;
use crate::defs::{AttrIdx, NodeIdx};
use crate::node_info::NodeInfo;
use crate::node_type::NodeType;

verus! {

/// The first-child link of node `i` is 0 or points to a later node whose parent is `i`.
pub open spec fn child_link_ok(nodes: Seq<NodeInfo>, i: int) -> bool {
    let c = nodes[i].first_child as int;
    c == 0 || (i < c < nodes.len() && nodes[c].parent_idx == i)
}

/// The head stands at index 0, outside every chain of siblings.
pub open spec fn head_ok(nodes: Seq<NodeInfo>) -> bool {
    &&& nodes.len() >= 1
    &&& nodes[0].node_type is Head
    &&& nodes[0].parent_idx == 0
    &&& nodes[0].next_sibling == 0
    &&& nodes[0].prev_sibling == 0
    &&& child_link_ok(nodes, 0)
}

/// The links of node `i`, which is not the head, agree with those of the nodes they point to.
/// The parent comes before the node and is no text. A next sibling comes
/// after the node, has the same parent, and points back to the node. The
/// previous-sibling link of a first child points to a child without next
/// sibling; that of any other node points to an earlier node whose next
/// sibling the node is.
pub open spec fn link_ok(nodes: Seq<NodeInfo>, i: int) -> bool {
    let n = nodes[i];
    let p = n.parent_idx as int;
    let q = n.prev_sibling as int;
    let s = n.next_sibling as int;
    &&& !(n.node_type is Head)
    &&& 0 <= p < i
    &&& !(nodes[p].node_type is Text)
    &&& s == 0 || (i < s < nodes.len() && nodes[s].parent_idx == p && nodes[s].prev_sibling == i)
    &&& child_link_ok(nodes, i)
    &&& 1 <= q < nodes.len()
    &&& nodes[q].parent_idx == p
    &&& if nodes[p].first_child == i {
        i <= q && nodes[q].next_sibling == 0
    } else {
        q < i && nodes[q].next_sibling == i
    }
}

/// The node array is a tree under the head, and every index fits the index width.
pub open spec fn tree_wf(nodes: Seq<NodeInfo>) -> bool {
    &&& head_ok(nodes)
    &&& nodes.len() <= NodeIdx::MAX
    &&& forall|i: int| 1 <= i < nodes.len() ==> #[trigger] link_ok(nodes, i)
}

/// The payload as it is stored for a new node: an element starts with an empty
/// run of attributes at the end of the attribute array.
pub open spec fn anchored(node_type: NodeType, attr_len: AttrIdx) -> NodeType {
    match node_type {
        NodeType::Element { name, attributes } => NodeType::Element {
            name,
            attributes: attr_len..attr_len,
        },
        other => other,
    }
}

/// The node array with a new last node, made the last child of `parent`.
pub open spec fn linked(nodes: Seq<NodeInfo>, parent: NodeIdx, node_type: NodeType) -> Seq<
    NodeInfo,
> {
    let idx = nodes.len() as NodeIdx;
    let first = nodes[parent as int].first_child;
    if first == 0 {
        nodes.update(parent as int, NodeInfo { first_child: idx, ..nodes[parent as int] }).push(
            NodeInfo {
                parent_idx: parent,
                prev_sibling: idx,
                next_sibling: 0,
                first_child: 0,
                node_type,
            },
        )
    } else {
        let last = nodes[first as int].prev_sibling;
        let chained = nodes.update(last as int, NodeInfo { next_sibling: idx, ..nodes[last as int] });
        chained.update(first as int, NodeInfo { prev_sibling: idx, ..chained[first as int] }).push(
            NodeInfo {
                parent_idx: parent,
                prev_sibling: last,
                next_sibling: 0,
                first_child: 0,
                node_type,
            },
        )
    }
}

/// Appending a node under a parent that is no text keeps the array a tree.
pub proof fn lemma_linked_wf(nodes: Seq<NodeInfo>, parent: NodeIdx, node_type: NodeType)
    requires
        tree_wf(nodes),
        nodes.len() < NodeIdx::MAX,
        parent < nodes.len(),
        !(nodes[parent as int].node_type is Text),
        !(node_type is Head),
    ensures
        tree_wf(linked(nodes, parent, node_type)),
        linked(nodes, parent, node_type).len() == nodes.len() + 1,
{
    let after = linked(nodes, parent, node_type);
    let idx = nodes.len() as int;
    let first = nodes[parent as int].first_child as int;
    if parent > 0 {
        assert(link_ok(nodes, parent as int));
    }
    if first != 0 {
        assert(link_ok(nodes, first));
        let last = nodes[first].prev_sibling as int;
        assert(link_ok(nodes, last));
    }
    assert forall|i: int| 1 <= i < after.len() implies #[trigger] link_ok(after, i) by {
        if i < idx {
            assert(link_ok(nodes, i));
            let q = nodes[i].prev_sibling as int;
            let s = nodes[i].next_sibling as int;
            assert(link_ok(nodes, q));
            if s != 0 {
                assert(link_ok(nodes, s));
            }
        }
    }
}

/// Node `c` and the siblings after it, in the order of their links.
pub open spec fn sibling_chain(nodes: Seq<NodeInfo>, c: int) -> Seq<NodeIdx>
    decreases nodes.len() - c,
{
    if c <= 0 || c >= nodes.len() {
        Seq::empty()
    } else if c < nodes[c].next_sibling < nodes.len() {
        seq![c as NodeIdx] + sibling_chain(nodes, nodes[c].next_sibling as int)
    } else {
        seq![c as NodeIdx]
    }
}

/// The children of node `p`, in the order of their links.
pub open spec fn children_of(nodes: Seq<NodeInfo>, p: int) -> Seq<NodeIdx> {
    sibling_chain(nodes, nodes[p].first_child as int)
}

/// The first index after node `n` that is no descendant of it, where the
/// nodes stand in document order: the next sibling of the node, or else that
/// of its nearest ancestor that has one, or else the end of the array.
pub open spec fn subtree_end(nodes: Seq<NodeInfo>, n: int) -> int
    decreases n,
{
    if n <= 0 || n >= nodes.len() {
        nodes.len() as int
    } else if nodes[n].next_sibling != 0 {
        nodes[n].next_sibling as int
    } else if nodes[n].parent_idx < n {
        subtree_end(nodes, nodes[n].parent_idx as int)
    } else {
        nodes.len() as int
    }
}

/// The end of a subtree lies within the array.
pub proof fn lemma_subtree_end(nodes: Seq<NodeInfo>, n: int)
    requires
        tree_wf(nodes),
        0 <= n < nodes.len(),
    ensures
        0 < subtree_end(nodes, n) <= nodes.len(),
    decreases n,
{
    if n > 0 {
        assert(link_ok(nodes, n));
        if nodes[n].next_sibling == 0 {
            lemma_subtree_end(nodes, nodes[n].parent_idx as int);
        }
    }
}

/// A chain of siblings starts with its node, holds nodes of one parent in
/// rising order, each linked to the next and back, and ends with a node
/// without next sibling.
pub proof fn lemma_chain_links(nodes: Seq<NodeInfo>, c: int)
    requires
        tree_wf(nodes),
        1 <= c < nodes.len(),
    ensures
        sibling_chain(nodes, c).len() >= 1,
        sibling_chain(nodes, c)[0] == c,
        forall|k: int|
            0 <= k < sibling_chain(nodes, c).len() ==> c <= (#[trigger] sibling_chain(nodes, c)[k])
                < nodes.len() && nodes[sibling_chain(nodes, c)[k] as int].parent_idx
                == nodes[c].parent_idx,
        forall|k: int|
            0 <= k < sibling_chain(nodes, c).len() - 1 ==> nodes[(#[trigger] sibling_chain(
                nodes,
                c,
            )[k]) as int].next_sibling == sibling_chain(nodes, c)[k + 1] && sibling_chain(nodes, c)[k]
                < sibling_chain(nodes, c)[k + 1] && nodes[sibling_chain(
                nodes,
                c,
            )[k + 1] as int].prev_sibling == sibling_chain(nodes, c)[k],
        nodes[sibling_chain(nodes, c).last() as int].next_sibling == 0,
    decreases nodes.len() - c,
{
    assert(link_ok(nodes, c));
    let s = sibling_chain(nodes, c);
    let next = nodes[c].next_sibling as int;
    if next > c {
        lemma_chain_links(nodes, next);
        let rest = sibling_chain(nodes, next);
        assert(s =~= seq![c as NodeIdx] + rest);
        assert forall|k: int| 0 <= k < s.len() implies c <= (#[trigger] s[k]) < nodes.len()
            && nodes[s[k] as int].parent_idx == nodes[c].parent_idx by {
            if k > 0 {
                assert(s[k] == rest[k - 1]);
            }
        }
        assert forall|k: int| 0 <= k < s.len() - 1 implies nodes[(#[trigger] s[k]) as int].next_sibling
            == s[k + 1] && s[k] < s[k + 1] && nodes[s[k + 1] as int].prev_sibling == s[k] by {
            assert(s[k + 1] == rest[k]);
            if k > 0 {
                assert(s[k] == rest[k - 1]);
            }
        }
        assert(s.last() == rest.last());
    }
}

/// The chain of a parent's children holds each child of the parent.
pub proof fn lemma_child_in_chain(nodes: Seq<NodeInfo>, n: int)
    requires
        tree_wf(nodes),
        1 <= n < nodes.len(),
    ensures
        children_of(nodes, nodes[n].parent_idx as int).contains(n as NodeIdx),
    decreases n,
{
    assert(link_ok(nodes, n));
    let p = nodes[n].parent_idx as int;
    let first = nodes[p].first_child as int;
    if first == n {
        lemma_chain_links(nodes, n);
        assert(children_of(nodes, p)[0] == n);
    } else {
        let q = nodes[n].prev_sibling as int;
        lemma_child_in_chain(nodes, q);
        let s = children_of(nodes, p);
        let k = choose|k: int| 0 <= k < s.len() && s[k] == q as NodeIdx;
        assert(link_ok(nodes, q));
        if p > 0 {
            assert(link_ok(nodes, p));
        }
        lemma_chain_links(nodes, first);
        assert(s[k + 1] == n);
    }
}

/// A chain of siblings holds no node twice.
pub proof fn lemma_chain_sorted(nodes: Seq<NodeInfo>, c: int, i: int, j: int)
    requires
        tree_wf(nodes),
        1 <= c < nodes.len(),
        0 <= i < j < sibling_chain(nodes, c).len(),
    ensures
        sibling_chain(nodes, c)[i] < sibling_chain(nodes, c)[j],
    decreases j - i,
{
    lemma_chain_links(nodes, c);
    if i + 1 < j {
        lemma_chain_sorted(nodes, c, i + 1, j);
    }
    assert(sibling_chain(nodes, c)[i] < sibling_chain(nodes, c)[i + 1]);
}

/// The previous-sibling link of a first child points to the last child.
pub proof fn lemma_last_child(nodes: Seq<NodeInfo>, p: int)
    requires
        tree_wf(nodes),
        0 <= p < nodes.len(),
        nodes[p].first_child != 0,
    ensures
        children_of(nodes, p).len() >= 1,
        children_of(nodes, p)[0] == nodes[p].first_child,
        children_of(nodes, p).last() == nodes[nodes[p].first_child as int].prev_sibling,
{
    let first = nodes[p].first_child as int;
    if p > 0 {
        assert(link_ok(nodes, p));
    }
    assert(link_ok(nodes, first));
    let last = nodes[first].prev_sibling as int;
    lemma_chain_links(nodes, first);
    lemma_child_in_chain(nodes, last);
    let s = children_of(nodes, p);
    let k = choose|k: int| 0 <= k < s.len() && s[k] == last as NodeIdx;
    if k < s.len() - 1 {
        assert(nodes[s[k] as int].next_sibling == s[k + 1]);
        assert(false);
    }
}

/// What appending a node does to the chain of siblings from `c` on: the new
/// node comes at the end of the chain that the parent's last child is in,
/// and any other chain stays as it was.
pub proof fn lemma_linked_chain(nodes: Seq<NodeInfo>, parent: NodeIdx, node_type: NodeType, c: int)
    requires
        tree_wf(nodes),
        nodes.len() < NodeIdx::MAX,
        parent < nodes.len(),
        !(nodes[parent as int].node_type is Text),
        !(node_type is Head),
        1 <= c < nodes.len(),
    ensures
        sibling_chain(linked(nodes, parent, node_type), c) == if nodes[c].parent_idx == parent {
            sibling_chain(nodes, c).push(nodes.len() as NodeIdx)
        } else {
            sibling_chain(nodes, c)
        },
    decreases nodes.len() - c,
{
    let after = linked(nodes, parent, node_type);
    let idx = nodes.len() as int;
    let first = nodes[parent as int].first_child as int;
    lemma_linked_wf(nodes, parent, node_type);
    assert(link_ok(nodes, c));
    if parent > 0 {
        assert(link_ok(nodes, parent as int));
    }
    if first != 0 {
        assert(link_ok(nodes, first));
        assert(link_ok(nodes, nodes[first].prev_sibling as int));
    }
    let next = nodes[c].next_sibling as int;
    if next != 0 {
        lemma_linked_chain(nodes, parent, node_type, next);
        assert(after[c].next_sibling == next);
        if nodes[c].parent_idx == parent {
            assert(seq![c as NodeIdx] + sibling_chain(nodes, next).push(idx as NodeIdx)
                =~= (seq![c as NodeIdx] + sibling_chain(nodes, next)).push(idx as NodeIdx));
        }
    } else if nodes[c].parent_idx == parent {
        lemma_child_in_chain(nodes, c);
        lemma_last_child(nodes, parent as int);
        lemma_chain_links(nodes, first);
        let kids = children_of(nodes, parent as int);
        let k = choose|k: int| 0 <= k < kids.len() && kids[k] == c as NodeIdx;
        if k < kids.len() - 1 {
            assert(nodes[kids[k] as int].next_sibling == kids[k + 1]);
        }
        assert(c == nodes[first].prev_sibling);
        assert(after[c].next_sibling == idx);
        assert(sibling_chain(after, idx) =~= seq![idx as NodeIdx]);
        assert(seq![c as NodeIdx] + seq![idx as NodeIdx] =~= seq![c as NodeIdx].push(
            idx as NodeIdx,
        ));
    } else {
        assert(after[c].next_sibling == 0);
    }
}

/// What appending a node does to the children of each node: the new node is
/// the last child of its parent, after those that the parent had, and the
/// children of every other node are what they were.
pub proof fn lemma_linked_children(nodes: Seq<NodeInfo>, parent: NodeIdx, node_type: NodeType)
    requires
        tree_wf(nodes),
        nodes.len() < NodeIdx::MAX,
        parent < nodes.len(),
        !(nodes[parent as int].node_type is Text),
        !(node_type is Head),
    ensures
        children_of(linked(nodes, parent, node_type), parent as int) == children_of(
            nodes,
            parent as int,
        ).push(nodes.len() as NodeIdx),
        children_of(linked(nodes, parent, node_type), nodes.len() as int) == Seq::<NodeIdx>::empty(),
        forall|q: int|
            0 <= q < nodes.len() && q != parent ==> #[trigger] children_of(
                linked(nodes, parent, node_type),
                q,
            ) == children_of(nodes, q),
{
    let after = linked(nodes, parent, node_type);
    let idx = nodes.len() as int;
    let first = nodes[parent as int].first_child as int;
    lemma_linked_wf(nodes, parent, node_type);
    if parent > 0 {
        assert(link_ok(nodes, parent as int));
    }
    if first != 0 {
        assert(link_ok(nodes, first));
        lemma_linked_chain(nodes, parent, node_type, first);
    } else {
        assert(sibling_chain(after, idx) =~= seq![idx as NodeIdx]);
        assert(Seq::<NodeIdx>::empty().push(idx as NodeIdx) =~= seq![idx as NodeIdx]);
    }
    assert forall|q: int| 0 <= q < nodes.len() && q != parent implies #[trigger] children_of(
        after,
        q,
    ) == children_of(nodes, q) by {
        if q > 0 {
            assert(link_ok(nodes, q));
        }
        let c = nodes[q].first_child as int;
        if first != 0 {
            assert(link_ok(nodes, nodes[first].prev_sibling as int));
        }
        assert(after[q].first_child == c);
        if c != 0 {
            lemma_linked_chain(nodes, parent, node_type, c);
        }
    }
}

} // verus!
