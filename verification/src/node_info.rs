//! The record of a node: its payload and its links to the nodes around it.

use vstd::prelude::*;
use crate::defs::{NodeIdx, XmlIdx};
use crate::node_type::NodeType;

verus! {

/// A node of the tree. Links are indices into the node array; 0 stands for "none".
#[derive(Debug, PartialEq, Eq)]
pub struct NodeInfo {
    /// The parent, 0 for the root element and the head.
    pub parent_idx: NodeIdx,
    /// The previous sibling; of a first child, the last child of its parent.
    pub prev_sibling: NodeIdx,
    /// The next sibling.
    pub next_sibling: NodeIdx,
    /// The first child.
    pub first_child: NodeIdx,
    /// The payload.
    pub node_type: NodeType,
}

impl Clone for NodeInfo {
    fn clone(&self) -> (r: Self)
        ensures
            r == *self,
    {
        NodeInfo {
            parent_idx: self.parent_idx,
            prev_sibling: self.prev_sibling,
            next_sibling: self.next_sibling,
            first_child: self.first_child,
            node_type: self.node_type.clone(),
        }
    }
}

impl NodeInfo {
    /// A node without siblings or children, which is its own last sibling.
    pub fn new(node_idx: NodeIdx, parent_idx: NodeIdx, node_type: NodeType) -> (r: Self)
        ensures
            r == (NodeInfo {
                parent_idx,
                prev_sibling: node_idx,
                next_sibling: 0,
                first_child: 0,
                node_type,
            }),
    {
        NodeInfo { parent_idx, next_sibling: 0, prev_sibling: node_idx, first_child: 0, node_type }
    }

    /// Whether this node is an element.
    pub fn is_element(&self) -> (r: bool)
        ensures
            r == (self.node_type is Element),
    {
        match &self.node_type {
            NodeType::Element { .. } => true,
            _ => false,
        }
    }

    /// Whether this node is a text.
    pub fn is_text(&self) -> (r: bool)
        ensures
            r == (self.node_type is Text),
    {
        match &self.node_type {
            NodeType::Text(_) => true,
            _ => false,
        }
    }

    /// The index of the parent, `None` where it is 0.
    pub fn parent_idx(&self) -> (r: Option<NodeIdx>)
        ensures
            r == if self.parent_idx == 0 {
                None
            } else {
                Some(self.parent_idx)
            },
    {
        if self.parent_idx == 0 {
            None
        } else {
            Some(self.parent_idx)
        }
    }

    /// The index of the previous sibling.
    pub fn prev_sibling_idx(&self) -> (r: NodeIdx)
        ensures
            r == self.prev_sibling,
    {
        self.prev_sibling
    }

    /// The index of the next sibling.
    pub fn next_sibling_idx(&self) -> (r: NodeIdx)
        ensures
            r == self.next_sibling,
    {
        self.next_sibling
    }

    /// The index of the first child.
    pub fn first_child_idx(&self) -> (r: NodeIdx)
        ensures
            r == self.first_child,
    {
        self.first_child
    }

    /// Where the node stands in the buffer.
    pub fn position(&self) -> (r: XmlIdx)
        ensures
            r == self.node_type.spec_position(),
    {
        match &self.node_type {
            NodeType::Element { name, .. } => name.start,
            NodeType::Text(location) => location.start,
            NodeType::Head => 0,
        }
    }

    /// The payload.
    pub fn node_type(&self) -> (r: &NodeType)
        ensures
            *r == self.node_type,
    {
        &self.node_type
    }

    /// Sets the index of the next sibling.
    pub fn set_next_sibling_idx(&mut self, idx: NodeIdx)
        ensures
            *final(self) == (NodeInfo { next_sibling: idx, ..*old(self) }),
    {
        self.next_sibling = idx;
    }

    /// Sets the index of the previous sibling.
    pub fn set_prev_sibling_idx(&mut self, idx: NodeIdx)
        ensures
            *final(self) == (NodeInfo { prev_sibling: idx, ..*old(self) }),
    {
        self.prev_sibling = idx;
    }

    /// Sets the index of the first child.
    pub fn set_first_child_idx(&mut self, idx: NodeIdx)
        ensures
            *final(self) == (NodeInfo { first_child: idx, ..*old(self) }),
    {
        self.first_child = idx;
    }

    /// Sets the index of the parent.
    pub fn set_parent_idx(&mut self, idx: NodeIdx)
        ensures
            *final(self) == (NodeInfo { parent_idx: idx, ..*old(self) }),
    {
        self.parent_idx = idx;
    }

    /// Sets the payload.
    pub fn set_node_type(&mut self, node_type: NodeType)
        ensures
            *final(self) == (NodeInfo { node_type, ..*old(self) }),
    {
        self.node_type = node_type;
    }
}

} // verus!
