//! Handles on the nodes of a document, and the walk over a node's children.

use vstd::prelude::*;
use vstd::utf8::encode_utf8_decode_utf8;
use crate::attribute::{AttributeInfo, Attributes};
use crate::defs::{NodeIdx, XmlIdx};
use crate::document::{Document, DocumentView, Nodes, text_of};
use crate::entities::bytes_equal;
use crate::node_info::NodeInfo;
use crate::node_type::{NodeType, copy_location};
use crate::tree::{
    children_of,
    lemma_chain_links,
    lemma_chain_sorted,
    lemma_last_child,
    sibling_chain,
};

verus! {

/// A node of a document.
#[derive(Debug, Clone, Copy)]
pub struct Node<'xml> {
    pub idx: NodeIdx,
    pub node_info: &'xml NodeInfo,
    pub doc: &'xml Document,
}

/// The handle on node `idx` of `doc`.
pub open spec fn node_at<'a>(doc: &'a Document, idx: NodeIdx) -> Node<'a> {
    Node { idx, node_info: &doc.nodes@[idx as int], doc }
}

/// The handle on the node of `doc` that `idx` names, if it names one.
pub open spec fn some_node<'a>(doc: &'a Document, idx: Option<NodeIdx>) -> Option<Node<'a>> {
    match idx {
        Some(i) => Some(node_at(doc, i)),
        None => None,
    }
}

/// Whether two string slices hold the same text.
pub fn str_equal(a: &str, b: &str) -> (r: bool)
    ensures
        r == (a@ == b@),
{
    proof {
        encode_utf8_decode_utf8(a@);
        encode_utf8_decode_utf8(b@);
    }
    bytes_equal(a.as_bytes(), b.as_bytes())
}

/// The value of the first of the attributes `attrs` that has the name `name`.
pub open spec fn attribute_value(doc: DocumentView, attrs: Seq<AttributeInfo>, name: Seq<char>) -> Option<
    Seq<char>,
>
    decreases attrs.len(),
{
    if attrs.len() == 0 {
        None
    } else if text_of(doc.bytes_at(attrs[0].name)) == name {
        Some(text_of(doc.bytes_at(attrs[0].value)))
    } else {
        attribute_value(doc, attrs.drop_first(), name)
    }
}

/// The first of the nodes `nodes` that is an element with the name `name`.
pub open spec fn first_named(doc: DocumentView, nodes: Seq<NodeIdx>, name: Seq<char>) -> Option<
    NodeIdx,
>
    decreases nodes.len(),
{
    if nodes.len() == 0 {
        None
    } else if doc.tag_name_of(nodes[0]) == name {
        Some(nodes[0])
    } else {
        first_named(doc, nodes.drop_first(), name)
    }
}

impl<'xml> Node<'xml> {
    /// The handle is on a node of a well-formed document.
    pub open spec fn wf(&self) -> bool {
        &&& self.doc.wf()
        &&& self.idx < self.doc.nodes@.len()
        &&& *self == node_at(self.doc, self.idx)
    }

    /// The handle on node `idx` of `doc`, whose record is `node_info`.
    pub fn new(idx: NodeIdx, node_info: &'xml NodeInfo, doc: &'xml Document) -> (r: Self)
        ensures
            r == (Node { idx, node_info, doc }),
    {
        Node { idx, node_info, doc }
    }

    /// The index of the node.
    pub fn idx(&self) -> (r: NodeIdx)
        ensures
            r == self.idx,
    {
        self.idx
    }

    /// The index of the parent, if the node has one.
    pub fn parent_idx(&self) -> (r: Option<NodeIdx>)
        requires
            self.wf(),
        ensures
            r == self.doc@.parent_of(self.idx),
    {
        if self.idx <= 1 {
            None
        } else {
            self.node_info.parent_idx()
        }
    }

    /// The name of the element, and the empty text for any other node.
    pub fn tag_name(&self) -> (r: &'xml str)
        requires
            self.wf(),
        ensures
            r@ == self.doc@.tag_name_of(self.idx),
    {
        match self.node_info.node_type() {
            NodeType::Element { name, .. } => self.doc.get_str_from_location(copy_location(name)),
            _ => "",
        }
    }

    /// Whether the node is an element with the given name.
    pub fn is(&self, tag_name: &str) -> (r: bool)
        requires
            self.wf(),
        ensures
            r == (self.doc@.tag_name_of(self.idx) == tag_name@),
    {
        str_equal(self.tag_name(), tag_name)
    }

    /// The content of the text, and nothing for any other node.
    pub fn text(&self) -> (r: Option<&'xml str>)
        requires
            self.wf(),
        ensures
            match r {
                Some(text) => self.doc@.text_of_node(self.idx) == Some(text@),
                None => self.doc@.text_of_node(self.idx) is None,
            },
    {
        match self.node_info.node_type() {
            NodeType::Text(location) => Some(
                self.doc.get_str_from_location(copy_location(location)),
            ),
            _ => None,
        }
    }

    /// The index of the first child, if the node has children.
    pub fn first_child_idx(&self) -> (r: Option<NodeIdx>)
        requires
            self.wf(),
        ensures
            r == self.doc@.first_child_of(self.idx),
    {
        if self.node_info.first_child_idx() == 0 {
            None
        } else {
            Some(self.node_info.first_child_idx())
        }
    }

    /// The handle on node `idx` of the node's document.
    fn at(&self, idx: NodeIdx) -> (r: Node<'xml>)
        requires
            self.wf(),
            idx < self.doc.nodes@.len(),
        ensures
            r == node_at(self.doc, idx),
            r.wf(),
    {
        Node::new(idx, &self.doc.nodes[idx as usize], self.doc)
    }

    /// The first child, if the node has children.
    pub fn first_child(&self) -> (r: Option<Node<'xml>>)
        requires
            self.wf(),
        ensures
            r == some_node(self.doc, self.doc@.first_child_of(self.idx)),
            r matches Some(node) ==> node.wf(),
    {
        proof {
            self.doc.lemma_links(self.idx);
        }
        match self.first_child_idx() {
            Some(first) => Some(self.at(first)),
            None => None,
        }
    }

    /// The last child, if the node has children.
    pub fn last_child(&self) -> (r: Option<Node<'xml>>)
        requires
            self.wf(),
        ensures
            r == some_node(self.doc, self.doc@.last_child_of(self.idx)),
            r matches Some(node) ==> node.wf(),
    {
        proof {
            self.doc.lemma_links(self.idx);
        }
        let first = self.node_info.first_child_idx();
        if first == 0 {
            None
        } else {
            proof {
                self.doc.lemma_links(first);
            }
            let last = self.doc.nodes[first as usize].prev_sibling_idx();
            Some(self.at(last))
        }
    }

    /// The next sibling, if the node has one.
    pub fn next_sibling(&self) -> (r: Option<Node<'xml>>)
        requires
            self.wf(),
        ensures
            r == some_node(self.doc, self.doc@.next_sibling_of(self.idx)),
            r matches Some(node) ==> node.wf(),
    {
        proof {
            self.doc.lemma_links(self.idx);
        }
        let next = self.node_info.next_sibling_idx();
        if next == 0 {
            None
        } else {
            Some(self.at(next))
        }
    }

    /// The previous sibling, if the node has one.
    pub fn prev_sibling(&self) -> (r: Option<Node<'xml>>)
        requires
            self.wf(),
        ensures
            r == some_node(self.doc, self.doc@.prev_sibling_of(self.idx)),
            r matches Some(node) ==> node.wf(),
    {
        proof {
            self.doc.lemma_links(self.idx);
        }
        let previous = self.node_info.prev_sibling_idx();
        if previous as usize >= self.doc.nodes.len() {
            return None;
        }
        if self.doc.nodes[previous as usize].next_sibling_idx() == 0 {
            None
        } else {
            Some(self.at(previous))
        }
    }

    /// The parent, if the node has one.
    pub fn parent(&self) -> (r: Option<Node<'xml>>)
        requires
            self.wf(),
        ensures
            r == some_node(self.doc, self.doc@.parent_of(self.idx)),
            r matches Some(node) ==> node.wf(),
    {
        proof {
            self.doc.lemma_links(self.idx);
        }
        match self.parent_idx() {
            Some(parent) => Some(self.at(parent)),
            None => None,
        }
    }

    /// Whether the node is the root element.
    pub fn is_root(&self) -> (r: bool)
        ensures
            r == (self.idx == 1),
    {
        self.idx == 1
    }

    /// Whether the node has children.
    pub fn has_children(&self) -> (r: bool)
        requires
            self.wf(),
        ensures
            r == (self.doc@.first_child_of(self.idx) is Some),
    {
        self.first_child_idx().is_some()
    }

    /// Whether the node is an element.
    pub fn is_element(&self) -> (r: bool)
        requires
            self.wf(),
        ensures
            r == (self.doc.nodes@[self.idx as int].node_type is Element),
    {
        self.node_info.is_element()
    }

    /// Whether the node is a text.
    pub fn is_text(&self) -> (r: bool)
        requires
            self.wf(),
        ensures
            r == (self.doc.nodes@[self.idx as int].node_type is Text),
    {
        self.node_info.is_text()
    }

    /// The payload of the node.
    pub fn get_node_type(&self) -> (r: &NodeType)
        requires
            self.wf(),
        ensures
            *r == self.doc.nodes@[self.idx as int].node_type,
    {
        self.node_info.node_type()
    }

    /// Where the node stands in the buffer.
    pub fn position(&self) -> (r: XmlIdx)
        requires
            self.wf(),
        ensures
            r == self.doc.nodes@[self.idx as int].node_type.spec_position(),
    {
        self.node_info.position()
    }

    /// A walk over the attributes of the node.
    pub fn attributes(&self) -> (r: Attributes<'xml>)
        requires
            self.wf(),
        ensures
            r.wf(),
            r.doc == self.doc,
            r.remaining() == self.doc@.attributes_of(self.idx),
    {
        Attributes::new(self)
    }

    /// The value of the first attribute of the node that has the name `name`.
    pub fn get_attribute(&self, name: &str) -> (r: Option<&'xml str>)
        requires
            self.wf(),
        ensures
            match r {
                Some(value) => attribute_value(
                    self.doc@,
                    self.doc@.attributes_of(self.idx),
                    name@,
                ) == Some(value@),
                None => attribute_value(self.doc@, self.doc@.attributes_of(self.idx), name@)
                    is None,
            },
    {
        let mut attributes = self.attributes();
        loop
            invariant
                attributes.wf(),
                attributes.doc == self.doc,
                attribute_value(self.doc@, self.doc@.attributes_of(self.idx), name@)
                    == attribute_value(self.doc@, attributes.remaining(), name@),
            decreases attributes.remaining().len(),
        {
            match attributes.next() {
                Some(attribute) => {
                    if attribute.is(name) {
                        return Some(attribute.value());
                    }
                },
                None => {
                    return None;
                },
            }
        }
    }

    /// A walk over the children of the node.
    pub fn children(&self) -> (r: NodeChildren<'xml>)
        requires
            self.wf(),
        ensures
            r.wf(),
            r.remaining() == children_of(self.doc.nodes@, self.idx as int),
            r.on(self.doc),
    {
        let ghost chain = children_of(self.doc.nodes@, self.idx as int);
        match self.first_child() {
            Some(first) => {
                proof {
                    lemma_last_child(self.doc.nodes@, self.idx as int);
                    assert(chain.subrange(0, chain.len() as int) =~= chain);
                }
                NodeChildren {
                    front: Some(first),
                    back: self.last_child(),
                    chain: Ghost(chain),
                    lo: Ghost(0),
                    hi: Ghost(chain.len() as int),
                }
            },
            None => {
                proof {
                    assert(chain.subrange(0, 0) =~= chain);
                }
                NodeChildren {
                    front: None,
                    back: None,
                    chain: Ghost(chain),
                    lo: Ghost(0),
                    hi: Ghost(0),
                }
            },
        }
    }

    /// A walk over the nodes of the subtree of the node, the node itself left out.
    pub fn descendants(&self) -> (r: Nodes<'xml>)
        requires
            self.wf(),
        ensures
            r.wf(),
            r.on(self.doc),
            r.remaining() == self.doc@.descendants_of(self.idx),
    {
        Nodes::descendants(self.doc, self.idx)
    }

    /// The first child of the node that is an element with the name `tag_name`.
    pub fn get_child(&self, tag_name: &str) -> (r: Option<Node<'xml>>)
        requires
            self.wf(),
        ensures
            r == some_node(
                self.doc,
                first_named(self.doc@, children_of(self.doc.nodes@, self.idx as int), tag_name@),
            ),
            r matches Some(node) ==> node.wf(),
    {
        let mut children = self.children();
        loop
            invariant
                children.wf(),
                self.wf(),
                children.on(self.doc),
                first_named(self.doc@, children_of(self.doc.nodes@, self.idx as int), tag_name@)
                    == first_named(self.doc@, children.remaining(), tag_name@),
            decreases children.remaining().len(),
        {
            match children.next() {
                Some(child) => {
                    if child.is(tag_name) {
                        return Some(child);
                    }
                },
                None => {
                    return None;
                },
            }
        }
    }

    /// The first child of the node's parent that is an element with the name
    /// `tag_name`, which may be the node itself.
    pub fn get_sibling(&self, tag_name: &str) -> (r: Option<Node<'xml>>)
        requires
            self.wf(),
        ensures
            r == match self.doc@.parent_of(self.idx) {
                Some(parent) => some_node(
                    self.doc,
                    first_named(self.doc@, children_of(self.doc.nodes@, parent as int), tag_name@),
                ),
                None => None,
            },
            r matches Some(node) ==> node.wf(),
    {
        match self.parent() {
            Some(parent) => parent.get_child(tag_name),
            None => None,
        }
    }
}

impl PartialEq for Node<'_> {
    fn eq(&self, other: &Self) -> (r: bool) {
        self.idx == other.idx
    }
}

impl vstd::std_specs::cmp::PartialEqSpecImpl for Node<'_> {
    open spec fn obeys_eq_spec() -> bool {
        true
    }

    open spec fn eq_spec(&self, other: &Self) -> bool {
        self.idx == other.idx
    }
}

impl Eq for Node<'_> {

}

/// A walk over the children of a node, from either end.
pub struct NodeChildren<'a> {
    /// The next child from the front.
    pub front: Option<Node<'a>>,
    /// The next child from the back.
    pub back: Option<Node<'a>>,
    /// The chain of siblings that the walk is part of.
    pub chain: Ghost<Seq<NodeIdx>>,
    /// Where in the chain the next child from the front stands.
    pub lo: Ghost<int>,
    /// Where in the chain the walk ends, after the next child from the back.
    pub hi: Ghost<int>,
}

impl<'a> NodeChildren<'a> {
    /// The walk is over part of a chain of siblings of a well-formed document.
    pub open spec fn wf(&self) -> bool {
        match (self.front, self.back) {
            (Some(f), Some(b)) => {
                &&& f.wf()
                &&& b.wf()
                &&& f.doc == b.doc
                &&& 0 <= self.lo@ < self.hi@ <= self.chain@.len()
                &&& 1 <= self.chain@[0] < f.doc.nodes@.len()
                &&& self.chain@ == sibling_chain(f.doc.nodes@, self.chain@[0] as int)
                &&& f.idx == self.chain@[self.lo@]
                &&& b.idx == self.chain@[self.hi@ - 1]
            },
            (None, None) => 0 <= self.lo@ == self.hi@ <= self.chain@.len(),
            _ => false,
        }
    }

    /// The indices of the children that the walk has not come to yet.
    pub open spec fn remaining(&self) -> Seq<NodeIdx> {
        self.chain@.subrange(self.lo@, self.hi@)
    }

    /// Whether the children that the walk has not come to yet are nodes of `doc`.
    pub open spec fn on(&self, doc: &Document) -> bool {
        &&& self.front matches Some(f) ==> f.doc == doc
        &&& self.back matches Some(b) ==> b.doc == doc
    }

    /// The next child from the front.
    pub fn next(&mut self) -> (r: Option<Node<'a>>)
        requires
            old(self).wf(),
        ensures
            final(self).wf(),
            match r {
                Some(node) => old(self).remaining().len() > 0 && node.idx
                    == old(self).remaining()[0] && node.wf() && old(self).front == Some(node)
                    && final(self).remaining() == old(self).remaining().drop_first()
                    && final(self).on(node.doc),
                None => old(self).remaining().len() == 0 && final(self).remaining().len() == 0,
            },
    {
        match (self.front, self.back) {
            (Some(f), Some(b)) => {
                proof {
                    lemma_chain_links(f.doc.nodes@, self.chain@[0] as int);
                    if self.lo@ < self.hi@ - 1 {
                        lemma_chain_sorted(
                            f.doc.nodes@,
                            self.chain@[0] as int,
                            self.lo@,
                            self.hi@ - 1,
                        );
                    }
                }
                if f.idx == b.idx {
                    self.front = None;
                    self.back = None;
                    self.lo = Ghost(self.hi@);
                } else {
                    self.front = f.next_sibling();
                    self.lo = Ghost(self.lo@ + 1);
                }
                proof {
                    assert(self.remaining() =~= old(self).remaining().drop_first());
                }
                Some(f)
            },
            _ => None,
        }
    }

    /// The next child from the back.
    pub fn next_back(&mut self) -> (r: Option<Node<'a>>)
        requires
            old(self).wf(),
        ensures
            final(self).wf(),
            match r {
                Some(node) => old(self).remaining().len() > 0 && node.idx
                    == old(self).remaining().last() && node.wf() && old(self).back == Some(node)
                    && final(self).remaining() == old(self).remaining().drop_last()
                    && final(self).on(node.doc),
                None => old(self).remaining().len() == 0 && final(self).remaining().len() == 0,
            },
    {
        match (self.front, self.back) {
            (Some(f), Some(b)) => {
                proof {
                    lemma_chain_links(f.doc.nodes@, self.chain@[0] as int);
                    if self.lo@ < self.hi@ - 1 {
                        lemma_chain_sorted(
                            f.doc.nodes@,
                            self.chain@[0] as int,
                            self.lo@,
                            self.hi@ - 1,
                        );
                        assert(self.chain@[self.hi@ - 2] == f.doc.nodes@[b.idx as int].prev_sibling);
                    }
                }
                if f.idx == b.idx {
                    self.front = None;
                    self.back = None;
                    self.hi = Ghost(self.lo@);
                } else {
                    self.back = b.prev_sibling();
                    self.hi = Ghost(self.hi@ - 1);
                }
                proof {
                    assert(self.remaining() =~= old(self).remaining().drop_last());
                }
                Some(b)
            },
            _ => None,
        }
    }

    /// The children that are left, from the front.
    pub fn collect(self) -> (r: Vec<Node<'a>>)
        requires
            self.wf(),
        ensures
            r@.len() == self.remaining().len(),
            forall|i: int|
                0 <= i < r@.len() ==> (#[trigger] r@[i]).idx == self.remaining()[i] && r@[i].wf(),
            forall|i: int|
                0 <= i < r@.len() ==> self.front is Some && (#[trigger] r@[i]) == node_at(
                    self.front->Some_0.doc,
                    self.remaining()[i],
                ),
    {
        let mut walk = self;
        let mut all: Vec<Node<'a>> = Vec::new();
        loop
            invariant
                walk.wf(),
                all@.len() + walk.remaining().len() == self.remaining().len(),
                walk.remaining() == self.remaining().skip(all@.len() as int),
                self.front matches Some(f) ==> walk.on(f.doc),
                walk.remaining().len() > 0 ==> self.front is Some,
                forall|i: int|
                    0 <= i < all@.len() ==> (#[trigger] all@[i]).idx == self.remaining()[i]
                        && all@[i].wf(),
                forall|i: int|
                    0 <= i < all@.len() ==> self.front is Some && (#[trigger] all@[i])
                        == node_at(self.front->Some_0.doc, self.remaining()[i]),
            decreases walk.remaining().len(),
        {
            let ghost before = walk.remaining();
            match walk.next() {
                Some(node) => {
                    all.push(node);
                    proof {
                        assert(walk.remaining() =~= self.remaining().skip(all@.len() as int));
                    }
                },
                None => {
                    return all;
                },
            }
        }
    }

    /// How many children are left.
    pub fn count(self) -> (r: usize)
        requires
            self.wf(),
        ensures
            r == self.remaining().len(),
    {
        self.collect().len()
    }
}

} // verus!
