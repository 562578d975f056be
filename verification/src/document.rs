//! The document: the buffer, the node array and the attribute array.

use core::ops::Range;
use vstd::prelude::*;
use vstd::slice::slice_subrange;
use vstd::string::{StringExecFns, StringSliceAdditionalSpecFns};
use vstd::utf8::{decode_utf8, encode_utf8_decode_utf8, valid_utf8};
use crate::attribute::AttributeInfo;
use crate::defs::{AttrIdx, NodeIdx, ParseFailure, ParseXmlError, XmlIdx, XmlLocation};
use crate::node::{Node, node_at};
use crate::node_info::NodeInfo;
use crate::node_type::{NodeType, location_within};
use crate::order::{
    document_order,
    hangs_on_path,
    lemma_descendants_are_run,
    lemma_end_is_after,
    lemma_path_rises,
    on_path,
};
use crate::report::push_decimal;
use crate::tree::{
    anchored,
    children_of,
    head_ok,
    lemma_chain_sorted,
    lemma_child_in_chain,
    lemma_linked_children,
    lemma_linked_wf,
    lemma_subtree_end,
    link_ok,
    linked,
    subtree_end,
    tree_wf,
};

verus! {

/// A parsed document. The buffer holds the text that the ranges of the nodes
/// and attributes refer to; node 0 is the head, node 1 the root element.
#[derive(PartialEq, Eq, Debug)]
pub struct Document {
    pub nodes: Vec<NodeInfo>,
    pub attributes: Vec<AttributeInfo>,
    pub xml: Vec<u8>,
}

/// Mathematical value of a `Document`.
pub struct DocumentView {
    pub nodes: Seq<NodeInfo>,
    pub attributes: Seq<AttributeInfo>,
    pub xml: Seq<u8>,
}

impl View for Document {
    type V = DocumentView;

    open spec fn view(&self) -> DocumentView {
        DocumentView { nodes: self.nodes@, attributes: self.attributes@, xml: self.xml@ }
    }
}

impl DocumentView {
    /// The nodes form a tree, the arrays fit the index widths, and every
    /// range lies within the array it refers to.
    pub open spec fn wf(self) -> bool {
        &&& tree_wf(self.nodes)
        &&& self.attributes.len() <= AttrIdx::MAX
        &&& self.xml.len() <= XmlIdx::MAX
        &&& forall|i: int|
            0 <= i < self.nodes.len() ==> (#[trigger] self.nodes[i]).node_type.within(
                self.xml.len() as int,
                self.attributes.len() as int,
            )
        &&& forall|i: int|
            0 <= i < self.attributes.len() ==> location_within(
                (#[trigger] self.attributes[i]).name,
                self.xml.len() as int,
            ) && location_within(self.attributes[i].value, self.xml.len() as int)
    }

    /// Whether `n` is the index of a node.
    pub open spec fn has_node(self, n: NodeIdx) -> bool {
        n < self.nodes.len()
    }

    /// The parent of node `n`: none for the head, for the root element, and for a node under the head.
    pub open spec fn parent_of(self, n: NodeIdx) -> Option<NodeIdx> {
        if n <= 1 || self.nodes[n as int].parent_idx == 0 {
            None
        } else {
            Some(self.nodes[n as int].parent_idx)
        }
    }

    /// The first child of node `n`.
    pub open spec fn first_child_of(self, n: NodeIdx) -> Option<NodeIdx> {
        if self.nodes[n as int].first_child == 0 {
            None
        } else {
            Some(self.nodes[n as int].first_child)
        }
    }

    /// The last child of node `n`.
    pub open spec fn last_child_of(self, n: NodeIdx) -> Option<NodeIdx> {
        if self.nodes[n as int].first_child == 0 {
            None
        } else {
            Some(self.nodes[self.nodes[n as int].first_child as int].prev_sibling)
        }
    }

    /// The next sibling of node `n`.
    pub open spec fn next_sibling_of(self, n: NodeIdx) -> Option<NodeIdx> {
        if self.nodes[n as int].next_sibling == 0 {
            None
        } else {
            Some(self.nodes[n as int].next_sibling)
        }
    }

    /// The previous sibling of node `n`: none where its previous-sibling link
    /// points to a node without next sibling, which is the last child of its parent.
    pub open spec fn prev_sibling_of(self, n: NodeIdx) -> Option<NodeIdx> {
        let q = self.nodes[n as int].prev_sibling;
        if self.nodes[q as int].next_sibling == 0 {
            None
        } else {
            Some(q)
        }
    }

    /// The last node of the subtree of node `n`, which has children and is
    /// not the head, where the nodes stand in document order.
    pub open spec fn last_descendant_of(self, n: NodeIdx) -> Option<NodeIdx> {
        if 0 < n < self.nodes.len() && self.nodes[n as int].first_child != 0 && subtree_end(
            self.nodes,
            n as int,
        ) > n + 1 {
            Some((subtree_end(self.nodes, n as int) - 1) as NodeIdx)
        } else {
            None
        }
    }

    /// The indices of the nodes of the subtree of node `n`, the node itself
    /// left out, where the nodes stand in document order.
    pub open spec fn descendants_of(self, n: NodeIdx) -> Seq<NodeIdx> {
        match self.last_descendant_of(n) {
            Some(last) => index_run((n + 1) as NodeIdx, last),
            None => Seq::empty(),
        }
    }

    /// The bytes of the buffer at `location`.
    pub open spec fn bytes_at(self, location: XmlLocation) -> Seq<u8> {
        self.xml.subrange(location.start as int, location.end as int)
    }

    /// The name of element `n`, and the empty text for any other node.
    pub open spec fn tag_name_of(self, n: NodeIdx) -> Seq<char> {
        match self.nodes[n as int].node_type {
            NodeType::Element { name, .. } => text_of(self.bytes_at(name)),
            _ => ""@,
        }
    }

    /// The content of text `n`.
    pub open spec fn text_of_node(self, n: NodeIdx) -> Option<Seq<char>> {
        match self.nodes[n as int].node_type {
            NodeType::Text(location) => Some(text_of(self.bytes_at(location))),
            _ => None,
        }
    }

    /// The run of attributes of element `n`, and an empty run for any other node.
    pub open spec fn attributes_of(self, n: NodeIdx) -> Seq<AttributeInfo> {
        match self.nodes[n as int].node_type {
            NodeType::Element { attributes, .. } => self.attributes.subrange(
                attributes.start as int,
                attributes.end as int,
            ),
            _ => Seq::empty(),
        }
    }

    /// Whether a node with payload `node_type` can be appended as the child
    /// of `parent` that follows `last_child`. The run of attributes that the
    /// payload of an element names does not count: it is replaced by an empty
    /// run at the end of the attribute array.
    pub open spec fn accepts_node(self, parent: NodeIdx, last_child: NodeIdx, node_type: NodeType) -> bool {
        &&& parent < self.nodes.len()
        &&& !(self.nodes[parent as int].node_type is Text)
        &&& !(node_type is Head)
        &&& node_type.placed_within(self.xml.len() as int)
        &&& self.nodes[parent as int].first_child != 0 ==> last_child
            == self.nodes[self.nodes[parent as int].first_child as int].prev_sibling
    }

    /// The document after `add_node`, or why no node was added.
    pub open spec fn node_added(self, parent: NodeIdx, last_child: NodeIdx, node_type: NodeType) -> Result<
        DocumentView,
        ParseFailure,
    > {
        if self.nodes.len() >= NodeIdx::MAX {
            Err(ParseFailure::NoMoreSpace)
        } else if !self.accepts_node(parent, last_child, node_type) {
            Err(ParseFailure::InternalError)
        } else {
            Ok(
                DocumentView {
                    nodes: linked(
                        self.nodes,
                        parent,
                        anchored(node_type, self.attributes.len() as AttrIdx),
                    ),
                    ..self
                },
            )
        }
    }

    /// Whether an attribute with the given places can be appended to the run of node `owner`.
    pub open spec fn accepts_attribute(self, owner: NodeIdx, name: XmlLocation, value: XmlLocation) -> bool {
        &&& owner < self.nodes.len()
        &&& self.nodes[owner as int].node_type matches NodeType::Element { attributes, .. }
        &&& attributes.end == self.attributes.len()
        &&& location_within(name, self.xml.len() as int)
        &&& location_within(value, self.xml.len() as int)
    }

    /// The document after `add_attribute`, or why no attribute was added.
    pub open spec fn attribute_added(self, owner: NodeIdx, name: XmlLocation, value: XmlLocation) -> Result<
        DocumentView,
        ParseFailure,
    > {
        if !self.accepts_attribute(owner, name, value) {
            Err(ParseFailure::InternalError)
        } else if self.attributes.len() >= AttrIdx::MAX {
            Err(ParseFailure::NoMoreSpace)
        } else {
            let node = self.nodes[owner as int];
            Ok(
                DocumentView {
                    nodes: self.nodes.update(
                        owner as int,
                        NodeInfo {
                            node_type: NodeType::Element {
                                name: node.node_type->name,
                                attributes: (node.node_type->attributes.start..(
                                node.node_type->attributes.end + 1) as AttrIdx),
                            },
                            ..node
                        },
                    ),
                    attributes: self.attributes.push(AttributeInfo { name, value }),
                    xml: self.xml,
                },
            )
        }
    }
}

/// A document stays well-formed when a node is added to it.
pub proof fn lemma_node_added(doc: DocumentView, parent: NodeIdx, last_child: NodeIdx, node_type: NodeType)
    requires
        doc.wf(),
        doc.node_added(parent, last_child, node_type) is Ok,
    ensures
        doc.node_added(parent, last_child, node_type)->Ok_0.wf(),
        doc.node_added(parent, last_child, node_type)->Ok_0.nodes.len() == doc.nodes.len() + 1,
        doc.node_added(parent, last_child, node_type)->Ok_0.nodes.last().node_type == anchored(
            node_type,
            doc.attributes.len() as AttrIdx,
        ),
        forall|i: int|
            0 <= i < doc.nodes.len() ==> (#[trigger] doc.node_added(
                parent,
                last_child,
                node_type,
            )->Ok_0.nodes[i]).node_type == doc.nodes[i].node_type,
{
    let stored = anchored(node_type, doc.attributes.len() as AttrIdx);
    let after = doc.node_added(parent, last_child, node_type)->Ok_0;
    lemma_linked_wf(doc.nodes, parent, stored);
    if parent > 0 {
        assert(link_ok(doc.nodes, parent as int));
    }
    let first = doc.nodes[parent as int].first_child as int;
    if first != 0 {
        assert(link_ok(doc.nodes, first));
    }
    assert forall|i: int| 0 <= i < doc.nodes.len() implies (#[trigger] after.nodes[i]).node_type
        == doc.nodes[i].node_type by {}
    assert forall|i: int| 0 <= i < after.nodes.len() implies (#[trigger] after.nodes[i]).node_type.within(
        after.xml.len() as int,
        after.attributes.len() as int,
    ) by {
        if i < doc.nodes.len() {
            assert(doc.nodes[i].node_type.within(doc.xml.len() as int, doc.attributes.len() as int));
        }
    }
}

/// A document stays well-formed when an attribute is added to it.
pub proof fn lemma_attribute_added(doc: DocumentView, owner: NodeIdx, name: XmlLocation, value: XmlLocation)
    requires
        doc.wf(),
        doc.attribute_added(owner, name, value) is Ok,
    ensures
        doc.attribute_added(owner, name, value)->Ok_0.wf(),
{
    let after = doc.attribute_added(owner, name, value)->Ok_0;
    if owner > 0 {
        assert(link_ok(doc.nodes, owner as int));
    }
    assert forall|i: int| 1 <= i < after.nodes.len() implies #[trigger] link_ok(after.nodes, i) by {
        assert(link_ok(doc.nodes, i));
    }
    assert forall|i: int| 0 <= i < after.nodes.len() implies (#[trigger] after.nodes[i]).node_type.within(
        after.xml.len() as int,
        after.attributes.len() as int,
    ) by {
        assert(doc.nodes[i].node_type.within(doc.xml.len() as int, doc.attributes.len() as int));
    }
}

/// In a well-formed document, a node is the previous sibling of its next sibling.
pub proof fn lemma_next_then_previous(doc: DocumentView, n: NodeIdx)
    requires
        doc.wf(),
        doc.has_node(n),
        doc.next_sibling_of(n) is Some,
    ensures
        doc.has_node(doc.next_sibling_of(n)->Some_0),
        doc.prev_sibling_of(doc.next_sibling_of(n)->Some_0) == Some(n),
{
    assert(link_ok(doc.nodes, n as int));
}

/// In a well-formed document, a node is the next sibling of its previous sibling.
pub proof fn lemma_previous_then_next(doc: DocumentView, n: NodeIdx)
    requires
        doc.wf(),
        doc.has_node(n),
        doc.prev_sibling_of(n) is Some,
    ensures
        doc.has_node(doc.prev_sibling_of(n)->Some_0),
        doc.next_sibling_of(doc.prev_sibling_of(n)->Some_0) == Some(n),
{
    if n > 0 {
        assert(link_ok(doc.nodes, n as int));
        let p = doc.nodes[n as int].parent_idx;
        if p > 0 {
            assert(link_ok(doc.nodes, p as int));
        }
    }
}

/// In a well-formed document, each node but the head stands among the
/// children of the node that its parent link names, and stands there once.
pub proof fn lemma_child_listed_once(doc: DocumentView, n: NodeIdx)
    requires
        doc.wf(),
        1 <= n < doc.nodes.len(),
    ensures
        children_of(doc.nodes, doc.nodes[n as int].parent_idx as int).contains(n),
        children_of(doc.nodes, doc.nodes[n as int].parent_idx as int).no_duplicates(),
{
    let p = doc.nodes[n as int].parent_idx as int;
    let kids = children_of(doc.nodes, p);
    lemma_child_in_chain(doc.nodes, n as int);
    assert(link_ok(doc.nodes, n as int));
    if p > 0 {
        assert(link_ok(doc.nodes, p));
    }
    let first = doc.nodes[p].first_child as int;
    assert forall|i: int, j: int| 0 <= i < kids.len() && 0 <= j < kids.len() && i != j implies kids[i]
        != kids[j] by {
        if i < j {
            lemma_chain_sorted(doc.nodes, first, i, j);
        } else {
            lemma_chain_sorted(doc.nodes, first, j, i);
        }
    }
}

/// In a well-formed document in document order, the walk over the
/// descendants of a node comes to the nodes below that node, and to no other.
pub proof fn lemma_descendants(doc: DocumentView, n: NodeIdx, m: NodeIdx)
    requires
        doc.wf(),
        document_order(doc.nodes),
        1 <= n < doc.nodes.len(),
        m < doc.nodes.len(),
    ensures
        doc.descendants_of(n).contains(m) <==> (m != n && on_path(doc.nodes, n as int, m as int)),
{
    let nodes = doc.nodes;
    let end = subtree_end(nodes, n as int);
    lemma_descendants_are_run(nodes, n as int, m as int);
    lemma_end_is_after(nodes, n as int);
    match doc.last_descendant_of(n) {
        Some(last) => {
            let run = index_run((n + 1) as NodeIdx, last);
            if n < m < end {
                assert(run[m - n - 1] == m);
            }
        },
        None => {
            if n + 1 < end {
                let below = n + 1;
                lemma_descendants_are_run(nodes, n as int, below);
                assert(hangs_on_path(nodes, below));
                lemma_path_rises(nodes, nodes[below].parent_idx as int, n as int);
                lemma_path_rises(nodes, n as int, nodes[below].parent_idx as int);
                lemma_child_in_chain(nodes, below);
            }
        },
    }
}

/// Whether the outcome of a step that changes the document in place is the one that `expected` names.
pub open spec fn same_outcome<T>(
    before: DocumentView,
    after: DocumentView,
    r: Result<T, ParseXmlError>,
    expected: Result<DocumentView, ParseFailure>,
) -> bool {
    match expected {
        Ok(doc) => r is Ok && after == doc,
        Err(e) => r matches Err(err) && err@ == e && after == before,
    }
}

/// The text that stands for bytes that are not UTF-8.
pub open spec fn not_utf8_text() -> Seq<char> {
    "non valid utf-8"@
}

/// The text that `bytes` encode, or the text that stands for bytes that are not UTF-8.
pub open spec fn text_of(bytes: Seq<u8>) -> Seq<char> {
    if valid_utf8(bytes) {
        decode_utf8(bytes)
    } else {
        not_utf8_text()
    }
}

/// Calls `core::str::from_utf8`, which checks that the bytes are UTF-8 and
/// hands them back as a string slice. The contract claims that the result is
/// `None` exactly where the bytes are not valid UTF-8, and that the slice has
/// the bytes it was made of.
#[verifier::external_body]
fn str_from_utf8(bytes: &[u8]) -> (r: Option<&str>)
    ensures
        match r {
            Some(text) => valid_utf8(bytes@) && text.spec_bytes() == bytes@,
            None => !valid_utf8(bytes@),
        },
{
    core::str::from_utf8(bytes).ok()
}

/// The text that `bytes` encode, or `"non valid utf-8"`.
pub fn bytes_to_str(bytes: &[u8]) -> (r: &str)
    ensures
        r@ == text_of(bytes@),
{
    match str_from_utf8(bytes) {
        Some(text) => {
            proof {
                encode_utf8_decode_utf8(text@);
            }
            text
        },
        None => "non valid utf-8",
    }
}

/// Whether `location` lies within a buffer of `len` bytes.
fn location_fits(location: &XmlLocation, len: usize) -> (r: bool)
    ensures
        r == location_within(*location, len as int),
{
    location.start <= location.end && location.end as usize <= len
}

impl Document {
    /// Well-formedness of the document, see `DocumentView::wf`.
    pub open spec fn wf(&self) -> bool {
        self@.wf()
    }

    /// The links of node `n` point to nodes of the document.
    pub proof fn lemma_links(&self, n: NodeIdx)
        requires
            self.wf(),
            n < self.nodes@.len(),
        ensures
            self.nodes@[n as int].parent_idx < self.nodes@.len(),
            self.nodes@[n as int].first_child < self.nodes@.len(),
            self.nodes@[n as int].next_sibling < self.nodes@.len(),
            self.nodes@[n as int].prev_sibling < self.nodes@.len(),
            n > 0 ==> self.nodes@[n as int].parent_idx < n,
    {
        if n > 0 {
            assert(link_ok(self.nodes@, n as int));
        }
    }

    /// Whether the links of node `i`, which is not the head, agree with those
    /// of the nodes they point to.
    fn links_agree(&self, i: usize) -> (r: bool)
        requires
            1 <= i < self.nodes@.len() <= NodeIdx::MAX,
        ensures
            r == link_ok(self.nodes@, i as int),
    {
        let len = self.nodes.len();
        let node = &self.nodes[i];
        let p = node.parent_idx as usize;
        let q = node.prev_sibling as usize;
        let s = node.next_sibling as usize;
        let c = node.first_child as usize;
        if p >= i || q < 1 || q >= len {
            return false;
        }
        if let NodeType::Head = node.node_type {
            return false;
        }
        if self.nodes[p].is_text() {
            return false;
        }
        if s != 0 && (s <= i || s >= len || self.nodes[s].parent_idx as usize != p
            || self.nodes[s].prev_sibling as usize != i) {
            return false;
        }
        if c != 0 && (c <= i || c >= len || self.nodes[c].parent_idx as usize != i) {
            return false;
        }
        if self.nodes[q].parent_idx as usize != p {
            return false;
        }
        if self.nodes[p].first_child as usize == i {
            i <= q && self.nodes[q].next_sibling == 0
        } else {
            q < i && self.nodes[q].next_sibling as usize == i
        }
    }

    /// Whether the payload of node `i` lies within the buffer and the attribute array.
    fn payload_fits(&self, i: usize) -> (r: bool)
        requires
            i < self.nodes@.len(),
        ensures
            r == self.nodes@[i as int].node_type.within(
                self.xml@.len() as int,
                self.attributes@.len() as int,
            ),
    {
        match &self.nodes[i].node_type {
            NodeType::Head => true,
            NodeType::Element { name, attributes } => location_fits(name, self.xml.len())
                && attributes.start <= attributes.end && attributes.end as usize
                <= self.attributes.len(),
            NodeType::Text(location) => location_fits(location, self.xml.len()),
        }
    }

    /// Whether the head stands at index 0, outside every chain of siblings.
    fn head_agrees(&self) -> (r: bool)
        ensures
            r == head_ok(self.nodes@),
    {
        if self.nodes.len() < 1 {
            return false;
        }
        let head = &self.nodes[0];
        let c = head.first_child as usize;
        let is_head = match head.node_type {
            NodeType::Head => true,
            _ => false,
        };
        is_head && head.parent_idx == 0 && head.next_sibling == 0 && head.prev_sibling == 0 && (c
            == 0 || (c < self.nodes.len() && self.nodes[c].parent_idx == 0))
    }

    /// Whether the document is well-formed. A document that the parser has
    /// built is; one that was put together or changed by hand may not be.
    pub fn is_well_formed(&self) -> (r: bool)
        ensures
            r == self.wf(),
    {
        if !self.head_agrees() || self.nodes.len() > NodeIdx::MAX as usize || self.attributes.len()
            > AttrIdx::MAX as usize || self.xml.len() > XmlIdx::MAX as usize {
            return false;
        }
        let mut i: usize = 0;
        while i < self.nodes.len()
            invariant
                i <= self.nodes@.len() <= NodeIdx::MAX,
                forall|j: int| 1 <= j < i ==> #[trigger] link_ok(self.nodes@, j),
                forall|j: int|
                    0 <= j < i ==> (#[trigger] self.nodes@[j]).node_type.within(
                        self.xml@.len() as int,
                        self.attributes@.len() as int,
                    ),
            decreases self.nodes@.len() - i,
        {
            if (i > 0 && !self.links_agree(i)) || !self.payload_fits(i) {
                return false;
            }
            i += 1;
        }
        let mut k: usize = 0;
        while k < self.attributes.len()
            invariant
                k <= self.attributes@.len(),
                forall|j: int|
                    0 <= j < k ==> location_within(
                        (#[trigger] self.attributes@[j]).name,
                        self.xml@.len() as int,
                    ) && location_within(self.attributes@[j].value, self.xml@.len() as int),
            decreases self.attributes@.len() - k,
        {
            if !location_fits(&self.attributes[k].name, self.xml.len()) || !location_fits(
                &self.attributes[k].value,
                self.xml.len(),
            ) {
                return false;
            }
            k += 1;
        }
        true
    }

    /// Whether the document holds no node but the head.
    pub fn is_empty(&self) -> (r: bool)
        ensures
            r == (self.nodes@.len() <= 1),
    {
        self.nodes.len() <= 1
    }

    /// The index of the last node, 0 where the document is empty.
    pub fn last_node_idx(&self) -> (r: NodeIdx)
        requires
            self.wf(),
        ensures
            r == self.nodes@.len() - 1,
    {
        if self.is_empty() {
            0
        } else {
            (self.nodes.len() - 1) as NodeIdx
        }
    }

    /// The buffer of the document.
    pub fn get_xml_content(&mut self) -> (r: &Vec<u8>)
        ensures
            *r == old(self).xml,
            *final(self) == *old(self),
    {
        &self.xml
    }

    /// Appends a node with payload `node_type` as the last child of
    /// `parent_idx`, whose last child so far is `last_child_idx`, and returns
    /// its index. The children of every other node stay what they were.
    /// An element starts with an empty run of attributes at the end of the
    /// attribute array, whatever run its payload names. Fails with
    /// `NoMoreSpace` where the index space is used up, and with
    /// `InternalError` where the parent is no node or a text, where the
    /// payload is that of a head or its name or content reaches beyond the
    /// buffer, or where `last_child_idx` is not the last child of the parent.
    /// On failure the document is left as it was.
    pub fn add_node(&mut self, parent_idx: NodeIdx, last_child_idx: NodeIdx, node_type: NodeType) -> (r:
        Result<NodeIdx, ParseXmlError>)
        requires
            old(self).wf(),
        ensures
            final(self).wf(),
            same_outcome(
                old(self)@,
                final(self)@,
                r,
                old(self)@.node_added(parent_idx, last_child_idx, node_type),
            ),
            r matches Ok(idx) ==> idx == old(self).nodes@.len(),
            r is Ok ==> children_of(final(self).nodes@, parent_idx as int) == children_of(
                old(self).nodes@,
                parent_idx as int,
            ).push(old(self).nodes@.len() as NodeIdx),
            r is Ok ==> forall|q: int|
                0 <= q < old(self).nodes@.len() && q != parent_idx ==> #[trigger] children_of(
                    final(self).nodes@,
                    q,
                ) == children_of(old(self).nodes@, q),
    {
        if self.nodes.len() >= NodeIdx::MAX as usize {
            return Err(ParseXmlError::NoMoreSpace);
        }
        let node_idx = self.nodes.len() as NodeIdx;
        let attr_len = self.attributes.len() as AttrIdx;
        if parent_idx as usize >= self.nodes.len() || self.nodes[parent_idx as usize].is_text() {
            return Err(ParseXmlError::InternalError);
        }
        let stored = match node_type {
            NodeType::Head => {
                return Err(ParseXmlError::InternalError);
            },
            NodeType::Element { name, attributes } => {
                if !location_fits(&name, self.xml.len()) {
                    return Err(ParseXmlError::InternalError);
                }
                NodeType::Element { name, attributes: attr_len..attr_len }
            },
            NodeType::Text(location) => {
                if !location_fits(&location, self.xml.len()) {
                    return Err(ParseXmlError::InternalError);
                }
                NodeType::Text(location)
            },
        };
        let first_child_idx = self.nodes[parent_idx as usize].first_child_idx();
        let mut node_info = NodeInfo::new(node_idx, parent_idx, stored);
        proof {
            lemma_linked_wf(self.nodes@, parent_idx, stored);
            lemma_linked_children(self.nodes@, parent_idx, stored);
            if first_child_idx != 0 {
                if parent_idx > 0 {
                    assert(link_ok(self.nodes@, parent_idx as int));
                }
                assert(link_ok(self.nodes@, first_child_idx as int));
            }
        }
        if first_child_idx == 0 {
            self.nodes[parent_idx as usize].set_first_child_idx(node_idx);
        } else {
            if self.nodes[first_child_idx as usize].prev_sibling_idx() != last_child_idx {
                return Err(ParseXmlError::InternalError);
            }
            self.nodes[last_child_idx as usize].set_next_sibling_idx(node_idx);
            self.nodes[first_child_idx as usize].set_prev_sibling_idx(node_idx);
            node_info.set_prev_sibling_idx(last_child_idx);
        }
        self.nodes.push(node_info);
        proof {
            assert(self.nodes@ =~= linked(old(self).nodes@, parent_idx, stored));
        }
        Ok(node_idx)
    }

    /// Appends an attribute with the given places to the run of element
    /// `node_idx` and returns its index. Fails with `InternalError` where
    /// `node_idx` is no element, where its run does not end at the end of the
    /// attribute array, or where a place reaches beyond the buffer, and else
    /// with `NoMoreSpace` where the index space is used up. On failure the
    /// document is left as it was.
    pub fn add_attribute(&mut self, node_idx: NodeIdx, name: XmlLocation, value: XmlLocation) -> (r:
        Result<AttrIdx, ParseXmlError>)
        requires
            old(self).wf(),
        ensures
            final(self).wf(),
            same_outcome(
                old(self)@,
                final(self)@,
                r,
                old(self)@.attribute_added(node_idx, name, value),
            ),
            r matches Ok(idx) ==> idx == old(self).attributes@.len(),
    {
        if node_idx as usize >= self.nodes.len() || !location_fits(&name, self.xml.len())
            || !location_fits(&value, self.xml.len()) {
            return Err(ParseXmlError::InternalError);
        }
        let extended = match self.nodes[node_idx as usize].node_type() {
            NodeType::Element { name: tag, attributes } => {
                if attributes.end as usize != self.attributes.len() {
                    return Err(ParseXmlError::InternalError);
                }
                if self.attributes.len() >= AttrIdx::MAX as usize {
                    return Err(ParseXmlError::NoMoreSpace);
                }
                NodeType::Element {
                    name: Range { start: tag.start, end: tag.end },
                    attributes: attributes.start..(attributes.end + 1),
                }
            },
            _ => {
                return Err(ParseXmlError::InternalError);
            },
        };
        proof {
            if node_idx > 0 {
                assert(link_ok(self.nodes@, node_idx as int));
            }
        }
        self.nodes[node_idx as usize].set_node_type(extended);
        self.attributes.push(AttributeInfo::new(name, value));
        proof {
            let before = old(self).nodes@;
            let after = self.nodes@;
            assert forall|i: int| 1 <= i < after.len() implies #[trigger] link_ok(after, i) by {
                assert(link_ok(before, i));
            }
            assert forall|i: int| 0 <= i < after.len() implies (#[trigger] after[i]).node_type.within(
                self.xml@.len() as int,
                self.attributes@.len() as int,
            ) by {
                assert(before[i].node_type.within(
                    self.xml@.len() as int,
                    old(self).attributes@.len() as int,
                ));
            }
            let added = old(self)@.attribute_added(node_idx, name, value)->Ok_0;
            assert(self@.attributes =~= added.attributes);
        }
        Ok((self.attributes.len() - 1) as AttrIdx)
    }

    /// The text of the buffer at `location`, or `"non valid utf-8"` where the bytes there are no text.
    pub fn get_str_from_location(&self, location: XmlLocation) -> (r: &str)
        requires
            location_within(location, self.xml@.len() as int),
        ensures
            r@ == text_of(self.xml@.subrange(location.start as int, location.end as int)),
    {
        bytes_to_str(
            slice_subrange(self.xml.as_slice(), location.start as usize, location.end as usize),
        )
    }

    /// The root element, if the document has one.
    pub fn root(&self) -> (r: Option<Node<'_>>)
        requires
            self.wf(),
        ensures
            r == if self.nodes@.len() > 1 {
                Some(node_at(self, 1))
            } else {
                None
            },
            r matches Some(node) ==> node.wf(),
    {
        if self.nodes.len() > 1 {
            Some(Node::new(1, &self.nodes[1], self))
        } else {
            None
        }
    }

    /// The node with index `node_idx`, or an error where there is none.
    pub fn get_node(&self, node_idx: NodeIdx) -> (r: Result<Node<'_>, ParseXmlError>)
        requires
            self.wf(),
        ensures
            match r {
                Ok(node) => self@.has_node(node_idx) && node == node_at(self, node_idx)
                    && node.wf(),
                Err(e) => !self@.has_node(node_idx) && e@ == invalid_index(node_idx),
            },
    {
        if node_idx as usize >= self.nodes.len() {
            let mut msg = String::from_str("Invalid node index: ");
            push_decimal(&mut msg, node_idx as usize);
            return Err(ParseXmlError::InvalidXml(msg));
        }
        Ok(Node::new(node_idx, &self.nodes[node_idx as usize], self))
    }

    /// A walk over all nodes of the document but the head, in document order.
    pub fn all_nodes(&self) -> (r: Nodes<'_>)
        requires
            self.wf(),
        ensures
            r.wf(),
            r.on(self),
            r.remaining() == if self.nodes@.len() > 1 {
                index_run(1, (self.nodes@.len() - 1) as NodeIdx)
            } else {
                Seq::empty()
            },
    {
        Nodes::new(self)
    }

    /// A walk over the nodes of the subtree of node `node_idx`, the node itself left out.
    pub fn descendants(&self, node_idx: NodeIdx) -> (r: Nodes<'_>)
        requires
            self.wf(),
        ensures
            r.wf(),
            r.on(self),
            r.remaining() == self@.descendants_of(node_idx),
    {
        Nodes::descendants(self, node_idx)
    }

    /// The last node of the subtree of node `node_idx`, if it has children and is not the head.
    pub fn last_descendant(&self, node_idx: NodeIdx) -> (r: Option<NodeIdx>)
        requires
            self.wf(),
        ensures
            r == self@.last_descendant_of(node_idx),
            r matches Some(last) ==> node_idx < last < self.nodes@.len(),
    {
        if node_idx == 0 || node_idx as usize >= self.nodes.len()
            || self.nodes[node_idx as usize].first_child_idx() == 0 {
            return None;
        }
        let mut up = node_idx;
        proof {
            lemma_subtree_end(self.nodes@, node_idx as int);
        }
        loop
            invariant
                self.wf(),
                0 < up <= node_idx < self.nodes@.len(),
                self.nodes@[node_idx as int].first_child != 0,
                subtree_end(self.nodes@, up as int) == subtree_end(self.nodes@, node_idx as int),
                0 < subtree_end(self.nodes@, node_idx as int) <= self.nodes@.len(),
            decreases up,
        {
            proof {
                assert(link_ok(self.nodes@, up as int));
                assert(subtree_end(self.nodes@, 0) == self.nodes@.len());
            }
            let next = self.nodes[up as usize].next_sibling_idx();
            let end: usize = if next != 0 {
                next as usize
            } else if self.nodes[up as usize].parent_idx == 0 {
                self.nodes.len()
            } else {
                up = self.nodes[up as usize].parent_idx;
                continue ;
            };
            return if end > node_idx as usize + 1 {
                Some((end - 1) as NodeIdx)
            } else {
                None
            };
        }
    }

    /// The node after node `current` in document order.
    pub fn next_seq_node(&self, current: NodeIdx) -> (r: Option<Node<'_>>)
        requires
            self.wf(),
        ensures
            r == if current + 1 < self.nodes@.len() {
                Some(node_at(self, (current + 1) as NodeIdx))
            } else {
                None
            },
            r matches Some(node) ==> node.wf(),
    {
        if (current as usize) + 1 < self.nodes.len() {
            let next = current + 1;
            Some(Node::new(next, &self.nodes[next as usize], self))
        } else {
            None
        }
    }

    /// The node before node `current` in document order, the head left out.
    pub fn previous_seq_node(&self, current: NodeIdx) -> (r: Option<Node<'_>>)
        requires
            self.wf(),
        ensures
            r == if 1 < current <= self.nodes@.len() {
                Some(node_at(self, (current - 1) as NodeIdx))
            } else {
                None
            },
            r matches Some(node) ==> node.wf(),
    {
        if current > 1 && current as usize <= self.nodes.len() {
            let previous = current - 1;
            Some(Node::new(previous, &self.nodes[previous as usize], self))
        } else {
            None
        }
    }
}

/// The indices from `first` to `last`, in rising order.
pub open spec fn index_run(first: NodeIdx, last: NodeIdx) -> Seq<NodeIdx> {
    Seq::new((last - first + 1) as nat, |i: int| (first + i) as NodeIdx)
}

/// A walk over nodes in document order, from either end.
pub struct Nodes<'a> {
    /// The next node from the front.
    pub front: Option<Node<'a>>,
    /// The next node from the back.
    pub back: Option<Node<'a>>,
}

impl<'a> Nodes<'a> {
    /// The walk is over a run of nodes of a well-formed document.
    pub open spec fn wf(&self) -> bool {
        match (self.front, self.back) {
            (Some(f), Some(b)) => f.wf() && b.wf() && f.doc == b.doc && 1 <= f.idx <= b.idx,
            (None, None) => true,
            _ => false,
        }
    }

    /// The indices of the nodes that the walk has not come to yet.
    pub open spec fn remaining(&self) -> Seq<NodeIdx> {
        match (self.front, self.back) {
            (Some(f), Some(b)) => index_run(f.idx, b.idx),
            _ => Seq::empty(),
        }
    }

    /// Whether the nodes that the walk has not come to yet are nodes of `doc`.
    pub open spec fn on(&self, doc: &Document) -> bool {
        &&& self.front matches Some(f) ==> f.doc == doc
        &&& self.back matches Some(b) ==> b.doc == doc
    }

    /// The walk over all nodes of `document` but the head.
    pub fn new(document: &'a Document) -> (r: Self)
        requires
            document.wf(),
        ensures
            r.wf(),
            r.remaining() == if document.nodes@.len() > 1 {
                index_run(1, (document.nodes@.len() - 1) as NodeIdx)
            } else {
                Seq::empty()
            },
            r.on(document),
    {
        let last = document.last_node_idx();
        if last == 0 {
            return Nodes { front: None, back: None };
        }
        Nodes {
            front: Some(Node::new(1, &document.nodes[1], document)),
            back: Some(Node::new(last, &document.nodes[last as usize], document)),
        }
    }

    /// The walk over the nodes of the subtree of node `node_idx` of `document`, the node itself left out.
    pub fn descendants(document: &'a Document, node_idx: NodeIdx) -> (r: Self)
        requires
            document.wf(),
        ensures
            r.wf(),
            r.remaining() == document@.descendants_of(node_idx),
            r.on(document),
    {
        match document.last_descendant(node_idx) {
            None => Nodes { front: None, back: None },
            Some(last) => {
                let first = node_idx + 1;
                Nodes {
                    front: Some(Node::new(first, &document.nodes[first as usize], document)),
                    back: Some(Node::new(last, &document.nodes[last as usize], document)),
                }
            },
        }
    }

    /// The next node from the front.
    pub fn next(&mut self) -> (r: Option<Node<'a>>)
        requires
            old(self).wf(),
        ensures
            final(self).wf(),
            match r {
                Some(node) => old(self).remaining().len() > 0 && node.idx
                    == old(self).remaining()[0] && node.wf() && old(self).front == Some(node)
                    && final(self).remaining() == old(self).remaining().drop_first()
                    && final(self).on(node.doc),
                None => old(self).remaining().len() == 0 && final(self).remaining().len() == 0,
            },
    {
        match (self.front, self.back) {
            (Some(f), Some(b)) => {
                if f.idx == b.idx {
                    self.front = None;
                    self.back = None;
                } else {
                    self.front = f.doc.next_seq_node(f.idx);
                }
                proof {
                    assert(self.remaining() =~= old(self).remaining().drop_first());
                }
                Some(f)
            },
            _ => None,
        }
    }

    /// The next node from the back.
    pub fn next_back(&mut self) -> (r: Option<Node<'a>>)
        requires
            old(self).wf(),
        ensures
            final(self).wf(),
            match r {
                Some(node) => old(self).remaining().len() > 0 && node.idx
                    == old(self).remaining().last() && node.wf() && old(self).back == Some(node)
                    && final(self).remaining() == old(self).remaining().drop_last()
                    && final(self).on(node.doc),
                None => old(self).remaining().len() == 0 && final(self).remaining().len() == 0,
            },
    {
        match (self.front, self.back) {
            (Some(f), Some(b)) => {
                if f.idx == b.idx {
                    self.front = None;
                    self.back = None;
                } else {
                    self.back = b.doc.previous_seq_node(b.idx);
                }
                proof {
                    assert(self.remaining() =~= old(self).remaining().drop_last());
                }
                Some(b)
            },
            _ => None,
        }
    }

    /// The nodes that are left, from the front.
    pub fn collect(self) -> (r: Vec<Node<'a>>)
        requires
            self.wf(),
        ensures
            r@.len() == self.remaining().len(),
            forall|i: int|
                0 <= i < r@.len() ==> (#[trigger] r@[i]).idx == self.remaining()[i] && r@[i].wf(),
            forall|i: int|
                0 <= i < r@.len() ==> self.front is Some && (#[trigger] r@[i]) == node_at(
                    self.front->Some_0.doc,
                    self.remaining()[i],
                ),
    {
        let mut walk = self;
        let mut all: Vec<Node<'a>> = Vec::new();
        loop
            invariant
                walk.wf(),
                all@.len() + walk.remaining().len() == self.remaining().len(),
                walk.remaining() == self.remaining().skip(all@.len() as int),
                self.front matches Some(f) ==> walk.on(f.doc),
                walk.remaining().len() > 0 ==> self.front is Some,
                forall|i: int|
                    0 <= i < all@.len() ==> (#[trigger] all@[i]).idx == self.remaining()[i]
                        && all@[i].wf(),
                forall|i: int|
                    0 <= i < all@.len() ==> self.front is Some && (#[trigger] all@[i])
                        == node_at(self.front->Some_0.doc, self.remaining()[i]),
            decreases walk.remaining().len(),
        {
            match walk.next() {
                Some(node) => {
                    all.push(node);
                    proof {
                        assert(walk.remaining() =~= self.remaining().skip(all@.len() as int));
                    }
                },
                None => {
                    return all;
                },
            }
        }
    }

    /// How many nodes are left.
    pub fn count(self) -> (r: usize)
        requires
            self.wf(),
        ensures
            r == self.remaining().len(),
    {
        self.collect().len()
    }
}

/// The error of a node index that is none.
pub open spec fn invalid_index(node_idx: NodeIdx) -> ParseFailure {
    ParseFailure::InvalidXml("Invalid node index: "@ + crate::report::decimal_text(node_idx as nat))
}

} // verus!
