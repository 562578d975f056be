//! What the parser keeps from step to step: the document is well-formed, the
//! stack names the open elements and their last children, and each step
//! leaves fewer steps to go. So the parser ends, and what it ends with is a
//! document with a root element or an error of the input.

use vstd::prelude::*;
use vstd::string::StringSliceAdditionalSpecFns;
use crate::chartype::{Chartype, is_name_start};
use crate::defs::{AttrIdx, NodeIdx, ParseFailure, XmlIdx, XmlLocation};
use crate::document::{DocumentView, lemma_attribute_added, lemma_node_added};
use crate::machine::{
    EQUAL,
    GREATER_THAN,
    INSTRUCTION_WINDOW,
    LEFT_BRACKET,
    LESS_THAN,
    MARKUP_WINDOW,
    Machine,
    Parent,
    ParseOptions,
    RIGHT_BRACKET,
    State,
    doctype_end,
    markup_end,
    stored_name,
    stored_text,
    top,
};
use crate::node_type::{NodeType, location_within};
use crate::order::{
    document_order,
    hangs_on_path,
    lemma_order_grows,
    lemma_parent_on_path,
    lemma_path_joins,
    lemma_same_paths,
    on_path,
};
use crate::parser::{parsed, preflight, unparsed};
use crate::scan::{
    Stop,
    after_occurrence,
    count_of,
    find_from,
    lemma_first_occurrence,
    lemma_first_stop,
};
use crate::text::{
    attr_value,
    lemma_attr_len,
    lemma_line_len,
    lemma_local_name,
    lemma_overwrite,
    lemma_pcdata_len,
    overwrite,
    trimmed_end,
};
use crate::tree::link_ok;

verus! {

/// The document has a root element: node 1, the only child of the head.
pub open spec fn has_root(doc: DocumentView) -> bool {
    &&& doc.nodes.len() >= 2
    &&& doc.nodes[0].first_child == 1
    &&& doc.nodes[1].node_type is Element
    &&& doc.nodes[1].next_sibling == 0
}

/// Entry `k` of the stack names an element, a child of the element that the
/// entry below it names, and the last of the element's children, if it has any.
pub open spec fn entry_ok(doc: DocumentView, stack: Seq<Parent>, k: int) -> bool {
    let e = stack[k];
    let first = doc.nodes[e.parent_idx as int].first_child;
    &&& 1 <= e.parent_idx < doc.nodes.len()
    &&& doc.nodes[e.parent_idx as int].node_type is Element
    &&& first != 0 ==> e.last_child_idx == doc.nodes[first as int].prev_sibling
    &&& k > 0 ==> stack[k - 1].parent_idx < e.parent_idx && doc.nodes[e.parent_idx as int].parent_idx
        == stack[k - 1].parent_idx
}

/// Attribute `k` is in the run of node `i`, which is an element.
pub open spec fn owns(doc: DocumentView, i: int, k: int) -> bool {
    doc.nodes[i].node_type matches NodeType::Element { attributes, .. } && attributes.start <= k
        < attributes.end
}

/// Attribute `k` is in the run of an element.
pub open spec fn has_owner(doc: DocumentView, k: int) -> bool {
    exists|i: int| 0 <= i < doc.nodes.len() && #[trigger] owns(doc, i, k)
}

/// The runs of attributes follow each other in the order of their elements,
/// and each attribute is in the run of an element.
pub open spec fn attribute_runs(doc: DocumentView) -> bool {
    &&& forall|i: int, j: int|
        0 <= i < j < doc.nodes.len() && (#[trigger] doc.nodes[i]).node_type is Element
            && (#[trigger] doc.nodes[j]).node_type is Element
            ==> doc.nodes[i].node_type->attributes.end <= doc.nodes[j].node_type->attributes.start
    &&& forall|k: int| 0 <= k < doc.attributes.len() ==> #[trigger] has_owner(doc, k)
}

/// Where the name of an element or the content of a text starts.
pub open spec fn place_start(node_type: NodeType) -> int {
    match node_type {
        NodeType::Element { name, .. } => name.start as int,
        NodeType::Text(location) => location.start as int,
        NodeType::Head => 0,
    }
}

/// Where the name of an element or the content of a text ends.
pub open spec fn place_end(node_type: NodeType) -> int {
    match node_type {
        NodeType::Element { name, .. } => name.end as int,
        NodeType::Text(location) => location.end as int,
        NodeType::Head => 0,
    }
}

/// No two ranges that the document has recorded overlap: the names of
/// elements, the contents of texts and the names and values of attributes
/// follow each other in the buffer in the order of the document, each
/// attribute after the name of its element and before the node that comes next.
pub open spec fn ranges_apart(doc: DocumentView) -> bool {
    &&& forall|i: int, j: int|
        1 <= i < j < doc.nodes.len() ==> place_end((#[trigger] doc.nodes[i]).node_type)
            <= place_start((#[trigger] doc.nodes[j]).node_type)
    &&& forall|a: int|
        0 <= a < doc.attributes.len() ==> (#[trigger] doc.attributes[a]).name.end
            <= doc.attributes[a].value.start
    &&& forall|a: int, b: int|
        0 <= a < b < doc.attributes.len() ==> (#[trigger] doc.attributes[a]).value.end <= (
        #[trigger] doc.attributes[b]).name.start
    &&& forall|j: int, o: int, a: int|
        1 <= j <= o < doc.nodes.len() && 0 <= a < doc.attributes.len() && #[trigger] owns(doc, o, a)
            ==> place_end((#[trigger] doc.nodes[j]).node_type) <= doc.attributes[a].name.start
    &&& forall|j: int, o: int, a: int|
        0 <= o < j < doc.nodes.len() && 0 <= a < doc.attributes.len() && #[trigger] owns(doc, o, a)
            ==> doc.attributes[a].value.end <= place_start((#[trigger] doc.nodes[j]).node_type)
}

/// Every range that the document has recorded lies before `pos`.
pub open spec fn settled(doc: DocumentView, pos: int) -> bool {
    &&& forall|i: int|
        0 <= i < doc.nodes.len() ==> (#[trigger] doc.nodes[i]).node_type.within(
            pos,
            doc.attributes.len() as int,
        )
    &&& forall|i: int|
        0 <= i < doc.attributes.len() ==> location_within((#[trigger] doc.attributes[i]).name, pos)
            && location_within(doc.attributes[i].value, pos)
}

/// Payload `after` is payload `before`, but for attributes that an element has got since.
pub open spec fn same_place(before: NodeType, after: NodeType) -> bool {
    match before {
        NodeType::Head => after is Head,
        NodeType::Element { name, attributes } => after is Element && after->name == name
            && after->attributes.start == attributes.start && attributes.end
            <= after->attributes.end,
        NodeType::Text(location) => after == NodeType::Text(location),
    }
}

/// Document `after` continues document `before`, which had come to position
/// `pos`: the buffer before `pos` is as it was, each node is where it was and
/// has the parent it had, and each attribute is as it was.
pub open spec fn continues(before: DocumentView, after: DocumentView, pos: int) -> bool {
    &&& after.xml.len() == before.xml.len()
    &&& forall|j: int| 0 <= j < pos ==> #[trigger] after.xml[j] == before.xml[j]
    &&& before.nodes.len() <= after.nodes.len()
    &&& forall|i: int|
        0 <= i < before.nodes.len() ==> same_place(
            before.nodes[i].node_type,
            (#[trigger] after.nodes[i]).node_type,
        ) && after.nodes[i].parent_idx == before.nodes[i].parent_idx
    &&& before.attributes.len() <= after.attributes.len()
    &&& forall|i: int|
        0 <= i < before.attributes.len() ==> #[trigger] after.attributes[i] == before.attributes[i]
}

/// A document that continues one that continues a third continues the third.
pub proof fn lemma_continues(a: DocumentView, b: DocumentView, c: DocumentView, p: int, q: int)
    requires
        continues(a, b, p),
        continues(b, c, q),
        p <= q,
    ensures
        continues(a, c, p),
{
    assert forall|i: int| 0 <= i < a.nodes.len() implies same_place(
        a.nodes[i].node_type,
        (#[trigger] c.nodes[i]).node_type,
    ) && c.nodes[i].parent_idx == a.nodes[i].parent_idx by {
        assert(same_place(a.nodes[i].node_type, b.nodes[i].node_type));
        assert(same_place(b.nodes[i].node_type, c.nodes[i].node_type));
    }
    assert forall|i: int| 0 <= i < a.attributes.len() implies #[trigger] c.attributes[i]
        == a.attributes[i] by {
        assert(b.attributes[i] == a.attributes[i]);
    }
    assert forall|j: int| 0 <= j < p implies #[trigger] c.xml[j] == a.xml[j] by {
        assert(b.xml[j] == a.xml[j]);
    }
}

/// What a document has recorded reads the same in a document that continues
/// it: the names of its elements, the contents of its texts, and the names
/// and values of its attributes.
pub proof fn lemma_continues_reads(before: DocumentView, after: DocumentView, pos: int)
    requires
        settled(before, pos),
        continues(before, after, pos),
        pos <= before.xml.len(),
    ensures
        forall|n: NodeIdx|
            n < before.nodes.len() ==> #[trigger] after.tag_name_of(n) == before.tag_name_of(n)
                && after.text_of_node(n) == before.text_of_node(n),
        forall|i: int|
            0 <= i < before.attributes.len() ==> after.bytes_at((#[trigger] after.attributes[i]).name)
                == before.bytes_at(before.attributes[i].name) && after.bytes_at(
                after.attributes[i].value,
            ) == before.bytes_at(before.attributes[i].value),
{
    assert forall|n: NodeIdx| n < before.nodes.len() implies #[trigger] after.tag_name_of(n)
        == before.tag_name_of(n) && after.text_of_node(n) == before.text_of_node(n) by {
        let old_type = before.nodes[n as int].node_type;
        let new_type = after.nodes[n as int].node_type;
        assert(same_place(old_type, new_type));
        assert(old_type.within(pos, before.attributes.len() as int));
        match old_type {
            NodeType::Element { name, .. } => {
                assert(after.bytes_at(name) =~= before.bytes_at(name));
            },
            NodeType::Text(location) => {
                assert(after.bytes_at(location) =~= before.bytes_at(location));
            },
            NodeType::Head => {},
        }
    }
    assert forall|i: int| 0 <= i < before.attributes.len() implies after.bytes_at(
        (#[trigger] after.attributes[i]).name,
    ) == before.bytes_at(before.attributes[i].name) && after.bytes_at(after.attributes[i].value)
        == before.bytes_at(before.attributes[i].value) by {
        let a = before.attributes[i];
        assert(after.attributes[i] == a);
        assert(location_within(a.name, pos) && location_within(a.value, pos));
        assert(after.bytes_at(a.name) =~= before.bytes_at(a.name));
        assert(after.bytes_at(a.value) =~= before.bytes_at(a.value));
    }
}

impl Machine {
    /// What holds between the steps of the parser. Before the root element
    /// is open the document holds the head alone; from then on it has a root
    /// element, which is the lowest entry of the stack as long as it is open.
    /// While the attributes of an element are read, the element is the last
    /// node and its run of attributes ends at the end of the attribute array.
    /// Every recorded range lies before the position, and the runs of
    /// attributes follow each other. No two recorded ranges overlap. The
    /// nodes stand in document order, and the innermost open element is the
    /// last node or an ancestor of it.
    pub open spec fn inv(self) -> bool {
        &&& self.doc.wf()
        &&& 0 <= self.pos <= self.len()
        &&& settled(self.doc, self.pos)
        &&& attribute_runs(self.doc)
        &&& ranges_apart(self.doc)
        &&& document_order(self.doc.nodes)
        &&& self.stack.len() > 0 ==> on_path(
            self.doc.nodes,
            self.stack.last().parent_idx as int,
            self.doc.nodes.len() - 1,
        )
        &&& forall|k: int| 0 <= k < self.stack.len() ==> #[trigger] entry_ok(self.doc, self.stack, k)
        &&& if self.stack.len() == 0 && !(self.state is End) {
            self.doc.nodes.len() == 1
        } else {
            has_root(self.doc) && (self.stack.len() > 0 ==> self.stack[0].parent_idx == 1)
        }
        &&& self.state is End ==> self.stack.len() == 0
        &&& self.state is ReadAttribute ==> self.stack.len() > 0 && self.stack.last().parent_idx
            == self.doc.nodes.len() - 1
            && self.doc.nodes[self.stack.last().parent_idx as int].node_type->attributes.end
            == self.doc.attributes.len()
    }
}

/// Whether a step from `before` kept what holds between steps, continued
/// the document and left fewer steps to go, or stopped at an error of the
/// input or of the index space.
pub open spec fn kept(before: Machine, after: Result<Machine, ParseFailure>) -> bool {
    match after {
        Ok(next) => next.inv() && next.measure() < before.measure() && before.pos <= next.pos
            && continues(before.doc, next.doc, before.pos),
        Err(e) => e is InvalidXml || e is NoMoreSpace,
    }
}

/// A rewrite of the buffer from the position on that keeps its length keeps
/// what holds between steps.
pub proof fn lemma_same_len(m: Machine, xml: Seq<u8>)
    requires
        m.inv(),
        xml.len() == m.len(),
        forall|j: int| 0 <= j < m.pos ==> #[trigger] xml[j] == m.doc.xml[j],
    ensures
        m.with_xml(xml).inv(),
        m.with_xml(xml).measure() == m.measure(),
        continues(m.doc, m.with_xml(xml).doc, m.pos),
{
    let after = m.with_xml(xml);
    assert forall|k: int| 0 <= k < after.stack.len() implies #[trigger] entry_ok(
        after.doc,
        after.stack,
        k,
    ) by {
        assert(entry_ok(m.doc, m.stack, k));
    }
    assert forall|i: int| 0 <= i < after.doc.nodes.len() implies (
    #[trigger] after.doc.nodes[i]).node_type.within(
        after.doc.xml.len() as int,
        after.doc.attributes.len() as int,
    ) by {
        assert(m.doc.nodes[i].node_type.within(
            m.doc.xml.len() as int,
            m.doc.attributes.len() as int,
        ));
    }
    assert forall|k: int| 0 <= k < after.doc.attributes.len() implies #[trigger] has_owner(
        after.doc,
        k,
    ) by {
        assert(has_owner(m.doc, k));
        let i = choose|i: int| 0 <= i < m.doc.nodes.len() && #[trigger] owns(m.doc, i, k);
        assert(owns(after.doc, i, k));
    }
    assert forall|j: int, o: int, a: int|
        1 <= j <= o < after.doc.nodes.len() && 0 <= a < after.doc.attributes.len()
            && #[trigger] owns(after.doc, o, a) implies place_end(
        (#[trigger] after.doc.nodes[j]).node_type,
    ) <= after.doc.attributes[a].name.start by {
        assert(owns(m.doc, o, a));
    }
    assert forall|j: int, o: int, a: int|
        0 <= o < j < after.doc.nodes.len() && 0 <= a < after.doc.attributes.len()
            && #[trigger] owns(after.doc, o, a) implies after.doc.attributes[a].value.end
        <= place_start((#[trigger] after.doc.nodes[j]).node_type) by {
        assert(owns(m.doc, o, a));
    }
}

/// Adding a node under the innermost open element keeps what holds between
/// steps, and fails only where the index space is used up.
pub proof fn lemma_with_node(m: Machine, node_type: NodeType, state: State, pos: int)
    requires
        m.inv(),
        !(m.state is End),
        m.pos <= pos <= m.len(),
        node_type.placed_within(pos),
        m.pos <= place_start(node_type),
        (node_type is Element && state is ReadAttribute) || (node_type is Text && m.stack.len() > 0
            && !(state is ReadAttribute) && !(state is End)),
    ensures
        match m.with_node(node_type, state, pos) {
            Ok(next) => next.inv() && continues(m.doc, next.doc, m.pos),
            Err(e) => e is NoMoreSpace,
        },
{
    let parent = top(m.stack).parent_idx;
    let last = top(m.stack).last_child_idx;
    let nodes = m.doc.nodes;
    if m.stack.len() > 0 {
        assert(entry_ok(m.doc, m.stack, m.stack.len() - 1));
        assert(link_ok(nodes, parent as int));
        assert(link_ok(nodes, 1));
    }
    if nodes.len() < NodeIdx::MAX {
        assert(m.doc.accepts_node(parent, last, node_type));
        lemma_node_added(m.doc, parent, last, node_type);
        let next = m.with_node(node_type, state, pos)->Ok_0;
        let idx = nodes.len() as NodeIdx;
        let first = nodes[parent as int].first_child as int;
        if first != 0 {
            assert(link_ok(nodes, first));
            assert(link_ok(nodes, nodes[first].prev_sibling as int));
        }
        assert forall|i: int| 0 <= i < next.doc.nodes.len() implies (
        #[trigger] next.doc.nodes[i]).node_type.within(pos, next.doc.attributes.len() as int) by {
            if i < nodes.len() {
                assert(nodes[i].node_type.within(m.pos, m.doc.attributes.len() as int));
            }
        }
        assert forall|i: int| 0 <= i < nodes.len() implies same_place(
            nodes[i].node_type,
            (#[trigger] next.doc.nodes[i]).node_type,
        ) && next.doc.nodes[i].parent_idx == nodes[i].parent_idx by {}
        assert forall|i: int, j: int|
            0 <= i < j < next.doc.nodes.len() && (#[trigger] next.doc.nodes[i]).node_type is Element
                && (#[trigger] next.doc.nodes[j]).node_type is Element implies (
        next.doc.nodes[i].node_type->attributes.end
            <= next.doc.nodes[j].node_type->attributes.start) by {
            assert(nodes[i].node_type.within(m.pos, m.doc.attributes.len() as int));
            if j < nodes.len() {
                assert(nodes[j].node_type is Element);
            }
        }
        assert forall|k: int| 0 <= k < next.doc.attributes.len() implies #[trigger] has_owner(
            next.doc,
            k,
        ) by {
            assert(has_owner(m.doc, k));
            let i = choose|i: int| 0 <= i < nodes.len() && #[trigger] owns(m.doc, i, k);
            assert(owns(next.doc, i, k));
        }
        lemma_apart_with_node(m, next.doc);
        let after = next.doc.nodes;
        assert(after[idx as int].parent_idx == parent);
        lemma_same_paths(nodes, after, parent as int, idx - 1);
        assert(hangs_on_path(after, idx as int)) by {
            if m.stack.len() == 0 {
                assert(on_path(after, 0, 0));
            }
        }
        lemma_order_grows(nodes, after);
        lemma_parent_on_path(after, idx as int);
        assert(on_path(after, idx as int, idx as int));
        assert forall|k: int| 0 <= k < next.stack.len() implies #[trigger] entry_ok(
            next.doc,
            next.stack,
            k,
        ) by {
            if k < m.stack.len() {
                assert(entry_ok(m.doc, m.stack, k));
                let p = m.stack[k].parent_idx as int;
                assert(link_ok(nodes, p));
                let c = nodes[p].first_child as int;
                if c != 0 {
                    assert(link_ok(nodes, c));
                }
                if k < m.stack.len() - 1 {
                    assert(entry_ok(m.doc, m.stack, k + 1));
                    lemma_rising(m, k, m.stack.len() - 1);
                }
            }
        }
    }
}

/// A node whose range starts at or after the position overlaps no recorded range.
pub proof fn lemma_apart_with_node(m: Machine, grown: DocumentView)
    requires
        m.inv(),
        grown.nodes.len() == m.doc.nodes.len() + 1,
        grown.attributes == m.doc.attributes,
        forall|i: int|
            0 <= i < m.doc.nodes.len() ==> (#[trigger] grown.nodes[i]).node_type
                == m.doc.nodes[i].node_type,
        m.pos <= place_start(grown.nodes.last().node_type),
        grown.nodes.last().node_type is Element ==> grown.nodes.last().node_type->attributes.start
            == grown.nodes.last().node_type->attributes.end,
    ensures
        ranges_apart(grown),
{
    let doc = m.doc;
    let n = doc.nodes.len() as int;
    assert forall|i: int, j: int| 1 <= i < j < grown.nodes.len() implies place_end(
        (#[trigger] grown.nodes[i]).node_type,
    ) <= place_start((#[trigger] grown.nodes[j]).node_type) by {
        assert(doc.nodes[i].node_type.within(m.pos, doc.attributes.len() as int));
        if j < n {
            assert(place_end(doc.nodes[i].node_type) <= place_start(doc.nodes[j].node_type));
        }
    }
    assert forall|j: int, o: int, a: int|
        1 <= j <= o < grown.nodes.len() && 0 <= a < grown.attributes.len() && #[trigger] owns(
            grown,
            o,
            a,
        ) implies place_end((#[trigger] grown.nodes[j]).node_type)
        <= grown.attributes[a].name.start by {
        if o < n {
            assert(owns(doc, o, a));
            assert(place_end(doc.nodes[j].node_type) <= doc.attributes[a].name.start);
        }
    }
    assert forall|j: int, o: int, a: int|
        0 <= o < j < grown.nodes.len() && 0 <= a < grown.attributes.len() && #[trigger] owns(
            grown,
            o,
            a,
        ) implies grown.attributes[a].value.end <= place_start(
        (#[trigger] grown.nodes[j]).node_type,
    ) by {
        assert(owns(doc, o, a));
        if j < n {
            assert(doc.attributes[a].value.end <= place_start(doc.nodes[j].node_type));
        } else {
            assert(location_within(doc.attributes[a].value, m.pos));
        }
    }
}

/// An attribute whose ranges start at or after the position overlaps no recorded range.
pub proof fn lemma_apart_with_attribute(m: Machine, grown: DocumentView, owner: int)
    requires
        m.inv(),
        m.state is ReadAttribute,
        owner == m.doc.nodes.len() - 1,
        grown.nodes.len() == m.doc.nodes.len(),
        grown.attributes.len() == m.doc.attributes.len() + 1,
        forall|i: int|
            0 <= i < m.doc.attributes.len() ==> #[trigger] grown.attributes[i]
                == m.doc.attributes[i],
        forall|i: int|
            0 <= i < m.doc.nodes.len() ==> same_place(
                m.doc.nodes[i].node_type,
                (#[trigger] grown.nodes[i]).node_type,
            ),
        forall|i: int|
            0 <= i < m.doc.nodes.len() && i != owner ==> (#[trigger] grown.nodes[i]).node_type
                == m.doc.nodes[i].node_type,
        grown.nodes[owner].node_type->attributes.end == grown.attributes.len(),
        m.doc.nodes[owner].node_type is Element,
        m.doc.nodes[owner].node_type->attributes.end == m.doc.attributes.len(),
        m.pos <= grown.attributes.last().name.start,
        grown.attributes.last().name.end <= grown.attributes.last().value.start,
    ensures
        ranges_apart(grown),
{
    let doc = m.doc;
    let n = doc.attributes.len() as int;
    assert forall|i: int| 0 <= i < doc.nodes.len() implies place_start(grown.nodes[i].node_type)
        == place_start(doc.nodes[i].node_type) && place_end(grown.nodes[i].node_type) == place_end(
        doc.nodes[i].node_type,
    ) by {
        assert(same_place(doc.nodes[i].node_type, grown.nodes[i].node_type));
    }
    assert forall|i: int, j: int| 1 <= i < j < grown.nodes.len() implies place_end(
        (#[trigger] grown.nodes[i]).node_type,
    ) <= place_start((#[trigger] grown.nodes[j]).node_type) by {
        assert(place_end(doc.nodes[i].node_type) <= place_start(doc.nodes[j].node_type));
    }
    assert forall|a: int| 0 <= a < grown.attributes.len() implies (#[trigger] grown.attributes[a]).name.end
        <= grown.attributes[a].value.start by {
        if a < n {
            assert(doc.attributes[a].name.end <= doc.attributes[a].value.start);
        }
    }
    assert forall|a: int, b: int| 0 <= a < b < grown.attributes.len() implies (
    #[trigger] grown.attributes[a]).value.end <= (#[trigger] grown.attributes[b]).name.start by {
        assert(location_within(doc.attributes[a].value, m.pos));
        if b < n {
            assert(doc.attributes[a].value.end <= doc.attributes[b].name.start);
        }
    }
    assert forall|j: int, o: int, a: int|
        1 <= j <= o < grown.nodes.len() && 0 <= a < grown.attributes.len() && #[trigger] owns(
            grown,
            o,
            a,
        ) implies place_end((#[trigger] grown.nodes[j]).node_type)
        <= grown.attributes[a].name.start by {
        assert(doc.nodes[j].node_type.within(m.pos, doc.attributes.len() as int));
        if a < n {
            assert(same_place(doc.nodes[o].node_type, grown.nodes[o].node_type));
            assert(owns(doc, o, a));
            assert(place_end(doc.nodes[j].node_type) <= doc.attributes[a].name.start);
        }
    }
    assert forall|j: int, o: int, a: int|
        0 <= o < j < grown.nodes.len() && 0 <= a < grown.attributes.len() && #[trigger] owns(
            grown,
            o,
            a,
        ) implies grown.attributes[a].value.end <= place_start(
        (#[trigger] grown.nodes[j]).node_type,
    ) by {
        assert(doc.nodes[o].node_type.within(m.pos, doc.attributes.len() as int));
        assert(owns(doc, o, a));
        assert(doc.attributes[a].value.end <= place_start(doc.nodes[j].node_type));
    }
}

/// The entries of the stack name later and later elements.
pub proof fn lemma_rising(m: Machine, i: int, j: int)
    requires
        m.inv(),
        0 <= i < j < m.stack.len(),
    ensures
        m.stack[i].parent_idx < m.stack[j].parent_idx,
    decreases j - i,
{
    assert(entry_ok(m.doc, m.stack, j));
    if i < j - 1 {
        lemma_rising(m, i, j - 1);
    }
}

/// Adding an attribute to the element whose attributes are read keeps what
/// holds between steps, and fails only where the index space is used up.
pub proof fn lemma_with_attribute(m: Machine, name: XmlLocation, value: XmlLocation, pos: int)
    requires
        m.inv(),
        m.state is ReadAttribute,
        m.pos <= pos <= m.len(),
        location_within(name, pos),
        location_within(value, pos),
        m.pos <= name.start,
        name.end <= value.start,
    ensures
        match m.doc.attribute_added(m.stack.last().parent_idx, name, value) {
            Ok(doc) => (Machine { doc, pos, ..m }).inv() && continues(m.doc, doc, m.pos),
            Err(e) => e is NoMoreSpace,
        },
{
    let owner = m.stack.last().parent_idx;
    assert(entry_ok(m.doc, m.stack, m.stack.len() - 1));
    if m.doc.attributes.len() < AttrIdx::MAX {
        assert(m.doc.accepts_attribute(owner, name, value));
        lemma_attribute_added(m.doc, owner, name, value);
        let doc = m.doc.attribute_added(owner, name, value)->Ok_0;
        let next = Machine { doc, pos, ..m };
        assert forall|k: int| 0 <= k < next.stack.len() implies #[trigger] entry_ok(
            next.doc,
            next.stack,
            k,
        ) by {
            assert(entry_ok(m.doc, m.stack, k));
            assert(link_ok(m.doc.nodes, m.stack[k].parent_idx as int));
        }
        assert(link_ok(m.doc.nodes, 1));
        assert forall|i: int| 0 <= i < doc.nodes.len() implies (
        #[trigger] doc.nodes[i]).node_type.within(pos, doc.attributes.len() as int) by {
            assert(m.doc.nodes[i].node_type.within(m.pos, m.doc.attributes.len() as int));
        }
        assert forall|i: int| 0 <= i < m.doc.nodes.len() implies same_place(
            m.doc.nodes[i].node_type,
            (#[trigger] doc.nodes[i]).node_type,
        ) && doc.nodes[i].parent_idx == m.doc.nodes[i].parent_idx by {}
        assert forall|i: int, j: int|
            0 <= i < j < doc.nodes.len() && (#[trigger] doc.nodes[i]).node_type is Element
                && (#[trigger] doc.nodes[j]).node_type is Element implies (
        doc.nodes[i].node_type->attributes.end <= doc.nodes[j].node_type->attributes.start) by {
            assert(m.doc.nodes[i].node_type is Element);
            assert(m.doc.nodes[j].node_type is Element);
        }
        assert forall|k: int| 0 <= k < doc.attributes.len() implies #[trigger] has_owner(doc, k) by {
            if k < m.doc.attributes.len() {
                assert(has_owner(m.doc, k));
                let i = choose|i: int| 0 <= i < m.doc.nodes.len() && #[trigger] owns(m.doc, i, k);
                assert(owns(doc, i, k));
            } else {
                assert(owns(doc, owner as int, k));
            }
        }
        lemma_order_grows(m.doc.nodes, doc.nodes);
        lemma_same_paths(m.doc.nodes, doc.nodes, owner as int, m.doc.nodes.len() - 1);
        lemma_apart_with_attribute(m, doc, owner as int);
    }
}

/// The end of the innermost open element keeps what holds between steps.
pub proof fn lemma_closed(m: Machine, pos: int)
    requires
        m.inv(),
        m.stack.len() > 0,
        m.pos <= pos <= m.len(),
    ensures
        m.closed(pos) is Ok,
        m.closed(pos)->Ok_0.inv(),
        m.closed(pos)->Ok_0.doc == m.doc,
        m.closed(pos)->Ok_0.pos == pos,
        !(m.closed(pos)->Ok_0.state is ReadStartOfTag),
{
    let next = m.closed(pos)->Ok_0;
    assert forall|k: int| 0 <= k < next.stack.len() implies #[trigger] entry_ok(
        next.doc,
        next.stack,
        k,
    ) by {
        assert(entry_ok(m.doc, m.stack, k));
    }
    if m.stack.len() > 1 {
        let top = m.stack.last().parent_idx as int;
        assert(entry_ok(m.doc, m.stack, m.stack.len() - 1));
        assert(link_ok(m.doc.nodes, top));
        lemma_parent_on_path(m.doc.nodes, top);
        lemma_path_joins(
            m.doc.nodes,
            m.doc.nodes[top].parent_idx as int,
            top,
            m.doc.nodes.len() - 1,
        );
    }
}

/// Where a search for the end of markup ends.
pub proof fn lemma_after_occurrence(xml: Seq<u8>, from: int, max: int, needle: Seq<u8>)
    ensures
        after_occurrence(xml, from, max, needle) matches Some(end) ==> from <= end <= xml.len(),
{
    if 0 <= from < xml.len() && 0 <= max {
        let to = if from + max < xml.len() {
            from + max
        } else {
            xml.len() as int
        };
        lemma_first_occurrence(xml.subrange(from, to), 0, needle);
    }
}

/// Where a document type declaration ends.
pub proof fn lemma_doctype_end(xml: Seq<u8>, pos: int)
    requires
        0 <= pos,
    ensures
        match doctype_end(xml, pos) {
            Ok(end) => pos < end <= xml.len(),
            Err(e) => e is InvalidXml,
        },
{
    let len = xml.len() as int;
    if pos < len {
        lemma_first_stop(xml, pos, len, Stop::Either(GREATER_THAN, LEFT_BRACKET));
        if let Some(p) = find_from(xml, pos, Stop::Either(GREATER_THAN, LEFT_BRACKET)) {
            lemma_first_stop(xml, p, len, Stop::Byte(RIGHT_BRACKET));
            if let Some(q) = find_from(xml, p, Stop::Byte(RIGHT_BRACKET)) {
                if q + 1 < len {
                    lemma_first_stop(xml, q + 1, len, Stop::NotClass(Chartype::Space));
                }
            }
        }
    }
}

/// Where a comment, a document type declaration or a CDATA section ends.
pub proof fn lemma_markup_end(xml: Seq<u8>, pos: int)
    requires
        0 <= pos,
    ensures
        match markup_end(xml, pos) {
            Ok(end) => pos <= end <= xml.len(),
            Err(e) => e is InvalidXml,
        },
{
    lemma_after_occurrence(
        xml,
        pos + "--".spec_bytes().len(),
        MARKUP_WINDOW as int,
        "-->".spec_bytes(),
    );
    lemma_after_occurrence(
        xml,
        pos + "[CDATA[".spec_bytes().len(),
        MARKUP_WINDOW as int,
        "]]>".spec_bytes(),
    );
    lemma_doctype_end(xml, pos + "DOCTYPE".spec_bytes().len());
}

/// The end of a range without the white space at its end lies within the range.
pub proof fn lemma_trimmed_end(xml: Seq<u8>, start: int, end: int)
    requires
        start <= end,
    ensures
        start <= trimmed_end(xml, start, end) <= end,
    decreases end - start,
{
    if start < end {
        lemma_trimmed_end(xml, start, end - 1);
    }
}

/// The step of `Start` keeps what holds between steps.
pub proof fn lemma_start_step(m: Machine)
    requires
        m.inv(),
        m.state is Start,
    ensures
        kept(m, m.start_step()),
{
    if m.pos < m.len() {
        lemma_first_stop(m.doc.xml, m.pos, m.len(), Stop::Byte(LESS_THAN));
    }
}

/// The step of `ReadStartOfTag` keeps what holds between steps.
pub proof fn lemma_start_of_tag_step(m: Machine)
    requires
        m.inv(),
        m.state is ReadStartOfTag,
    ensures
        kept(m, m.start_of_tag_step()),
{
    lemma_markup_end(m.doc.xml, m.pos + 1);
    lemma_after_occurrence(m.doc.xml, m.pos + 1, INSTRUCTION_WINDOW as int, "?>".spec_bytes());
}

/// The step of `ReadTagOpen` keeps what holds between steps.
pub proof fn lemma_tag_open_step(m: Machine)
    requires
        m.inv(),
        m.state is ReadTagOpen,
    ensures
        kept(m, m.tag_open_step()),
{
    let xml = m.doc.xml;
    let start = m.pos;
    if start < m.len() && is_name_start(xml[start]) {
        if start + 1 < m.len() {
            lemma_first_stop(xml, start + 1, m.len(), Stop::NotClass(Chartype::Symbol));
        }
        if let Some(end) = find_from(xml, start + 1, Stop::NotClass(Chartype::Symbol)) {
            let name = stored_name(xml, start, end, m.options);
            lemma_local_name(xml, start, end);
            lemma_overwrite(xml, start, name);
            let named = m.with_xml(overwrite(xml, start, name));
            lemma_same_len(m, overwrite(xml, start, name));
            let node_type = NodeType::Element {
                name: (start as XmlIdx..(start + name.len()) as XmlIdx),
                attributes: 0..0,
            };
            lemma_with_node(named, node_type, State::ReadAttribute, end);
            if let Ok(next) = m.tag_open_step() {
                lemma_continues(m.doc, named.doc, next.doc, m.pos, m.pos);
            }
        }
    }
}

/// The step of `ReadTagClose` keeps what holds between steps.
pub proof fn lemma_tag_close_step(m: Machine)
    requires
        m.inv(),
        m.state is ReadTagClose,
    ensures
        kept(m, m.tag_close_step()),
{
    let xml = m.doc.xml;
    let start = m.pos;
    if start < m.len() {
        lemma_first_stop(xml, start, m.len(), Stop::Class(Chartype::ParseCloseTag));
    }
    if let Some(end) = find_from(xml, start, Stop::Class(Chartype::ParseCloseTag)) {
        if end != start {
            let name = stored_name(xml, start, end, m.options);
            lemma_local_name(xml, start, end);
            lemma_overwrite(xml, start, name);
            let named = m.with_xml(overwrite(xml, start, name));
            lemma_same_len(m, overwrite(xml, start, name));
            if m.stack.len() > 0 {
                lemma_first_stop(named.doc.xml, end, m.len(), Stop::Byte(GREATER_THAN));
                if let Some(gt) = find_from(named.doc.xml, end, Stop::Byte(GREATER_THAN)) {
                    lemma_closed(named, gt + 1);
                }
            }
        }
    }
}

/// Reading an attribute keeps what holds between steps.
pub proof fn lemma_attribute_read(m: Machine, start: int, eq: int, quote: int)
    requires
        m.inv(),
        m.state is ReadAttribute,
        m.pos <= start <= eq,
        eq + 2 <= quote < m.len(),
    ensures
        kept(m, m.attribute_read(start, eq, quote)),
{
    let xml = m.doc.xml;
    let value = attr_value(xml, eq + 2, quote, false, false);
    let name = stored_name(xml, start, eq, m.options);
    lemma_attr_len(xml, eq + 2, quote, false, false);
    lemma_local_name(xml, start, eq);
    lemma_overwrite(xml, eq + 2, value);
    let valued = overwrite(xml, eq + 2, value);
    lemma_overwrite(valued, start, name);
    let stored = overwrite(valued, start, name);
    lemma_same_len(m, stored);
    let named = m.with_xml(stored);
    lemma_with_attribute(
        named,
        (start as XmlIdx..(start + name.len()) as XmlIdx),
        ((eq + 2) as XmlIdx..(eq + 2 + value.len()) as XmlIdx),
        quote + 1,
    );
    if let Ok(next) = m.attribute_read(start, eq, quote) {
        lemma_continues(m.doc, named.doc, next.doc, m.pos, m.pos);
    }
}

/// The step of `ReadAttribute` keeps what holds between steps.
pub proof fn lemma_attribute_step(m: Machine)
    requires
        m.inv(),
        m.state is ReadAttribute,
    ensures
        kept(m, m.attribute_step()),
{
    let xml = m.doc.xml;
    let len = m.len();
    if m.pos < len {
        lemma_first_stop(xml, m.pos, len, Stop::NotClass(Chartype::Space));
    }
    if let Some(p) = find_from(xml, m.pos, Stop::NotClass(Chartype::Space)) {
        if p + 1 < len {
            lemma_closed(m, p + 2);
            lemma_first_stop(xml, p + 1, len, Stop::NotClass(Chartype::Symbol));
        }
        if let Some(eq) = find_from(xml, p + 1, Stop::NotClass(Chartype::Symbol)) {
            if eq + 2 < len {
                lemma_first_stop(xml, eq + 2, len, Stop::Byte(xml[eq + 1]));
            }
            if let Some(quote) = find_from(xml, eq + 2, Stop::Byte(xml[eq + 1])) {
                lemma_attribute_read(m, p, eq, quote);
            }
        }
    }
}

/// The step of `ReadPCData` keeps what holds between steps.
pub proof fn lemma_pcdata_step(m: Machine)
    requires
        m.inv(),
        m.state is ReadPCData,
    ensures
        kept(m, m.pcdata_step()),
{
    let xml = m.doc.xml;
    let len = m.len();
    if m.pos < len {
        lemma_first_stop(xml, m.pos, len, Stop::NotClass(Chartype::Space));
    }
    if let Some(start) = find_from(xml, m.pos, Stop::NotClass(Chartype::Space)) {
        lemma_first_stop(xml, start, len, Stop::Byte(LESS_THAN));
        if let Some(lt) = find_from(xml, start, Stop::Byte(LESS_THAN)) {
            if lt > start {
                lemma_trimmed_end(xml, start, lt);
                let from = if m.options.trim_pcdata {
                    start
                } else {
                    m.pos
                };
                let to = if m.options.trim_pcdata {
                    trimmed_end(xml, start, lt)
                } else {
                    lt
                };
                let text = stored_text(xml, from, to, m.options);
                lemma_pcdata_len(xml, from, to);
                lemma_line_len(xml, from, to);
                lemma_overwrite(xml, from, text);
                if m.stack.len() > 0 {
                    let written = m.with_xml(overwrite(xml, from, text));
                    lemma_same_len(m, overwrite(xml, from, text));
                    lemma_with_node(
                        written,
                        NodeType::Text((from as XmlIdx..(from + text.len()) as XmlIdx)),
                        State::ReadStartOfTag,
                        lt + 1,
                    );
                    if let Ok(next) = m.pcdata_step() {
                        lemma_continues(m.doc, written.doc, next.doc, m.pos, m.pos);
                    }
                }
            } else if m.options.keep_ws_only_pcdata && lt > m.pos && m.stack.len() > 0 {
                lemma_with_node(
                    m,
                    NodeType::Text((m.pos as XmlIdx..lt as XmlIdx)),
                    State::ReadStartOfTag,
                    lt + 1,
                );
            }
        }
    }
}

/// Every step keeps what holds between steps and leaves fewer steps to go,
/// or stops at an error of the input or of the index space.
pub proof fn lemma_step(m: Machine)
    requires
        m.inv(),
        !(m.state is End),
    ensures
        kept(m, m.step()),
{
    reveal(Machine::step);
    match m.state {
        State::Start => lemma_start_step(m),
        State::ReadStartOfTag => lemma_start_of_tag_step(m),
        State::ReadTagOpen => lemma_tag_open_step(m),
        State::ReadTagClose => lemma_tag_close_step(m),
        State::ReadAttribute => lemma_attribute_step(m),
        State::ReadPCData => lemma_pcdata_step(m),
        State::End => {},
    }
}

/// The parser ends with a well-formed document that has a root element and
/// continues the document so far, or with an error of the input or of the
/// index space.
pub proof fn lemma_run(m: Machine)
    requires
        m.inv(),
    ensures
        match m.run() {
            Ok(doc) => doc.wf() && has_root(doc) && attribute_runs(doc) && ranges_apart(doc)
                && document_order(doc.nodes) && continues(m.doc, doc, m.pos),
            Err(e) => e is InvalidXml || e is NoMoreSpace,
        },
    decreases m.measure(),
{
    if !(m.state is End) {
        lemma_step(m);
        if let Ok(next) = m.step() {
            lemma_run(next);
            if let Ok(doc) = next.run() {
                lemma_continues(m.doc, next.doc, doc, m.pos, next.pos);
            }
        }
    }
}

/// Parsing gives a well-formed document in document order that has a root
/// element, runs of attributes that follow each other, ranges that do not
/// overlap and a buffer as long as the input, or an error of the input or of
/// the index space: the defensive checks of the tree builder never fail.
pub proof fn lemma_parsed(xml: Seq<u8>, options: ParseOptions)
    ensures
        match parsed(xml, options) {
            Ok(doc) => doc.wf() && has_root(doc) && attribute_runs(doc) && ranges_apart(doc)
                && document_order(doc.nodes) && doc.xml.len() == xml.len(),
            Err(e) => e is InvalidXml || e is NoMoreSpace,
        },
{
    if preflight(xml) is None {
        lemma_run(Machine::initial(unparsed(xml), options));
    }
}

/// An input with more `<` than there are node indices is refused before
/// parsing, whatever else it holds: a document with more elements than the
/// index width allows is never built.
pub proof fn lemma_too_many_tags(xml: Seq<u8>, options: ParseOptions)
    requires
        count_of(xml, LESS_THAN) > NodeIdx::MAX,
    ensures
        parsed(xml, options) == Err::<DocumentView, ParseFailure>(
            ParseFailure::InvalidXml("XML document has too many estimated nodes!"@),
        ),
{
}

/// An input with more `=` than there are attribute indices is refused before
/// parsing, unless it is refused for its `<` already.
pub proof fn lemma_too_many_equal_signs(xml: Seq<u8>, options: ParseOptions)
    requires
        count_of(xml, EQUAL) > AttrIdx::MAX,
    ensures
        parsed(xml, options) matches Err(e) && e is InvalidXml,
{
}

} // verus!
