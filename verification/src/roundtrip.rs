//! The tree against a flat reading of the source. A flat reading goes through
//! the source once, keeps no tree and changes no byte: it notes the name of
//! each opening tag and each text between two tags, and counts how deep it
//! is. The nodes of a parsed document, in document order, read as what the
//! flat reading of the input notes.

use vstd::prelude::*;
use vstd::string::StringSliceAdditionalSpecFns;
use crate::chartype::Chartype;
use crate::defs::XmlIdx;
use crate::document::{DocumentView, lemma_node_added};
use crate::machine::{
    EXCLAMATION_MARK,
    GREATER_THAN,
    INSTRUCTION_WINDOW,
    LEFT_BRACKET,
    LESS_THAN,
    MARKUP_WINDOW,
    Machine,
    ParseOptions,
    QUESTION_MARK,
    RIGHT_BRACKET,
    SLASH,
    State,
    doctype_end,
    markup_end,
    stored_name,
    stored_text,
    top,
};
use crate::node_type::NodeType;
use crate::parser::{parsed, preflight, unparsed};
use crate::plain::lemma_run_start;
use crate::progress::{continues, kept, lemma_step, lemma_trimmed_end, same_place, settled};
use crate::scan::{
    Stop,
    after_occurrence,
    find_from,
    lemma_first_stop,
    lemma_first_stop_same,
    occurs_at,
};
use crate::text::{
    AMPERSAND,
    CARRIAGE_RETURN,
    COLON,
    attr_value,
    lemma_attr_len,
    lemma_line_len,
    lemma_line_run,
    lemma_line_same,
    lemma_local_name,
    lemma_local_name_plain,
    lemma_local_name_same,
    lemma_overwrite,
    lemma_overwrite_same,
    lemma_pcdata_len,
    lemma_pcdata_plain,
    lemma_pcdata_same,
    lemma_trimmed_end_same,
    line_text,
    overwrite,
    trimmed_end,
};

verus! {

/// What a node reads as: the name of an element or the content of a text.
pub enum Item {
    Element(Seq<u8>),
    Text(Seq<u8>),
}

/// What node `i` of `doc` reads as.
pub open spec fn item_of(doc: DocumentView, i: int) -> Item {
    match doc.nodes[i].node_type {
        NodeType::Element { name, .. } => Item::Element(doc.bytes_at(name)),
        NodeType::Text(location) => Item::Text(doc.bytes_at(location)),
        NodeType::Head => Item::Text(Seq::empty()),
    }
}

/// What the nodes of `doc` read as, in document order, the head left out.
pub open spec fn listing(doc: DocumentView) -> Seq<Item> {
    Seq::new((doc.nodes.len() - 1) as nat, |i: int| item_of(doc, i + 1))
}

/// One move of the flat reading: where it goes on, how deep it is then, and what it has noted.
pub struct Hop {
    pub state: State,
    pub pos: int,
    pub depth: int,
    pub items: Seq<Item>,
}

/// The move at the end of an element, before `pos`: the reading ends with the outermost element.
pub open spec fn hop_out(pos: int, depth: int) -> Hop {
    if depth <= 1 {
        Hop { state: State::End, pos, depth: 0, items: Seq::empty() }
    } else {
        Hop { state: State::ReadPCData, pos, depth: depth - 1, items: Seq::empty() }
    }
}

/// The move of the flat reading of `s` at `pos`, `depth` elements deep, or
/// `None` where the source ends before the move does. A raw reading notes
/// names and texts as they stand in the source; any other notes them as the
/// options have them stored.
pub open spec fn hop(
    s: Seq<u8>,
    state: State,
    pos: int,
    depth: int,
    o: ParseOptions,
    raw: bool,
) -> Option<Hop> {
    let none = Seq::<Item>::empty();
    match state {
        State::End => None,
        State::Start => match find_from(s, pos, Stop::Byte(LESS_THAN)) {
            Some(p) => Some(Hop { state: State::ReadStartOfTag, pos: p + 1, depth, items: none }),
            None => None,
        },
        State::ReadStartOfTag => if !(0 <= pos < s.len()) {
            None
        } else if s[pos] == SLASH {
            Some(Hop { state: State::ReadTagClose, pos: pos + 1, depth, items: none })
        } else if s[pos] == EXCLAMATION_MARK {
            match markup_end(s, pos + 1) {
                Ok(end) => Some(Hop { state: State::ReadPCData, pos: end, depth, items: none }),
                Err(_) => None,
            }
        } else if s[pos] == QUESTION_MARK {
            match after_occurrence(s, pos + 1, INSTRUCTION_WINDOW as int, "?>".spec_bytes()) {
                Some(end) => Some(Hop { state: State::ReadPCData, pos: end, depth, items: none }),
                None => None,
            }
        } else {
            Some(Hop { state: State::ReadTagOpen, pos, depth, items: none })
        },
        State::ReadTagOpen => match find_from(s, pos + 1, Stop::NotClass(Chartype::Symbol)) {
            Some(end) => Some(
                Hop {
                    state: State::ReadAttribute,
                    pos: end,
                    depth: depth + 1,
                    items: seq![
                        Item::Element(
                            if raw {
                                s.subrange(pos, end)
                            } else {
                                stored_name(s, pos, end, o)
                            },
                        ),
                    ],
                },
            ),
            None => None,
        },
        State::ReadTagClose => match find_from(s, pos, Stop::Class(Chartype::ParseCloseTag)) {
            Some(end) => match find_from(s, end, Stop::Byte(GREATER_THAN)) {
                Some(gt) => Some(hop_out(gt + 1, depth)),
                None => None,
            },
            None => None,
        },
        State::ReadAttribute => match find_from(s, pos, Stop::NotClass(Chartype::Space)) {
            None => None,
            Some(p) => if s[p] == SLASH {
                Some(hop_out(p + 2, depth))
            } else if s[p] == GREATER_THAN {
                Some(Hop { state: State::ReadPCData, pos: p + 1, depth, items: none })
            } else {
                match find_from(s, p + 1, Stop::NotClass(Chartype::Symbol)) {
                    None => None,
                    Some(eq) => match find_from(s, eq + 2, Stop::Byte(s[eq + 1])) {
                        None => None,
                        Some(quote) => Some(
                            Hop { state: State::ReadAttribute, pos: quote + 1, depth, items: none },
                        ),
                    },
                }
            },
        },
        State::ReadPCData => match find_from(s, pos, Stop::NotClass(Chartype::Space)) {
            None => None,
            Some(start) => match find_from(s, start, Stop::Byte(LESS_THAN)) {
                None => None,
                Some(lt) => {
                    let from = if o.trim_pcdata {
                        start
                    } else {
                        pos
                    };
                    let to = if o.trim_pcdata {
                        trimmed_end(s, start, lt)
                    } else {
                        lt
                    };
                    let items = if depth <= 0 {
                        none
                    } else if lt > start {
                        seq![
                            Item::Text(
                                if raw {
                                    s.subrange(from, to)
                                } else {
                                    stored_text(s, from, to, o)
                                },
                            ),
                        ]
                    } else if o.keep_ws_only_pcdata && lt > pos {
                        seq![Item::Text(s.subrange(pos, lt))]
                    } else {
                        none
                    };
                    Some(Hop { state: State::ReadStartOfTag, pos: lt + 1, depth, items })
                },
            },
        },
    }
}

/// What bounds the number of moves that are left.
pub open spec fn moves_left(len: int, state: State, pos: int) -> nat {
    let left = if pos < len {
        len - pos
    } else {
        0
    };
    (2 * left + if state is ReadStartOfTag {
        1int
    } else {
        0int
    }) as nat
}

/// What the flat reading of `s` notes from `pos` on, `depth` elements deep.
pub open spec fn scan(
    s: Seq<u8>,
    state: State,
    pos: int,
    depth: int,
    o: ParseOptions,
    raw: bool,
) -> Seq<Item>
    decreases moves_left(s.len() as int, state, pos),
{
    match hop(s, state, pos, depth, o, raw) {
        None => Seq::empty(),
        Some(h) => if 0 <= h.pos && moves_left(s.len() as int, h.state, h.pos) < moves_left(
            s.len() as int,
            state,
            pos,
        ) {
            h.items + scan(s, h.state, h.pos, h.depth, o, raw)
        } else {
            h.items
        },
    }
}

/// What a document has recorded reads the same in a document that continues it.
pub proof fn lemma_items_kept(before: DocumentView, after: DocumentView, pos: int)
    requires
        settled(before, pos),
        continues(before, after, pos),
        pos <= before.xml.len(),
    ensures
        forall|i: int|
            0 <= i < before.nodes.len() ==> #[trigger] item_of(after, i) == item_of(before, i),
{
    assert forall|i: int| 0 <= i < before.nodes.len() implies #[trigger] item_of(after, i)
        == item_of(before, i) by {
        let old_type = before.nodes[i].node_type;
        assert(same_place(old_type, after.nodes[i].node_type));
        assert(old_type.within(pos, before.attributes.len() as int));
        match old_type {
            NodeType::Element { name, .. } => {
                assert(after.bytes_at(name) =~= before.bytes_at(name));
            },
            NodeType::Text(location) => {
                assert(after.bytes_at(location) =~= before.bytes_at(location));
            },
            NodeType::Head => {},
        }
    }
}

/// A step that adds no node leaves the listing as it was.
pub proof fn lemma_listing_same(before: DocumentView, after: DocumentView, pos: int)
    requires
        settled(before, pos),
        continues(before, after, pos),
        pos <= before.xml.len(),
        after.nodes.len() == before.nodes.len(),
        before.nodes.len() >= 1,
    ensures
        listing(after) == listing(before),
{
    lemma_items_kept(before, after, pos);
    assert(listing(after) =~= listing(before));
}

/// A step that adds a node adds what the node reads as to the listing.
pub proof fn lemma_listing_grows(before: DocumentView, after: DocumentView, pos: int, item: Item)
    requires
        settled(before, pos),
        continues(before, after, pos),
        pos <= before.xml.len(),
        after.nodes.len() == before.nodes.len() + 1,
        before.nodes.len() >= 1,
        item_of(after, before.nodes.len() as int) == item,
    ensures
        listing(after) == listing(before) + seq![item],
{
    lemma_items_kept(before, after, pos);
    assert(listing(after) =~= listing(before) + seq![item]);
}

/// Whether move `h` of the flat reading goes where the step from `m` to
/// `next` goes, and notes what the step adds to the tree.
pub open spec fn goes_along(m: Machine, next: Machine, h: Option<Hop>) -> bool {
    &&& h matches Some(hop)
    &&& hop.state == next.state
    &&& hop.pos == next.pos
    &&& hop.depth == next.stack.len()
    &&& listing(next.doc) == listing(m.doc) + hop.items
}

/// The flat reading of the buffer goes along with the parser where no node is added.
proof fn lemma_along_without_node(m: Machine, next: Machine, h: Hop)
    requires
        m.inv(),
        kept(m, Ok(next)),
        next.doc.nodes.len() == m.doc.nodes.len(),
        h.state == next.state,
        h.pos == next.pos,
        h.depth == next.stack.len(),
        h.items == Seq::<Item>::empty(),
    ensures
        goes_along(m, next, Some(h)),
{
    lemma_listing_same(m.doc, next.doc, m.pos);
    assert(listing(m.doc) + h.items =~= listing(m.doc));
}

/// The flat reading of the buffer goes along with the parser where a node is added.
proof fn lemma_along_with_node(m: Machine, next: Machine, h: Hop, item: Item)
    requires
        m.inv(),
        kept(m, Ok(next)),
        next.doc.nodes.len() == m.doc.nodes.len() + 1,
        item_of(next.doc, m.doc.nodes.len() as int) == item,
        h.state == next.state,
        h.pos == next.pos,
        h.depth == next.stack.len(),
        h.items == seq![item],
    ensures
        goes_along(m, next, Some(h)),
{
    lemma_listing_grows(m.doc, next.doc, m.pos, item);
}

/// What the node reads as that `with_node` adds for a range that was just written.
pub proof fn lemma_new_item(
    m: Machine,
    xml: Seq<u8>,
    at: int,
    written: Seq<u8>,
    node_type: NodeType,
    state: State,
    pos: int,
)
    requires
        m.doc.wf(),
        0 <= at,
        at + written.len() <= xml.len() == m.doc.xml.len(),
        m.with_xml(overwrite(xml, at, written)).with_node(node_type, state, pos) is Ok,
        node_type == (NodeType::Element {
            name: (at as XmlIdx..(at + written.len()) as XmlIdx),
            attributes: 0..0,
        }) || node_type == NodeType::Text((at as XmlIdx..(at + written.len()) as XmlIdx)),
    ensures
        ({
            let next = m.with_xml(overwrite(xml, at, written)).with_node(
                node_type,
                state,
                pos,
            )->Ok_0;
            &&& next.doc.nodes.len() == m.doc.nodes.len() + 1
            &&& next.state == state
            &&& next.pos == pos
            &&& next.stack.len() == m.stack.len() + if node_type is Element {
                1int
            } else {
                0int
            }
            &&& item_of(next.doc, m.doc.nodes.len() as int) == if node_type is Element {
                Item::Element(written)
            } else {
                Item::Text(written)
            }
        }),
{
    let written_xml = overwrite(xml, at, written);
    let named = m.with_xml(written_xml);
    lemma_overwrite(xml, at, written);
    let parent = top(named.stack).parent_idx;
    let last = top(named.stack).last_child_idx;
    assert forall|i: int| 0 <= i < named.doc.nodes.len() implies (
    #[trigger] named.doc.nodes[i]).node_type.within(
        named.doc.xml.len() as int,
        named.doc.attributes.len() as int,
    ) by {
        assert(m.doc.nodes[i].node_type.within(
            m.doc.xml.len() as int,
            m.doc.attributes.len() as int,
        ));
    }
    assert(named.doc.wf());
    lemma_node_added(named.doc, parent, last, node_type);
    let next = named.with_node(node_type, state, pos)->Ok_0;
    assert(next.doc.xml == written_xml);
    assert(written_xml.subrange(at, at + written.len()) =~= written);
}

/// The flat reading of the buffer goes along with each step of the parser:
/// it goes where the step goes, and notes what the step adds to the tree.
pub proof fn lemma_step_goes_along(m: Machine)
    requires
        m.inv(),
        !(m.state is End),
        m.step() is Ok,
    ensures
        goes_along(
            m,
            m.step()->Ok_0,
            hop(m.doc.xml, m.state, m.pos, m.stack.len() as int, m.options, false),
        ),
        m.step()->Ok_0.options == m.options,
{
    lemma_step(m);
    reveal(Machine::step);
    let xml = m.doc.xml;
    let len = m.len();
    let next = m.step()->Ok_0;
    let h = hop(xml, m.state, m.pos, m.stack.len() as int, m.options, false);
    match m.state {
        State::Start => {
            lemma_along_without_node(m, next, h->Some_0);
        },
        State::ReadStartOfTag => {
            lemma_along_without_node(m, next, h->Some_0);
        },
        State::ReadTagOpen => {
            let start = m.pos;
            if start + 1 < len {
                lemma_first_stop(xml, start + 1, len, Stop::NotClass(Chartype::Symbol));
            }
            let end = find_from(xml, start + 1, Stop::NotClass(Chartype::Symbol))->Some_0;
            let name = stored_name(xml, start, end, m.options);
            lemma_local_name(xml, start, end);
            let node_type = NodeType::Element {
                name: (start as XmlIdx..(start + name.len()) as XmlIdx),
                attributes: 0..0,
            };
            lemma_new_item(m, xml, start, name, node_type, State::ReadAttribute, end);
            lemma_along_with_node(m, next, h->Some_0, Item::Element(name));
        },
        State::ReadTagClose => {
            let start = m.pos;
            if start < len {
                lemma_first_stop(xml, start, len, Stop::Class(Chartype::ParseCloseTag));
            }
            let end = find_from(xml, start, Stop::Class(Chartype::ParseCloseTag))->Some_0;
            let name = stored_name(xml, start, end, m.options);
            lemma_local_name(xml, start, end);
            lemma_overwrite(xml, start, name);
            lemma_first_stop_same(
                overwrite(xml, start, name),
                xml,
                end,
                len,
                Stop::Byte(GREATER_THAN),
            );
            lemma_along_without_node(m, next, h->Some_0);
        },
        State::ReadAttribute => {
            lemma_along_without_node(m, next, h->Some_0);
        },
        State::ReadPCData => {
            if m.pos < len {
                lemma_first_stop(xml, m.pos, len, Stop::NotClass(Chartype::Space));
            }
            let start = find_from(xml, m.pos, Stop::NotClass(Chartype::Space))->Some_0;
            lemma_first_stop(xml, start, len, Stop::Byte(LESS_THAN));
            let lt = find_from(xml, start, Stop::Byte(LESS_THAN))->Some_0;
            if lt > start {
                lemma_trimmed_end(xml, start, lt);
                let from = if m.options.trim_pcdata {
                    start
                } else {
                    m.pos
                };
                let to = if m.options.trim_pcdata {
                    trimmed_end(xml, start, lt)
                } else {
                    lt
                };
                let text = stored_text(xml, from, to, m.options);
                lemma_pcdata_len(xml, from, to);
                lemma_line_len(xml, from, to);
                let node_type = NodeType::Text((from as XmlIdx..(from + text.len()) as XmlIdx));
                lemma_new_item(m, xml, from, text, node_type, State::ReadStartOfTag, lt + 1);
                lemma_along_with_node(m, next, h->Some_0, Item::Text(text));
            } else if m.options.keep_ws_only_pcdata && lt > m.pos && m.stack.len() > 0 {
                let blank = xml.subrange(m.pos, lt);
                lemma_overwrite_same(xml, m.pos, lt);
                let node_type = NodeType::Text((m.pos as XmlIdx..lt as XmlIdx));
                assert(m.with_xml(overwrite(xml, m.pos, blank)) == m);
                lemma_new_item(m, xml, m.pos, blank, node_type, State::ReadStartOfTag, lt + 1);
                lemma_along_with_node(m, next, h->Some_0, Item::Text(blank));
            } else {
                lemma_along_without_node(m, next, h->Some_0);
            }
        },
        State::End => {},
    }
}

/// Whether `s` and `t` are as long as each other and hold the same bytes from `pos` on.
pub open spec fn same_from(s: Seq<u8>, t: Seq<u8>, pos: int) -> bool {
    &&& s.len() == t.len()
    &&& forall|j: int| pos <= j < s.len() && 0 <= j ==> #[trigger] s[j] == t[j]
}

/// A scan from `from` on finds the same in two buffers that hold the same bytes from there on.
pub proof fn lemma_find_same(s: Seq<u8>, t: Seq<u8>, pos: int, from: int, stop: Stop)
    requires
        same_from(s, t, pos),
        pos <= from,
    ensures
        find_from(s, from, stop) == find_from(t, from, stop),
        find_from(s, from, stop) matches Some(i) ==> from <= i < s.len(),
{
    if 0 <= from < s.len() {
        lemma_first_stop_same(s, t, from, s.len() as int, stop);
        lemma_first_stop(s, from, s.len() as int, stop);
    }
}

/// The search for the end of markup finds the same in two buffers that hold
/// the same bytes from the start of the search on.
proof fn lemma_after_same(s: Seq<u8>, t: Seq<u8>, pos: int, from: int, max: int, needle: Seq<u8>)
    requires
        same_from(s, t, pos),
        pos <= from,
    ensures
        after_occurrence(s, from, max, needle) == after_occurrence(t, from, max, needle),
{
    if 0 <= from < s.len() && 0 <= max {
        let to = if from + max < s.len() {
            from + max
        } else {
            s.len() as int
        };
        assert(s.subrange(from, to) =~= t.subrange(from, to));
    }
}

/// Whether a byte sequence stands at a place is the same in two buffers that
/// hold the same bytes from the place on.
proof fn lemma_occurs_same(s: Seq<u8>, t: Seq<u8>, pos: int, at: int, needle: Seq<u8>)
    requires
        same_from(s, t, pos),
        pos <= at,
    ensures
        occurs_at(s, at, needle) == occurs_at(t, at, needle),
{
    if 0 <= at && at + needle.len() <= s.len() {
        assert(s.subrange(at, at + needle.len()) =~= t.subrange(at, at + needle.len()));
    }
}

/// A document type declaration ends at the same place in two buffers that
/// hold the same bytes from its start on.
proof fn lemma_doctype_same(s: Seq<u8>, t: Seq<u8>, pos: int, from: int)
    requires
        same_from(s, t, pos),
        pos <= from,
    ensures
        doctype_end(s, from) is Ok <==> doctype_end(t, from) is Ok,
        doctype_end(s, from) is Ok ==> doctype_end(s, from)->Ok_0 == doctype_end(t, from)->Ok_0,
{
    let first = Stop::Either(GREATER_THAN, LEFT_BRACKET);
    lemma_find_same(s, t, pos, from, first);
    if let Some(p) = find_from(s, from, first) {
        lemma_find_same(s, t, pos, p, Stop::Byte(RIGHT_BRACKET));
        if let Some(q) = find_from(s, p, Stop::Byte(RIGHT_BRACKET)) {
            lemma_find_same(s, t, pos, q + 1, Stop::NotClass(Chartype::Space));
        }
    }
}

/// Markup that is passed over ends at the same place in two buffers that hold
/// the same bytes from its start on.
proof fn lemma_markup_same(s: Seq<u8>, t: Seq<u8>, pos: int, from: int)
    requires
        same_from(s, t, pos),
        pos <= from,
    ensures
        markup_end(s, from) is Ok <==> markup_end(t, from) is Ok,
        markup_end(s, from) is Ok ==> markup_end(s, from)->Ok_0 == markup_end(t, from)->Ok_0,
{
    lemma_occurs_same(s, t, pos, from, "--".spec_bytes());
    lemma_occurs_same(s, t, pos, from, "DOCTYPE".spec_bytes());
    lemma_occurs_same(s, t, pos, from, "[CDATA[".spec_bytes());
    lemma_after_same(
        s,
        t,
        pos,
        from + "--".spec_bytes().len(),
        MARKUP_WINDOW as int,
        "-->".spec_bytes(),
    );
    lemma_after_same(
        s,
        t,
        pos,
        from + "[CDATA[".spec_bytes().len(),
        MARKUP_WINDOW as int,
        "]]>".spec_bytes(),
    );
    lemma_doctype_same(s, t, pos, from + "DOCTYPE".spec_bytes().len());
}

/// The flat reading makes the same move in two buffers that hold the same
/// bytes from its position on.
pub proof fn lemma_hop_same(
    s: Seq<u8>,
    t: Seq<u8>,
    state: State,
    pos: int,
    depth: int,
    o: ParseOptions,
    raw: bool,
)
    requires
        same_from(s, t, pos),
        0 <= pos,
    ensures
        hop(s, state, pos, depth, o, raw) == hop(t, state, pos, depth, o, raw),
{
    let len = s.len() as int;
    match state {
        State::End => {},
        State::Start => {
            lemma_find_same(s, t, pos, pos, Stop::Byte(LESS_THAN));
        },
        State::ReadStartOfTag => {
            if 0 <= pos < len {
                lemma_markup_same(s, t, pos, pos + 1);
                lemma_after_same(s, t, pos, pos + 1, INSTRUCTION_WINDOW as int, "?>".spec_bytes());
            }
        },
        State::ReadTagOpen => {
            lemma_find_same(s, t, pos, pos + 1, Stop::NotClass(Chartype::Symbol));
            if let Some(end) = find_from(s, pos + 1, Stop::NotClass(Chartype::Symbol)) {
                lemma_local_name_same(s, t, pos, end);
            }
        },
        State::ReadTagClose => {
            lemma_find_same(s, t, pos, pos, Stop::Class(Chartype::ParseCloseTag));
            if let Some(end) = find_from(s, pos, Stop::Class(Chartype::ParseCloseTag)) {
                lemma_find_same(s, t, pos, end, Stop::Byte(GREATER_THAN));
            }
        },
        State::ReadAttribute => {
            lemma_find_same(s, t, pos, pos, Stop::NotClass(Chartype::Space));
            if let Some(p) = find_from(s, pos, Stop::NotClass(Chartype::Space)) {
                lemma_find_same(s, t, pos, p + 1, Stop::NotClass(Chartype::Symbol));
                if let Some(eq) = find_from(s, p + 1, Stop::NotClass(Chartype::Symbol)) {
                    if eq + 1 < len {
                        lemma_find_same(s, t, pos, eq + 2, Stop::Byte(s[eq + 1]));
                    }
                }
            }
        },
        State::ReadPCData => {
            lemma_find_same(s, t, pos, pos, Stop::NotClass(Chartype::Space));
            if let Some(start) = find_from(s, pos, Stop::NotClass(Chartype::Space)) {
                lemma_find_same(s, t, pos, start, Stop::Byte(LESS_THAN));
                if let Some(lt) = find_from(s, start, Stop::Byte(LESS_THAN)) {
                    lemma_trimmed_end_same(s, t, start, lt);
                    lemma_trimmed_end(s, start, lt);
                    let from = if o.trim_pcdata {
                        start
                    } else {
                        pos
                    };
                    let to = if o.trim_pcdata {
                        trimmed_end(s, start, lt)
                    } else {
                        lt
                    };
                    lemma_pcdata_same(s, t, from, to);
                    lemma_line_same(s, t, from, to);
                    assert(s.subrange(pos, lt) =~= t.subrange(pos, lt));
                    assert(s.subrange(from, to) =~= t.subrange(from, to));
                }
            }
        },
    }
}

/// The flat reading notes the same in two buffers that hold the same bytes
/// from its position on.
pub proof fn lemma_scan_same(
    s: Seq<u8>,
    t: Seq<u8>,
    state: State,
    pos: int,
    depth: int,
    o: ParseOptions,
    raw: bool,
)
    requires
        same_from(s, t, pos),
        0 <= pos,
    ensures
        scan(s, state, pos, depth, o, raw) == scan(t, state, pos, depth, o, raw),
    decreases moves_left(s.len() as int, state, pos),
{
    lemma_hop_same(s, t, state, pos, depth, o, raw);
    if let Some(h) = hop(s, state, pos, depth, o, raw) {
        if 0 <= h.pos && moves_left(s.len() as int, h.state, h.pos) < moves_left(
            s.len() as int,
            state,
            pos,
        ) {
            lemma_scan_same(s, t, h.state, h.pos, h.depth, o, raw);
        }
    }
}

/// A step leaves the bytes from its new position on as they were.
pub proof fn lemma_step_unread(m: Machine)
    requires
        m.inv(),
        !(m.state is End),
        m.step() is Ok,
    ensures
        same_from(m.step()->Ok_0.doc.xml, m.doc.xml, m.step()->Ok_0.pos),
{
    lemma_step(m);
    reveal(Machine::step);
    let xml = m.doc.xml;
    let len = m.len();
    match m.state {
        State::ReadTagOpen => {
            let start = m.pos;
            if start + 1 < len {
                lemma_first_stop(xml, start + 1, len, Stop::NotClass(Chartype::Symbol));
            }
            let end = find_from(xml, start + 1, Stop::NotClass(Chartype::Symbol))->Some_0;
            lemma_local_name(xml, start, end);
            lemma_overwrite(xml, start, stored_name(xml, start, end, m.options));
        },
        State::ReadTagClose => {
            let start = m.pos;
            if start < len {
                lemma_first_stop(xml, start, len, Stop::Class(Chartype::ParseCloseTag));
            }
            let end = find_from(xml, start, Stop::Class(Chartype::ParseCloseTag))->Some_0;
            let name = stored_name(xml, start, end, m.options);
            lemma_local_name(xml, start, end);
            lemma_overwrite(xml, start, name);
            lemma_first_stop(overwrite(xml, start, name), end, len, Stop::Byte(GREATER_THAN));
        },
        State::ReadAttribute => {
            if m.pos < len {
                lemma_first_stop(xml, m.pos, len, Stop::NotClass(Chartype::Space));
            }
            if let Some(p) = find_from(xml, m.pos, Stop::NotClass(Chartype::Space)) {
                if p + 1 < len {
                    lemma_first_stop(xml, p + 1, len, Stop::NotClass(Chartype::Symbol));
                }
                if let Some(eq) = find_from(xml, p + 1, Stop::NotClass(Chartype::Symbol)) {
                    if eq + 2 < len {
                        lemma_first_stop(xml, eq + 2, len, Stop::Byte(xml[eq + 1]));
                    }
                    if let Some(quote) = find_from(xml, eq + 2, Stop::Byte(xml[eq + 1])) {
                        let value = attr_value(xml, eq + 2, quote, false, false);
                        let name = stored_name(xml, p, eq, m.options);
                        lemma_attr_len(xml, eq + 2, quote, false, false);
                        lemma_local_name(xml, p, eq);
                        lemma_overwrite(xml, eq + 2, value);
                        lemma_overwrite(overwrite(xml, eq + 2, value), p, name);
                    }
                }
            }
        },
        State::ReadPCData => {
            if m.pos < len {
                lemma_first_stop(xml, m.pos, len, Stop::NotClass(Chartype::Space));
            }
            if let Some(start) = find_from(xml, m.pos, Stop::NotClass(Chartype::Space)) {
                lemma_first_stop(xml, start, len, Stop::Byte(LESS_THAN));
                if let Some(lt) = find_from(xml, start, Stop::Byte(LESS_THAN)) {
                    if lt > start {
                        lemma_trimmed_end(xml, start, lt);
                        let from = if m.options.trim_pcdata {
                            start
                        } else {
                            m.pos
                        };
                        let to = if m.options.trim_pcdata {
                            trimmed_end(xml, start, lt)
                        } else {
                            lt
                        };
                        lemma_pcdata_len(xml, from, to);
                        lemma_line_len(xml, from, to);
                        lemma_overwrite(xml, from, stored_text(xml, from, to, m.options));
                    }
                }
            }
        },
        _ => {},
    }
}

/// The document that the parser ends with lists what it listed so far and
/// then what the flat reading of the buffer notes from the position on.
pub proof fn lemma_run_reads(m: Machine)
    requires
        m.inv(),
    ensures
        m.run() matches Ok(doc) ==> listing(doc) == listing(m.doc) + scan(
            m.doc.xml,
            m.state,
            m.pos,
            m.stack.len() as int,
            m.options,
            false,
        ),
    decreases m.measure(),
{
    let rest = scan(m.doc.xml, m.state, m.pos, m.stack.len() as int, m.options, false);
    if m.state is End {
        assert(listing(m.doc) + rest =~= listing(m.doc));
    } else {
        lemma_step(m);
        if let Ok(next) = m.step() {
            if let Ok(doc) = next.run() {
                lemma_step_goes_along(m);
                lemma_step_unread(m);
                lemma_run_reads(next);
                let h = hop(m.doc.xml, m.state, m.pos, m.stack.len() as int, m.options, false)->Some_0;
                let depth = next.stack.len() as int;
                lemma_scan_same(
                    next.doc.xml,
                    m.doc.xml,
                    next.state,
                    next.pos,
                    depth,
                    m.options,
                    false,
                );
                let later = scan(m.doc.xml, next.state, next.pos, depth, m.options, false);
                assert(rest == h.items + later);
                assert(listing(doc) == listing(next.doc) + later);
                assert((listing(m.doc) + h.items) + later =~= listing(m.doc) + (h.items + later));
            }
        }
    }
}

/// The nodes of the document that the parser ends with where it starts on the
/// head alone, in document order, read as what the flat reading of the
/// buffer notes, which is a raw reading where the buffer is stored verbatim.
pub proof fn lemma_start_reads(xml: Seq<u8>, o: ParseOptions)
    requires
        xml.len() <= XmlIdx::MAX,
    ensures
        Machine::initial(unparsed(xml), o).run() matches Ok(doc) ==> listing(doc) == scan(
            xml,
            State::Start,
            0,
            0,
            o,
            verbatim(xml, o),
        ),
{
    let m = Machine::initial(unparsed(xml), o);
    lemma_run_start(xml, o);
    lemma_run_reads(m);
    assert(listing(m.doc) =~= Seq::<Item>::empty());
    assert(listing(m.doc) + scan(xml, State::Start, 0, 0, o, false) =~= scan(
        xml,
        State::Start,
        0,
        0,
        o,
        false,
    ));
    if verbatim(xml, o) {
        lemma_verbatim_scan(xml, State::Start, 0, 0, o);
    }
}

/// The nodes of a parsed document, in document order, read as what the flat
/// reading of the input notes: the name of each opening tag and each text,
/// as the options have them stored, in the order of the input, and nothing else.
pub proof fn lemma_parsed_reads(xml: Seq<u8>, o: ParseOptions)
    ensures
        parsed(xml, o) matches Ok(doc) ==> listing(doc) == scan(xml, State::Start, 0, 0, o, false),
{
    if preflight(xml) is None {
        let m = Machine::initial(unparsed(xml), o);
        lemma_run_start(xml, o);
        lemma_run_reads(m);
        assert(listing(m.doc) =~= Seq::<Item>::empty());
        assert(listing(m.doc) + scan(xml, State::Start, 0, 0, o, false) =~= scan(
            xml,
            State::Start,
            0,
            0,
            o,
            false,
        ));
    }
}

/// The names and texts of the source are stored verbatim: the source holds
/// no `:` where namespace prefixes are left out, no `&` where character
/// references are replaced, and no carriage return where line endings are.
pub open spec fn verbatim(s: Seq<u8>, o: ParseOptions) -> bool {
    forall|j: int|
        0 <= j < s.len() ==> (o.namespace_removal ==> (#[trigger] s[j]) != COLON) && (
        o.parse_escapes ==> s[j] != AMPERSAND) && (!o.parse_escapes ==> s[j] != CARRIAGE_RETURN)
}

/// Of a source that is stored verbatim, the flat reading notes names and
/// texts as they stand in the source.
pub proof fn lemma_verbatim_hop(s: Seq<u8>, state: State, pos: int, depth: int, o: ParseOptions)
    requires
        verbatim(s, o),
        0 <= pos,
    ensures
        hop(s, state, pos, depth, o, false) == hop(s, state, pos, depth, o, true),
{
    let len = s.len() as int;
    match state {
        State::ReadTagOpen => {
            if pos + 1 < len {
                lemma_first_stop(s, pos + 1, len, Stop::NotClass(Chartype::Symbol));
            }
            if let Some(end) = find_from(s, pos + 1, Stop::NotClass(Chartype::Symbol)) {
                if o.namespace_removal {
                    lemma_local_name_plain(s, pos, end);
                }
            }
        },
        State::ReadPCData => {
            if pos < len {
                lemma_first_stop(s, pos, len, Stop::NotClass(Chartype::Space));
            }
            if let Some(start) = find_from(s, pos, Stop::NotClass(Chartype::Space)) {
                lemma_first_stop(s, start, len, Stop::Byte(LESS_THAN));
                if let Some(lt) = find_from(s, start, Stop::Byte(LESS_THAN)) {
                    lemma_trimmed_end(s, start, lt);
                    let from = if o.trim_pcdata {
                        start
                    } else {
                        pos
                    };
                    let to = if o.trim_pcdata {
                        trimmed_end(s, start, lt)
                    } else {
                        lt
                    };
                    if o.parse_escapes {
                        lemma_pcdata_plain(s, from, to);
                    } else {
                        lemma_line_run(s, from, to, to);
                        assert(s.subrange(from, to) + line_text(s, to, to) =~= s.subrange(from, to));
                    }
                }
            }
        },
        _ => {},
    }
}

/// Of a source that is stored verbatim, the flat reading notes names and
/// texts as they stand in the source.
pub proof fn lemma_verbatim_scan(s: Seq<u8>, state: State, pos: int, depth: int, o: ParseOptions)
    requires
        verbatim(s, o),
        0 <= pos,
    ensures
        scan(s, state, pos, depth, o, false) == scan(s, state, pos, depth, o, true),
    decreases moves_left(s.len() as int, state, pos),
{
    lemma_verbatim_hop(s, state, pos, depth, o);
    if let Some(h) = hop(s, state, pos, depth, o, true) {
        if 0 <= h.pos && moves_left(s.len() as int, h.state, h.pos) < moves_left(
            s.len() as int,
            state,
            pos,
        ) {
            lemma_verbatim_scan(s, h.state, h.pos, h.depth, o);
        }
    }
}

/// The nodes of a document that was parsed from an input that is stored
/// verbatim, in document order, read as what a raw flat reading of the input
/// notes: the bytes of the name of each opening tag and the bytes of each text
/// between two tags, in the order of the input, and nothing else.
pub proof fn lemma_verbatim_parsed_reads(xml: Seq<u8>, o: ParseOptions)
    requires
        verbatim(xml, o),
    ensures
        parsed(xml, o) matches Ok(doc) ==> listing(doc) == scan(xml, State::Start, 0, 0, o, true),
{
    lemma_parsed_reads(xml, o);
    lemma_verbatim_scan(xml, State::Start, 0, 0, o);
}

} // verus!
