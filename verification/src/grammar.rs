//! Well-formed input, as far as this parser asks for it. A source is
//! well-formed where a reading that keeps nothing but the names of the open
//! elements gets to the end of the root element. The reading passes over
//! what stands before the first `<`, over comments, document type
//! declarations, CDATA sections and processing instructions, and over white
//! space between tags. It asks that the name of an opening tag and of an
//! attribute starts as a name starts, that an attribute is written as
//! `name="value"` or `name='value'`, that `/` in an opening tag is followed
//! by `>`, that a closing tag names the innermost open element, as the
//! options have names stored, and that text stands only within an element.
//!
//! An input is parsed to a document if and only if it passes the test of
//! its size, it is well-formed and the reading notes no more nodes than
//! there are indices.

use vstd::prelude::*;
use crate::chartype::{Chartype, is_name_start};
use crate::defs::{AttrIdx, NodeIdx, XmlIdx};
use crate::document::DocumentView;
use crate::machine::{
    APOSTROPHE,
    EQUAL,
    GREATER_THAN,
    LESS_THAN,
    Machine,
    Parent,
    ParseOptions,
    QUOTE,
    SLASH,
    State,
    stored_name,
    stored_text,
};
use crate::node_type::NodeType;
use crate::progress::{
    continues,
    entry_ok,
    lemma_run,
    lemma_same_len,
    lemma_step,
    lemma_trimmed_end,
};
use crate::roundtrip::{
    Item,
    hop,
    item_of,
    lemma_find_same,
    lemma_hop_same,
    lemma_items_kept,
    lemma_new_item,
    lemma_run_reads,
    lemma_scan_same,
    lemma_step_goes_along,
    lemma_step_unread,
    lemma_verbatim_parsed_reads,
    listing,
    moves_left,
    same_from,
    scan,
    verbatim,
};
use crate::parser::{parsed, preflight, unparsed};
use crate::plain::lemma_run_start;
use crate::scan::{
    Stop,
    count_of,
    find_from,
    lemma_count_of_held,
    lemma_count_of_parts,
    lemma_first_stop,
    lemma_first_stop_same,
};
use crate::text::{
    lemma_line_len,
    lemma_local_name,
    lemma_local_name_same,
    lemma_overwrite,
    lemma_overwrite_same,
    lemma_pcdata_len,
    overwrite,
    trimmed_end,
};

verus! {

/// Whether the source is written as it must be where the reading stands: at
/// `pos` in state `state`, with `open` the names of the open elements, the
/// innermost last.
pub open spec fn allowed(s: Seq<u8>, state: State, pos: int, open: Seq<Seq<u8>>, o: ParseOptions) -> bool {
    match state {
        State::ReadTagOpen => 0 <= pos < s.len() && is_name_start(s[pos]),
        State::ReadTagClose => match find_from(s, pos, Stop::Class(Chartype::ParseCloseTag)) {
            Some(end) => end != pos && open.len() > 0 && stored_name(s, pos, end, o) == open.last(),
            None => false,
        },
        State::ReadAttribute => match find_from(s, pos, Stop::NotClass(Chartype::Space)) {
            None => false,
            Some(p) => if s[p] == SLASH {
                p + 1 < s.len() && s[p + 1] == GREATER_THAN && open.len() > 0
            } else if s[p] == GREATER_THAN {
                true
            } else {
                is_name_start(s[p]) && open.len() > 0 && match find_from(
                    s,
                    p + 1,
                    Stop::NotClass(Chartype::Symbol),
                ) {
                    None => false,
                    Some(eq) => s[eq] == EQUAL && eq + 1 < s.len() && (s[eq + 1] == APOSTROPHE
                        || s[eq + 1] == QUOTE),
                }
            },
        },
        State::ReadPCData => match find_from(s, pos, Stop::NotClass(Chartype::Space)) {
            None => false,
            Some(start) => match find_from(s, start, Stop::Byte(LESS_THAN)) {
                None => false,
                Some(lt) => lt > start ==> open.len() > 0,
            },
        },
        _ => true,
    }
}

/// The names of the open elements after the move from `pos` in state `state`.
pub open spec fn opened(s: Seq<u8>, state: State, pos: int, open: Seq<Seq<u8>>, o: ParseOptions) -> Seq<
    Seq<u8>,
> {
    match state {
        State::ReadTagOpen => match find_from(s, pos + 1, Stop::NotClass(Chartype::Symbol)) {
            Some(end) => open.push(stored_name(s, pos, end, o)),
            None => open,
        },
        State::ReadTagClose => open.drop_last(),
        State::ReadAttribute => match find_from(s, pos, Stop::NotClass(Chartype::Space)) {
            Some(p) => if s[p] == SLASH {
                open.drop_last()
            } else {
                open
            },
            None => open,
        },
        _ => open,
    }
}

/// Whether `s` is well-formed from `pos` on, where the reading is in state
/// `state` and the elements named in `open` are open.
pub open spec fn well_formed_from(
    s: Seq<u8>,
    state: State,
    pos: int,
    open: Seq<Seq<u8>>,
    o: ParseOptions,
) -> bool
    decreases moves_left(s.len() as int, state, pos),
{
    if state is End {
        true
    } else {
        match hop(s, state, pos, open.len() as int, o, false) {
            None => false,
            Some(h) => allowed(s, state, pos, open, o) && 0 <= h.pos && if moves_left(
                s.len() as int,
                h.state,
                h.pos,
            ) < moves_left(s.len() as int, state, pos) {
                well_formed_from(s, h.state, h.pos, opened(s, state, pos, open, o), o)
            } else {
                false
            },
        }
    }
}

/// Whether `s` is well-formed: it holds a root element that is written as it
/// must be, whatever follows it.
pub open spec fn well_formed(s: Seq<u8>, o: ParseOptions) -> bool {
    well_formed_from(s, State::Start, 0, Seq::empty(), o)
}

/// What is allowed and what is open depend only on the bytes from the position on.
pub proof fn lemma_allowed_same(
    s: Seq<u8>,
    t: Seq<u8>,
    state: State,
    pos: int,
    open: Seq<Seq<u8>>,
    o: ParseOptions,
)
    requires
        same_from(s, t, pos),
        0 <= pos,
    ensures
        allowed(s, state, pos, open, o) == allowed(t, state, pos, open, o),
        opened(s, state, pos, open, o) == opened(t, state, pos, open, o),
{
    match state {
        State::ReadTagOpen => {
            lemma_find_same(s, t, pos, pos + 1, Stop::NotClass(Chartype::Symbol));
            if let Some(end) = find_from(s, pos + 1, Stop::NotClass(Chartype::Symbol)) {
                lemma_local_name_same(s, t, pos, end);
            }
        },
        State::ReadTagClose => {
            lemma_find_same(s, t, pos, pos, Stop::Class(Chartype::ParseCloseTag));
            if let Some(end) = find_from(s, pos, Stop::Class(Chartype::ParseCloseTag)) {
                lemma_local_name_same(s, t, pos, end);
            }
        },
        State::ReadAttribute => {
            lemma_find_same(s, t, pos, pos, Stop::NotClass(Chartype::Space));
            if let Some(p) = find_from(s, pos, Stop::NotClass(Chartype::Space)) {
                lemma_find_same(s, t, pos, p + 1, Stop::NotClass(Chartype::Symbol));
            }
        },
        State::ReadPCData => {
            lemma_find_same(s, t, pos, pos, Stop::NotClass(Chartype::Space));
            if let Some(start) = find_from(s, pos, Stop::NotClass(Chartype::Space)) {
                lemma_find_same(s, t, pos, start, Stop::Byte(LESS_THAN));
            }
        },
        _ => {},
    }
}

/// Whether a source is well-formed from a position on depends only on the bytes from there on.
pub proof fn lemma_well_formed_same(
    s: Seq<u8>,
    t: Seq<u8>,
    state: State,
    pos: int,
    open: Seq<Seq<u8>>,
    o: ParseOptions,
)
    requires
        same_from(s, t, pos),
        0 <= pos,
    ensures
        well_formed_from(s, state, pos, open, o) == well_formed_from(t, state, pos, open, o),
    decreases moves_left(s.len() as int, state, pos),
{
    lemma_hop_same(s, t, state, pos, open.len() as int, o, false);
    lemma_allowed_same(s, t, state, pos, open, o);
    if let Some(h) = hop(s, state, pos, open.len() as int, o, false) {
        if 0 <= h.pos && moves_left(s.len() as int, h.state, h.pos) < moves_left(
            s.len() as int,
            state,
            pos,
        ) {
            lemma_well_formed_same(s, t, h.state, h.pos, opened(s, state, pos, open, o), o);
        }
    }
}

/// Whether `open` holds the names of the elements that the stack holds open.
pub open spec fn names_open(doc: DocumentView, stack: Seq<Parent>, open: Seq<Seq<u8>>) -> bool {
    &&& open.len() == stack.len()
    &&& forall|k: int|
        0 <= k < stack.len() ==> item_of(doc, (#[trigger] stack[k]).parent_idx as int)
            == Item::Element(open[k])
}

/// Whether the move from `pos` in state `state` reads an attribute.
pub open spec fn reads_attribute(s: Seq<u8>, state: State, pos: int) -> bool {
    state is ReadAttribute && match find_from(s, pos, Stop::NotClass(Chartype::Space)) {
        Some(p) => s[p] != SLASH && s[p] != GREATER_THAN,
        None => false,
    }
}

/// Whether an index is left for the node that the move of the reading notes
/// where the parser stands, and for the attribute that it reads.
pub open spec fn room(m: Machine) -> bool {
    &&& hop(m.doc.xml, m.state, m.pos, m.stack.len() as int, m.options, false) matches Some(h)
        ==> m.doc.nodes.len() + h.items.len() <= NodeIdx::MAX
    &&& reads_attribute(m.doc.xml, m.state, m.pos) ==> m.doc.attributes.len() < AttrIdx::MAX
}

/// Whether an index is left for each node that the reading notes from where
/// the parser stands, and for each `=` in what is left of the buffer.
pub open spec fn within(m: Machine) -> bool {
    &&& m.doc.nodes.len() + scan(
        m.doc.xml,
        m.state,
        m.pos,
        m.stack.len() as int,
        m.options,
        false,
    ).len() <= NodeIdx::MAX
    &&& m.doc.attributes.len() + count_of(m.doc.xml.subrange(m.pos, m.len()), EQUAL)
        <= AttrIdx::MAX
}

/// Whether the step of the parser and the move of the reading agree, where
/// `open` holds the names of the open elements: a step that is taken stands
/// at what is allowed, leaves open what the move leaves open and adds an
/// attribute where the move reads one; and a step is taken where there is
/// room for it, the move is made and stands at what is allowed.
pub open spec fn agrees(m: Machine, open: Seq<Seq<u8>>) -> bool {
    let s = m.doc.xml;
    &&& m.step() matches Ok(next) ==> allowed(s, m.state, m.pos, open, m.options) && names_open(
        next.doc,
        next.stack,
        opened(s, m.state, m.pos, open, m.options),
    ) && next.doc.attributes.len() == m.doc.attributes.len() + if reads_attribute(
        s,
        m.state,
        m.pos,
    ) {
        1int
    } else {
        0int
    }
    &&& room(m) && allowed(s, m.state, m.pos, open, m.options) && hop(
        s,
        m.state,
        m.pos,
        open.len() as int,
        m.options,
        false,
    ) is Some ==> m.step() is Ok
}

/// The names of the open elements stay what they were in a document that
/// continues the one they were read in.
proof fn lemma_names_kept(m: Machine, next: Machine, open: Seq<Seq<u8>>, to: Seq<Seq<u8>>)
    requires
        m.inv(),
        names_open(m.doc, m.stack, open),
        continues(m.doc, next.doc, m.pos),
        to.len() == next.stack.len(),
        forall|k: int|
            0 <= k < next.stack.len() && k < m.stack.len() ==> (#[trigger] next.stack[k]).parent_idx
                == m.stack[k].parent_idx && to[k] == open[k],
        next.stack.len() <= m.stack.len() || (next.stack.len() == m.stack.len() + 1 && item_of(
            next.doc,
            next.stack.last().parent_idx as int,
        ) == Item::Element(to.last())),
    ensures
        names_open(next.doc, next.stack, to),
{
    lemma_items_kept(m.doc, next.doc, m.pos);
    assert forall|k: int| 0 <= k < next.stack.len() implies item_of(
        next.doc,
        (#[trigger] next.stack[k]).parent_idx as int,
    ) == Item::Element(to[k]) by {
        if k < m.stack.len() {
            assert(entry_ok(m.doc, m.stack, k));
            assert(item_of(next.doc, m.stack[k].parent_idx as int) == item_of(
                m.doc,
                m.stack[k].parent_idx as int,
            ));
        }
    }
}

/// The parser and the reading agree at an opening tag.
proof fn lemma_tag_open_agrees(m: Machine, open: Seq<Seq<u8>>)
    requires
        m.inv(),
        names_open(m.doc, m.stack, open),
        m.state is ReadTagOpen,
    ensures
        agrees(m, open),
{
    lemma_step(m);
    reveal(Machine::step);
    let xml = m.doc.xml;
    let len = m.len();
    let start = m.pos;
    if start + 1 <= len {
        lemma_first_stop(xml, start + 1, len, Stop::NotClass(Chartype::Symbol));
    }
    if let Some(end) = find_from(xml, start + 1, Stop::NotClass(Chartype::Symbol)) {
        if start < len && is_name_start(xml[start]) {
            let name = stored_name(xml, start, end, m.options);
            lemma_local_name(xml, start, end);
            let node_type = NodeType::Element {
                name: (start as XmlIdx..(start + name.len()) as XmlIdx),
                attributes: 0..0,
            };
            let named = m.with_xml(overwrite(xml, start, name));
            if room(m) {
                assert(named.with_node(node_type, State::ReadAttribute, end) is Ok);
            }
            if let Ok(next) = m.step() {
                lemma_new_item(m, xml, start, name, node_type, State::ReadAttribute, end);
                lemma_names_kept(m, next, open, open.push(name));
            }
        }
    }
}

/// The parser and the reading agree at a closing tag.
proof fn lemma_tag_close_agrees(m: Machine, open: Seq<Seq<u8>>)
    requires
        m.inv(),
        names_open(m.doc, m.stack, open),
        m.state is ReadTagClose,
    ensures
        agrees(m, open),
{
    lemma_step(m);
    reveal(Machine::step);
    let xml = m.doc.xml;
    let len = m.len();
    let start = m.pos;
    lemma_first_stop(xml, start, len, Stop::Class(Chartype::ParseCloseTag));
    if let Some(end) = find_from(xml, start, Stop::Class(Chartype::ParseCloseTag)) {
        if end != start && m.stack.len() > 0 {
            let name = stored_name(xml, start, end, m.options);
            lemma_local_name(xml, start, end);
            lemma_overwrite(xml, start, name);
            let written = overwrite(xml, start, name);
            let named = m.with_xml(written);
            lemma_same_len(m, written);
            lemma_items_kept(m.doc, named.doc, m.pos);
            let top = m.stack.last().parent_idx;
            assert(entry_ok(m.doc, m.stack, m.stack.len() - 1));
            assert(item_of(named.doc, top as int) == item_of(m.doc, top as int));
            assert(item_of(m.doc, top as int) == Item::Element(open.last()));
            assert(written.subrange(start, start + name.len()) =~= name);
            lemma_first_stop_same(written, xml, end, len, Stop::Byte(GREATER_THAN));
            lemma_first_stop(xml, end, len, Stop::Byte(GREATER_THAN));
            if let Ok(next) = m.step() {
                lemma_names_kept(m, next, open, open.drop_last());
            }
        }
    }
}

/// The parser and the reading agree at the end of an opening tag and at an attribute.
proof fn lemma_attribute_agrees(m: Machine, open: Seq<Seq<u8>>)
    requires
        m.inv(),
        names_open(m.doc, m.stack, open),
        m.state is ReadAttribute,
    ensures
        agrees(m, open),
{
    lemma_step(m);
    reveal(Machine::step);
    let xml = m.doc.xml;
    let len = m.len();
    lemma_first_stop(xml, m.pos, len, Stop::NotClass(Chartype::Space));
    if let Some(p) = find_from(xml, m.pos, Stop::NotClass(Chartype::Space)) {
        if xml[p] == SLASH {
            if let Ok(next) = m.step() {
                lemma_names_kept(m, next, open, open.drop_last());
            }
        } else if xml[p] == GREATER_THAN {
            if let Ok(next) = m.step() {
                lemma_names_kept(m, next, open, open);
            }
        } else {
            lemma_first_stop(xml, p + 1, len, Stop::NotClass(Chartype::Symbol));
            if let Some(eq) = find_from(xml, p + 1, Stop::NotClass(Chartype::Symbol)) {
                if eq + 2 <= len {
                    lemma_first_stop(xml, eq + 2, len, Stop::Byte(xml[eq + 1]));
                }
                if let Some(quote) = find_from(xml, eq + 2, Stop::Byte(xml[eq + 1])) {
                    if let Ok(next) = m.step() {
                        assert(m.step() == m.attribute_read(p, eq, quote));
                        lemma_names_kept(m, next, open, open);
                    }
                }
            }
        }
    }
}

/// The parser and the reading agree at text.
proof fn lemma_pcdata_agrees(m: Machine, open: Seq<Seq<u8>>)
    requires
        m.inv(),
        names_open(m.doc, m.stack, open),
        m.state is ReadPCData,
    ensures
        agrees(m, open),
{
    lemma_step(m);
    reveal(Machine::step);
    let xml = m.doc.xml;
    let len = m.len();
    lemma_first_stop(xml, m.pos, len, Stop::NotClass(Chartype::Space));
    if let Some(start) = find_from(xml, m.pos, Stop::NotClass(Chartype::Space)) {
        lemma_first_stop(xml, start, len, Stop::Byte(LESS_THAN));
        if let Some(lt) = find_from(xml, start, Stop::Byte(LESS_THAN)) {
            if lt > start && m.stack.len() > 0 {
                lemma_trimmed_end(xml, start, lt);
                let from = if m.options.trim_pcdata {
                    start
                } else {
                    m.pos
                };
                let to = if m.options.trim_pcdata {
                    trimmed_end(xml, start, lt)
                } else {
                    lt
                };
                let text = stored_text(xml, from, to, m.options);
                lemma_pcdata_len(xml, from, to);
                lemma_line_len(xml, from, to);
                let node_type = NodeType::Text((from as XmlIdx..(from + text.len()) as XmlIdx));
                if room(m) {
                    assert(m.with_xml(overwrite(xml, from, text)).with_node(
                        node_type,
                        State::ReadStartOfTag,
                        lt + 1,
                    ) is Ok);
                }
                if m.step() is Ok {
                    lemma_new_item(m, xml, from, text, node_type, State::ReadStartOfTag, lt + 1);
                }
            } else if m.options.keep_ws_only_pcdata && lt > m.pos && m.stack.len() > 0 {
                let blank = xml.subrange(m.pos, lt);
                lemma_overwrite_same(xml, m.pos, lt);
                let node_type = NodeType::Text((m.pos as XmlIdx..lt as XmlIdx));
                assert(m.with_xml(overwrite(xml, m.pos, blank)) == m);
                if room(m) {
                    assert(m.with_node(node_type, State::ReadStartOfTag, lt + 1) is Ok);
                }
                if m.step() is Ok {
                    lemma_new_item(m, xml, m.pos, blank, node_type, State::ReadStartOfTag, lt + 1);
                }
            }
            if let Ok(next) = m.step() {
                lemma_names_kept(m, next, open, open);
            }
        }
    }
}

/// The parser and the reading agree wherever the parser stands.
pub proof fn lemma_agrees(m: Machine, open: Seq<Seq<u8>>)
    requires
        m.inv(),
        names_open(m.doc, m.stack, open),
        !(m.state is End),
    ensures
        agrees(m, open),
{
    match m.state {
        State::ReadTagOpen => lemma_tag_open_agrees(m, open),
        State::ReadTagClose => lemma_tag_close_agrees(m, open),
        State::ReadAttribute => lemma_attribute_agrees(m, open),
        State::ReadPCData => lemma_pcdata_agrees(m, open),
        _ => {
            lemma_step(m);
            reveal(Machine::step);
            if m.state is Start {
                lemma_first_stop(m.doc.xml, m.pos, m.len(), Stop::Byte(LESS_THAN));
            }
            if let Ok(next) = m.step() {
                lemma_names_kept(m, next, open, open);
            }
        },
    }
}

/// A move that reads an attribute passes over an `=`.
proof fn lemma_attribute_holds_equal_sign(s: Seq<u8>, pos: int, open: Seq<Seq<u8>>, o: ParseOptions)
    requires
        0 <= pos <= s.len(),
        reads_attribute(s, State::ReadAttribute, pos),
        allowed(s, State::ReadAttribute, pos, open, o),
        hop(s, State::ReadAttribute, pos, open.len() as int, o, false) is Some,
    ensures
        ({
            let to = hop(s, State::ReadAttribute, pos, open.len() as int, o, false)->Some_0.pos;
            pos <= to <= s.len() && count_of(s.subrange(pos, to), EQUAL) >= 1
        }),
{
    let len = s.len() as int;
    lemma_first_stop(s, pos, len, Stop::NotClass(Chartype::Space));
    let p = find_from(s, pos, Stop::NotClass(Chartype::Space))->Some_0;
    lemma_first_stop(s, p + 1, len, Stop::NotClass(Chartype::Symbol));
    let eq = find_from(s, p + 1, Stop::NotClass(Chartype::Symbol))->Some_0;
    lemma_first_stop(s, eq + 2, len, Stop::Byte(s[eq + 1]));
    let quote = find_from(s, eq + 2, Stop::Byte(s[eq + 1]))->Some_0;
    lemma_count_of_held(s.subrange(pos, quote + 1), eq - pos, EQUAL);
}

/// What is left of the buffer holds no fewer `=` after a step than the
/// attributes that the step has added.
proof fn lemma_within_step(m: Machine, open: Seq<Seq<u8>>)
    requires
        m.inv(),
        names_open(m.doc, m.stack, open),
        within(m),
        !(m.state is End),
        m.step() is Ok,
    ensures
        within(m.step()->Ok_0),
{
    let s = m.doc.xml;
    let len = m.len();
    let next = m.step()->Ok_0;
    lemma_step(m);
    lemma_agrees(m, open);
    lemma_step_goes_along(m);
    lemma_step_unread(m);
    let depth = next.stack.len() as int;
    lemma_scan_same(next.doc.xml, s, next.state, next.pos, depth, m.options, false);
    assert(listing(next.doc).len() == next.doc.nodes.len() - 1);
    assert(listing(m.doc).len() == m.doc.nodes.len() - 1);
    let rest = s.subrange(m.pos, len);
    lemma_count_of_parts(rest, next.pos - m.pos, EQUAL);
    assert(rest.subrange(0, next.pos - m.pos) =~= s.subrange(m.pos, next.pos));
    assert(rest.subrange(next.pos - m.pos, rest.len() as int) =~= next.doc.xml.subrange(
        next.pos,
        len,
    ));
    if reads_attribute(s, m.state, m.pos) {
        lemma_attribute_holds_equal_sign(s, m.pos, open, m.options);
    }
}

/// There is room for the step where there is room for all that follows.
proof fn lemma_within_room(m: Machine, open: Seq<Seq<u8>>)
    requires
        m.inv(),
        within(m),
        open.len() == m.stack.len(),
        allowed(m.doc.xml, m.state, m.pos, open, m.options),
        hop(m.doc.xml, m.state, m.pos, open.len() as int, m.options, false) is Some,
    ensures
        room(m),
{
    let s = m.doc.xml;
    if reads_attribute(s, m.state, m.pos) {
        lemma_attribute_holds_equal_sign(s, m.pos, open, m.options);
        let to = hop(s, m.state, m.pos, open.len() as int, m.options, false)->Some_0.pos;
        let rest = s.subrange(m.pos, m.len());
        lemma_count_of_parts(rest, to - m.pos, EQUAL);
        assert(rest.subrange(0, to - m.pos) =~= s.subrange(m.pos, to));
    }
}

/// The parser ends with a document where the buffer is well-formed from
/// where it stands, and an index is left for all that follows.
pub proof fn lemma_well_formed_run(m: Machine, open: Seq<Seq<u8>>)
    requires
        m.inv(),
        names_open(m.doc, m.stack, open),
        within(m),
        well_formed_from(m.doc.xml, m.state, m.pos, open, m.options),
    ensures
        m.run() is Ok,
    decreases m.measure(),
{
    if !(m.state is End) {
        lemma_step(m);
        lemma_within_room(m, open);
        lemma_agrees(m, open);
        let next = m.step()->Ok_0;
        let to = opened(m.doc.xml, m.state, m.pos, open, m.options);
        lemma_step_goes_along(m);
        lemma_step_unread(m);
        lemma_within_step(m, open);
        lemma_well_formed_same(next.doc.xml, m.doc.xml, next.state, next.pos, to, m.options);
        lemma_well_formed_run(next, to);
    }
}

/// Where the parser ends with a document, the buffer is well-formed from
/// where the parser stands.
pub proof fn lemma_run_well_formed(m: Machine, open: Seq<Seq<u8>>)
    requires
        m.inv(),
        names_open(m.doc, m.stack, open),
        m.run() is Ok,
    ensures
        well_formed_from(m.doc.xml, m.state, m.pos, open, m.options),
    decreases m.measure(),
{
    if !(m.state is End) {
        lemma_step(m);
        lemma_agrees(m, open);
        let next = m.step()->Ok_0;
        let to = opened(m.doc.xml, m.state, m.pos, open, m.options);
        lemma_step_goes_along(m);
        lemma_step_unread(m);
        lemma_run_well_formed(next, to);
        lemma_well_formed_same(next.doc.xml, m.doc.xml, next.state, next.pos, to, m.options);
    }
}

/// Whether the parser, started on the head alone, ends with a document: the
/// buffer is well-formed, and the reading notes no more nodes than there
/// are indices.
pub open spec fn readable(xml: Seq<u8>, o: ParseOptions) -> bool {
    well_formed(xml, o) && scan(xml, State::Start, 0, 0, o, false).len() < NodeIdx::MAX
}

/// Started on the head alone, the parser ends with a document only if the
/// buffer is well-formed and the reading notes no more nodes than there are
/// indices, and it does where the buffer holds no more `=` than there are
/// indices of attributes.
pub proof fn lemma_start_readable(xml: Seq<u8>, o: ParseOptions)
    requires
        xml.len() <= XmlIdx::MAX,
    ensures
        Machine::initial(unparsed(xml), o).run() is Ok ==> readable(xml, o),
        readable(xml, o) && count_of(xml, EQUAL) <= AttrIdx::MAX ==> Machine::initial(
            unparsed(xml),
            o,
        ).run() is Ok,
{
    let m = Machine::initial(unparsed(xml), o);
    lemma_run_start(xml, o);
    assert(xml.subrange(0, xml.len() as int) =~= xml);
    if readable(xml, o) && count_of(xml, EQUAL) <= AttrIdx::MAX {
        lemma_well_formed_run(m, Seq::empty());
    }
    if m.run() is Ok {
        lemma_run_well_formed(m, Seq::empty());
        lemma_run(m);
        lemma_run_reads(m);
        let doc = m.run()->Ok_0;
        assert(listing(m.doc) =~= Seq::<Item>::empty());
        assert(listing(doc).len() == doc.nodes.len() - 1);
    }
}

/// An input is parsed to a document if and only if it passes the test of
/// its size, it is well-formed, and the reading notes no more nodes than
/// there are indices.
pub proof fn lemma_parsed_readable(xml: Seq<u8>, o: ParseOptions)
    ensures
        parsed(xml, o) is Ok <==> preflight(xml) is None && readable(xml, o),
{
    if preflight(xml) is None {
        lemma_start_readable(xml, o);
    }
}

/// An input that passes the test of its size, is well-formed and holds no
/// more nodes than there are indices, and whose names and texts are stored
/// verbatim, is parsed to a document, and the nodes of the document, in
/// document order, read as what a raw flat reading of the input notes: the
/// bytes of the name of each opening tag and the bytes of each text between
/// two tags, in the order of the input, and nothing else.
pub proof fn lemma_round_trip(xml: Seq<u8>, o: ParseOptions)
    requires
        preflight(xml) is None,
        readable(xml, o),
        verbatim(xml, o),
    ensures
        parsed(xml, o) matches Ok(doc) && listing(doc) == scan(xml, State::Start, 0, 0, o, true),
{
    lemma_parsed_readable(xml, o);
    lemma_verbatim_parsed_reads(xml, o);
}

} // verus!
