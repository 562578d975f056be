//! The parser as a transition system: its states, and what each state does
//! to the document, the stack of open elements and the position.

use vstd::prelude::*;
use vstd::string::StringSliceAdditionalSpecFns;
use crate::chartype::{Chartype, is_name_start};
use crate::defs::{NodeIdx, ParseFailure, XmlIdx};
use crate::document::{DocumentView, text_of};
use crate::node_type::NodeType;
use crate::report::{invalid_at, unexpected_end};
use crate::scan::{Stop, after_occurrence, find_from, occurs_at};
use crate::text::{attr_value, line_text, local_name, overwrite, pcdata_text, trimmed_end};

verus! {

pub const LESS_THAN: u8 = 60;

pub const GREATER_THAN: u8 = 62;

pub const SLASH: u8 = 47;

pub const EQUAL: u8 = 61;

pub const EXCLAMATION_MARK: u8 = 33;

pub const QUESTION_MARK: u8 = 63;

pub const LEFT_BRACKET: u8 = 91;

pub const RIGHT_BRACKET: u8 = 93;

pub const APOSTROPHE: u8 = 39;

pub const QUOTE: u8 = 34;

/// How far the end of a comment or of a CDATA section is searched.
pub const MARKUP_WINDOW: usize = 5000;

/// How far the end of a processing instruction is searched.
pub const INSTRUCTION_WINDOW: usize = 500;

/// The states of the parser.
#[derive(Clone, Copy, Debug)]
pub enum State {
    /// Before the first `<`.
    Start,
    /// Just after a `<`.
    ReadStartOfTag,
    /// At the name of an opening tag.
    ReadTagOpen,
    /// At the name of a closing tag.
    ReadTagClose,
    /// Within an opening tag, after its name or after an attribute.
    ReadAttribute,
    /// After a tag, at text.
    ReadPCData,
    /// After the end of the root element.
    End,
}

/// An open element: its node, and the last of its children so far (0 for none).
#[derive(Clone, Copy, Debug)]
pub struct Parent {
    pub parent_idx: NodeIdx,
    pub last_child_idx: NodeIdx,
}

impl Parent {
    /// An element that was just opened and has no children yet.
    pub fn new(parent_idx: NodeIdx) -> (r: Self)
        ensures
            r == (Parent { parent_idx, last_child_idx: 0 }),
    {
        Parent { parent_idx, last_child_idx: 0 }
    }
}

/// What the parser does beyond building the tree.
#[derive(Clone, Copy, Debug)]
pub struct ParseOptions {
    /// Leave the namespace prefix out of the names of elements and attributes.
    pub namespace_removal: bool,
    /// Replace character references in text; without it only line endings are replaced.
    pub parse_escapes: bool,
    /// Keep texts of white space only.
    pub keep_ws_only_pcdata: bool,
    /// Leave the white space at both ends out of texts.
    pub trim_pcdata: bool,
}

impl ParseOptions {
    /// The options of `Document::new`: namespace prefixes are left out and
    /// character references are replaced; texts keep their white space, and
    /// texts of white space only are left out.
    pub open spec fn standard() -> ParseOptions {
        ParseOptions {
            namespace_removal: true,
            parse_escapes: true,
            keep_ws_only_pcdata: false,
            trim_pcdata: false,
        }
    }
}

impl Default for ParseOptions {
    fn default() -> (r: ParseOptions)
        ensures
            r == ParseOptions::standard(),
    {
        ParseOptions {
            namespace_removal: true,
            parse_escapes: true,
            keep_ws_only_pcdata: false,
            trim_pcdata: false,
        }
    }
}

/// The parser between two steps.
pub struct Machine {
    /// The document so far.
    pub doc: DocumentView,
    /// The open elements, the innermost last.
    pub stack: Seq<Parent>,
    /// The position in the buffer.
    pub pos: int,
    /// The state.
    pub state: State,
    /// The options of this parse.
    pub options: ParseOptions,
}

/// The name written in `[start, end)` as it is stored: without its
/// namespace prefix where the options ask for it.
pub open spec fn stored_name(xml: Seq<u8>, start: int, end: int, options: ParseOptions) -> Seq<
    u8,
> {
    if options.namespace_removal {
        local_name(xml, start, end)
    } else {
        xml.subrange(start, end)
    }
}

/// The text written in `[start, end)` as it is stored: with its character
/// references replaced, or with its line endings replaced where the options
/// ask for no more.
pub open spec fn stored_text(xml: Seq<u8>, start: int, end: int, options: ParseOptions) -> Seq<
    u8,
> {
    if options.parse_escapes {
        pcdata_text(xml, start, end)
    } else {
        line_text(xml, start, end)
    }
}

/// The position after the document type declaration whose text starts at
/// `pos`: after its `>`, which follows its internal subset in brackets if it has one.
pub open spec fn doctype_end(xml: Seq<u8>, pos: int) -> Result<int, ParseFailure> {
    match find_from(xml, pos, Stop::Either(GREATER_THAN, LEFT_BRACKET)) {
        None => Err(unexpected_end()),
        Some(p) => if xml[p] == LEFT_BRACKET {
            match find_from(xml, p, Stop::Byte(RIGHT_BRACKET)) {
                None => Err(unexpected_end()),
                Some(q) => match find_from(xml, q + 1, Stop::NotClass(Chartype::Space)) {
                    None => Err(unexpected_end()),
                    Some(r) => if xml[r] == GREATER_THAN {
                        Ok(r + 1)
                    } else {
                        Err(invalid_at(xml, "Expected '>' after DOCTYPE declaration"@, r))
                    },
                },
            }
        } else {
            Ok(p + 1)
        },
    }
}

/// The position after the comment, document type declaration or CDATA
/// section whose text starts at `pos`, just after `<!`.
pub open spec fn markup_end(xml: Seq<u8>, pos: int) -> Result<int, ParseFailure> {
    if occurs_at(xml, pos, "--".spec_bytes()) {
        match after_occurrence(
            xml,
            pos + "--".spec_bytes().len(),
            MARKUP_WINDOW as int,
            "-->".spec_bytes(),
        ) {
            Some(end) => Ok(end),
            None => Err(unexpected_end()),
        }
    } else if occurs_at(xml, pos, "DOCTYPE".spec_bytes()) {
        doctype_end(xml, pos + "DOCTYPE".spec_bytes().len())
    } else if occurs_at(xml, pos, "[CDATA[".spec_bytes()) {
        match after_occurrence(
            xml,
            pos + "[CDATA[".spec_bytes().len(),
            MARKUP_WINDOW as int,
            "]]>".spec_bytes(),
        ) {
            Some(end) => Ok(end),
            None => Err(unexpected_end()),
        }
    } else {
        Err(unexpected_end())
    }
}

/// The message of a closing tag that does not match.
pub open spec fn mismatch_text(closing: Seq<u8>, opening: Seq<u8>) -> Seq<char> {
    "Closing tag '"@ + text_of(closing) + "' does not match opening tag '"@ + text_of(opening)
        + "'"@
}

/// Why the closing tag whose name is written in `[start, end)` does not
/// close node `open`, if it does not: the names are compared byte by byte.
pub open spec fn closing_tag_failure(doc: DocumentView, open: NodeIdx, start: int, end: int) -> Option<
    ParseFailure,
> {
    if open < doc.nodes.len() && doc.nodes[open as int].node_type is Element {
        let name = doc.nodes[open as int].node_type->name;
        let opening = doc.xml.subrange(name.start as int, name.end as int);
        let closing = doc.xml.subrange(start, end);
        if opening == closing {
            None
        } else {
            Some(invalid_at(doc.xml, mismatch_text(closing, opening), start))
        }
    } else {
        Some(invalid_at(doc.xml, "Expected an element node for closing tag"@, start))
    }
}

/// The parent of a new node, and the last child of that parent so far: those
/// of the innermost open element, or the head without children where none is open.
pub open spec fn top(stack: Seq<Parent>) -> Parent {
    if stack.len() == 0 {
        Parent { parent_idx: 0, last_child_idx: 0 }
    } else {
        stack.last()
    }
}

/// The stack once node `idx` is the last child of the innermost open element.
pub open spec fn noted(stack: Seq<Parent>, idx: NodeIdx) -> Seq<Parent> {
    if stack.len() == 0 {
        stack
    } else {
        stack.update(
            stack.len() - 1,
            Parent { parent_idx: stack.last().parent_idx, last_child_idx: idx },
        )
    }
}

/// The document and the stack after a node was added under the innermost open
/// element, or under the head where none is open. An element is open from then on.
pub open spec fn child_added(doc: DocumentView, stack: Seq<Parent>, node_type: NodeType) -> Result<
    (DocumentView, Seq<Parent>),
    ParseFailure,
> {
    match doc.node_added(top(stack).parent_idx, top(stack).last_child_idx, node_type) {
        Err(e) => Err(e),
        Ok(grown) => {
            let idx = doc.nodes.len() as NodeIdx;
            Ok(
                (
                    grown,
                    if node_type is Element {
                        noted(stack, idx).push(Parent { parent_idx: idx, last_child_idx: 0 })
                    } else {
                        noted(stack, idx)
                    },
                ),
            )
        },
    }
}

impl Machine {
    /// The parser before its first step.
    pub open spec fn initial(doc: DocumentView, options: ParseOptions) -> Machine {
        Machine { doc, stack: Seq::empty(), pos: 0, state: State::Start, options }
    }

    /// The length of the buffer.
    pub open spec fn len(self) -> int {
        self.doc.xml.len() as int
    }

    /// What bounds the number of steps that are left.
    pub open spec fn measure(self) -> nat {
        let left = if self.pos < self.len() {
            self.len() - self.pos
        } else {
            0
        };
        (2 * left + if self.state is ReadStartOfTag {
            1int
        } else {
            0int
        }) as nat
    }

    /// This parser in state `state` at position `pos`.
    pub open spec fn at(self, state: State, pos: int) -> Machine {
        Machine { state, pos, ..self }
    }

    /// This parser with buffer `xml`.
    pub open spec fn with_xml(self, xml: Seq<u8>) -> Machine {
        Machine { doc: DocumentView { xml, ..self.doc }, ..self }
    }

    /// This parser after it has added a node under the innermost open element,
    /// or under the head where none is open. An element is open from then on.
    pub open spec fn with_node(self, node_type: NodeType, state: State, pos: int) -> Result<
        Machine,
        ParseFailure,
    > {
        match child_added(self.doc, self.stack, node_type) {
            Err(e) => Err(e),
            Ok((doc, stack)) => Ok(Machine { doc, stack, pos, state, options: self.options }),
        }
    }

    /// This parser after the innermost open element has ended before `pos`:
    /// at its end where that was the root element.
    pub open spec fn closed(self, pos: int) -> Result<Machine, ParseFailure> {
        if self.stack.len() == 0 {
            Err(ParseFailure::InternalError)
        } else {
            Ok(
                Machine {
                    stack: self.stack.drop_last(),
                    pos,
                    state: if self.stack.len() == 1 {
                        State::End
                    } else {
                        State::ReadPCData
                    },
                    ..self
                },
            )
        }
    }

    /// `Start`: go to the first `<`.
    pub open spec fn start_step(self) -> Result<Machine, ParseFailure> {
        match find_from(self.doc.xml, self.pos, Stop::Byte(LESS_THAN)) {
            None => Err(unexpected_end()),
            Some(p) => Ok(self.at(State::ReadStartOfTag, p + 1)),
        }
    }

    /// `ReadStartOfTag`: tell a closing tag, a comment, a document type
    /// declaration, a CDATA section and a processing instruction, which are
    /// passed over, from an opening tag.
    pub open spec fn start_of_tag_step(self) -> Result<Machine, ParseFailure> {
        let xml = self.doc.xml;
        if !(0 <= self.pos < self.len()) {
            Err(unexpected_end())
        } else if xml[self.pos] == SLASH {
            Ok(self.at(State::ReadTagClose, self.pos + 1))
        } else if xml[self.pos] == EXCLAMATION_MARK {
            match markup_end(xml, self.pos + 1) {
                Ok(end) => Ok(self.at(State::ReadPCData, end)),
                Err(e) => Err(e),
            }
        } else if xml[self.pos] == QUESTION_MARK {
            match after_occurrence(
                xml,
                self.pos + 1,
                INSTRUCTION_WINDOW as int,
                "?>".spec_bytes(),
            ) {
                Some(end) => Ok(self.at(State::ReadPCData, end)),
                None => Err(unexpected_end()),
            }
        } else {
            Ok(self.at(State::ReadTagOpen, self.pos))
        }
    }

    /// `ReadTagOpen`: read the name of an element and add the element to the tree.
    pub open spec fn tag_open_step(self) -> Result<Machine, ParseFailure> {
        let xml = self.doc.xml;
        let start = self.pos;
        if !(0 <= start < self.len()) {
            Err(unexpected_end())
        } else if !is_name_start(xml[start]) {
            Err(invalid_at(xml, "Tag name must start with a letter or underscore"@, start))
        } else {
            match find_from(xml, start + 1, Stop::NotClass(Chartype::Symbol)) {
                None => Err(unexpected_end()),
                Some(end) => {
                    let name = stored_name(xml, start, end, self.options);
                    self.with_xml(overwrite(xml, start, name)).with_node(
                        NodeType::Element {
                            name: (start as XmlIdx..(start + name.len()) as XmlIdx),
                            attributes: 0..0,
                        },
                        State::ReadAttribute,
                        end,
                    )
                },
            }
        }
    }

    /// `ReadTagClose`: read the name of a closing tag, which must be that of
    /// the innermost open element, and go past its `>`.
    pub open spec fn tag_close_step(self) -> Result<Machine, ParseFailure> {
        let xml = self.doc.xml;
        let start = self.pos;
        match find_from(xml, start, Stop::Class(Chartype::ParseCloseTag)) {
            None => Err(unexpected_end()),
            Some(end) => if end == start {
                Err(invalid_at(xml, "Expected tag name after '</'"@, start))
            } else {
                let name = stored_name(xml, start, end, self.options);
                let named = self.with_xml(overwrite(xml, start, name));
                if self.stack.len() == 0 {
                    Err(invalid_at(named.doc.xml, "No opening tag for closing tag"@, end))
                } else {
                    match closing_tag_failure(
                        named.doc,
                        self.stack.last().parent_idx,
                        start,
                        start + name.len(),
                    ) {
                        Some(e) => Err(e),
                        None => match find_from(named.doc.xml, end, Stop::Byte(GREATER_THAN)) {
                            None => Err(unexpected_end()),
                            Some(gt) => named.closed(gt + 1),
                        },
                    }
                }
            },
        }
    }

    /// `ReadAttribute`: at `/>` end the element, at `>` go on with its
    /// content, and read anything else as an attribute `name="value"` or
    /// `name='value'`, which is added to the element.
    pub open spec fn attribute_step(self) -> Result<Machine, ParseFailure> {
        let xml = self.doc.xml;
        match find_from(xml, self.pos, Stop::NotClass(Chartype::Space)) {
            None => Err(unexpected_end()),
            Some(p) => if xml[p] == SLASH {
                if p + 1 >= self.len() {
                    Err(unexpected_end())
                } else if xml[p + 1] != GREATER_THAN {
                    Err(invalid_at(xml, "Expected '>' after '/' in self-closing tag"@, p + 1))
                } else {
                    self.closed(p + 2)
                }
            } else if xml[p] == GREATER_THAN {
                Ok(self.at(State::ReadPCData, p + 1))
            } else if !is_name_start(xml[p]) {
                Err(invalid_at(xml, "Attribute name must start with a letter or underscore"@, p))
            } else {
                match find_from(xml, p + 1, Stop::NotClass(Chartype::Symbol)) {
                    None => Err(unexpected_end()),
                    Some(eq) => if xml[eq] != EQUAL {
                        Err(invalid_at(xml, "Attribute must have an '=' sign"@, eq))
                    } else if eq + 1 >= self.len() {
                        Err(unexpected_end())
                    } else if xml[eq + 1] != APOSTROPHE && xml[eq + 1] != QUOTE {
                        Err(invalid_at(xml, "Attribute value must be enclosed in quotes"@, eq + 1))
                    } else {
                        match find_from(xml, eq + 2, Stop::Byte(xml[eq + 1])) {
                            None => Err(unexpected_end()),
                            Some(quote) => self.attribute_read(p, eq, quote),
                        }
                    },
                }
            },
        }
    }

    /// The parser after the attribute whose name is written in `[start, eq)`
    /// and whose value is written in `[eq + 2, quote)`.
    pub open spec fn attribute_read(self, start: int, eq: int, quote: int) -> Result<
        Machine,
        ParseFailure,
    > {
        let xml = self.doc.xml;
        let value = attr_value(xml, eq + 2, quote, false, false);
        let name = stored_name(xml, start, eq, self.options);
        let stored = overwrite(overwrite(xml, eq + 2, value), start, name);
        if self.stack.len() == 0 {
            Err(unexpected_end())
        } else {
            match self.with_xml(stored).doc.attribute_added(
                self.stack.last().parent_idx,
                (start as XmlIdx..(start + name.len()) as XmlIdx),
                ((eq + 2) as XmlIdx..(eq + 2 + value.len()) as XmlIdx),
            ) {
                Err(e) => Err(e),
                Ok(doc) => Ok(
                    Machine { doc, pos: quote + 1, state: State::ReadAttribute, ..self },
                ),
            }
        }
    }

    /// `ReadPCData`: read the text up to the next `<` and add it to the
    /// innermost open element, unless it is white space only.
    pub open spec fn pcdata_step(self) -> Result<Machine, ParseFailure> {
        let xml = self.doc.xml;
        match find_from(xml, self.pos, Stop::NotClass(Chartype::Space)) {
            None => Err(unexpected_end()),
            Some(start) => match find_from(xml, start, Stop::Byte(LESS_THAN)) {
                None => Err(unexpected_end()),
                Some(lt) => if lt > start {
                    let from = if self.options.trim_pcdata {
                        start
                    } else {
                        self.pos
                    };
                    let to = if self.options.trim_pcdata {
                        trimmed_end(xml, start, lt)
                    } else {
                        lt
                    };
                    let text = stored_text(xml, from, to, self.options);
                    if self.stack.len() == 0 {
                        Err(unexpected_end())
                    } else {
                        self.with_xml(overwrite(xml, from, text)).with_node(
                            NodeType::Text((from as XmlIdx..(from + text.len()) as XmlIdx)),
                            State::ReadStartOfTag,
                            lt + 1,
                        )
                    }
                } else if self.options.keep_ws_only_pcdata && lt > self.pos && self.stack.len()
                    > 0 {
                    self.with_node(
                        NodeType::Text((self.pos as XmlIdx..lt as XmlIdx)),
                        State::ReadStartOfTag,
                        lt + 1,
                    )
                } else {
                    Ok(self.at(State::ReadStartOfTag, lt + 1))
                },
            },
        }
    }

    /// What one step makes of this parser, which is not at its end.
    #[verifier::opaque]
    pub open spec fn step(self) -> Result<Machine, ParseFailure> {
        match self.state {
            State::Start => self.start_step(),
            State::ReadStartOfTag => self.start_of_tag_step(),
            State::ReadTagOpen => self.tag_open_step(),
            State::ReadTagClose => self.tag_close_step(),
            State::ReadAttribute => self.attribute_step(),
            State::ReadPCData => self.pcdata_step(),
            State::End => Ok(self),
        }
    }

    /// The document that this parser ends with, or the error that it stops
    /// at. The test of the measure makes the definition well-founded; it
    /// never fails for a parser that starts as `initial` says on a document
    /// that holds the head alone, see `progress::lemma_step`.
    pub open spec fn run(self) -> Result<DocumentView, ParseFailure>
        decreases self.measure(),
    {
        if self.state is End {
            Ok(self.doc)
        } else {
            match self.step() {
                Err(e) => Err(e),
                Ok(next) => if next.measure() < self.measure() {
                    next.run()
                } else {
                    Err(ParseFailure::InternalError)
                },
            }
        }
    }
}

} // verus!
