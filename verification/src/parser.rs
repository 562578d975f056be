//! The parser: one function for each state, and the loop that runs them.

use vstd::prelude::*;
use vstd::slice::slice_subrange;
use vstd::string::StringExecFns;
use crate::attribute::AttributeInfo;
use crate::chartype::{Chartype, is_of_type};
use crate::defs::{AttrIdx, NodeIdx, ParseFailure, ParseXmlError, XmlIdx};
use crate::document::{Document, DocumentView, bytes_to_str};
use crate::grammar::{lemma_parsed_readable, lemma_start_readable, readable};
use crate::entities::bytes_equal;
use crate::machine::{
    APOSTROPHE,
    EQUAL,
    EXCLAMATION_MARK,
    GREATER_THAN,
    INSTRUCTION_WINDOW,
    LEFT_BRACKET,
    LESS_THAN,
    MARKUP_WINDOW,
    Machine,
    Parent,
    ParseOptions,
    QUESTION_MARK,
    QUOTE,
    RIGHT_BRACKET,
    SLASH,
    State,
    child_added,
    closing_tag_failure,
    doctype_end,
    markup_end,
    stored_name,
    stored_text,
};
use crate::node_info::NodeInfo;
use crate::node_type::NodeType;
use crate::order::document_order;
use crate::plain::{lemma_tidy_parsed, tidy};
use crate::progress::{attribute_runs, has_root, lemma_parsed, ranges_apart};
use crate::report::{invalid, unexpected_end_error};
use crate::roundtrip::{
    lemma_parsed_reads,
    lemma_start_reads,
    lemma_verbatim_parsed_reads,
    listing,
    scan,
    verbatim,
};
use crate::scan::{
    Stop,
    count_byte,
    count_of,
    lemma_first_stop,
    scan_until_char,
    scan_until_chartype,
    scan_until_one_of_2_chars,
    skip_after_slice,
    skip_chartype,
    starts_with_at,
};
use crate::text::{
    attr_value,
    lemma_attr_len,
    lemma_line_len,
    lemma_local_name,
    lemma_local_name_same,
    lemma_overwrite,
    lemma_overwrite_same,
    lemma_pcdata_len,
    normalize_attribute_value,
    normalize_line_endings,
    overwrite,
    parse_pcdata,
    remove_namespace_prefix,
    trim_the_ending_whitespaces,
};

verus! {

/// Whether the result `r` of a step, with the document and the stack that it
/// left, is what `expected` names.
pub open spec fn stepped(
    expected: Result<Machine, ParseFailure>,
    r: Result<(State, usize), ParseXmlError>,
    doc: DocumentView,
    stack: Seq<Parent>,
    options: ParseOptions,
) -> bool {
    match expected {
        Ok(next) => r matches Ok((state, pos)) && next == (Machine {
            doc,
            stack,
            pos: pos as int,
            state,
            options,
        }),
        Err(e) => r matches Err(err) && err@ == e,
    }
}

/// Whether a step from `before` has left a well-formed document and fewer steps to go.
pub open spec fn advanced(before: Machine, expected: Result<Machine, ParseFailure>) -> bool {
    expected matches Ok(next) ==> next.doc.wf() && next.measure() < before.measure() && 0
        <= next.pos <= next.len()
}

/// The position after the document type declaration whose text starts at `pos`.
fn skip_doctype(xml: &Vec<u8>, pos: usize) -> (r: Result<usize, ParseXmlError>)
    ensures
        match doctype_end(xml@, pos as int) {
            Ok(end) => r == Ok::<usize, ParseXmlError>(end as usize) && pos <= end <= xml.len(),
            Err(e) => r matches Err(err) && err@ == e,
        },
{
    proof {
        if pos < xml.len() {
            lemma_first_stop(
                xml@,
                pos as int,
                xml.len() as int,
                Stop::Either(GREATER_THAN, LEFT_BRACKET),
            );
        }
    }
    let p = match scan_until_one_of_2_chars(xml, pos, GREATER_THAN, LEFT_BRACKET) {
        Some(p) => p,
        None => {
            return Err(unexpected_end_error());
        },
    };
    if xml[p] != LEFT_BRACKET {
        return Ok(p + 1);
    }
    proof {
        lemma_first_stop(xml@, p as int, xml.len() as int, Stop::Byte(RIGHT_BRACKET));
    }
    let q = match scan_until_char(xml, p, RIGHT_BRACKET) {
        Some(q) => q,
        None => {
            return Err(unexpected_end_error());
        },
    };
    proof {
        if q + 1 < xml.len() {
            lemma_first_stop(
                xml@,
                q + 1,
                xml.len() as int,
                Stop::NotClass(Chartype::Space),
            );
        }
    }
    let r = match skip_chartype(xml, q + 1, Chartype::Space) {
        Some(r) => r,
        None => {
            return Err(unexpected_end_error());
        },
    };
    if xml[r] == GREATER_THAN {
        Ok(r + 1)
    } else {
        Err(invalid(xml, "Expected '>' after DOCTYPE declaration", r))
    }
}

/// The position after the comment, document type declaration or CDATA
/// section whose text starts at `pos`, just after `<!`.
fn skip_markup(xml: &Vec<u8>, pos: usize) -> (r: Result<usize, ParseXmlError>)
    requires
        pos <= xml.len(),
    ensures
        match markup_end(xml@, pos as int) {
            Ok(end) => r == Ok::<usize, ParseXmlError>(end as usize) && pos <= end <= xml.len(),
            Err(e) => r matches Err(err) && err@ == e,
        },
{
    let comment = "--".as_bytes();
    let doctype = "DOCTYPE".as_bytes();
    let cdata = "[CDATA[".as_bytes();
    if starts_with_at(xml, pos, comment) {
        match skip_after_slice(xml, pos + comment.len(), MARKUP_WINDOW, "-->".as_bytes()) {
            Some(end) => Ok(end),
            None => Err(unexpected_end_error()),
        }
    } else if starts_with_at(xml, pos, doctype) {
        skip_doctype(xml, pos + doctype.len())
    } else if starts_with_at(xml, pos, cdata) {
        match skip_after_slice(xml, pos + cdata.len(), MARKUP_WINDOW, "]]>".as_bytes()) {
            Some(end) => Ok(end),
            None => Err(unexpected_end_error()),
        }
    } else {
        Err(unexpected_end_error())
    }
}

/// Ends the innermost open element, before position `pos`.
fn close_top(stack: &mut Vec<Parent>, pos: usize) -> (r: Result<(State, usize), ParseXmlError>)
    ensures
        r is Ok ==> final(stack)@ == old(stack)@.drop_last() && old(stack)@.len() > 0,
        match r {
            Ok((state, next)) => next == pos && (state is End <==> old(stack)@.len() == 1) && (
            state is ReadPCData <==> old(stack)@.len() != 1),
            Err(e) => e@ == ParseFailure::InternalError && old(stack)@.len() == 0,
        },
{
    match stack.pop() {
        Some(_) => if stack.len() == 0 {
            Ok((State::End, pos))
        } else {
            Ok((State::ReadPCData, pos))
        },
        None => Err(ParseXmlError::InternalError),
    }
}

/// The error of a buffer that is too large for the index widths, if it is:
/// the number of nodes is estimated by the number of `<`, with a tenth
/// added, and the number of attributes by the number of `=`.
pub open spec fn preflight(xml: Seq<u8>) -> Option<ParseFailure> {
    let tags = count_of(xml, LESS_THAN);
    if tags + tags / 10 + 1 > NodeIdx::MAX {
        Some(ParseFailure::InvalidXml("XML document has too many estimated nodes!"@))
    } else if count_of(xml, EQUAL) > AttrIdx::MAX {
        Some(ParseFailure::InvalidXml("XML document has too many estimated attributes!"@))
    } else if xml.len() > XmlIdx::MAX {
        Some(ParseFailure::InvalidXml("XML document is too large!"@))
    } else {
        None
    }
}

/// How many nodes and how many attributes are reserved for `xml` before it
/// is parsed: the estimate of its nodes and one more for the head, and the
/// estimate of its attributes.
pub open spec fn reserved(xml: Seq<u8>) -> (int, int) {
    let tags = count_of(xml, LESS_THAN);
    ((tags + tags / 10 + 2) as int, count_of(xml, EQUAL) as int)
}

/// How many nodes and how many attributes `Document::with_options` asks the
/// allocator for, or the error of a buffer that is too large for the index widths.
pub fn reservation(xml: &Vec<u8>) -> (r: Result<(usize, usize), ParseXmlError>)
    ensures
        match preflight(xml@) {
            Some(e) => r matches Err(err) && err@ == e,
            None => r == Ok::<(usize, usize), ParseXmlError>(
                (reserved(xml@).0 as usize, reserved(xml@).1 as usize),
            ) && reserved(xml@).0 <= NodeIdx::MAX + 1 && reserved(xml@).1 <= AttrIdx::MAX,
        },
{
    let tags = count_byte(LESS_THAN, xml.as_slice());
    let attr_count = count_byte(EQUAL, xml.as_slice());
    if tags > NodeIdx::MAX as usize || tags + tags / 10 + 1 > NodeIdx::MAX as usize {
        return Err(
            ParseXmlError::InvalidXml(
                String::from_str("XML document has too many estimated nodes!"),
            ),
        );
    }
    if attr_count > AttrIdx::MAX as usize {
        return Err(
            ParseXmlError::InvalidXml(
                String::from_str("XML document has too many estimated attributes!"),
            ),
        );
    }
    if xml.len() > XmlIdx::MAX as usize {
        return Err(ParseXmlError::InvalidXml(String::from_str("XML document is too large!")));
    }
    Ok((tags + tags / 10 + 2, attr_count))
}

/// The document before parsing: the head alone.
pub open spec fn unparsed(xml: Seq<u8>) -> DocumentView {
    DocumentView {
        nodes: seq![
            NodeInfo {
                parent_idx: 0,
                prev_sibling: 0,
                next_sibling: 0,
                first_child: 0,
                node_type: NodeType::Head,
            },
        ],
        attributes: Seq::empty(),
        xml,
    }
}

/// The document that `xml` is parsed to, or the error that parsing stops at.
pub open spec fn parsed(xml: Seq<u8>, options: ParseOptions) -> Result<DocumentView, ParseFailure> {
    match preflight(xml) {
        Some(e) => Err(e),
        None => Machine::initial(unparsed(xml), options).run(),
    }
}

/// Whether `r` is the outcome that `expected` names.
pub open spec fn built(r: Result<Document, ParseXmlError>, expected: Result<
    DocumentView,
    ParseFailure,
>) -> bool {
    match expected {
        Ok(doc) => r matches Ok(d) && d@ == doc && d.wf(),
        Err(e) => r matches Err(err) && err@ == e,
    }
}

/// Whether `r` is the error of arrays that could not be reserved.
pub open spec fn out_of_memory(r: Result<Document, ParseXmlError>) -> bool {
    r matches Err(e) && e@ is NotEnoughMemory
}

/// The parser at position `pos` in state `state`.
pub open spec fn machine_of(
    doc: DocumentView,
    stack: Seq<Parent>,
    pos: usize,
    state: State,
    options: ParseOptions,
) -> Machine {
    Machine { doc, stack, pos: pos as int, state, options }
}

impl Document {
    /// Stores the name written in `[start, end)`: moves it over its namespace
    /// prefix where the options ask for it. Returns the end of the stored name.
    pub(crate) fn store_name(&mut self, start: usize, end: usize, options: &ParseOptions) -> (name_end:
        usize)
        requires
            old(self).wf(),
            start <= end <= old(self).xml.len(),
        ensures
            final(self).wf(),
            final(self).xml@.len() == old(self).xml@.len(),
            start <= name_end <= end,
            name_end == start + stored_name(
                old(self).xml@,
                start as int,
                end as int,
                *options,
            ).len(),
            final(self)@ == (DocumentView {
                xml: overwrite(
                    old(self).xml@,
                    start as int,
                    stored_name(old(self).xml@, start as int, end as int, *options),
                ),
                ..old(self)@
            }),
    {
        proof {
            lemma_local_name(self.xml@, start as int, end as int);
            lemma_overwrite(
                self.xml@,
                start as int,
                stored_name(self.xml@, start as int, end as int, *options),
            );
        }
        if options.namespace_removal {
            remove_namespace_prefix(&mut self.xml, start, end)
        } else {
            proof {
                lemma_overwrite_same(self.xml@, start as int, end as int);
            }
            end
        }
    }

    /// Adds a node under the innermost open element, or under the head where
    /// none is open, and notes it on the stack.
    pub(crate) fn push_child(&mut self, stack: &mut Vec<Parent>, node_type: NodeType) -> (r: Result<
        NodeIdx,
        ParseXmlError,
    >)
        requires
            old(self).wf(),
        ensures
            match child_added(old(self)@, old(stack)@, node_type) {
                Ok((doc, open)) => r is Ok && final(self)@ == doc && final(stack)@ == open
                    && final(self).wf() && final(self).xml@ == old(self).xml@,
                Err(e) => r matches Err(err) && err@ == e,
            },
    {
        let depth = stack.len();
        let opens = match &node_type {
            NodeType::Element { .. } => true,
            _ => false,
        };
        let (parent_idx, last_child_idx) = if depth == 0 {
            (0, 0)
        } else {
            (stack[depth - 1].parent_idx, stack[depth - 1].last_child_idx)
        };
        let idx = match self.add_node(parent_idx, last_child_idx, node_type) {
            Ok(idx) => idx,
            Err(e) => {
                return Err(e);
            },
        };
        if depth > 0 {
            stack[depth - 1] = Parent { parent_idx, last_child_idx: idx };
        }
        if opens {
            stack.push(Parent::new(idx));
        }
        Ok(idx)
    }

    /// The step of state `ReadTagOpen`.
    pub(crate) fn read_tag_open(&mut self, stack: &mut Vec<Parent>, pos: usize, options: &ParseOptions) -> (r:
        Result<(State, usize), ParseXmlError>)
        requires
            old(self).wf(),
            pos <= old(self).xml.len(),
        ensures
            stepped(
                machine_of(
                    old(self)@,
                    old(stack)@,
                    pos,
                    State::ReadTagOpen,
                    *options,
                ).tag_open_step(),
                r,
                final(self)@,
                final(stack)@,
                *options,
            ),
            advanced(
                machine_of(old(self)@, old(stack)@, pos, State::ReadTagOpen, *options),
                machine_of(
                    old(self)@,
                    old(stack)@,
                    pos,
                    State::ReadTagOpen,
                    *options,
                ).tag_open_step(),
            ),
    {
        if pos >= self.xml.len() {
            return Err(unexpected_end_error());
        }
        if !is_of_type(self.xml[pos], Chartype::StartSymBol) {
            return Err(invalid(&self.xml, "Tag name must start with a letter or underscore", pos));
        }
        proof {
            if pos + 1 < self.xml.len() {
                lemma_first_stop(
                    self.xml@,
                    pos + 1,
                    self.xml@.len() as int,
                    Stop::NotClass(Chartype::Symbol),
                );
            }
        }
        let end = match skip_chartype(&self.xml, pos + 1, Chartype::Symbol) {
            Some(end) => end,
            None => {
                return Err(unexpected_end_error());
            },
        };
        let name_end = self.store_name(pos, end, options);
        let node_type = NodeType::Element {
            name: (pos as XmlIdx..name_end as XmlIdx),
            attributes: 0..0,
        };
        match self.push_child(stack, node_type) {
            Ok(_) => Ok((State::ReadAttribute, end)),
            Err(e) => Err(e),
        }
    }

    /// Why the closing tag whose name is written in `[start, end)` does not
    /// close node `open`, if it does not.
    pub(crate) fn check_closing_tag(&self, open: NodeIdx, start: usize, end: usize) -> (r: Option<
        ParseXmlError,
    >)
        requires
            self.wf(),
            start <= end <= self.xml.len(),
        ensures
            match closing_tag_failure(self@, open, start as int, end as int) {
                Some(e) => r matches Some(err) && err@ == e,
                None => r is None,
            },
    {
        if open as usize >= self.nodes.len() {
            return Some(invalid(&self.xml, "Expected an element node for closing tag", start));
        }
        match self.nodes[open as usize].node_type() {
            NodeType::Element { name, .. } => {
                let opening = slice_subrange(
                    self.xml.as_slice(),
                    name.start as usize,
                    name.end as usize,
                );
                let closing = slice_subrange(self.xml.as_slice(), start, end);
                if bytes_equal(opening, closing) {
                    None
                } else {
                    let mut msg = String::from_str("Closing tag '");
                    msg.append(bytes_to_str(closing));
                    msg.append("' does not match opening tag '");
                    msg.append(bytes_to_str(opening));
                    msg.append("'");
                    Some(invalid(&self.xml, msg.as_str(), start))
                }
            },
            _ => Some(invalid(&self.xml, "Expected an element node for closing tag", start)),
        }
    }

    /// The step of state `ReadTagClose`.
    pub(crate) fn read_tag_close(&mut self, stack: &mut Vec<Parent>, pos: usize, options: &ParseOptions) -> (r:
        Result<(State, usize), ParseXmlError>)
        requires
            old(self).wf(),
            pos <= old(self).xml.len(),
        ensures
            stepped(
                machine_of(
                    old(self)@,
                    old(stack)@,
                    pos,
                    State::ReadTagClose,
                    *options,
                ).tag_close_step(),
                r,
                final(self)@,
                final(stack)@,
                *options,
            ),
            advanced(
                machine_of(old(self)@, old(stack)@, pos, State::ReadTagClose, *options),
                machine_of(
                    old(self)@,
                    old(stack)@,
                    pos,
                    State::ReadTagClose,
                    *options,
                ).tag_close_step(),
            ),
    {
        proof {
            if pos < self.xml.len() {
                lemma_first_stop(
                    self.xml@,
                    pos as int,
                    self.xml@.len() as int,
                    Stop::Class(Chartype::ParseCloseTag),
                );
            }
        }
        let end = match scan_until_chartype(&self.xml, pos, Chartype::ParseCloseTag) {
            Some(end) => end,
            None => {
                return Err(unexpected_end_error());
            },
        };
        if end == pos {
            return Err(invalid(&self.xml, "Expected tag name after '</'", pos));
        }
        let name_end = self.store_name(pos, end, options);
        let depth = stack.len();
        if depth == 0 {
            return Err(invalid(&self.xml, "No opening tag for closing tag", end));
        }
        if let Some(e) = self.check_closing_tag(stack[depth - 1].parent_idx, pos, name_end) {
            return Err(e);
        }
        proof {
            lemma_first_stop(
                self.xml@,
                end as int,
                self.xml@.len() as int,
                Stop::Byte(GREATER_THAN),
            );
        }
        let gt = match scan_until_char(&self.xml, end, GREATER_THAN) {
            Some(gt) => gt,
            None => {
                return Err(unexpected_end_error());
            },
        };
        close_top(stack, gt + 1)
    }

    /// Stores the attribute whose name is written in `[start, eq)` and whose
    /// value is written in `[eq + 2, quote)`, and adds it to the innermost open element.
    pub(crate) fn store_attribute(
        &mut self,
        stack: &Vec<Parent>,
        start: usize,
        eq: usize,
        quote: usize,
        options: &ParseOptions,
    ) -> (r: Result<(State, usize), ParseXmlError>)
        requires
            old(self).wf(),
            start <= eq,
            eq + 2 <= quote < old(self).xml.len(),
        ensures
            stepped(
                machine_of(
                    old(self)@,
                    stack@,
                    start,
                    State::ReadAttribute,
                    *options,
                ).attribute_read(start as int, eq as int, quote as int),
                r,
                final(self)@,
                stack@,
                *options,
            ),
            r is Ok ==> final(self).wf() && final(self).xml@.len() == old(self).xml@.len(),
    {
        let ghost xml = self.xml@;
        let ghost value = attr_value(xml, eq + 2, quote as int, false, false);
        proof {
            lemma_attr_len(xml, eq + 2, quote as int, false, false);
            lemma_overwrite(xml, eq + 2, value);
            lemma_local_name_same(xml, overwrite(xml, eq + 2, value), start as int, eq as int);
        }
        let value_end = normalize_attribute_value(&mut self.xml, eq + 2, quote);
        let name_end = self.store_name(start, eq, options);
        let depth = stack.len();
        if depth == 0 {
            return Err(unexpected_end_error());
        }
        match self.add_attribute(
            stack[depth - 1].parent_idx,
            (start as XmlIdx..name_end as XmlIdx),
            ((eq + 2) as XmlIdx..value_end as XmlIdx),
        ) {
            Ok(_) => Ok((State::ReadAttribute, quote + 1)),
            Err(e) => Err(e),
        }
    }

    /// The step of state `ReadAttribute`.
    pub(crate) fn read_attribute(&mut self, stack: &mut Vec<Parent>, pos: usize, options: &ParseOptions) -> (r:
        Result<(State, usize), ParseXmlError>)
        requires
            old(self).wf(),
            pos <= old(self).xml.len(),
        ensures
            stepped(
                machine_of(
                    old(self)@,
                    old(stack)@,
                    pos,
                    State::ReadAttribute,
                    *options,
                ).attribute_step(),
                r,
                final(self)@,
                final(stack)@,
                *options,
            ),
            advanced(
                machine_of(old(self)@, old(stack)@, pos, State::ReadAttribute, *options),
                machine_of(
                    old(self)@,
                    old(stack)@,
                    pos,
                    State::ReadAttribute,
                    *options,
                ).attribute_step(),
            ),
    {
        let len = self.xml.len();
        proof {
            if pos < len {
                lemma_first_stop(
                    self.xml@,
                    pos as int,
                    len as int,
                    Stop::NotClass(Chartype::Space),
                );
            }
        }
        let p = match skip_chartype(&self.xml, pos, Chartype::Space) {
            Some(p) => p,
            None => {
                return Err(unexpected_end_error());
            },
        };
        let byte = self.xml[p];
        if byte == SLASH {
            if p + 1 >= len {
                return Err(unexpected_end_error());
            }
            if self.xml[p + 1] != GREATER_THAN {
                return Err(
                    invalid(&self.xml, "Expected '>' after '/' in self-closing tag", p + 1),
                );
            }
            return close_top(stack, p + 2);
        }
        if byte == GREATER_THAN {
            return Ok((State::ReadPCData, p + 1));
        }
        if !is_of_type(byte, Chartype::StartSymBol) {
            return Err(
                invalid(&self.xml, "Attribute name must start with a letter or underscore", p),
            );
        }
        proof {
            if p + 1 < len {
                lemma_first_stop(
                    self.xml@,
                    p + 1,
                    len as int,
                    Stop::NotClass(Chartype::Symbol),
                );
            }
        }
        let eq = match skip_chartype(&self.xml, p + 1, Chartype::Symbol) {
            Some(eq) => eq,
            None => {
                return Err(unexpected_end_error());
            },
        };
        if self.xml[eq] != EQUAL {
            return Err(invalid(&self.xml, "Attribute must have an '=' sign", eq));
        }
        if eq + 1 >= len {
            return Err(unexpected_end_error());
        }
        let quote = self.xml[eq + 1];
        if quote != APOSTROPHE && quote != QUOTE {
            return Err(invalid(&self.xml, "Attribute value must be enclosed in quotes", eq + 1));
        }
        proof {
            if eq + 2 < len {
                lemma_first_stop(self.xml@, eq + 2, len as int, Stop::Byte(quote));
            }
        }
        let closing = match scan_until_char(&self.xml, eq + 2, quote) {
            Some(closing) => closing,
            None => {
                return Err(unexpected_end_error());
            },
        };
        self.store_attribute(stack, p, eq, closing, options)
    }

    /// The step of state `ReadPCData`.
    pub(crate) fn read_pcdata(&mut self, stack: &mut Vec<Parent>, pos: usize, options: &ParseOptions) -> (r:
        Result<(State, usize), ParseXmlError>)
        requires
            old(self).wf(),
            pos <= old(self).xml.len(),
        ensures
            stepped(
                machine_of(
                    old(self)@,
                    old(stack)@,
                    pos,
                    State::ReadPCData,
                    *options,
                ).pcdata_step(),
                r,
                final(self)@,
                final(stack)@,
                *options,
            ),
            advanced(
                machine_of(old(self)@, old(stack)@, pos, State::ReadPCData, *options),
                machine_of(
                    old(self)@,
                    old(stack)@,
                    pos,
                    State::ReadPCData,
                    *options,
                ).pcdata_step(),
            ),
    {
        let len = self.xml.len();
        proof {
            if pos < len {
                lemma_first_stop(
                    self.xml@,
                    pos as int,
                    len as int,
                    Stop::NotClass(Chartype::Space),
                );
            }
        }
        let start = match skip_chartype(&self.xml, pos, Chartype::Space) {
            Some(start) => start,
            None => {
                return Err(unexpected_end_error());
            },
        };
        proof {
            lemma_first_stop(self.xml@, start as int, len as int, Stop::Byte(LESS_THAN));
        }
        let lt = match scan_until_char(&self.xml, start, LESS_THAN) {
            Some(lt) => lt,
            None => {
                return Err(unexpected_end_error());
            },
        };
        if lt > start {
            let from = if options.trim_pcdata {
                start
            } else {
                pos
            };
            let to = if options.trim_pcdata {
                trim_the_ending_whitespaces(&self.xml, start, lt)
            } else {
                lt
            };
            if stack.len() == 0 {
                return Err(unexpected_end_error());
            }
            proof {
                lemma_pcdata_len(self.xml@, from as int, to as int);
                lemma_line_len(self.xml@, from as int, to as int);
                lemma_overwrite(
                    self.xml@,
                    from as int,
                    stored_text(self.xml@, from as int, to as int, *options),
                );
            }
            let text_end = if options.parse_escapes {
                parse_pcdata(&mut self.xml, from, to)
            } else {
                normalize_line_endings(&mut self.xml, from, to)
            };
            match self.push_child(stack, NodeType::Text((from as XmlIdx..text_end as XmlIdx))) {
                Ok(_) => Ok((State::ReadStartOfTag, lt + 1)),
                Err(e) => Err(e),
            }
        } else if options.keep_ws_only_pcdata && lt > pos && stack.len() > 0 {
            match self.push_child(stack, NodeType::Text((pos as XmlIdx..lt as XmlIdx))) {
                Ok(_) => Ok((State::ReadStartOfTag, lt + 1)),
                Err(e) => Err(e),
            }
        } else {
            Ok((State::ReadStartOfTag, lt + 1))
        }
    }

    /// The step of state `Start`.
    pub(crate) fn read_start(&self, stack: &Vec<Parent>, pos: usize, options: &ParseOptions) -> (r: Result<
        (State, usize),
        ParseXmlError,
    >)
        requires
            self.wf(),
            pos <= self.xml.len(),
        ensures
            stepped(
                (Machine {
                    doc: self@,
                    stack: stack@,
                    pos: pos as int,
                    state: State::Start,
                    options: *options,
                }).start_step(),
                r,
                self@,
                stack@,
                *options,
            ),
            advanced(
                (Machine {
                    doc: self@,
                    stack: stack@,
                    pos: pos as int,
                    state: State::Start,
                    options: *options,
                }),
                (Machine {
                    doc: self@,
                    stack: stack@,
                    pos: pos as int,
                    state: State::Start,
                    options: *options,
                }).start_step(),
            ),
    {
        proof {
            lemma_first_stop(self.xml@, pos as int, self.xml@.len() as int, Stop::Byte(LESS_THAN));
        }
        match scan_until_char(&self.xml, pos, LESS_THAN) {
            Some(p) => Ok((State::ReadStartOfTag, p + 1)),
            None => Err(unexpected_end_error()),
        }
    }

    /// The step of state `ReadStartOfTag`.
    pub(crate) fn read_start_of_tag(&self, stack: &Vec<Parent>, pos: usize, options: &ParseOptions) -> (r:
        Result<(State, usize), ParseXmlError>)
        requires
            self.wf(),
            pos <= self.xml.len(),
        ensures
            stepped(
                (Machine {
                    doc: self@,
                    stack: stack@,
                    pos: pos as int,
                    state: State::ReadStartOfTag,
                    options: *options,
                }).start_of_tag_step(),
                r,
                self@,
                stack@,
                *options,
            ),
            advanced(
                (Machine {
                    doc: self@,
                    stack: stack@,
                    pos: pos as int,
                    state: State::ReadStartOfTag,
                    options: *options,
                }),
                (Machine {
                    doc: self@,
                    stack: stack@,
                    pos: pos as int,
                    state: State::ReadStartOfTag,
                    options: *options,
                }).start_of_tag_step(),
            ),
    {
        if pos >= self.xml.len() {
            return Err(unexpected_end_error());
        }
        let byte = self.xml[pos];
        if byte == SLASH {
            Ok((State::ReadTagClose, pos + 1))
        } else if byte == EXCLAMATION_MARK {
            match skip_markup(&self.xml, pos + 1) {
                Ok(end) => Ok((State::ReadPCData, end)),
                Err(e) => Err(e),
            }
        } else if byte == QUESTION_MARK {
            match skip_after_slice(&self.xml, pos + 1, INSTRUCTION_WINDOW, "?>".as_bytes()) {
                Some(end) => Ok((State::ReadPCData, end)),
                None => Err(unexpected_end_error()),
            }
        } else {
            Ok((State::ReadTagOpen, pos))
        }
    }

    /// Parses `xml`, which becomes the buffer of the document, with the
    /// standard options. See `with_options`.
    pub fn new(xml: Vec<u8>) -> (r: Result<Document, ParseXmlError>)
        ensures
            built(r, parsed(xml@, ParseOptions::standard())) || (preflight(xml@) is None
                && out_of_memory(r)),
            r matches Ok(doc) ==> has_root(doc@) && attribute_runs(doc@) && ranges_apart(doc@)
                && document_order(doc.nodes@) && doc.xml@.len() == xml@.len(),
            r matches Ok(doc) ==> (tidy(xml@) ==> doc.xml@ == xml@),
            r matches Ok(doc) ==> listing(doc@) == scan(
                xml@,
                State::Start,
                0,
                0,
                ParseOptions::standard(),
                verbatim(xml@, ParseOptions::standard()),
            ),
            r matches Err(e) ==> !(e@ is InternalError),
            r is Ok ==> readable(xml@, ParseOptions::standard()),
            preflight(xml@) is None && readable(xml@, ParseOptions::standard()) ==> r is Ok
                || out_of_memory(r),
    {
        let options = ParseOptions::default();
        Document::with_options(xml, &options)
    }

    /// Parses `xml`, which becomes the buffer of the document. Fails with
    /// `InvalidXml` where the buffer is too large for the index widths, with
    /// `NotEnoughMemory` where the arrays cannot be reserved to what
    /// `reservation` gives, and else with the error that the parser stops at,
    /// if it does: it stops at none if and only if the input is well-formed
    /// and the reading notes no more nodes than there are indices. The
    /// nodes of the document, in document order,
    /// read as what a flat reading of the input notes, which is a raw
    /// reading where the input is stored verbatim.
    pub fn with_options(xml: Vec<u8>, options: &ParseOptions) -> (r: Result<Document, ParseXmlError>)
        ensures
            built(r, parsed(xml@, *options)) || (preflight(xml@) is None && out_of_memory(r)),
            r matches Ok(doc) ==> has_root(doc@) && attribute_runs(doc@) && ranges_apart(doc@)
                && document_order(doc.nodes@) && doc.xml@.len() == xml@.len(),
            r matches Ok(doc) ==> (tidy(xml@) ==> doc.xml@ == xml@),
            r matches Ok(doc) ==> listing(doc@) == scan(
                xml@,
                State::Start,
                0,
                0,
                *options,
                verbatim(xml@, *options),
            ),
            r matches Err(e) ==> !(e@ is InternalError),
            r is Ok ==> readable(xml@, *options),
            preflight(xml@) is None && readable(xml@, *options) ==> r is Ok || out_of_memory(r),
    {
        proof {
            lemma_parsed_readable(xml@, *options);
            lemma_parsed(xml@, *options);
            lemma_parsed_reads(xml@, *options);
            if verbatim(xml@, *options) {
                lemma_verbatim_parsed_reads(xml@, *options);
            }
            if tidy(xml@) {
                lemma_tidy_parsed(xml@, *options);
            }
        }
        let (node_room, attr_room) = match reservation(&xml) {
            Ok(rooms) => rooms,
            Err(e) => {
                return Err(e);
            },
        };
        let mut nodes: Vec<NodeInfo> = Vec::new();
        let mut attributes: Vec<AttributeInfo> = Vec::new();
        if nodes.try_reserve(node_room).is_err() || attributes.try_reserve(attr_room).is_err() {
            return Err(ParseXmlError::NotEnoughMemory);
        }
        nodes.push(NodeInfo::new(0, 0, NodeType::Head));
        let mut doc = Document { nodes, attributes, xml };
        proof {
            assert(doc@.nodes =~= unparsed(doc.xml@).nodes);
            assert(doc@.attributes =~= unparsed(doc.xml@).attributes);
        }
        match doc.parse(options) {
            Ok(()) => Ok(doc),
            Err(e) => Err(e),
        }
    }

    /// One step of the parser, which is in state `state` at position `pos`.
    pub fn step(
        &mut self,
        stack: &mut Vec<Parent>,
        pos: usize,
        state: State,
        options: &ParseOptions,
    ) -> (r: Result<(State, usize), ParseXmlError>)
        requires
            old(self).wf(),
            pos <= old(self).xml.len(),
        ensures
            stepped(
                machine_of(old(self)@, old(stack)@, pos, state, *options).step(),
                r,
                final(self)@,
                final(stack)@,
                *options,
            ),
            !(state is End) ==> advanced(
                machine_of(old(self)@, old(stack)@, pos, state, *options),
                machine_of(old(self)@, old(stack)@, pos, state, *options).step(),
            ),
    {
        reveal(Machine::step);
        match state {
            State::Start => self.read_start(stack, pos, options),
            State::ReadStartOfTag => self.read_start_of_tag(stack, pos, options),
            State::ReadTagOpen => self.read_tag_open(stack, pos, options),
            State::ReadTagClose => self.read_tag_close(stack, pos, options),
            State::ReadAttribute => self.read_attribute(stack, pos, options),
            State::ReadPCData => self.read_pcdata(stack, pos, options),
            State::End => Ok((state, pos)),
        }
    }

    /// Parses the buffer and builds the tree: runs the parser from its first
    /// state to the end of the root element, or to the first error. On a
    /// document that holds the head alone it stops at no error only if the
    /// buffer is well-formed and the reading notes no more nodes than there
    /// are indices, and it stops at none there if the buffer holds no more
    /// `=` than there are indices of attributes; the nodes that it builds
    /// read as what a flat reading of the buffer notes.
    pub fn parse(&mut self, options: &ParseOptions) -> (r: Result<(), ParseXmlError>)
        requires
            old(self).wf(),
        ensures
            match Machine::initial(old(self)@, *options).run() {
                Ok(doc) => r is Ok && final(self)@ == doc && final(self).wf(),
                Err(e) => r matches Err(err) && err@ == e,
            },
            old(self)@ == unparsed(old(self).xml@) && r is Ok ==> readable(
                old(self).xml@,
                *options,
            ) && listing(final(self)@) == scan(
                old(self).xml@,
                State::Start,
                0,
                0,
                *options,
                verbatim(old(self).xml@, *options),
            ),
            old(self)@ == unparsed(old(self).xml@) && readable(old(self).xml@, *options)
                && count_of(old(self).xml@, EQUAL) <= AttrIdx::MAX ==> r is Ok,
    {
        let mut stack: Vec<Parent> = Vec::with_capacity(20);
        let mut state = State::Start;
        let mut pos: usize = 0;
        let ghost init = Machine::initial(self@, *options);
        proof {
            if self@ == unparsed(self.xml@) {
                lemma_start_reads(self.xml@, *options);
                lemma_start_readable(self.xml@, *options);
            }
        }
        assert(init == machine_of(self@, stack@, pos, state, *options));
        loop
            invariant
                self.wf(),
                pos <= self.xml.len(),
                init == Machine::initial(old(self)@, *options),
                machine_of(self@, stack@, pos, state, *options).run() == init.run(),
                old(self)@ == unparsed(old(self).xml@) && init.run() is Ok ==> readable(
                    old(self).xml@,
                    *options,
                ) && listing(init.run()->Ok_0) == scan(
                    old(self).xml@,
                    State::Start,
                    0,
                    0,
                    *options,
                    verbatim(old(self).xml@, *options),
                ),
                old(self)@ == unparsed(old(self).xml@) && readable(old(self).xml@, *options)
                    && count_of(old(self).xml@, EQUAL) <= AttrIdx::MAX ==> init.run() is Ok,
            decreases machine_of(self@, stack@, pos, state, *options).measure(),
        {
            if let State::End = state {
                return Ok(());
            }
            match self.step(&mut stack, pos, state, options) {
                Ok((next_state, next_pos)) => {
                    state = next_state;
                    pos = next_pos;
                },
                Err(e) => {
                    return Err(e);
                },
            }
        }
    }
}

} // verus!
