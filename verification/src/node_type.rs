//! What a node of the tree is.

use core::ops::Range;
use vstd::prelude::*;
use crate::defs::{AttributeRange, XmlIdx, XmlLocation};

verus! {

/// The payload of a node: the document's head, an element with the place of
/// its name and the run of its attributes, or a text with the place of its content.
#[derive(PartialEq, Eq, Debug)]
pub enum NodeType {
    Head,
    Element { name: XmlLocation, attributes: AttributeRange },
    Text(XmlLocation),
}

/// Whether `location` is a range of a buffer of `len` bytes.
pub open spec fn location_within(location: XmlLocation, len: int) -> bool {
    location.start <= location.end <= len
}

/// A copy of `location`.
pub fn copy_location(location: &XmlLocation) -> (r: XmlLocation)
    ensures
        r == *location,
{
    Range { start: location.start, end: location.end }
}

impl Clone for NodeType {
    fn clone(&self) -> (r: Self)
        ensures
            r == *self,
    {
        match self {
            NodeType::Head => NodeType::Head,
            NodeType::Element { name, attributes } => NodeType::Element {
                name: copy_location(name),
                attributes: Range { start: attributes.start, end: attributes.end },
            },
            NodeType::Text(location) => NodeType::Text(copy_location(location)),
        }
    }
}

impl NodeType {
    /// Where the node stands in the buffer: the start of an element's name or
    /// of a text's content, and 0 for the head.
    pub open spec fn spec_position(&self) -> XmlIdx {
        match self {
            NodeType::Element { name, .. } => name.start,
            NodeType::Text(location) => location.start,
            NodeType::Head => 0,
        }
    }

    /// Whether the name of this element or the content of this text lies
    /// within a buffer of `xml_len` bytes.
    pub open spec fn placed_within(&self, xml_len: int) -> bool {
        match self {
            NodeType::Element { name, .. } => location_within(*name, xml_len),
            NodeType::Text(location) => location_within(*location, xml_len),
            NodeType::Head => true,
        }
    }

    /// Whether the ranges of this payload lie within a buffer of `xml_len`
    /// bytes and an attribute array of `attr_len` entries.
    pub open spec fn within(&self, xml_len: int, attr_len: int) -> bool {
        &&& self.placed_within(xml_len)
        &&& self matches NodeType::Element { attributes, .. } ==> attributes.start
            <= attributes.end <= attr_len
    }
}

} // verus!
