//! Index widths and the error type shared by the whole crate.

use core::ops::Range;
use vstd::prelude::*;
use vstd::string::StringExecFns;

verus! {

/// Index of a node in the document's node array.
pub type NodeIdx = u16;

/// Index of an attribute in the document's attribute array.
pub type AttrIdx = u16;

/// Byte position in the document's buffer.
pub type XmlIdx = u32;

/// Half-open byte range of the buffer.
pub type XmlLocation = Range<XmlIdx>;

/// Half-open range of node indices.
pub type NodeRange = Range<NodeIdx>;

/// Half-open range of attribute indices.
pub type AttributeRange = Range<AttrIdx>;

/// Why a document could not be built.
#[derive(Debug)]
pub enum ParseXmlError {
    /// The input is not well formed, or its size is beyond the index widths.
    InvalidXml(String),
    /// The node or attribute index space ran out while parsing.
    NoMoreSpace,
    /// A defensive check of the tree builder failed.
    InternalError,
    /// The arrays could not be reserved before parsing.
    NotEnoughMemory,
}

/// Mathematical value of a `ParseXmlError`.
pub enum ParseFailure {
    InvalidXml(Seq<char>),
    NoMoreSpace,
    InternalError,
    NotEnoughMemory,
}

impl View for ParseXmlError {
    type V = ParseFailure;

    open spec fn view(&self) -> ParseFailure {
        match self {
            ParseXmlError::InvalidXml(msg) => ParseFailure::InvalidXml(msg@),
            ParseXmlError::NoMoreSpace => ParseFailure::NoMoreSpace,
            ParseXmlError::InternalError => ParseFailure::InternalError,
            ParseXmlError::NotEnoughMemory => ParseFailure::NotEnoughMemory,
        }
    }
}

impl ParseFailure {
    /// The text shown for this failure.
    pub open spec fn message(self) -> Seq<char> {
        match self {
            ParseFailure::InvalidXml(msg) => "Invalid XML: "@ + msg,
            ParseFailure::NoMoreSpace => "No more space available for parsing"@,
            ParseFailure::InternalError => "Internal error occurred during parsing"@,
            ParseFailure::NotEnoughMemory => "Not enough memory to complete the operation"@,
        }
    }
}

impl ParseXmlError {
    /// The text shown for this error.
    pub fn message(&self) -> (text: String)
        ensures
            text@ == self@.message(),
    {
        match self {
            ParseXmlError::InvalidXml(msg) => {
                let mut text = String::from_str("Invalid XML: ");
                text.append(msg.as_str());
                text
            },
            ParseXmlError::NoMoreSpace => String::from_str("No more space available for parsing"),
            ParseXmlError::InternalError => String::from_str(
                "Internal error occurred during parsing",
            ),
            ParseXmlError::NotEnoughMemory => String::from_str(
                "Not enough memory to complete the operation",
            ),
        }
    }
}

} // verus!
