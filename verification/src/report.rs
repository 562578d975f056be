//! The messages of the parser's errors.

use vstd::prelude::*;
use vstd::slice::slice_subrange;
use vstd::string::StringExecFns;
use crate::defs::{ParseFailure, ParseXmlError};
use crate::document::{bytes_to_str, text_of};

verus! {

/// The text of the decimal digit `d`.
pub open spec fn digit_text(d: int) -> Seq<char> {
    if d == 0 {
        "0"@
    } else if d == 1 {
        "1"@
    } else if d == 2 {
        "2"@
    } else if d == 3 {
        "3"@
    } else if d == 4 {
        "4"@
    } else if d == 5 {
        "5"@
    } else if d == 6 {
        "6"@
    } else if d == 7 {
        "7"@
    } else if d == 8 {
        "8"@
    } else {
        "9"@
    }
}

/// The decimal digits of `n`.
pub open spec fn decimal_text(n: nat) -> Seq<char>
    decreases n,
{
    if n < 10 {
        digit_text(n as int)
    } else {
        decimal_text(n / 10) + digit_text((n % 10) as int)
    }
}

/// The text of the decimal digit `d`.
fn digit_str(d: usize) -> (r: &'static str)
    requires
        d < 10,
    ensures
        r@ == digit_text(d as int),
{
    if d == 0 {
        "0"
    } else if d == 1 {
        "1"
    } else if d == 2 {
        "2"
    } else if d == 3 {
        "3"
    } else if d == 4 {
        "4"
    } else if d == 5 {
        "5"
    } else if d == 6 {
        "6"
    } else if d == 7 {
        "7"
    } else if d == 8 {
        "8"
    } else {
        "9"
    }
}

/// Appends the decimal digits of `n` to `text`.
pub fn push_decimal(text: &mut String, n: usize)
    ensures
        final(text)@ == old(text)@ + decimal_text(n as nat),
    decreases n,
{
    if n >= 10 {
        push_decimal(text, n / 10);
    }
    text.append(digit_str(n % 10));
    proof {
        if n >= 10 {
            assert((old(text)@ + decimal_text((n / 10) as nat)) + digit_text((n % 10) as int)
                =~= old(text)@ + decimal_text(n as nat));
        }
    }
}

/// Where the context of position `pos` starts: 30 bytes before it, or at the start of the buffer.
pub open spec fn context_start(pos: int) -> int {
    if pos > 30 {
        pos - 30
    } else {
        0
    }
}

/// Where the context of position `pos` ends: 30 bytes after it, or at the end of the buffer.
pub open spec fn context_end(len: int, pos: int) -> int {
    if pos + 30 < len {
        pos + 30
    } else {
        len
    }
}

/// The buffer around `pos`, with `[*]` at `pos`.
pub open spec fn context_text(xml: Seq<u8>, pos: int) -> Seq<char> {
    "..."@ + text_of(xml.subrange(context_start(pos), pos)) + "[*]"@ + text_of(
        xml.subrange(pos, context_end(xml.len() as int, pos)),
    ) + "..."@
}

/// The message of an error found at `pos`.
pub open spec fn invalid_text(xml: Seq<u8>, msg: Seq<char>, pos: int) -> Seq<char> {
    msg + ". at position "@ + decimal_text(pos as nat) + ": "@ + context_text(xml, pos)
}

/// The error found at `pos`.
pub open spec fn invalid_at(xml: Seq<u8>, msg: Seq<char>, pos: int) -> ParseFailure {
    ParseFailure::InvalidXml(invalid_text(xml, msg, pos))
}

/// The error of a document that ends before its root element does.
pub open spec fn unexpected_end() -> ParseFailure {
    ParseFailure::InvalidXml("Unexpected end of XML document."@)
}

/// The buffer around `pos`, with `[*]` at `pos`.
pub fn show_xml_around_error(xml: &Vec<u8>, pos: usize) -> (r: String)
    requires
        pos <= xml.len(),
    ensures
        r@ == context_text(xml@, pos as int),
{
    let start = if pos > 30 {
        pos - 30
    } else {
        0
    };
    let end = if xml.len() - pos > 30 {
        pos + 30
    } else {
        xml.len()
    };
    let mut text = String::from_str("...");
    text.append(bytes_to_str(slice_subrange(xml.as_slice(), start, pos)));
    text.append("[*]");
    text.append(bytes_to_str(slice_subrange(xml.as_slice(), pos, end)));
    text.append("...");
    text
}

/// The error found at `pos`, with message `msg`.
pub fn invalid(xml: &Vec<u8>, msg: &str, pos: usize) -> (r: ParseXmlError)
    requires
        pos <= xml.len(),
    ensures
        r@ == invalid_at(xml@, msg@, pos as int),
{
    let mut text = String::from_str(msg);
    text.append(". at position ");
    push_decimal(&mut text, pos);
    text.append(": ");
    let context = show_xml_around_error(xml, pos);
    text.append(context.as_str());
    ParseXmlError::InvalidXml(text)
}

/// The error of a document that ends before its root element does.
pub fn unexpected_end_error() -> (r: ParseXmlError)
    ensures
        r@ == unexpected_end(),
{
    ParseXmlError::InvalidXml(String::from_str("Unexpected end of XML document."))
}

} // verus!
