//! Byte classes of the scanner: a 256-entry table of class bit masks.

use vstd::prelude::*;

verus! {

/// A class of bytes that the scanner can stop at or skip over.
#[derive(Clone, Copy, Debug)]
pub enum Chartype {
    /// `&` and carriage return: what interrupts a plain text scan.
    ParsePCData,
    /// `&` and white space: what needs attention inside an attribute value.
    ParseAtrNorm,
    /// Tab, line feed, carriage return and space.
    Space,
    /// White space and `>`: what ends the name of a closing tag.
    ParseCloseTag,
    /// A byte that may continue a name.
    Symbol,
    /// A byte that may start a name.
    StartSymBol,
}

/// Tab, line feed, carriage return or space.
pub open spec fn is_space(b: u8) -> bool {
    b == 9 || b == 10 || b == 13 || b == 32
}

/// An ASCII letter, `_`, `:`, or any byte of a multi-byte UTF-8 sequence.
pub open spec fn is_name_start(b: u8) -> bool {
    b >= 128 || (65 <= b <= 90) || (97 <= b <= 122) || b == 95 || b == 58
}

/// A name start byte, an ASCII digit, `-` or `.`.
pub open spec fn is_name_char(b: u8) -> bool {
    is_name_start(b) || (48 <= b <= 57) || b == 45 || b == 46
}

/// Whether byte `b` belongs to class `t`.
pub open spec fn in_class(b: u8, t: Chartype) -> bool {
    match t {
        Chartype::ParsePCData => b == 38 || b == 13,
        Chartype::ParseAtrNorm => b == 38 || is_space(b),
        Chartype::Space => is_space(b),
        Chartype::ParseCloseTag => is_space(b) || b == 62,
        Chartype::Symbol => is_name_char(b),
        Chartype::StartSymBol => is_name_start(b),
    }
}

/// The bit that stands for class `t` in a table entry.
pub open spec fn class_bit(t: Chartype) -> u8 {
    match t {
        Chartype::ParsePCData => 1,
        Chartype::ParseAtrNorm => 4,
        Chartype::Space => 8,
        Chartype::ParseCloseTag => 16,
        Chartype::Symbol => 64,
        Chartype::StartSymBol => 128,
    }
}

/// The table entry of byte `b`: the union of the bits of its classes.
pub open spec fn class_mask(b: u8) -> u8 {
    if b == 13 {
        29
    } else if is_space(b) {
        28
    } else if b == 38 {
        5
    } else if b == 62 {
        16
    } else if is_name_start(b) {
        192
    } else if is_name_char(b) {
        64
    } else {
        0
    }
}

pub const CHARTYPE_TABLE: [u8; 256] = [
      0,   0,   0,   0,   0,   0,   0,   0,   0,  28,  28,   0,   0,  29,   0,   0,
      0,   0,   0,   0,   0,   0,   0,   0,   0,   0,   0,   0,   0,   0,   0,   0,
     28,   0,   0,   0,   0,   0,   5,   0,   0,   0,   0,   0,   0,  64,  64,   0,
     64,  64,  64,  64,  64,  64,  64,  64,  64,  64, 192,   0,   0,   0,  16,   0,
      0, 192, 192, 192, 192, 192, 192, 192, 192, 192, 192, 192, 192, 192, 192, 192,
    192, 192, 192, 192, 192, 192, 192, 192, 192, 192, 192,   0,   0,   0,   0, 192,
      0, 192, 192, 192, 192, 192, 192, 192, 192, 192, 192, 192, 192, 192, 192, 192,
    192, 192, 192, 192, 192, 192, 192, 192, 192, 192, 192,   0,   0,   0,   0,   0,
    192, 192, 192, 192, 192, 192, 192, 192, 192, 192, 192, 192, 192, 192, 192, 192,
    192, 192, 192, 192, 192, 192, 192, 192, 192, 192, 192, 192, 192, 192, 192, 192,
    192, 192, 192, 192, 192, 192, 192, 192, 192, 192, 192, 192, 192, 192, 192, 192,
    192, 192, 192, 192, 192, 192, 192, 192, 192, 192, 192, 192, 192, 192, 192, 192,
    192, 192, 192, 192, 192, 192, 192, 192, 192, 192, 192, 192, 192, 192, 192, 192,
    192, 192, 192, 192, 192, 192, 192, 192, 192, 192, 192, 192, 192, 192, 192, 192,
    192, 192, 192, 192, 192, 192, 192, 192, 192, 192, 192, 192, 192, 192, 192, 192,
    192, 192, 192, 192, 192, 192, 192, 192, 192, 192, 192, 192, 192, 192, 192, 192,
];

/// Every entry of the table is the mask of its index.
pub proof fn lemma_table_is_class_mask(b: u8)
    ensures
        CHARTYPE_TABLE[b as int] == class_mask(b),
{
}

impl Chartype {
    /// The bit of this class in a table entry.
    pub fn bit(self) -> (r: u8)
        ensures
            r == class_bit(self),
    {
        match self {
            Chartype::ParsePCData => 1,
            Chartype::ParseAtrNorm => 4,
            Chartype::Space => 8,
            Chartype::ParseCloseTag => 16,
            Chartype::Symbol => 64,
            Chartype::StartSymBol => 128,
        }
    }
}

/// The class mask of `byte`, read from the table.
pub fn classify(byte: u8) -> (mask: u8)
    ensures
        mask == class_mask(byte),
{
    proof {
        lemma_table_is_class_mask(byte);
    }
    CHARTYPE_TABLE[byte as usize]
}

/// A mask holds the bit of a class exactly when its byte is in the class.
pub proof fn lemma_mask_bit(b: u8, t: Chartype)
    ensures
        (class_mask(b) & class_bit(t)) != 0 <==> in_class(b, t),
{
    let m = class_mask(b);
    let k = class_bit(t);
    assert((m == 0 || m == 5 || m == 16 || m == 28 || m == 29 || m == 64 || m == 192) && (k == 1
        || k == 4 || k == 8 || k == 16 || k == 64 || k == 128) ==> (((m & k) != 0) <==> ((k == 1
        && (m == 5 || m == 29)) || (k == 4 && (m == 5 || m == 28 || m == 29)) || (k == 8 && (m
        == 28 || m == 29)) || (k == 16 && (m == 16 || m == 28 || m == 29)) || (k == 64 && (m == 64
        || m == 192)) || (k == 128 && m == 192)))) by (bit_vector);
}

/// Whether `byte` belongs to class `chartype`.
pub fn is_of_type(byte: u8, chartype: Chartype) -> (r: bool)
    ensures
        r == in_class(byte, chartype),
{
    proof {
        lemma_mask_bit(byte, chartype);
    }
    (classify(byte) & chartype.bit()) != 0
}

} // verus!
