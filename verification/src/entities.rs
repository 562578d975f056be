//! The named character references and the code points they stand for.

use vstd::prelude::*;
use vstd::string::StringSliceAdditionalSpecFns;

verus! {

/// How many names the table holds.
pub const ENTITY_COUNT: usize = 129;

/// The names of the table, in the order of `entity_codes`: the five of XML,
/// the Latin-1 names from U+00A0 to U+00FF, then the Latin Extended, spacing
/// modifier and general punctuation names.
pub open spec fn entity_names() -> Seq<&'static str> {
    seq![
        "amp", "lt", "gt", "quot", "apos", "nbsp", "iexcl", "cent",
        "pound", "curren", "yen", "brvbar", "sect", "uml", "copy", "ordf",
        "laquo", "not", "shy", "reg", "macr", "deg", "plusmn", "sup2",
        "sup3", "acute", "micro", "para", "middot", "cedil", "sup1", "ordm",
        "raquo", "frac14", "frac12", "frac34", "iquest", "Agrave", "Aacute", "Acirc",
        "Atilde", "Auml", "Aring", "AElig", "Ccedil", "Egrave", "Eacute", "Ecirc",
        "Euml", "Igrave", "Iacute", "Icirc", "Iuml", "ETH", "Ntilde", "Ograve",
        "Oacute", "Ocirc", "Otilde", "Ouml", "times", "Oslash", "Ugrave", "Uacute",
        "Ucirc", "Uuml", "Yacute", "THORN", "szlig", "agrave", "aacute", "acirc",
        "atilde", "auml", "aring", "aelig", "ccedil", "egrave", "eacute", "ecirc",
        "euml", "igrave", "iacute", "icirc", "iuml", "eth", "ntilde", "ograve",
        "oacute", "ocirc", "otilde", "ouml", "divide", "oslash", "ugrave", "uacute",
        "ucirc", "uuml", "yacute", "thorn", "yuml", "OElig", "oelig", "Scaron",
        "scaron", "Yuml", "circ", "tilde", "ensp", "emsp", "thinsp", "zwnj",
        "zwj", "lrm", "rlm", "ndash", "mdash", "lsquo", "rsquo", "sbquo",
        "ldquo", "rdquo", "bdquo", "dagger", "Dagger", "permil", "lsaquo", "rsaquo",
        "euro",
    ]
}

/// The code points of the table, in the order of `entity_names`.
pub open spec fn entity_codes() -> Seq<u32> {
    seq![
        0x0026, 0x003C, 0x003E, 0x0022, 0x0027, 0x00A0, 0x00A1, 0x00A2,
        0x00A3, 0x00A4, 0x00A5, 0x00A6, 0x00A7, 0x00A8, 0x00A9, 0x00AA,
        0x00AB, 0x00AC, 0x00AD, 0x00AE, 0x00AF, 0x00B0, 0x00B1, 0x00B2,
        0x00B3, 0x00B4, 0x00B5, 0x00B6, 0x00B7, 0x00B8, 0x00B9, 0x00BA,
        0x00BB, 0x00BC, 0x00BD, 0x00BE, 0x00BF, 0x00C0, 0x00C1, 0x00C2,
        0x00C3, 0x00C4, 0x00C5, 0x00C6, 0x00C7, 0x00C8, 0x00C9, 0x00CA,
        0x00CB, 0x00CC, 0x00CD, 0x00CE, 0x00CF, 0x00D0, 0x00D1, 0x00D2,
        0x00D3, 0x00D4, 0x00D5, 0x00D6, 0x00D7, 0x00D8, 0x00D9, 0x00DA,
        0x00DB, 0x00DC, 0x00DD, 0x00DE, 0x00DF, 0x00E0, 0x00E1, 0x00E2,
        0x00E3, 0x00E4, 0x00E5, 0x00E6, 0x00E7, 0x00E8, 0x00E9, 0x00EA,
        0x00EB, 0x00EC, 0x00ED, 0x00EE, 0x00EF, 0x00F0, 0x00F1, 0x00F2,
        0x00F3, 0x00F4, 0x00F5, 0x00F6, 0x00F7, 0x00F8, 0x00F9, 0x00FA,
        0x00FB, 0x00FC, 0x00FD, 0x00FE, 0x00FF, 0x0152, 0x0153, 0x0160,
        0x0161, 0x0178, 0x02C6, 0x02DC, 0x2002, 0x2003, 0x2009, 0x200C,
        0x200D, 0x200E, 0x200F, 0x2013, 0x2014, 0x2018, 0x2019, 0x201A,
        0x201C, 0x201D, 0x201E, 0x2020, 0x2021, 0x2030, 0x2039, 0x203A,
        0x20AC,
    ]
}

/// The first index at or after `from` whose name has the bytes `name`.
pub open spec fn name_index(names: Seq<&'static str>, name: Seq<u8>, from: int) -> Option<int>
    decreases names.len() - from,
{
    if from < 0 || from >= names.len() {
        None
    } else if names[from].spec_bytes() == name {
        Some(from)
    } else {
        name_index(names, name, from + 1)
    }
}

/// The code point that the reference name `name` stands for. No name of the
/// table is shorter than two bytes.
pub open spec fn entity_code_point(name: Seq<u8>) -> Option<u32> {
    if name.len() < 2 {
        None
    } else {
        match name_index(entity_names(), name, 0) {
            Some(i) => Some(entity_codes()[i]),
            None => None,
        }
    }
}

/// Whether two byte slices hold the same bytes.
pub fn bytes_equal(a: &[u8], b: &[u8]) -> (r: bool)
    ensures
        r == (a@ == b@),
{
    if a.len() != b.len() {
        return false;
    }
    let n = a.len();
    let mut k: usize = 0;
    while k < n
        invariant
            k <= n,
            n == a@.len(),
            n == b@.len(),
            forall|j: int| 0 <= j < k ==> a@[j] == b@[j],
        decreases n - k,
    {
        if a[k] != b[k] {
            return false;
        }
        k += 1;
    }
    proof {
        assert(a@ =~= b@);
    }
    true
}

/// Looks a reference name up in the table.
pub fn lookup_entity(name: &[u8]) -> (r: Option<u32>)
    ensures
        r == entity_code_point(name@),
{
    if name.len() < 2 {
        return None;
    }
    let names: [&'static str; 129] = [
        "amp", "lt", "gt", "quot", "apos", "nbsp", "iexcl", "cent",
        "pound", "curren", "yen", "brvbar", "sect", "uml", "copy", "ordf",
        "laquo", "not", "shy", "reg", "macr", "deg", "plusmn", "sup2",
        "sup3", "acute", "micro", "para", "middot", "cedil", "sup1", "ordm",
        "raquo", "frac14", "frac12", "frac34", "iquest", "Agrave", "Aacute", "Acirc",
        "Atilde", "Auml", "Aring", "AElig", "Ccedil", "Egrave", "Eacute", "Ecirc",
        "Euml", "Igrave", "Iacute", "Icirc", "Iuml", "ETH", "Ntilde", "Ograve",
        "Oacute", "Ocirc", "Otilde", "Ouml", "times", "Oslash", "Ugrave", "Uacute",
        "Ucirc", "Uuml", "Yacute", "THORN", "szlig", "agrave", "aacute", "acirc",
        "atilde", "auml", "aring", "aelig", "ccedil", "egrave", "eacute", "ecirc",
        "euml", "igrave", "iacute", "icirc", "iuml", "eth", "ntilde", "ograve",
        "oacute", "ocirc", "otilde", "ouml", "divide", "oslash", "ugrave", "uacute",
        "ucirc", "uuml", "yacute", "thorn", "yuml", "OElig", "oelig", "Scaron",
        "scaron", "Yuml", "circ", "tilde", "ensp", "emsp", "thinsp", "zwnj",
        "zwj", "lrm", "rlm", "ndash", "mdash", "lsquo", "rsquo", "sbquo",
        "ldquo", "rdquo", "bdquo", "dagger", "Dagger", "permil", "lsaquo", "rsaquo",
        "euro",
    ];
    let codes: [u32; 129] = [
        0x0026, 0x003C, 0x003E, 0x0022, 0x0027, 0x00A0, 0x00A1, 0x00A2,
        0x00A3, 0x00A4, 0x00A5, 0x00A6, 0x00A7, 0x00A8, 0x00A9, 0x00AA,
        0x00AB, 0x00AC, 0x00AD, 0x00AE, 0x00AF, 0x00B0, 0x00B1, 0x00B2,
        0x00B3, 0x00B4, 0x00B5, 0x00B6, 0x00B7, 0x00B8, 0x00B9, 0x00BA,
        0x00BB, 0x00BC, 0x00BD, 0x00BE, 0x00BF, 0x00C0, 0x00C1, 0x00C2,
        0x00C3, 0x00C4, 0x00C5, 0x00C6, 0x00C7, 0x00C8, 0x00C9, 0x00CA,
        0x00CB, 0x00CC, 0x00CD, 0x00CE, 0x00CF, 0x00D0, 0x00D1, 0x00D2,
        0x00D3, 0x00D4, 0x00D5, 0x00D6, 0x00D7, 0x00D8, 0x00D9, 0x00DA,
        0x00DB, 0x00DC, 0x00DD, 0x00DE, 0x00DF, 0x00E0, 0x00E1, 0x00E2,
        0x00E3, 0x00E4, 0x00E5, 0x00E6, 0x00E7, 0x00E8, 0x00E9, 0x00EA,
        0x00EB, 0x00EC, 0x00ED, 0x00EE, 0x00EF, 0x00F0, 0x00F1, 0x00F2,
        0x00F3, 0x00F4, 0x00F5, 0x00F6, 0x00F7, 0x00F8, 0x00F9, 0x00FA,
        0x00FB, 0x00FC, 0x00FD, 0x00FE, 0x00FF, 0x0152, 0x0153, 0x0160,
        0x0161, 0x0178, 0x02C6, 0x02DC, 0x2002, 0x2003, 0x2009, 0x200C,
        0x200D, 0x200E, 0x200F, 0x2013, 0x2014, 0x2018, 0x2019, 0x201A,
        0x201C, 0x201D, 0x201E, 0x2020, 0x2021, 0x2030, 0x2039, 0x203A,
        0x20AC,
    ];
    assert(names@ =~= entity_names());
    assert(codes@ =~= entity_codes());
    let mut i: usize = 0;
    while i < ENTITY_COUNT
        invariant
            i <= ENTITY_COUNT,
            name@.len() >= 2,
            names@ == entity_names(),
            codes@ == entity_codes(),
            name_index(entity_names(), name@, 0) == name_index(entity_names(), name@, i as int),
        decreases ENTITY_COUNT - i,
    {
        if bytes_equal(name, names[i].as_bytes()) {
            return Some(codes[i]);
        }
        i += 1;
    }
    None
}

} // verus!
