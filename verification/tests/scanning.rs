//! The searches over the buffer, the byte classes and the rewrites of ranges.

use xhtml_parser::chartype::{classify, is_of_type, Chartype, CHARTYPE_TABLE};
use xhtml_parser::document::bytes_to_str;
use xhtml_parser::entities::lookup_entity;
use xhtml_parser::scan::{
    scan_range_for_char, scan_range_for_chartype, scan_until_char, scan_until_chartype,
    scan_until_one_of_2_chars, skip_after_slice, skip_chartype, starts_with_at,
};
use xhtml_parser::text::{
    decimal, hex_val, hexadecimal, move_bytes, normalize_attribute_value, normalize_line_endings,
    parse_pcdata, remove_namespace_prefix, translate_sequence, trim_the_ending_whitespaces,
    write_utf8,
};

fn buffer(text: &str) -> Vec<u8> {
    text.as_bytes().to_vec()
}

#[test]
fn classes_of_all_bytes() {
    for byte in 0..=255u8 {
        let space = matches!(byte, b' ' | b'\t' | b'\r' | b'\n');
        let start = byte >= 128 || byte.is_ascii_alphabetic() || byte == b'_' || byte == b':';
        let symbol = start || byte.is_ascii_digit() || byte == b'-' || byte == b'.';
        assert_eq!(is_of_type(byte, Chartype::Space), space);
        assert_eq!(is_of_type(byte, Chartype::StartSymBol), start);
        assert_eq!(is_of_type(byte, Chartype::Symbol), symbol);
        assert_eq!(is_of_type(byte, Chartype::ParsePCData), byte == b'&' || byte == b'\r');
        assert_eq!(is_of_type(byte, Chartype::ParseAtrNorm), byte == b'&' || space);
        assert_eq!(is_of_type(byte, Chartype::ParseCloseTag), byte == b'>' || space);
        assert_eq!(classify(byte), CHARTYPE_TABLE[byte as usize]);
    }
    assert_eq!(classify(b'\r'), 29);
    assert_eq!(classify(b' '), 28);
    assert_eq!(classify(b'&'), 5);
    assert_eq!(classify(b'>'), 16);
    assert_eq!(classify(b'a'), 192);
    assert_eq!(classify(b'7'), 64);
    assert_eq!(classify(b'<'), 0);
    assert_eq!(Chartype::Symbol.bit(), 64);
}

#[test]
fn first_byte_is_found() {
    let buf = buffer("ab<cd<e");
    assert_eq!(scan_until_char(&buf, 0, b'<'), Some(2));
    assert_eq!(scan_until_char(&buf, 2, b'<'), Some(2));
    assert_eq!(scan_until_char(&buf, 3, b'<'), Some(5));
    assert_eq!(scan_until_char(&buf, 6, b'<'), None);
    assert_eq!(scan_until_char(&buf, 7, b'<'), None);
    assert_eq!(scan_until_char(&buf, 70, b'<'), None);
    assert_eq!(scan_range_for_char(&buf, 0, 2, b'<'), None);
    assert_eq!(scan_range_for_char(&buf, 0, 3, b'<'), Some(2));
    assert_eq!(scan_range_for_char(&buf, 3, 2, b'<'), None);
    assert_eq!(scan_range_for_char(&buf, 0, 8, b'<'), None);
}

#[test]
fn first_of_two_bytes_is_found() {
    let buf = buffer("ab[c>d");
    assert_eq!(scan_until_one_of_2_chars(&buf, 0, b'>', b'['), Some(2));
    assert_eq!(scan_until_one_of_2_chars(&buf, 3, b'>', b'['), Some(4));
    assert_eq!(scan_until_one_of_2_chars(&buf, 5, b'>', b'['), None);
    assert_eq!(scan_until_one_of_2_chars(&buf, 6, b'>', b'['), None);
}

#[test]
fn first_byte_of_a_class_is_found() {
    let buf = buffer("  ab c\td>");
    assert_eq!(skip_chartype(&buf, 0, Chartype::Space), Some(2));
    assert_eq!(skip_chartype(&buf, 2, Chartype::Symbol), Some(4));
    assert_eq!(skip_chartype(&buf, 4, Chartype::Space), Some(5));
    assert_eq!(skip_chartype(&buf, 8, Chartype::Space), Some(8));
    assert_eq!(skip_chartype(&buf, 9, Chartype::Space), None);
    assert_eq!(skip_chartype(&buffer("   "), 1, Chartype::Space), None);
    assert_eq!(scan_until_chartype(&buf, 2, Chartype::ParseCloseTag), Some(4));
    assert_eq!(scan_until_chartype(&buf, 7, Chartype::ParseCloseTag), Some(8));
    assert_eq!(scan_until_chartype(&buf, 2, Chartype::ParsePCData), None);
    assert_eq!(scan_range_for_chartype(&buf, 2, 4, Chartype::Space), None);
    assert_eq!(scan_range_for_chartype(&buf, 2, 5, Chartype::Space), Some(4));
    assert_eq!(scan_range_for_chartype(&buf, 2, 50, Chartype::Space), None);
}

#[test]
fn the_position_after_a_byte_sequence_is_found() {
    let buf = buffer("a-->b-->c");
    assert_eq!(skip_after_slice(&buf, 0, 100, b"-->"), Some(4));
    assert_eq!(skip_after_slice(&buf, 1, 100, b"-->"), Some(4));
    assert_eq!(skip_after_slice(&buf, 2, 100, b"-->"), Some(8));
    assert_eq!(skip_after_slice(&buf, 6, 100, b"-->"), None);
    assert_eq!(skip_after_slice(&buf, 0, 3, b"-->"), None);
    assert_eq!(skip_after_slice(&buf, 0, 4, b"-->"), Some(4));
    assert_eq!(skip_after_slice(&buf, 9, 4, b"-->"), None);
    assert_eq!(skip_after_slice(&buf, 0, 0, b"-->"), None);
    assert_eq!(skip_after_slice(&buffer("aab"), 0, 10, b"ab"), Some(3));
    assert!(starts_with_at(&buf, 1, b"-->"));
    assert!(!starts_with_at(&buf, 0, b"-->"));
    assert!(!starts_with_at(&buf, 7, b"-->"));
    assert!(starts_with_at(&buf, 9, b""));
    assert!(!starts_with_at(&buf, 10, b""));
}

#[test]
fn a_comment_ends_within_its_window() {
    let inside = format!("<r><!--{}--></r>", "c".repeat(4997));
    assert!(xhtml_parser::Document::new(inside.into_bytes()).is_ok());
    let outside = format!("<r><!--{}--></r>", "c".repeat(4998));
    assert!(xhtml_parser::Document::new(outside.into_bytes()).is_err());
    let inside = format!("<?{}?><r/>", "p".repeat(498));
    assert!(xhtml_parser::Document::new(inside.into_bytes()).is_ok());
    let outside = format!("<?{}?><r/>", "p".repeat(499));
    assert!(xhtml_parser::Document::new(outside.into_bytes()).is_err());
}

#[test]
fn bytes_become_text() {
    assert_eq!(bytes_to_str(b"abc"), "abc");
    assert_eq!(bytes_to_str("h\u{e9}".as_bytes()), "h\u{e9}");
    assert_eq!(bytes_to_str(b""), "");
    assert_eq!(bytes_to_str(&[0x68, 0xC3]), "non valid utf-8");
    assert_eq!(bytes_to_str(&[0xFF]), "non valid utf-8");
}

#[test]
fn names_of_the_entity_table() {
    assert_eq!(lookup_entity(b"amp"), Some(0x26));
    assert_eq!(lookup_entity(b"lt"), Some(0x3C));
    assert_eq!(lookup_entity(b"gt"), Some(0x3E));
    assert_eq!(lookup_entity(b"quot"), Some(0x22));
    assert_eq!(lookup_entity(b"apos"), Some(0x27));
    assert_eq!(lookup_entity(b"nbsp"), Some(0xA0));
    assert_eq!(lookup_entity(b"yuml"), Some(0xFF));
    assert_eq!(lookup_entity(b"Yuml"), Some(0x178));
    assert_eq!(lookup_entity(b"euro"), Some(0x20AC));
    assert_eq!(lookup_entity(b"rsaquo"), Some(0x203A));
    assert_eq!(lookup_entity(b"AMP"), None);
    assert_eq!(lookup_entity(b"am"), None);
    assert_eq!(lookup_entity(b"amp;"), None);
    assert_eq!(lookup_entity(b""), None);
    assert_eq!(lookup_entity(b"l"), None);
}

#[test]
fn numbers_are_read_leniently() {
    assert_eq!(decimal(b"65"), 65);
    assert_eq!(decimal(b"0"), 0);
    assert_eq!(decimal(b"a6b5c"), 65);
    assert_eq!(decimal(b""), 0);
    assert_eq!(decimal(b"abc"), 0);
    assert_eq!(decimal(b"1114111"), 0x10FFFF);
    assert_eq!(decimal(b"1114112"), 0x110000);
    assert_eq!(decimal(b"99999999999999999999"), 0x110000);
    assert_eq!(hexadecimal(b"41"), 0x41);
    assert_eq!(hexadecimal(b"aF"), 0xAF);
    assert_eq!(hexadecimal(b"g1g"), 1);
    assert_eq!(hexadecimal(b"xyz"), 0);
    assert_eq!(hexadecimal(b"10FFFF"), 0x10FFFF);
    assert_eq!(hexadecimal(b"110000"), 0x110000);
    assert_eq!(hexadecimal(b"FFFFFFFFFFFF"), 0x110000);
    assert_eq!(hex_val(b'0'), Some(0));
    assert_eq!(hex_val(b'9'), Some(9));
    assert_eq!(hex_val(b'a'), Some(10));
    assert_eq!(hex_val(b'F'), Some(15));
    assert_eq!(hex_val(b'g'), None);
    assert_eq!(hex_val(b'/'), None);
}

#[test]
fn code_points_are_written_as_utf8() {
    for code in [0x0u32, 0x41, 0x7F, 0x80, 0x7FF, 0x800, 0xD7FF, 0xE000, 0xFFFF, 0x10000, 0x10FFFF]
    {
        let expected_len = char::from_u32(code).unwrap().len_utf8();
        let mut exact = vec![b'.'; 1 + expected_len];
        assert_eq!(write_utf8(&mut exact, 1, code), expected_len);
        let mut buf = vec![b'.'; 6];
        let n = write_utf8(&mut buf, 1, code);
        let expected = char::from_u32(code).unwrap().to_string().into_bytes();
        assert_eq!(n, expected.len());
        assert_eq!(&buf[1..1 + n], expected.as_slice());
        assert_eq!(buf[0], b'.');
        assert!(buf[1 + n..].iter().all(|&b| b == b'.'));
    }
}

#[test]
fn a_reference_is_translated_in_place() {
    let mut buf = buffer("ab&amp;cd");
    assert_eq!(translate_sequence(&mut buf, 3, 2, 9), Some((7, 3)));
    assert_eq!(buf, buffer("ab&amp;cd"));
    let mut buf = buffer("ab&#x20AC;cd");
    assert_eq!(translate_sequence(&mut buf, 3, 1, 12), Some((10, 4)));
    assert_eq!(buf, "a\u{20ac}x20AC;cd".as_bytes().to_vec());
    let mut buf = buffer("ab&amp;cd");
    assert_eq!(translate_sequence(&mut buf, 3, 2, 6), None);
    assert_eq!(translate_sequence(&mut buf, 3, 2, 3), None);
    assert_eq!(translate_sequence(&mut buf, 4, 2, 9), None);
    assert_eq!(buf, buffer("ab&amp;cd"));
}

#[test]
fn text_is_rewritten_in_place() {
    let mut buf = buffer("<r>a&lt;b&amp;&amp;c&zz;d</r>");
    let end = parse_pcdata(&mut buf, 3, 25);
    assert_eq!(end, 14);
    assert_eq!(&buf[..14], b"<r>a<b&&c&zz;d");
    assert_eq!(&buf[14..], b"&amp;c&zz;d</r>");
    let mut buf = buffer("abc");
    assert_eq!(parse_pcdata(&mut buf, 1, 1), 1);
    assert_eq!(parse_pcdata(&mut buf, 0, 3), 3);
    assert_eq!(buf, buffer("abc"));
}

#[test]
fn attribute_values_are_rewritten_in_place() {
    let mut buf = buffer("[  a\tb\n c  ]");
    let end = normalize_attribute_value(&mut buf, 1, 11);
    assert_eq!(end, 6);
    assert_eq!(&buf[..6], b"[a b c");
    assert_eq!(&buf[6..], b"\n c  ]");
    let mut buf = buffer("[ab]");
    assert_eq!(normalize_attribute_value(&mut buf, 1, 3), 3);
    assert_eq!(buf, buffer("[ab]"));
    let mut buf = buffer("[ \t ]");
    assert_eq!(normalize_attribute_value(&mut buf, 1, 4), 1);
    assert_eq!(buf, buffer("[ \t ]"));
}

#[test]
fn line_endings_are_rewritten_in_place() {
    let mut buf = buffer("a\r\nb\rc\r");
    let end = normalize_line_endings(&mut buf, 0, 7);
    assert_eq!(end, 6);
    assert_eq!(&buf[..6], b"a\nb\nc\n");
    let mut buf = buffer("a\r\nb");
    assert_eq!(normalize_line_endings(&mut buf, 0, 2), 2);
    assert_eq!(buf, buffer("a\n\nb"));
}

#[test]
fn names_lose_their_prefix_in_place() {
    let mut buf = buffer("<ns:name>");
    assert_eq!(remove_namespace_prefix(&mut buf, 1, 8), 5);
    assert_eq!(buf, buffer("<nameame>"));
    let mut buf = buffer("<name>");
    assert_eq!(remove_namespace_prefix(&mut buf, 1, 5), 5);
    assert_eq!(buf, buffer("<name>"));
    let mut buf = buffer("<a:>");
    assert_eq!(remove_namespace_prefix(&mut buf, 1, 3), 1);
    let mut buf = buffer("<a:b:c>");
    assert_eq!(remove_namespace_prefix(&mut buf, 1, 6), 4);
    assert_eq!(&buf[1..4], b"b:c");
}

#[test]
fn white_space_at_the_end_is_trimmed() {
    let buf = buffer("  ab \t\r\n");
    assert_eq!(trim_the_ending_whitespaces(&buf, 0, 8), 4);
    assert_eq!(trim_the_ending_whitespaces(&buf, 2, 4), 4);
    assert_eq!(trim_the_ending_whitespaces(&buf, 4, 8), 4);
    assert_eq!(trim_the_ending_whitespaces(&buf, 0, 2), 0);
}

#[test]
fn bytes_are_moved_to_the_front() {
    let mut buf = buffer("0123456789");
    move_bytes(&mut buf, 4, 8, 1);
    assert_eq!(buf, buffer("0456756789"));
    move_bytes(&mut buf, 3, 3, 0);
    assert_eq!(buf, buffer("0456756789"));
    move_bytes(&mut buf, 2, 10, 2);
    assert_eq!(buf, buffer("0456756789"));
}
