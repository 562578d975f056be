//! What the parser makes of documents: trees, texts, attribute values and errors.

use xhtml_parser::defs::ParseXmlError;
use xhtml_parser::machine::{Parent, State};
use xhtml_parser::node_info::NodeInfo;
use xhtml_parser::parser::reservation;
use xhtml_parser::Document;
use xhtml_parser::Node;
use xhtml_parser::NodeType;
use xhtml_parser::ParseOptions;

fn parse(xml: &str) -> Document {
    Document::new(xml.as_bytes().to_vec()).unwrap()
}

fn error_of(xml: &str) -> String {
    match Document::new(xml.as_bytes().to_vec()) {
        Err(ParseXmlError::InvalidXml(msg)) => msg,
        Err(other) => panic!("unexpected kind of error: {:?}", other),
        Ok(_) => panic!("the document was parsed"),
    }
}

fn first_text(xml: &str) -> String {
    let doc = parse(xml);
    let text = doc.root().unwrap().first_child().unwrap().text().unwrap().to_string();
    text
}

fn first_value(xml: &str) -> String {
    let doc = parse(xml);
    let value = doc.root().unwrap().attributes().next().unwrap().value().to_string();
    value
}

/// The names of the elements and the contents of the texts, in document order.
fn walk(node: &Node, out: &mut Vec<String>) {
    if node.is_element() {
        out.push(format!("<{}>", node.tag_name()));
        for child in node.children().collect() {
            walk(&child, out);
        }
        out.push(format!("</{}>", node.tag_name()));
    } else {
        out.push(node.text().unwrap().to_string());
    }
}

#[test]
fn walk_gives_back_names_and_texts_of_a_plain_document() {
    let doc = parse("<a><b>one</b><c><d>two</d>three</c>four<e/></a>");
    let mut seen = Vec::new();
    walk(&doc.root().unwrap(), &mut seen);
    assert_eq!(
        seen,
        vec![
            "<a>", "<b>", "one", "</b>", "<c>", "<d>", "two", "</d>", "three", "</c>", "four",
            "<e>", "</e>", "</a>"
        ]
    );
}

#[test]
fn plain_document_leaves_the_buffer_as_it_was() {
    let source = "<a x=\"1\"><b>one</b>two</a>";
    let doc = parse(source);
    assert_eq!(doc.xml, source.as_bytes().to_vec());
}

#[test]
fn predefined_references_are_replaced() {
    assert_eq!(first_text("<r>&amp;&lt;&gt;&quot;&apos;</r>"), "&<>\"'");
}

#[test]
fn decimal_and_hexadecimal_references_are_replaced() {
    assert_eq!(first_text("<r>&#65;</r>"), "A");
    assert_eq!(first_text("<r>&#x41;</r>"), "A");
    assert_eq!(first_text("<r>x&#233;y&#x20AC;z&#x1F600;!</r>"), "x\u{e9}y\u{20ac}z\u{1F600}!");
}

#[test]
fn named_references_are_replaced() {
    assert_eq!(first_text("<r>&nbsp;|&copy;|&euro;|&yuml;|&OElig;|&tilde;|&rsaquo;</r>"),
        "\u{a0}|\u{a9}|\u{20ac}|\u{ff}|\u{152}|\u{2dc}|\u{203a}");
}

#[test]
fn what_is_no_reference_stands_for_itself() {
    assert_eq!(first_text("<r>a &bogus; b</r>"), "a &bogus; b");
    assert_eq!(first_text("<r>a & b</r>"), "a & b");
    assert_eq!(first_text("<r>a &; b</r>"), "a &; b");
    assert_eq!(first_text("<r>a &#; b</r>"), "a &#; b");
    assert_eq!(first_text("<r>a &#x; b</r>"), "a &#x; b");
    assert_eq!(first_text("<r>&a;</r>"), "&a;");
    assert_eq!(first_text("<r>&xamp;</r>"), "&xamp;");
}

#[test]
fn numbers_that_are_no_code_points_stand_for_themselves() {
    assert_eq!(first_text("<r>&#xD800;</r>"), "&#xD800;");
    assert_eq!(first_text("<r>&#x110000;</r>"), "&#x110000;");
    assert_eq!(first_text("<r>&#1114112;</r>"), "&#1114112;");
    assert_eq!(first_text("<r>&#99999999999999999999;</r>"), "&#99999999999999999999;");
    assert_eq!(first_text("<r>&#x10FFFF;</r>"), "\u{10FFFF}");
}

#[test]
fn bytes_that_are_no_digits_are_left_out_of_numbers() {
    assert_eq!(first_text("<r>&#6z5;</r>"), "A");
    assert_eq!(first_text("<r>&#x4-1;</r>"), "A");
    assert_eq!(first_text("<r>&#xamp;</r>"), "\n");
    assert_eq!(first_text("<r>a &#zz; b</r>"), "a \0 b");
    assert_eq!(first_text("<r>&#xzz;</r>"), "\0");
    assert_eq!(first_text("<r>&#0;</r>"), "\0");
    assert_eq!(first_value("<r a=\"&#-;\"/>"), "\0");
}

#[test]
fn a_reference_ends_within_its_text() {
    let doc = parse("<a><b>&#65</b><c>;</c></a>");
    let b = doc.root().unwrap().first_child().unwrap();
    assert_eq!(b.first_child().unwrap().text().unwrap(), "&#65");
    let c = b.next_sibling().unwrap();
    assert_eq!(c.first_child().unwrap().text().unwrap(), ";");
}

#[test]
fn text_keeps_its_white_space() {
    assert_eq!(first_text("<r>  a \n b\t</r>"), "  a \n b\t");
    assert_eq!(first_text("<r>a\r\nb\rc</r>"), "a\r\nb\rc");
}

#[test]
fn text_of_white_space_only_is_left_out() {
    let doc = parse("<r> \n\t <a/> \r\n </r>");
    let root = doc.root().unwrap();
    assert_eq!(root.children().count(), 1);
    assert!(root.first_child().unwrap().is("a"));
}

#[test]
fn attribute_value_is_normalized() {
    assert_eq!(first_value("<r a=\"  a\tb\n c  \"/>"), "a b c");
    assert_eq!(first_value("<r a=\"a \r\n\t b\"/>"), "a b");
    assert_eq!(first_value("<r a=\"   \"/>"), "");
    assert_eq!(first_value("<r a=' x&amp;y  &lt; '/>"), "x&y <");
    assert_eq!(first_value("<r a=\"a&#32;\"/>"), "a ");
    assert_eq!(first_value("<r a=\"a &bogus; b\"/>"), "a &bogus; b");
    assert_eq!(first_value("<r a=\"it's\"/>"), "it's");
}

#[test]
fn namespace_prefixes_are_left_out() {
    let doc = parse("<ns:r xml:lang=\"en\" a:b:c=\"1\"><x:y>t</x:y></ns:r>");
    let root = doc.root().unwrap();
    assert_eq!(root.tag_name(), "r");
    assert_eq!(root.get_attribute("lang"), Some("en"));
    assert_eq!(root.get_attribute("b:c"), Some("1"));
    assert_eq!(root.first_child().unwrap().tag_name(), "y");
}

#[test]
fn self_closing_element_is_an_element_without_children() {
    let closed = parse("<root><child attr=\"v\"/></root>");
    let open = parse("<root><child attr=\"v\"></child></root>");
    for doc in [&closed, &open] {
        let child = doc.root().unwrap().first_child().unwrap();
        assert!(child.is("child"));
        assert_eq!(child.attributes().count(), 1);
        assert_eq!(child.get_attribute("attr"), Some("v"));
        assert_eq!(child.children().count(), 0);
        assert!(child.next_sibling().is_none());
    }
    assert_eq!(closed.nodes.len(), open.nodes.len());
}

#[test]
fn comments_instructions_cdata_and_doctype_are_passed_over() {
    let doc = parse("<!--c--><?pi?><![CDATA[x]]><!DOCTYPE d><root/>");
    let root = doc.root().unwrap();
    assert!(root.is("root"));
    assert_eq!(root.children().count(), 0);
    assert_eq!(doc.nodes.len(), 2);
}

#[test]
fn markup_within_an_element_is_passed_over() {
    let doc = parse("<r>a<!-- <b> -->c<![CDATA[<d>]]>e<?f <g> ?>h</r>");
    let texts: Vec<String> = doc
        .root()
        .unwrap()
        .children()
        .collect()
        .iter()
        .map(|n| n.text().unwrap().to_string())
        .collect();
    assert_eq!(texts, vec!["a", "c", "e", "h"]);
}

#[test]
fn doctype_with_internal_subset_is_passed_over() {
    let doc = parse("<!DOCTYPE d [ <!ENTITY x \"y\"> ]  ><root>t</root>");
    assert!(doc.root().unwrap().is("root"));
    let doc = parse("<!DOCTYPE d [ <!ELEMENT d ANY> ]>\n<root/>");
    assert!(doc.root().unwrap().is("root"));
    assert!(error_of("<!DOCTYPE d [ ] x><root/>").starts_with(
        "Expected '>' after DOCTYPE declaration. at position 16: "
    ));
}

#[test]
fn parsing_ends_with_the_root_element() {
    let doc = parse("<root/>trailing garbage <<<");
    assert!(doc.root().unwrap().is("root"));
    assert_eq!(doc.nodes.len(), 2);
    let doc = parse("<root>Content</root></extra>");
    assert_eq!(doc.nodes.len(), 3);
    let doc = parse("<a></a><b></b>");
    assert_eq!(doc.nodes.len(), 2);
}

#[test]
fn a_document_that_ends_early_is_an_error() {
    for xml in [
        "", "text only", "<", "<r", "<r ", "<r a", "<r a=", "<r a=\"", "<r a=\"v", "<r a=\"v\"",
        "<r>", "<r>text", "<r><", "<r></", "<r></r", "<r/", "<r><!--", "<r><!-- c --", "<r><!",
        "<r><!x>", "<r><?pi", "<r><![CDATA[x", "<!DOCTYPE", "<!DOCTYPE d [", "<!DOCTYPE d [ ]",
        "<r>  ", "<r><a></a>", "<r><a/>", "<!--c-->", "<?pi?>", "<r><!--c-->",
    ] {
        assert_eq!(error_of(xml), "Unexpected end of XML document.", "for {:?}", xml);
    }
}

#[test]
fn text_outside_the_root_element_is_an_error() {
    assert_eq!(error_of("<?pi?>junk<r/>"), "Unexpected end of XML document.");
}

#[test]
fn leading_bytes_before_the_first_tag_are_passed_over() {
    let doc = parse("junk \u{feff}<r/>");
    assert!(doc.root().unwrap().is("r"));
}

#[test]
fn errors_name_their_position_and_show_the_buffer_around_it() {
    assert_eq!(
        error_of("<root><child>Content</different></root>"),
        "Closing tag 'different' does not match opening tag 'child'. at position 22: \
         ...<root><child>Content</[*]different></root>..."
    );
    assert_eq!(
        error_of("<1bad>"),
        "Tag name must start with a letter or underscore. at position 1: ...<[*]1bad>..."
    );
    assert_eq!(
        error_of("<root attr=value>"),
        "Attribute value must be enclosed in quotes. at position 11: ...<root attr=[*]value>..."
    );
    assert_eq!(
        error_of("<root attr>"),
        "Attribute must have an '=' sign. at position 10: ...<root attr[*]>..."
    );
    assert_eq!(
        error_of("<root -a=\"1\">"),
        "Attribute name must start with a letter or underscore. at position 6: ...<root [*]-a=\"1\">..."
    );
    assert_eq!(
        error_of("<root><a/b></root>"),
        "Expected '>' after '/' in self-closing tag. at position 9: ...<root><a/[*]b></root>..."
    );
    assert_eq!(
        error_of("<root></ >"),
        "Expected tag name after '</'. at position 8: ...<root></[*] >..."
    );
    assert_eq!(
        error_of("</extra>"),
        "No opening tag for closing tag. at position 7: ...</extra[*]>..."
    );
}

#[test]
fn the_context_of_an_error_is_thirty_bytes_to_either_side() {
    let xml = format!("<r>{}</x>{}", "a".repeat(40), "b".repeat(40));
    let msg = error_of(&xml);
    let expected = format!(
        "Closing tag 'x' does not match opening tag 'r'. at position 45: ...{}</[*]x>{}...",
        "a".repeat(28),
        "b".repeat(28)
    );
    assert_eq!(msg, expected);
}

#[test]
fn bytes_that_are_no_text_are_shown_as_such() {
    let mut xml = b"<r>".to_vec();
    xml.push(0xFF);
    xml.extend_from_slice(b"</x>");
    match Document::new(xml) {
        Err(ParseXmlError::InvalidXml(msg)) => assert_eq!(
            msg,
            "Closing tag 'x' does not match opening tag 'r'. at position 6: \
             ...non valid utf-8[*]x>..."
        ),
        _ => panic!("no error"),
    }
}

#[test]
fn closing_tag_may_hold_white_space_before_its_end() {
    let doc = parse("<r><a>t</a  \n></r >");
    assert_eq!(doc.nodes.len(), 4);
}

#[test]
fn closing_tags_are_compared_byte_by_byte() {
    assert!(Document::new(b"<Root></root>".to_vec()).is_err());
    assert!(Document::new(b"<a:r></b:r>".to_vec()).is_ok());
    assert!(Document::new("<r\u{e9}></r\u{e9}>".as_bytes().to_vec()).is_ok());
    assert!(Document::new("<r\u{e9}></r\u{e8}>".as_bytes().to_vec()).is_err());
}

#[test]
fn too_many_tags_are_refused_before_parsing() {
    let mut xml = String::from("<r>");
    for _ in 0..60000 {
        xml.push_str("<a/>");
    }
    xml.push_str("</r>");
    match Document::new(xml.into_bytes()) {
        Err(ParseXmlError::InvalidXml(msg)) => {
            assert_eq!(msg, "XML document has too many estimated nodes!")
        }
        _ => panic!("no error"),
    }
}

#[test]
fn as_many_tags_as_the_estimate_allows_are_parsed() {
    // 59577 tags are estimated as 59577 + 5957 + 1 = 65535 nodes.
    let mut xml = String::from("<r>");
    for _ in 0..59575 {
        xml.push_str("<a/>");
    }
    xml.push_str("</r>");
    let doc = Document::new(xml.clone().into_bytes()).unwrap();
    assert_eq!(doc.nodes.len(), 59577);
    xml.push('<');
    assert!(matches!(Document::new(xml.into_bytes()), Err(ParseXmlError::InvalidXml(_))));
}

#[test]
fn too_many_equal_signs_are_refused_before_parsing() {
    let xml = format!("<r>{}</r>", "=".repeat(65536));
    match Document::new(xml.into_bytes()) {
        Err(ParseXmlError::InvalidXml(msg)) => {
            assert_eq!(msg, "XML document has too many estimated attributes!")
        }
        _ => panic!("no error"),
    }
    let xml = format!("<r>{}</r>", "=".repeat(65535));
    assert!(Document::new(xml.into_bytes()).is_ok());
}

#[test]
fn options_without_namespace_removal_keep_prefixes() {
    let options = ParseOptions { namespace_removal: false, ..ParseOptions::default() };
    let doc = Document::with_options(b"<ns:r xml:lang=\"en\"></ns:r>".to_vec(), &options).unwrap();
    let root = doc.root().unwrap();
    assert_eq!(root.tag_name(), "ns:r");
    assert_eq!(root.get_attribute("xml:lang"), Some("en"));
}

#[test]
fn options_without_references_replace_line_endings_only() {
    let options = ParseOptions { parse_escapes: false, ..ParseOptions::default() };
    let doc =
        Document::with_options(b"<r a=\"&lt;\">a&amp;b\r\nc\rd\r</r>".to_vec(), &options).unwrap();
    let root = doc.root().unwrap();
    assert_eq!(root.first_child().unwrap().text().unwrap(), "a&amp;b\nc\nd\n");
    assert_eq!(root.get_attribute("a"), Some("<"));
}

#[test]
fn options_with_trimming_leave_white_space_out_of_texts() {
    let options = ParseOptions { trim_pcdata: true, ..ParseOptions::default() };
    let doc = Document::with_options(b"<r>  a b \n <x/> c</r>".to_vec(), &options).unwrap();
    let root = doc.root().unwrap();
    let first = root.first_child().unwrap();
    assert_eq!(first.text().unwrap(), "a b");
    assert_eq!(first.position(), 5);
    assert_eq!(root.last_child().unwrap().text().unwrap(), "c");
}

#[test]
fn options_with_white_space_texts_keep_them() {
    let options = ParseOptions { keep_ws_only_pcdata: true, ..ParseOptions::default() };
    let doc = Document::with_options(b" <r> \n<a/>\t</r> ".to_vec(), &options).unwrap();
    let children = doc.root().unwrap().children().collect();
    assert_eq!(children.len(), 3);
    assert_eq!(children[0].text().unwrap(), " \n");
    assert!(children[1].is("a"));
    assert_eq!(children[2].text().unwrap(), "\t");
}

#[test]
fn standard_options() {
    let options = ParseOptions::default();
    assert!(options.namespace_removal);
    assert!(options.parse_escapes);
    assert!(!options.keep_ws_only_pcdata);
    assert!(!options.trim_pcdata);
}

#[test]
fn the_parser_can_be_run_step_by_step() {
    let source = b"<r a=\"1\"><b>t &amp; u</b><c/></r> rest".to_vec();
    let options = ParseOptions::default();
    let mut doc = Document {
        nodes: vec![NodeInfo::new(0, 0, NodeType::Head)],
        attributes: Vec::new(),
        xml: source.clone(),
    };
    let mut stack: Vec<Parent> = Vec::new();
    let mut state = State::Start;
    let mut pos = 0;
    let mut states = Vec::new();
    while !matches!(state, State::End) {
        let (next_state, next_pos) = doc.step(&mut stack, pos, state, &options).unwrap();
        assert!(next_pos >= pos);
        state = next_state;
        pos = next_pos;
        states.push(format!("{:?}@{}", state, pos));
    }
    assert_eq!(
        states,
        vec![
            "ReadStartOfTag@1",
            "ReadTagOpen@1",
            "ReadAttribute@2",
            "ReadAttribute@8",
            "ReadPCData@9",
            "ReadStartOfTag@10",
            "ReadTagOpen@10",
            "ReadAttribute@11",
            "ReadPCData@12",
            "ReadStartOfTag@22",
            "ReadTagClose@23",
            "ReadPCData@25",
            "ReadStartOfTag@26",
            "ReadTagOpen@26",
            "ReadAttribute@27",
            "ReadPCData@29",
            "ReadStartOfTag@30",
            "ReadTagClose@31",
            "End@33",
        ]
    );
    assert!(stack.is_empty());
    let whole = Document::new(source).unwrap();
    assert!(doc == whole);
    let mut again = Document {
        nodes: vec![NodeInfo::new(0, 0, NodeType::Head)],
        attributes: Vec::new(),
        xml: b"<r><b>t</c></r>".to_vec(),
    };
    assert!(matches!(again.parse(&options), Err(ParseXmlError::InvalidXml(_))));
}

/// A small generator of numbers that looks random enough.
struct Lcg(u64);

impl Lcg {
    fn next(&mut self) -> u64 {
        self.0 = self.0.wrapping_mul(6364136223846793005).wrapping_add(1442695040888963407);
        self.0 >> 33
    }
}

#[test]
fn any_input_is_parsed_or_refused() {
    let alphabet: &[&[u8]] = &[
        b"<", b">", b"/", b"=", b"\"", b"'", b"&", b";", b"#", b"x", b":", b" ", b"\t", b"\r",
        b"\n", b"a", b"b", b"1", b"-", b"!", b"?", b"[", b"]", b"--", b"<!--", b"-->", b"<![CDATA[",
        b"]]>", b"<!DOCTYPE", b"<?", b"?>", b"&amp;", b"&#65;", b"&#x41;", b"<a>", b"</a>", b"<b/>",
        b"<a b=\"c\">", b"\xC3\xA9", b"\xFF", b"\x00", b"&lt", b"&#", b"&#x",
    ];
    let mut random = Lcg(7);
    for options in [
        ParseOptions::default(),
        ParseOptions {
            namespace_removal: false,
            parse_escapes: false,
            keep_ws_only_pcdata: true,
            trim_pcdata: true,
        },
    ] {
        for _ in 0..20000 {
            let mut xml = Vec::new();
            let pieces = random.next() % 12;
            if random.next() % 2 == 0 {
                xml.extend_from_slice(b"<a>");
            }
            for _ in 0..pieces {
                xml.extend_from_slice(alphabet[(random.next() % alphabet.len() as u64) as usize]);
            }
            if random.next() % 2 == 0 {
                xml.extend_from_slice(b"</a>");
            }
            let len = xml.len();
            match Document::with_options(xml, &options) {
                Ok(doc) => {
                    assert!(doc.is_well_formed());
                    assert_eq!(doc.xml.len(), len);
                    let mut end = 0;
                    let mut attributes = 0;
                    for info in doc.nodes.iter().skip(1) {
                        let run = match &info.node_type {
                            NodeType::Element { name, attributes } => {
                                assert!(end <= name.start);
                                end = name.end;
                                attributes.clone()
                            }
                            NodeType::Text(location) => {
                                assert!(end <= location.start);
                                end = location.end;
                                attributes..attributes
                            }
                            NodeType::Head => panic!("a second head"),
                        };
                        assert_eq!(run.start, attributes);
                        for attribute in &doc.attributes[run.start as usize..run.end as usize] {
                            assert!(end <= attribute.name.start);
                            assert!(attribute.name.end <= attribute.value.start);
                            end = attribute.value.end;
                        }
                        attributes = run.end;
                    }
                    assert_eq!(attributes as usize, doc.attributes.len());
                    assert!(doc.root().unwrap().is_element());
                    assert!(doc.root().unwrap().next_sibling().is_none());
                    for node in doc.all_nodes().collect() {
                        if node.is_element() {
                            let _ = node.tag_name();
                            for attribute in node.attributes().collect() {
                                let _ = (attribute.name(), attribute.value());
                            }
                        } else {
                            assert!(node.children().count() == 0);
                            let _ = node.text().unwrap();
                        }
                        let below: Vec<u16> =
                            node.descendants().collect().iter().map(|n| n.idx()).collect();
                        for other in doc.all_nodes().collect() {
                            let mut up = other.parent();
                            let mut is_below = false;
                            while let Some(p) = up {
                                if p.idx() == node.idx() {
                                    is_below = true;
                                }
                                up = p.parent();
                            }
                            assert_eq!(below.contains(&other.idx()), is_below);
                        }
                    }
                }
                Err(ParseXmlError::InvalidXml(_)) => {}
                Err(other) => panic!("unexpected kind of error: {:?}", other),
            }
        }
    }
}

/// Writes a random element with the given name and notes the names and texts
/// that it holds, in the order in which they are written.
fn write_element(random: &mut Lcg, depth: u32, out: &mut String, noted: &mut Vec<String>) {
    let names = ["a", "b", "item", "p", "x-y", "n_1", "T.2"];
    let texts = ["one", " two ", "th\nree", "\tf o u r", "5", "a = b > c", "what? no!", "e/f"];
    let values = ["v", " a  b ", "x\ty\n", "", "1 > 0", "q/r", "it's"];
    let name = names[(random.next() % names.len() as u64) as usize];
    noted.push(format!("<{}>", name));
    out.push('<');
    out.push_str(name);
    for i in 0..random.next() % 3 {
        let value = values[(random.next() % values.len() as u64) as usize];
        let space = if i > 0 && random.next() % 4 == 0 { "" } else { " " };
        out.push_str(&format!("{}k{}=\"{}\"", space, i, value));
    }
    let children = if depth >= 4 { 0 } else { random.next() % 4 };
    if children == 0 && random.next() % 2 == 0 {
        out.push_str(if random.next() % 2 == 0 { "/>" } else { " />" });
        return;
    }
    out.push('>');
    let mut after_text = true;
    for _ in 0..children {
        if !after_text && random.next() % 2 == 0 {
            let text = texts[(random.next() % texts.len() as u64) as usize];
            noted.push(text.to_string());
            out.push_str(text);
            after_text = true;
        } else {
            write_element(random, depth + 1, out, noted);
            after_text = false;
        }
    }
    out.push_str(&format!("</{}{}>", name, if random.next() % 3 == 0 { " " } else { "" }));
}

/// Reads names and texts off the source without building a tree: each tag
/// runs from its `<` to the next `>` outside quotes.
fn read_flat(source: &[u8]) -> Vec<String> {
    let mut noted = Vec::new();
    let mut pos = 0;
    let mut depth = 0;
    loop {
        let lt = pos + source[pos..].iter().position(|&b| b == b'<').unwrap();
        if depth > 0 && source[pos..lt].iter().any(|b| !b" \t\r\n".contains(b)) {
            noted.push(String::from_utf8(source[pos..lt].to_vec()).unwrap());
        }
        let mut end = lt + 1;
        let mut quote = 0u8;
        while quote != 0 || source[end] != b'>' {
            if quote != 0 {
                if source[end] == quote {
                    quote = 0;
                }
            } else if source[end] == b'"' || source[end] == b'\'' {
                quote = source[end];
            }
            end += 1;
        }
        if source[lt + 1] == b'/' {
            depth -= 1;
        } else {
            let name_end = lt
                + 1
                + source[lt + 1..].iter().position(|b| b" \t\r\n/>".contains(b)).unwrap();
            noted.push(format!("<{}>", String::from_utf8(source[lt + 1..name_end].to_vec()).unwrap()));
            if source[end - 1] != b'/' {
                depth += 1;
            }
        }
        pos = end + 1;
        if depth == 0 {
            return noted;
        }
    }
}

#[test]
fn the_tree_reads_as_a_flat_reading_of_the_input() {
    let mut random = Lcg(11);
    for _ in 0..3000 {
        let mut source = String::new();
        let mut written = Vec::new();
        write_element(&mut random, 0, &mut source, &mut written);
        source.push_str(" <ignored/>");
        let doc = parse(&source);
        let listed: Vec<String> = doc
            .all_nodes()
            .collect()
            .iter()
            .map(|node| match node.text() {
                Some(text) => text.to_string(),
                None => format!("<{}>", node.tag_name()),
            })
            .collect();
        assert_eq!(listed, written, "for {:?}", source);
        assert_eq!(listed, read_flat(source.as_bytes()), "for {:?}", source);
    }
}

#[test]
fn a_well_formed_input_is_parsed_as_long_as_indices_are_left() {
    // Texts and elements in turn: 65534 nodes after the head are the most.
    let mut xml = String::from("<r>");
    for _ in 0..32766 {
        xml.push_str("t<b/>");
    }
    xml.push_str("t</r>");
    let doc = Document::new(xml.clone().into_bytes()).unwrap();
    assert_eq!(doc.nodes.len(), 65_535);
    assert_eq!(doc.all_nodes().count(), 65_534);
    let one_more = xml.replace("t</r>", "t<b/></r>");
    assert!(matches!(Document::new(one_more.into_bytes()), Err(ParseXmlError::NoMoreSpace)));
    // As many attributes as there are indices of attributes.
    let mut xml = String::from("<r");
    for _ in 0..65_535 {
        xml.push_str(" a=\"\"");
    }
    xml.push_str("/>");
    let doc = Document::new(xml.into_bytes()).unwrap();
    assert_eq!(doc.attributes.len(), 65_535);
    assert_eq!(doc.root().unwrap().attributes().count(), 65_535);
}

#[test]
fn what_is_not_well_formed_is_refused() {
    for xml in [
        "",
        "no tag",
        "<",
        "<1a/>",
        "<a",
        "<a>",
        "<a></b>",
        "<a></>",
        "</a>",
        "<a/ >",
        "<a 1b=\"\"/>",
        "<a b/>",
        "<a b=c/>",
        "<a b=\"c/>",
        "<a b=",
        "<!-- --> text <a/>",
        "<a><b></a></b>",
        "<a><!-- </a>",
    ] {
        assert!(
            matches!(Document::new(xml.as_bytes().to_vec()), Err(ParseXmlError::InvalidXml(_))),
            "for {:?}",
            xml
        );
    }
}

#[test]
fn room_is_reserved_by_the_tags_and_equal_signs_of_the_input() {
    // Three `<`: 3 + 3 / 10 + 2 nodes. One `=`: one attribute.
    let xml = b"<a b='1'><c/></a>".to_vec();
    assert_eq!(reservation(&xml).unwrap(), (5, 1));
    assert_eq!(reservation(&Vec::new()).unwrap(), (2, 0));
    assert_eq!(reservation(&b"no tag = no node".to_vec()).unwrap(), (2, 1));
    // Twenty `<`: a tenth more.
    assert_eq!(reservation(&vec![60u8; 20]).unwrap(), (24, 0));
    // The most that is estimated to fit, and one more.
    assert_eq!(reservation(&vec![60u8; 59_577]).unwrap(), (65_536, 0));
    match reservation(&vec![60u8; 59_578]) {
        Err(ParseXmlError::InvalidXml(msg)) => {
            assert_eq!(msg, "XML document has too many estimated nodes!")
        }
        _ => panic!("no error"),
    }
    assert_eq!(reservation(&vec![61u8; 65_535]).unwrap(), (2, 65_535));
    match reservation(&vec![61u8; 65_536]) {
        Err(ParseXmlError::InvalidXml(msg)) => {
            assert_eq!(msg, "XML document has too many estimated attributes!")
        }
        _ => panic!("no error"),
    }
}
