//! Walks over parsed documents.

use xhtml_parser::document::Document;
use xhtml_parser::node::Node;

#[test]
fn test_accessing_tag_name() {
    let xml_data = b"<root><child>Text</child></root>".to_vec();
    let document = Document::new(xml_data).unwrap();
    let root_node = document.root().unwrap();
    let child_node = root_node.first_child().unwrap();
    assert_eq!(child_node.tag_name(), "child");
}

#[test]
fn test_descendant_iterator() {
    let xml_data = b"<root><child>Text</child><totototo/></root>".to_vec();
    let document = Document::new(xml_data).unwrap();
    let root_node = document.root().unwrap();
    let descendants: Vec<Node> = document.descendants(root_node.idx()).collect();

    assert_eq!(descendants.len(), 3); // child, Text, and totototo
    assert!(descendants[0].is("child"));
    assert_eq!(descendants[1].text().unwrap(), "Text");
    assert!(descendants[2].is("totototo"));
}

#[test]
fn test_document_creation() {
    let xml_data = b"<root><child>Text</child><totototo/></root>".to_vec();
    let document = Document::new(xml_data).unwrap();

    println!("Document created: {:#?}", document);
}
