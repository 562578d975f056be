//! Building the tree by hand, and walking it.

use xhtml_parser::defs::ParseXmlError;
use xhtml_parser::Document;
use xhtml_parser::Node;
use xhtml_parser::NodeType;

fn parse(xml: &str) -> Document {
    Document::new(xml.as_bytes().to_vec()).unwrap()
}

fn indices(nodes: Vec<Node>) -> Vec<u16> {
    nodes.iter().map(|n| n.idx()).collect()
}

#[test]
fn next_sibling_and_previous_sibling_are_inverse() {
    let doc = parse("<r><a/>t<b><c/><d/></b><e/>u</r>");
    for idx in 1..doc.nodes.len() as u16 {
        let node = doc.get_node(idx).unwrap();
        if let Some(next) = node.next_sibling() {
            assert_eq!(next.prev_sibling().unwrap().idx(), idx);
        }
        if let Some(previous) = node.prev_sibling() {
            assert_eq!(previous.next_sibling().unwrap().idx(), idx);
        }
    }
}

#[test]
fn each_node_is_listed_once_among_the_children_of_its_parent() {
    let doc = parse("<r><a/>t<b><c/><d>x</d></b><e/>u</r>");
    for idx in 2..doc.nodes.len() as u16 {
        let node = doc.get_node(idx).unwrap();
        let parent = node.parent().unwrap();
        let listed = indices(parent.children().collect());
        assert_eq!(listed.iter().filter(|&&i| i == idx).count(), 1);
    }
    let root = doc.root().unwrap();
    assert!(root.parent().is_none());
    assert_eq!(doc.nodes[1].parent_idx, 0);
    assert_eq!(indices(doc.get_node(0).unwrap().children().collect()), vec![1]);
}

#[test]
fn children_are_listed_in_document_order_from_either_end() {
    let doc = parse("<r><a/>t<b><c/><d/></b><e/>u</r>");
    let root = doc.root().unwrap();
    assert_eq!(indices(root.children().collect()), vec![2, 3, 4, 7, 8]);
    assert_eq!(root.first_child().unwrap().idx(), 2);
    assert_eq!(root.last_child().unwrap().idx(), 8);
    let mut walk = root.children();
    assert_eq!(walk.next_back().unwrap().idx(), 8);
    assert_eq!(walk.next().unwrap().idx(), 2);
    assert_eq!(walk.next_back().unwrap().idx(), 7);
    assert_eq!(walk.next_back().unwrap().idx(), 4);
    assert_eq!(walk.next().unwrap().idx(), 3);
    assert!(walk.next().is_none());
    assert!(walk.next_back().is_none());
    let b = doc.get_node(4).unwrap();
    assert_eq!(indices(b.children().collect()), vec![5, 6]);
    assert_eq!(b.children().count(), 2);
}

#[test]
fn descendants_are_the_nodes_of_the_subtree() {
    let doc = parse("<r><a><x/>t</a><b><c><d/></c></b><e/></r>");
    assert_eq!(indices(doc.all_nodes().collect()), vec![1, 2, 3, 4, 5, 6, 7, 8]);
    assert_eq!(indices(doc.root().unwrap().descendants().collect()), vec![2, 3, 4, 5, 6, 7, 8]);
    assert_eq!(indices(doc.descendants(2).collect()), vec![3, 4]);
    assert_eq!(indices(doc.descendants(5).collect()), vec![6, 7]);
    assert_eq!(indices(doc.descendants(6).collect()), vec![7]);
    assert_eq!(indices(doc.descendants(7).collect()), Vec::<u16>::new());
    assert_eq!(indices(doc.descendants(8).collect()), Vec::<u16>::new());
    assert_eq!(indices(doc.descendants(0).collect()), Vec::<u16>::new());
    assert_eq!(indices(doc.descendants(99).collect()), Vec::<u16>::new());
    assert_eq!(doc.last_descendant(1), Some(8));
    assert_eq!(doc.last_descendant(2), Some(4));
    assert_eq!(doc.last_descendant(5), Some(7));
    assert_eq!(doc.last_descendant(3), None);
    assert_eq!(doc.last_descendant(0), None);
    let mut walk = doc.descendants(5);
    assert_eq!(walk.next_back().unwrap().idx(), 7);
    assert_eq!(walk.next_back().unwrap().idx(), 6);
    assert!(walk.next_back().is_none());
    assert_eq!(doc.all_nodes().count(), 8);
}

#[test]
fn nodes_follow_each_other_in_document_order() {
    let doc = parse("<r><a/><b/></r>");
    assert_eq!(doc.next_seq_node(1).unwrap().idx(), 2);
    assert_eq!(doc.next_seq_node(2).unwrap().idx(), 3);
    assert!(doc.next_seq_node(3).is_none());
    assert_eq!(doc.previous_seq_node(3).unwrap().idx(), 2);
    assert_eq!(doc.previous_seq_node(2).unwrap().idx(), 1);
    assert!(doc.previous_seq_node(1).is_none());
    assert!(doc.previous_seq_node(0).is_none());
    assert_eq!(doc.last_node_idx(), 3);
    assert!(!doc.is_empty());
}

#[test]
fn get_node_names_the_index_that_is_none() {
    let doc = parse("<r/>");
    match doc.get_node(2) {
        Err(ParseXmlError::InvalidXml(msg)) => assert_eq!(msg, "Invalid node index: 2"),
        _ => panic!("no error"),
    }
    match doc.get_node(65535) {
        Err(ParseXmlError::InvalidXml(msg)) => assert_eq!(msg, "Invalid node index: 65535"),
        _ => panic!("no error"),
    }
    assert!(doc.get_node(1).unwrap().is_root());
    assert!(!doc.get_node(0).unwrap().is_root());
}

#[test]
fn attributes_are_walked_from_either_end() {
    let doc = parse("<r a=\"1\" b=\"2\" c=\"3\" d=\"4\"><s e=\"5\"/></r>");
    let root = doc.root().unwrap();
    let names: Vec<String> =
        root.attributes().collect().iter().map(|a| a.name().to_string()).collect();
    assert_eq!(names, vec!["a", "b", "c", "d"]);
    let mut walk = root.attributes();
    assert_eq!(walk.len(), 4);
    assert_eq!(walk.size_hint(), (4, Some(4)));
    assert_eq!(walk.next_back().unwrap().value(), "4");
    assert_eq!(walk.nth(1).unwrap().value(), "2");
    assert_eq!(walk.len(), 1);
    assert_eq!(walk.next().unwrap().name(), "c");
    assert!(walk.next().is_none());
    assert!(walk.next_back().is_none());
    let mut walk = root.attributes();
    assert!(walk.nth(4).is_none());
    assert_eq!(walk.count(), 0);
    let child = root.first_child().unwrap();
    assert_eq!(child.attributes().count(), 1);
    assert!(child.attributes().next().unwrap().is("e"));
    assert_eq!(doc.attributes.len(), 5);
}

#[test]
fn the_first_attribute_of_a_name_is_found() {
    let doc = parse("<r a=\"1\" b=\"2\" a=\"3\"/>");
    let root = doc.root().unwrap();
    assert_eq!(root.get_attribute("a"), Some("1"));
    assert_eq!(root.get_attribute("b"), Some("2"));
    assert_eq!(root.get_attribute("c"), None);
}

#[test]
fn the_first_child_of_a_name_is_found() {
    let doc = parse("<r><a/>b<b x=\"1\"/><b x=\"2\"/></r>");
    let root = doc.root().unwrap();
    assert_eq!(root.get_child("b").unwrap().idx(), 4);
    assert_eq!(root.get_child("a").unwrap().idx(), 2);
    assert!(root.get_child("r").is_none());
    let last = root.last_child().unwrap();
    assert_eq!(last.get_sibling("b").unwrap().idx(), 4);
    assert_eq!(last.get_sibling("a").unwrap().idx(), 2);
    assert!(root.get_sibling("r").is_none());
    assert_eq!(doc.get_node(3).unwrap().get_child("").map(|n| n.idx()), None);
}

#[test]
fn positions_are_the_starts_of_names_and_texts() {
    let doc = parse("<r><ns:a/>text</r>");
    assert_eq!(doc.get_node(0).unwrap().position(), 0);
    assert_eq!(doc.get_node(1).unwrap().position(), 1);
    assert_eq!(doc.get_node(2).unwrap().position(), 4);
    assert_eq!(doc.get_node(3).unwrap().position(), 10);
    assert!(matches!(doc.get_node(0).unwrap().get_node_type(), NodeType::Head));
    assert!(matches!(doc.get_node(3).unwrap().get_node_type(), NodeType::Text(_)));
}

#[test]
fn nodes_are_equal_where_their_indices_are() {
    let doc = parse("<r><a/><b/></r>");
    let a = doc.get_node(2).unwrap();
    assert!(a == doc.root().unwrap().first_child().unwrap());
    assert!(a != doc.get_node(3).unwrap());
}

#[test]
fn add_node_appends_the_last_child() {
    let mut doc = parse("<r><a/></r>");
    let idx = doc.add_node(1, 2, NodeType::Text(0..1)).unwrap();
    assert_eq!(idx, 3);
    let idx = doc.add_node(2, 0, NodeType::Element { name: 1..2, attributes: 7..9 }).unwrap();
    assert_eq!(idx, 4);
    let idx = doc.add_node(1, 3, NodeType::Text(2..2)).unwrap();
    assert_eq!(idx, 5);
    let root = doc.root().unwrap();
    assert_eq!(indices(root.children().collect()), vec![2, 3, 5]);
    assert_eq!(indices(doc.get_node(2).unwrap().children().collect()), vec![4]);
    assert_eq!(root.last_child().unwrap().idx(), 5);
    assert_eq!(doc.get_node(3).unwrap().text(), Some("<"));
    assert_eq!(doc.get_node(4).unwrap().tag_name(), "r");
    assert_eq!(doc.nodes[4].node_type, NodeType::Element { name: 1..2, attributes: 0..0 });
}

#[test]
fn add_node_refuses_what_would_break_the_tree() {
    let mut doc = parse("<r><a/>t</r>");
    let before = doc.nodes.clone();
    for (parent, last, node_type) in [
        (9, 0, NodeType::Text(0..0)),
        (3, 0, NodeType::Text(0..0)),
        (1, 2, NodeType::Text(0..0)),
        (1, 0, NodeType::Text(0..0)),
        (1, 3, NodeType::Head),
        (1, 3, NodeType::Text(0..99)),
        (1, 3, NodeType::Text(3..2)),
        (1, 3, NodeType::Element { name: 0..99, attributes: 0..0 }),
        (0, 0, NodeType::Text(0..0)),
    ] {
        assert!(matches!(doc.add_node(parent, last, node_type), Err(ParseXmlError::InternalError)));
        assert_eq!(doc.nodes, before);
    }
    assert!(doc.add_node(1, 3, NodeType::Text(0..0)).is_ok());
}

#[test]
fn add_node_replaces_the_run_that_the_payload_names() {
    let mut doc = parse("<r a=\"1\"><a/>t</r>");
    let first = doc.add_node(2, 0, NodeType::Element { name: 0..1, attributes: 3..2 }).unwrap();
    let later = doc.add_node(1, 3, NodeType::Element { name: 1..2, attributes: 9..70 }).unwrap();
    assert_eq!((first, later), (4, 5));
    assert_eq!(doc.nodes[4].node_type, NodeType::Element { name: 0..1, attributes: 1..1 });
    assert_eq!(doc.nodes[5].node_type, NodeType::Element { name: 1..2, attributes: 1..1 });
    assert_eq!(doc.nodes[2].first_child, 4);
    assert_eq!(doc.nodes[4].prev_sibling, 4);
    assert_eq!(doc.nodes[3].next_sibling, 5);
    assert_eq!(doc.nodes[5].prev_sibling, 3);
    assert_eq!(doc.nodes[2].prev_sibling, 5);
    assert!(doc.is_well_formed());
}

#[test]
fn add_node_stops_where_the_index_space_ends() {
    let mut doc = parse("<r/>");
    let mut last = 0;
    for _ in 0..65533 {
        last = doc.add_node(1, last, NodeType::Text(0..0)).unwrap();
    }
    assert_eq!(last, 65534);
    assert_eq!(doc.nodes.len(), 65535);
    assert!(matches!(
        doc.add_node(1, last, NodeType::Text(0..0)),
        Err(ParseXmlError::NoMoreSpace)
    ));
    assert_eq!(doc.nodes.len(), 65535);
    assert_eq!(doc.root().unwrap().children().count(), 65533);
}

#[test]
fn more_nodes_than_the_index_space_holds_stop_the_parser() {
    let mut xml = String::from("<r>");
    for _ in 0..33000 {
        xml.push_str("<b/>t");
    }
    xml.push_str("</r>");
    assert!(matches!(Document::new(xml.into_bytes()), Err(ParseXmlError::NoMoreSpace)));
    let mut xml = String::from("<r>");
    for _ in 0..32766 {
        xml.push_str("<b/>t");
    }
    xml.push_str("<b/></r>");
    let doc = Document::new(xml.into_bytes()).unwrap();
    assert_eq!(doc.nodes.len(), 65535);
}

#[test]
fn add_attribute_extends_the_run_of_the_last_element() {
    let mut doc = parse("<r a=\"1\"><s/></r>");
    assert_eq!(doc.add_attribute(2, 1..2, 3..4).unwrap(), 1);
    assert_eq!(doc.add_attribute(2, 0..0, 0..0).unwrap(), 2);
    let s = doc.get_node(2).unwrap();
    assert_eq!(s.attributes().count(), 2);
    assert_eq!(s.get_attribute("r"), Some("a"));
    assert_eq!(doc.root().unwrap().attributes().count(), 1);
    assert_eq!(doc.nodes[2].node_type, NodeType::Element { name: 10..11, attributes: 1..3 });
}

#[test]
fn add_attribute_refuses_what_would_break_the_runs() {
    let mut doc = parse("<r a=\"1\"><s b=\"2\"/>t</r>");
    for (owner, name, value) in
        [(1, 0..0, 0..0), (3, 0..0, 0..0), (0, 0..0, 0..0), (9, 0..0, 0..0), (2, 0..99, 0..0), (2, 0..0, 5..4)]
    {
        assert!(matches!(doc.add_attribute(owner, name, value), Err(ParseXmlError::InternalError)));
        assert_eq!(doc.attributes.len(), 2);
    }
    assert!(doc.add_attribute(2, 0..0, 0..0).is_ok());
}

#[test]
fn add_attribute_stops_where_the_index_space_ends() {
    let mut doc = parse("<r/>");
    for i in 0..65535u32 {
        assert_eq!(doc.add_attribute(1, 0..0, 0..0).unwrap() as u32, i);
    }
    assert!(matches!(doc.add_attribute(1, 0..0, 0..0), Err(ParseXmlError::NoMoreSpace)));
    assert_eq!(doc.attributes.len(), 65535);
}

#[test]
fn add_attribute_tests_the_owner_before_the_space() {
    let mut doc = parse("<r>t</r>");
    for _ in 0..65535u32 {
        doc.add_attribute(1, 0..0, 0..0).unwrap();
    }
    let nodes = doc.nodes.clone();
    for owner in [0, 2, 9] {
        assert!(matches!(doc.add_attribute(owner, 0..0, 0..0), Err(ParseXmlError::InternalError)));
    }
    assert!(matches!(doc.add_attribute(1, 0..99, 0..0), Err(ParseXmlError::InternalError)));
    assert!(matches!(doc.add_attribute(1, 0..0, 0..0), Err(ParseXmlError::NoMoreSpace)));
    assert_eq!(doc.nodes, nodes);
    assert_eq!(doc.attributes.len(), 65535);
}

#[test]
fn errors_have_messages() {
    assert_eq!(ParseXmlError::InvalidXml(String::from("x")).message(), "Invalid XML: x");
    assert_eq!(ParseXmlError::NoMoreSpace.message(), "No more space available for parsing");
    assert_eq!(ParseXmlError::InternalError.message(), "Internal error occurred during parsing");
    assert_eq!(
        ParseXmlError::NotEnoughMemory.message(),
        "Not enough memory to complete the operation"
    );
}

#[test]
fn the_buffer_is_handed_back() {
    let mut doc = parse("<r>a&amp;b</r>");
    assert_eq!(doc.get_xml_content().as_slice(), b"<r>a&bmp;b</r>");
    assert_eq!(doc.get_str_from_location(3..6), "a&b");
}

#[test]
fn well_formed_documents_are_told_from_broken_ones() {
    let doc = parse("<r a=\"1\"><b>t</b><c/></r>");
    assert!(doc.is_well_formed());
    let breaks: Vec<fn(&mut Document)> = vec![
        |d| d.nodes[2].parent_idx = 3,
        |d| d.nodes[2].parent_idx = 2,
        |d| d.nodes[2].next_sibling = 0,
        |d| d.nodes[2].next_sibling = 3,
        |d| d.nodes[4].prev_sibling = 4,
        |d| d.nodes[2].prev_sibling = 2,
        |d| d.nodes[1].first_child = 4,
        |d| d.nodes[1].first_child = 9,
        |d| d.nodes[3].first_child = 4,
        |d| d.nodes[0].node_type = NodeType::Text(0..0),
        |d| d.nodes[0].first_child = 2,
        |d| d.nodes[0].prev_sibling = 1,
        |d| d.nodes[3].node_type = NodeType::Head,
        |d| d.nodes[3].node_type = NodeType::Text(0..99),
        |d| d.nodes[3].node_type = NodeType::Text(2..1),
        |d| d.nodes[1].node_type = NodeType::Element { name: 1..2, attributes: 0..2 },
        |d| d.nodes[1].node_type = NodeType::Element { name: 1..99, attributes: 0..1 },
        |d| d.attributes[0].value = 5..99,
        |d| d.attributes[0].name = 4..3,
        |d| d.nodes.clear(),
        |d| {
            d.xml.truncate(5);
        },
    ];
    for (i, change) in breaks.iter().enumerate() {
        let mut broken = parse("<r a=\"1\"><b>t</b><c/></r>");
        change(&mut broken);
        assert!(!broken.is_well_formed(), "change {}", i);
    }
    let mut grown = parse("<r/>");
    grown.add_node(1, 0, NodeType::Text(0..1)).unwrap();
    grown.add_attribute(1, 0..0, 1..2).unwrap();
    assert!(grown.is_well_formed());
}
