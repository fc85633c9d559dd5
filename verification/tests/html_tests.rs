use browser_engine::dom::NodeType;
use browser_engine::html::{parse, ParseError};

#[test]
fn parse_single_element() {
    let source = "<div></div>".to_string();
    let root = parse(source).unwrap();
    assert_eq!(root.children.len(), 0);
    if let NodeType::Element(ref element_data) = root.node_type {
        assert_eq!(element_data.tag_name, "div");
        assert_eq!(element_data.attributes.len(), 0);
    } else {
        panic!("Root node should be an element");
    }
}

#[test]
fn parse_balanced_element_with_text() {
    let root = parse("<t>X</t>".to_string()).unwrap();
    if let NodeType::Element(ref element_data) = root.node_type {
        assert_eq!(element_data.tag_name, "t");
    } else {
        panic!("Root node should be an element");
    }
    assert_eq!(root.children.len(), 1);
    if let NodeType::Text(ref data) = root.children[0].node_type {
        assert_eq!(data, "X");
    } else {
        panic!("Child should be a text node");
    }
}

#[test]
fn parse_attributes_and_children_in_order() {
    let root = parse("<div id=\"main\" class='a b'><p>one</p><p>two</p></div>".to_string())
        .unwrap();
    if let NodeType::Element(ref element_data) = root.node_type {
        assert_eq!(element_data.tag_name, "div");
        assert_eq!(element_data.attributes.len(), 2);
        assert_eq!(element_data.id(), Some(&"main".to_string()));
        assert_eq!(element_data.classes(), vec!["a".to_string(), "b".to_string()]);
    } else {
        panic!("Root node should be an element");
    }
    assert_eq!(root.children.len(), 2);
    for (i, expected) in ["one", "two"].iter().enumerate() {
        if let NodeType::Element(ref e) = root.children[i].node_type {
            assert_eq!(e.tag_name, "p");
            if let NodeType::Text(ref data) = root.children[i].children[0].node_type {
                assert_eq!(data, expected);
            } else {
                panic!("Grandchild should be text");
            }
        } else {
            panic!("Child should be an element");
        }
    }
}

#[test]
fn parse_wraps_several_roots_in_html_element() {
    let root = parse("<a></a><b></b>".to_string()).unwrap();
    if let NodeType::Element(ref element_data) = root.node_type {
        assert_eq!(element_data.tag_name, "html");
        assert_eq!(element_data.attributes.len(), 0);
    } else {
        panic!("Root node should be an element");
    }
    assert_eq!(root.children.len(), 2);
}

#[test]
fn parse_truncated_tag_fails() {
    assert_eq!(parse("<a".to_string()).err(), Some(ParseError::UnexpectedEnd));
}

#[test]
fn parse_mismatched_close_tag_fails() {
    assert_eq!(parse("<a></b>".to_string()).err(), Some(ParseError::MismatchedCloseTag));
}

#[test]
fn parse_unquoted_attribute_fails() {
    assert_eq!(parse("<a href=x></a>".to_string()).err(), Some(ParseError::BadQuote));
}

#[test]
fn parse_attribute_without_value_fails() {
    assert_eq!(parse("<a href></a>".to_string()).err(), Some(ParseError::UnexpectedInput));
}

#[test]
fn parse_unterminated_attribute_value_fails() {
    assert_eq!(parse("<a href=\"y></a>".to_string()).err(), Some(ParseError::UnexpectedEnd));
}

#[test]
fn parse_keeps_text_verbatim() {
    // Whitespace before a node is consumed as inter-node whitespace; the
    // rest of the text is kept verbatim.
    let root = parse("<p>  two  words  </p>".to_string()).unwrap();
    assert_eq!(root.children.len(), 1);
    if let NodeType::Text(ref data) = root.children[0].node_type {
        assert_eq!(data, "two  words  ");
    } else {
        panic!("Child should be a text node");
    }
}

#[test]
fn parse_repeated_attribute_keeps_last_value() {
    let root = parse("<a x='1' x='2'></a>".to_string()).unwrap();
    if let NodeType::Element(ref element_data) = root.node_type {
        assert_eq!(element_data.attributes.len(), 1);
        assert_eq!(element_data.attributes.get("x"), Some(&"2".to_string()));
    } else {
        panic!("Root node should be an element");
    }
}
