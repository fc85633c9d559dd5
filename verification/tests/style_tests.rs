use browser_engine::css::{Declaration, Rule, Selector, SimpleSelector, Stylesheet, Unit, Value};
use browser_engine::dom::{AttrMap, ElementData, Node, NodeType};
use browser_engine::style::style_tree;

#[test]
fn style_style_tree_with_empty_stylesheet() {
    let root = Node::new(NodeType::Element(ElementData::new("div", AttrMap::new())));
    let stylesheet = Stylesheet { rules: vec![] };
    let styled_node = style_tree(&root, &stylesheet);
    assert!(styled_node.specified_values.is_empty());
}

#[test]
fn style_style_tree_with_single_rule() {
    let mut attributes = AttrMap::new();
    attributes.insert("id".to_string(), "main".to_string());
    let root = Node::new(NodeType::Element(ElementData::new("div", attributes)));
    let rule = Rule {
        selectors: vec![Selector::Simple(SimpleSelector {
            tag_name: Some("div".to_string()),
            id: Some("main".to_string()),
            class: vec![],
        })],
        declarations: vec![Declaration {
            name: "color".to_string(),
            value: Value::Keyword("red".to_string()),
        }],
    };
    let stylesheet = Stylesheet { rules: vec![rule] };
    let styled_node = style_tree(&root, &stylesheet);
    assert_eq!(
        styled_node.specified_values.get("color"),
        Some(&Value::Keyword("red".to_string()))
    );
}

#[test]
fn style_style_tree_with_nested_elements() {
    let mut root = Node::new(NodeType::Element(ElementData::new("div", AttrMap::new())));
    let child = Node::new(NodeType::Element(ElementData::new("p", AttrMap::new())));
    root.append_child(child);
    let rule = Rule {
        selectors: vec![Selector::Simple(SimpleSelector {
            tag_name: Some("p".to_string()),
            id: None,
            class: vec![],
        })],
        declarations: vec![Declaration {
            name: "margin".to_string(),
            value: Value::Length(10, Unit::Px),
        }],
    };
    let stylesheet = Stylesheet { rules: vec![rule] };
    let styled_node = style_tree(&root, &stylesheet);
    assert_eq!(
        styled_node.children[0].specified_values.get("margin"),
        Some(&Value::Length(10, Unit::Px))
    );
}

#[test]
fn style_style_tree_with_text_node() {
    let root = Node::new(NodeType::Text("Hello".to_string()));
    let stylesheet = Stylesheet { rules: vec![] };
    let styled_node = style_tree(&root, &stylesheet);
    assert!(styled_node.specified_values.is_empty());
}

#[test]
fn style_style_tree_with_conflicting_rules() {
    let root = Node::new(NodeType::Element(ElementData::new("div", AttrMap::new())));
    let rule1 = Rule {
        selectors: vec![Selector::Simple(SimpleSelector {
            tag_name: Some("div".to_string()),
            id: None,
            class: vec![],
        })],
        declarations: vec![Declaration {
            name: "color".to_string(),
            value: Value::Keyword("red".to_string()),
        }],
    };
    let rule2 = Rule {
        selectors: vec![Selector::Simple(SimpleSelector {
            tag_name: Some("div".to_string()),
            id: None,
            class: vec![],
        })],
        declarations: vec![Declaration {
            name: "color".to_string(),
            value: Value::Keyword("blue".to_string()),
        }],
    };
    let stylesheet = Stylesheet { rules: vec![rule1, rule2] };
    let styled_node = style_tree(&root, &stylesheet);
    assert_eq!(
        styled_node.specified_values.get("color"),
        Some(&Value::Keyword("blue".to_string()))
    );
}

#[test]
fn style_cascade_prefers_higher_specificity() {
    let mut attributes = AttrMap::new();
    attributes.insert("id".to_string(), "x".to_string());
    attributes.insert("class".to_string(), "y".to_string());
    let root = Node::new(NodeType::Element(ElementData::new("div", attributes)));
    let by_tag = Rule {
        selectors: vec![Selector::Simple(SimpleSelector {
            tag_name: Some("div".to_string()),
            id: None,
            class: vec![],
        })],
        declarations: vec![Declaration {
            name: "color".to_string(),
            value: Value::Keyword("red".to_string()),
        }],
    };
    let by_class = Rule {
        selectors: vec![Selector::Simple(SimpleSelector {
            tag_name: None,
            id: None,
            class: vec!["y".to_string()],
        })],
        declarations: vec![Declaration {
            name: "color".to_string(),
            value: Value::Keyword("green".to_string()),
        }],
    };
    let by_id = Rule {
        selectors: vec![Selector::Simple(SimpleSelector {
            tag_name: None,
            id: Some("x".to_string()),
            class: vec![],
        })],
        declarations: vec![Declaration {
            name: "color".to_string(),
            value: Value::Keyword("blue".to_string()),
        }],
    };
    let stylesheet = Stylesheet { rules: vec![by_tag, by_class, by_id] };
    let styled_node = style_tree(&root, &stylesheet);
    assert_eq!(
        styled_node.specified_values.get("color"),
        Some(&Value::Keyword("blue".to_string()))
    );
}

#[test]
fn style_selector_class_must_be_present() {
    let mut attributes = AttrMap::new();
    attributes.insert("class".to_string(), "a b".to_string());
    let root = Node::new(NodeType::Element(ElementData::new("div", attributes)));
    let matching = Rule {
        selectors: vec![Selector::Simple(SimpleSelector {
            tag_name: None,
            id: None,
            class: vec!["a".to_string(), "b".to_string()],
        })],
        declarations: vec![Declaration {
            name: "color".to_string(),
            value: Value::Keyword("red".to_string()),
        }],
    };
    let not_matching = Rule {
        selectors: vec![Selector::Simple(SimpleSelector {
            tag_name: None,
            id: None,
            class: vec!["a".to_string(), "c".to_string()],
        })],
        declarations: vec![Declaration {
            name: "width".to_string(),
            value: Value::Length(5, Unit::Px),
        }],
    };
    let stylesheet = Stylesheet { rules: vec![matching, not_matching] };
    let styled_node = style_tree(&root, &stylesheet);
    assert_eq!(
        styled_node.specified_values.get("color"),
        Some(&Value::Keyword("red".to_string()))
    );
    assert_eq!(styled_node.specified_values.get("width"), None);
}

#[test]
fn style_rule_uses_first_matching_selector() {
    let mut attributes = AttrMap::new();
    attributes.insert("id".to_string(), "x".to_string());
    let root = Node::new(NodeType::Element(ElementData::new("div", attributes)));
    // Both selectors match; the first one (the bare tag) decides the
    // specificity of the rule.
    let rule = Rule {
        selectors: vec![
            Selector::Simple(SimpleSelector {
                tag_name: Some("div".to_string()),
                id: None,
                class: vec![],
            }),
            Selector::Simple(SimpleSelector {
                tag_name: None,
                id: Some("x".to_string()),
                class: vec![],
            }),
        ],
        declarations: vec![Declaration {
            name: "color".to_string(),
            value: Value::Keyword("red".to_string()),
        }],
    };
    // A later rule matched by id outranks the first selector's specificity.
    let by_id = Rule {
        selectors: vec![Selector::Simple(SimpleSelector {
            tag_name: None,
            id: Some("x".to_string()),
            class: vec![],
        })],
        declarations: vec![Declaration {
            name: "color".to_string(),
            value: Value::Keyword("blue".to_string()),
        }],
    };
    let stylesheet = Stylesheet { rules: vec![by_id, rule] };
    let styled_node = style_tree(&root, &stylesheet);
    // The two-selector rule counts as tag specificity, so the id rule wins
    // although it stands earlier in the source.
    assert_eq!(
        styled_node.specified_values.get("color"),
        Some(&Value::Keyword("blue".to_string()))
    );
}

#[test]
fn style_adding_a_rule_never_removes_properties() {
    let root = Node::new(NodeType::Element(ElementData::new("div", AttrMap::new())));
    let color_rule = Rule {
        selectors: vec![Selector::Simple(SimpleSelector {
            tag_name: Some("div".to_string()),
            id: None,
            class: vec![],
        })],
        declarations: vec![Declaration {
            name: "color".to_string(),
            value: Value::Keyword("red".to_string()),
        }],
    };
    let width_rule = Rule {
        selectors: vec![Selector::Simple(SimpleSelector {
            tag_name: Some("div".to_string()),
            id: None,
            class: vec![],
        })],
        declarations: vec![Declaration {
            name: "width".to_string(),
            value: Value::Length(40, Unit::Px),
        }],
    };
    let smaller = Stylesheet { rules: vec![color_rule] };
    let styled_small = style_tree(&root, &smaller);
    assert_eq!(
        styled_small.specified_values.get("color"),
        Some(&Value::Keyword("red".to_string()))
    );

    let color_rule_again = Rule {
        selectors: vec![Selector::Simple(SimpleSelector {
            tag_name: Some("div".to_string()),
            id: None,
            class: vec![],
        })],
        declarations: vec![Declaration {
            name: "color".to_string(),
            value: Value::Keyword("red".to_string()),
        }],
    };
    let larger = Stylesheet { rules: vec![color_rule_again, width_rule] };
    let styled_large = style_tree(&root, &larger);
    // The old property is still there, and the new one was added.
    assert_eq!(
        styled_large.specified_values.get("color"),
        Some(&Value::Keyword("red".to_string()))
    );
    assert_eq!(
        styled_large.specified_values.get("width"),
        Some(&Value::Length(40, Unit::Px))
    );
}
