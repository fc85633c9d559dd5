use browser_engine::css::{Declaration, Rule, Selector, SimpleSelector, Stylesheet, Unit, Value};
use browser_engine::dom::{AttrMap, ElementData, Node, NodeType};
use browser_engine::html::parse;
use browser_engine::layout::{layout_tree, BoxType, Dimensions, LayoutError, Rect};
use browser_engine::style::style_tree;

fn viewport(width: i64) -> Dimensions {
    let mut d = Dimensions::zero();
    d.content.width = width;
    d
}

fn simple_rule(tag: &str, declarations: Vec<Declaration>) -> Rule {
    Rule {
        selectors: vec![Selector::Simple(SimpleSelector {
            tag_name: Some(tag.to_string()),
            id: None,
            class: vec![],
        })],
        declarations,
    }
}

fn decl(name: &str, value: Value) -> Declaration {
    Declaration { name: name.to_string(), value }
}

fn block() -> Declaration {
    decl("display", Value::Keyword("block".to_string()))
}

fn px(n: i64) -> Value {
    Value::Length(n, Unit::Px)
}

#[test]
fn layout_style_tree_with_empty_stylesheet() {
    let root = Node::new(NodeType::Element(ElementData::new("div", AttrMap::new())));
    let stylesheet = Stylesheet { rules: vec![] };
    let styled_node = style_tree(&root, &stylesheet);
    assert!(styled_node.specified_values.is_empty());
}

#[test]
fn layout_style_tree_with_single_rule() {
    let mut attributes = AttrMap::new();
    attributes.insert("id".to_string(), "main".to_string());
    let root = Node::new(NodeType::Element(ElementData::new("div", attributes)));
    let rule = Rule {
        selectors: vec![Selector::Simple(SimpleSelector {
            tag_name: Some("div".to_string()),
            id: Some("main".to_string()),
            class: vec![],
        })],
        declarations: vec![decl("color", Value::Keyword("red".to_string()))],
    };
    let stylesheet = Stylesheet { rules: vec![rule] };
    let styled_node = style_tree(&root, &stylesheet);
    assert_eq!(
        styled_node.specified_values.get("color"),
        Some(&Value::Keyword("red".to_string()))
    );
}

#[test]
fn layout_style_tree_with_nested_elements() {
    let mut root = Node::new(NodeType::Element(ElementData::new("div", AttrMap::new())));
    let child = Node::new(NodeType::Element(ElementData::new("p", AttrMap::new())));
    root.append_child(child);
    let rule = simple_rule("p", vec![decl("margin", px(10))]);
    let stylesheet = Stylesheet { rules: vec![rule] };
    let styled_node = style_tree(&root, &stylesheet);
    assert_eq!(
        styled_node.children[0].specified_values.get("margin"),
        Some(&Value::Length(10, Unit::Px))
    );
}

#[test]
fn layout_style_tree_with_text_node() {
    let root = Node::new(NodeType::Text("Hello".to_string()));
    let stylesheet = Stylesheet { rules: vec![] };
    let styled_node = style_tree(&root, &stylesheet);
    assert!(styled_node.specified_values.is_empty());
}

#[test]
fn layout_style_tree_with_conflicting_rules() {
    let root = Node::new(NodeType::Element(ElementData::new("div", AttrMap::new())));
    let rule1 = simple_rule("div", vec![decl("color", Value::Keyword("red".to_string()))]);
    let rule2 = simple_rule("div", vec![decl("color", Value::Keyword("blue".to_string()))]);
    let stylesheet = Stylesheet { rules: vec![rule1, rule2] };
    let styled_node = style_tree(&root, &stylesheet);
    assert_eq!(
        styled_node.specified_values.get("color"),
        Some(&Value::Keyword("blue".to_string()))
    );
}

#[test]
fn layout_centers_auto_margins() {
    let root = parse("<a></a>".to_string()).unwrap();
    let stylesheet = Stylesheet {
        rules: vec![simple_rule(
            "a",
            vec![
                block(),
                decl("width", px(50)),
                decl("margin", Value::Keyword("auto".to_string())),
            ],
        )],
    };
    let styled = style_tree(&root, &stylesheet);
    let laid = layout_tree(&styled, viewport(100)).unwrap();
    assert_eq!(laid.dimensions.content.width, 50);
    assert_eq!(laid.dimensions.margin.left, 25);
    assert_eq!(laid.dimensions.margin.right, 25);
}

#[test]
fn layout_overconstrained_box_adjusts_right_margin() {
    let root = parse("<a></a>".to_string()).unwrap();
    let stylesheet = Stylesheet {
        rules: vec![simple_rule(
            "a",
            vec![
                block(),
                decl("width", px(120)),
                decl("margin-left", px(10)),
                decl("margin-right", px(10)),
            ],
        )],
    };
    let styled = style_tree(&root, &stylesheet);
    let laid = layout_tree(&styled, viewport(100)).unwrap();
    assert_eq!(laid.dimensions.content.width, 120);
    assert_eq!(laid.dimensions.margin.left, 10);
    // The right margin absorbs the whole shortfall: 10 + (100 - 140).
    assert_eq!(laid.dimensions.margin.right, -30);
}

#[test]
fn layout_auto_width_fills_container_minus_padding() {
    let root = parse("<a></a>".to_string()).unwrap();
    let stylesheet = Stylesheet {
        rules: vec![simple_rule("a", vec![block(), decl("padding", px(10))])],
    };
    let styled = style_tree(&root, &stylesheet);
    let laid = layout_tree(&styled, viewport(200)).unwrap();
    assert_eq!(laid.dimensions.content.width, 180);
    assert_eq!(laid.dimensions.padding.left, 10);
    assert_eq!(laid.dimensions.padding.right, 10);
    assert_eq!(laid.dimensions.padding.top, 10);
    assert_eq!(laid.dimensions.padding.bottom, 10);
}

#[test]
fn layout_stacks_siblings_vertically() {
    let root = parse("<a><b></b><c></c></a>".to_string()).unwrap();
    let stylesheet = Stylesheet {
        rules: vec![
            simple_rule("a", vec![block()]),
            simple_rule("b", vec![block(), decl("height", px(30))]),
            simple_rule("c", vec![block(), decl("height", px(40))]),
        ],
    };
    let styled = style_tree(&root, &stylesheet);
    let laid = layout_tree(&styled, viewport(100)).unwrap();
    assert_eq!(laid.dimensions.content.height, 70);
    assert_eq!(laid.children.len(), 2);
    assert_eq!(laid.children[0].dimensions.content.y, 0);
    assert_eq!(laid.children[0].dimensions.content.height, 30);
    assert_eq!(laid.children[1].dimensions.content.y, 30);
    assert_eq!(laid.children[1].dimensions.content.height, 40);
}

#[test]
fn layout_wraps_inline_run_in_one_anonymous_block() {
    let root = parse("<a><i></i><j></j><k></k></a>".to_string()).unwrap();
    let stylesheet = Stylesheet { rules: vec![simple_rule("a", vec![block()])] };
    let styled = style_tree(&root, &stylesheet);
    let laid = layout_tree(&styled, viewport(100)).unwrap();
    assert_eq!(laid.children.len(), 1);
    assert!(matches!(laid.children[0].box_type, BoxType::AnonymousBlock));
    let anon = &laid.children[0];
    assert_eq!(anon.children.len(), 3);
    for (i, tag) in ["i", "j", "k"].iter().enumerate() {
        match anon.children[i].box_type {
            BoxType::InlineNode(styled_node) => match styled_node.node.node_type {
                NodeType::Element(ref e) => assert_eq!(&e.tag_name, tag),
                _ => panic!("Inline box should wrap an element"),
            },
            _ => panic!("Anonymous block children should be inline boxes"),
        }
    }
}

#[test]
fn layout_rejects_root_with_display_none() {
    let root = parse("<a></a>".to_string()).unwrap();
    let stylesheet = Stylesheet {
        rules: vec![simple_rule("a", vec![decl("display", Value::Keyword("none".to_string()))])],
    };
    let styled = style_tree(&root, &stylesheet);
    assert_eq!(layout_tree(&styled, viewport(100)).err(), Some(LayoutError::InvalidRootDisplay));
}

#[test]
fn layout_plain_blocks_take_viewport_width_and_zero_height() {
    let root = parse("<a><b></b><c><d></d></c></a>".to_string()).unwrap();
    let stylesheet = Stylesheet {
        rules: vec![
            simple_rule("a", vec![block()]),
            simple_rule("b", vec![block()]),
            simple_rule("c", vec![block()]),
            simple_rule("d", vec![block()]),
        ],
    };
    let styled = style_tree(&root, &stylesheet);
    let laid = layout_tree(&styled, viewport(800)).unwrap();
    assert_eq!(laid.dimensions.content.width, 800);
    assert_eq!(laid.dimensions.content.height, 0);
    assert_eq!(laid.children[0].dimensions.content.width, 800);
    assert_eq!(laid.children[1].dimensions.content.width, 800);
    assert_eq!(laid.children[1].children[0].dimensions.content.width, 800);
    assert_eq!(laid.children[1].children[0].dimensions.content.height, 0);
}

#[test]
fn layout_box_model_geometry() {
    let d = Dimensions {
        content: Rect { x: 100, y: 200, width: 50, height: 60 },
        padding: browser_engine::layout::EdgeSizes { left: 1, right: 2, top: 3, bottom: 4 },
        border: browser_engine::layout::EdgeSizes { left: 5, right: 6, top: 7, bottom: 8 },
        margin: browser_engine::layout::EdgeSizes { left: 9, right: 10, top: 11, bottom: 12 },
    };
    let pb = d.padding_box();
    assert_eq!(pb, Rect { x: 99, y: 197, width: 53, height: 67 });
    let bb = d.border_box();
    assert_eq!(bb, Rect { x: 94, y: 190, width: 64, height: 82 });
    let mb = d.margin_box();
    assert_eq!(mb, Rect { x: 85, y: 179, width: 83, height: 105 });
}

#[test]
fn layout_display_none_child_is_skipped() {
    let root = parse("<a><b></b><c></c></a>".to_string()).unwrap();
    let stylesheet = Stylesheet {
        rules: vec![
            simple_rule("a", vec![block()]),
            simple_rule("b", vec![decl("display", Value::Keyword("none".to_string()))]),
            simple_rule("c", vec![block(), decl("height", px(5))]),
        ],
    };
    let styled = style_tree(&root, &stylesheet);
    let laid = layout_tree(&styled, viewport(100)).unwrap();
    assert_eq!(laid.children.len(), 1);
    assert_eq!(laid.dimensions.content.height, 5);
}

#[test]
fn layout_single_auto_margin_takes_all_slack() {
    let root = parse("<a></a>".to_string()).unwrap();
    let stylesheet = Stylesheet {
        rules: vec![simple_rule(
            "a",
            vec![
                block(),
                decl("width", px(60)),
                decl("margin-left", Value::Keyword("auto".to_string())),
            ],
        )],
    };
    let styled = style_tree(&root, &stylesheet);
    let laid = layout_tree(&styled, viewport(100)).unwrap();
    assert_eq!(laid.dimensions.content.width, 60);
    assert_eq!(laid.dimensions.margin.left, 40);
    assert_eq!(laid.dimensions.margin.right, 0);
}

#[test]
fn layout_shorthand_falls_back_per_side() {
    let root = parse("<a></a>".to_string()).unwrap();
    let stylesheet = Stylesheet {
        rules: vec![simple_rule(
            "a",
            vec![block(), decl("margin", px(7)), decl("margin-left", px(1))],
        )],
    };
    let styled = style_tree(&root, &stylesheet);
    let laid = layout_tree(&styled, viewport(100)).unwrap();
    assert_eq!(laid.dimensions.margin.left, 1);
    assert_eq!(laid.dimensions.margin.top, 7);
    assert_eq!(laid.dimensions.margin.bottom, 7);
    // Width is auto, so it takes the slack left of the two margins.
    assert_eq!(laid.dimensions.content.width, 92);
    assert_eq!(laid.dimensions.margin.right, 7);
}
