use lignin_native_windows_gui::render::{collect_text, insert_html_element, insert_node};
use lignin_native_windows_gui::{Attribute, Control, Element, LayoutError, ReorderableFragment, VNode};

fn text(s: &str) -> VNode {
    VNode::Text { text: s.to_string() }
}

fn comment(s: &str) -> VNode {
    VNode::Comment { comment: s.to_string() }
}

fn element(name: &str, attributes: Vec<(&str, &str)>, content: VNode) -> Element {
    Element {
        name: name.to_string(),
        attributes: attributes
            .into_iter()
            .map(|(n, v)| Attribute { name: n.to_string(), value: v.to_string() })
            .collect(),
        content: Box::new(content),
    }
}

fn memo(key: u64, content: VNode) -> VNode {
    VNode::Memoized { state_key: key, content: Box::new(content) }
}

#[test]
fn text_of_nested_tree() {
    let tree = VNode::Multi(vec![
        text("Hello, "),
        VNode::HtmlElement { element: element("b", vec![], text("ignored")) },
        comment("not shown"),
        memo(1, text("world")),
        VNode::Keyed(vec![ReorderableFragment { dom_key: 4, content: text("!") }]),
    ]);
    assert_eq!(collect_text(&tree, 10).unwrap(), "Hello, <b \u{2026}>world!");
}

#[test]
fn text_of_svg_and_mathml_elements_is_their_summary() {
    let svg = VNode::SvgElement { element: element("svg", vec![], text("x")) };
    let math = VNode::MathMlElement { element: element("math", vec![], text("y")) };
    assert_eq!(collect_text(&svg, 1).unwrap(), "<svg \u{2026}>");
    assert_eq!(collect_text(&math, 1).unwrap(), "<math \u{2026}>");
}

#[test]
fn text_stops_at_depth_limit() {
    assert_eq!(collect_text(&text("a"), 0), Err(LayoutError::DepthLimitExceeded));
    let deep = memo(1, memo(2, text("a")));
    assert_eq!(collect_text(&deep, 2), Err(LayoutError::DepthLimitExceeded));
    assert_eq!(collect_text(&deep, 3).unwrap(), "a");
}

#[test]
fn insert_text_comment_and_list() {
    assert_eq!(insert_node(&text("hi"), 1), Ok(Control::Label { text: "hi".to_string() }));
    assert_eq!(insert_node(&comment("c"), 1), Ok(Control::Empty));
    let list = VNode::Multi(vec![text("a"), comment("b"), memo(3, text("c"))]);
    assert_eq!(
        insert_node(&list, 3),
        Ok(Control::Group {
            children: vec![
                Control::Label { text: "a".to_string() },
                Control::Empty,
                Control::Label { text: "c".to_string() },
            ],
        })
    );
}

#[test]
fn insert_stops_at_depth_limit() {
    assert_eq!(insert_node(&text("a"), 0), Err(LayoutError::DepthLimitExceeded));
    let list = VNode::Multi(vec![memo(1, text("a"))]);
    assert_eq!(insert_node(&list, 2), Err(LayoutError::DepthLimitExceeded));
}

#[test]
fn insert_link() {
    let a = element(
        "a",
        vec![("href", "https://example.com/"), ("href", "https://example.org/")],
        VNode::Multi(vec![text("Example"), text(" site")]),
    );
    let expected = Control::Link {
        text: "Example site".to_string(),
        targets: vec!["https://example.com/".to_string(), "https://example.org/".to_string()],
    };
    assert_eq!(insert_html_element(&a, 2), Ok(expected));
    let upper = element("A", vec![], text("x"));
    assert_eq!(
        insert_node(&VNode::HtmlElement { element: upper }, 1),
        Ok(Control::Link { text: "x".to_string(), targets: vec![] })
    );
}

#[test]
fn link_text_respects_depth_limit() {
    let a = element("a", vec![("href", "u")], memo(1, text("x")));
    assert_eq!(insert_html_element(&a, 1), Err(LayoutError::DepthLimitExceeded));
}

#[test]
fn duplicated_tree_is_equal() {
    let tree = VNode::Multi(vec![
        text("a"),
        VNode::HtmlElement { element: element("a", vec![("href", "u")], text("b")) },
        VNode::Keyed(vec![ReorderableFragment { dom_key: 2, content: memo(9, comment("c")) }]),
    ]);
    assert_eq!(tree.duplicate(), tree);
    let control = insert_node(&VNode::Multi(vec![text("x")]), 2).unwrap();
    assert_eq!(control.duplicate(), control);
}

#[test]
fn raising_the_depth_limit_keeps_the_text() {
    let tree = VNode::Multi(vec![memo(1, text("deep")), text("!")]);
    let first = collect_text(&tree, 3).unwrap();
    assert_eq!(collect_text(&tree, 30).unwrap(), first);
}
