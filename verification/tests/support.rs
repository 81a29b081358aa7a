use lignin_native_windows_gui::support::{
    diff_reach, element_reach, is_href, is_link_tag, plan_reach, text_reach, Reach,
};
use lignin_native_windows_gui::support::diff_list_reach;
use lignin_native_windows_gui::{Attribute, Control, Element, VNode};

fn text(s: &str) -> VNode {
    VNode::Text { text: s.to_string() }
}

fn element(name: &str, attribute: Option<&str>) -> Element {
    Element {
        name: name.to_string(),
        attributes: attribute
            .into_iter()
            .map(|n| Attribute { name: n.to_string(), value: "v".to_string() })
            .collect(),
        content: Box::new(text("t")),
    }
}

#[test]
fn link_tags_and_href_names() {
    assert!(is_link_tag(&"a".to_string()));
    assert!(is_link_tag(&"A".to_string()));
    assert!(!is_link_tag(&"b".to_string()));
    assert!(!is_link_tag(&"ab".to_string()));
    assert!(is_href(&"href".to_string()));
    assert!(!is_href(&"HREF".to_string()));
    assert!(!is_href(&"hre".to_string()));
}

#[test]
fn text_reach_cases() {
    assert_eq!(text_reach(&text("x"), 1), Reach::Complete);
    assert_eq!(text_reach(&text("x"), 0), Reach::TooDeep);
    assert_eq!(text_reach(&VNode::RemnantSite, 1), Reach::Unsupported);
    // The first node that stops short decides.
    let memo = VNode::Memoized { state_key: 0, content: Box::new(text("y")) };
    let early_deep = VNode::Multi(vec![memo, VNode::RemnantSite]);
    assert_eq!(text_reach(&early_deep, 2), Reach::TooDeep);
    assert_eq!(text_reach(&early_deep, 3), Reach::Unsupported);
}

#[test]
fn element_reach_cases() {
    assert_eq!(element_reach(&element("a", Some("href")), 1), Reach::Complete);
    assert_eq!(element_reach(&element("a", Some("title")), 1), Reach::Unsupported);
    assert_eq!(element_reach(&element("div", None), 1), Reach::Unsupported);
    assert_eq!(element_reach(&element("a", Some("title")), 0), Reach::TooDeep);
}

#[test]
fn plan_reach_cases() {
    assert_eq!(plan_reach(&VNode::Multi(vec![text("a")]), 2), Reach::Complete);
    assert_eq!(plan_reach(&VNode::Keyed(vec![]), 2), Reach::Unsupported);
    let svg = VNode::SvgElement { element: element("svg", None) };
    assert_eq!(plan_reach(&svg, 2), Reach::Unsupported);
}

#[test]
fn diff_reach_cases() {
    assert_eq!(diff_reach(&Control::Empty, &text("a"), &text("b"), 5), Reach::Unsupported);
    assert_eq!(diff_reach(&Control::Empty, &VNode::RemnantSite, &text("b"), 5), Reach::Complete);
    assert_eq!(diff_reach(&Control::Empty, &text("a"), &VNode::RemnantSite, 5), Reach::Unsupported);
    assert_eq!(diff_reach(&Control::Empty, &text("a"), &VNode::Multi(vec![]), 0), Reach::TooDeep);
}

#[test]
fn list_diff_reach_cases() {
    let group = Control::Group { children: vec![] };
    let a = VNode::Multi(vec![]);
    let b = VNode::Multi(vec![text("x")]);
    assert_eq!(diff_reach(&group, &a, &b, 2), Reach::Complete);
    // Lists need a group to diff into.
    assert_eq!(diff_reach(&Control::Empty, &a, &b, 2), Reach::Unsupported);
    // The text of the new list is rendered one level deeper.
    assert_eq!(diff_reach(&group, &a, &b, 1), Reach::TooDeep);
    // A pair needs controls at its place.
    assert_eq!(diff_list_reach(&vec![], &vec![text("a")], &vec![text("b")], 2), Reach::Unsupported);
    assert_eq!(
        diff_list_reach(&vec![Control::Empty], &vec![VNode::RemnantSite], &vec![text("b")], 2),
        Reach::Complete
    );
    assert_eq!(
        diff_list_reach(&vec![], &vec![VNode::Multi(vec![])], &vec![VNode::Multi(vec![])], 2),
        Reach::Complete
    );
}
