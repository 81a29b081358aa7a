use lignin_native_windows_gui::diff::{diff_splice_node, diff_splice_node_list};
use lignin_native_windows_gui::render::insert_node;
use lignin_native_windows_gui::{Control, LayoutError, VNode};

fn text(s: &str) -> VNode {
    VNode::Text { text: s.to_string() }
}

fn comment() -> VNode {
    VNode::Comment { comment: String::new() }
}

fn memo(key: u64, content: VNode) -> VNode {
    VNode::Memoized { state_key: key, content: Box::new(content) }
}

fn label(s: &str) -> Control {
    Control::Label { text: s.to_string() }
}

#[test]
fn comments_keep_their_controls() {
    let mut controls = Control::Empty;
    assert_eq!(diff_splice_node(&mut controls, &comment(), &comment(), 5), Ok(false));
    assert_eq!(controls, Control::Empty);
}

#[test]
fn different_kinds_rebuild_from_target() {
    let mut controls = Control::Empty;
    assert_eq!(diff_splice_node(&mut controls, &comment(), &text("new"), 5), Ok(true));
    assert_eq!(controls, label("new"));
    assert_eq!(diff_splice_node(&mut controls, &text("new"), &comment(), 5), Ok(true));
    assert_eq!(controls, Control::Empty);
}

#[test]
fn memoized_with_same_key_is_skipped() {
    let mut controls = label("old");
    let a = memo(1, text("old"));
    let b = memo(1, text("anything"));
    assert_eq!(diff_splice_node(&mut controls, &a, &b, 5), Ok(false));
    assert_eq!(controls, label("old"));
}

#[test]
fn memoized_with_new_key_diffs_content() {
    let mut controls = Control::Empty;
    let a = memo(1, comment());
    let b = memo(2, text("fresh"));
    assert_eq!(diff_splice_node(&mut controls, &a, &b, 5), Ok(true));
    assert_eq!(controls, label("fresh"));
}

#[test]
fn diff_error_leaves_controls_unchanged() {
    let mut controls = label("kept");
    assert_eq!(
        diff_splice_node(&mut controls, &comment(), &text("x"), 0),
        Err(LayoutError::DepthLimitExceeded)
    );
    assert_eq!(controls, label("kept"));
    let a = memo(1, comment());
    let b = memo(2, memo(3, text("deep")));
    assert_eq!(diff_splice_node(&mut controls, &a, &b, 2), Err(LayoutError::DepthLimitExceeded));
    assert_eq!(controls, label("kept"));
}

#[test]
fn diff_result_is_fresh_render_of_target() {
    let a = memo(1, comment());
    let b = memo(2, VNode::Multi(vec![text("x"), comment()]));
    let mut controls = insert_node(&a, 10).unwrap();
    diff_splice_node(&mut controls, &a, &b, 10).unwrap();
    assert_eq!(controls, insert_node(&b, 10).unwrap());
}

#[test]
fn list_diff_replaces_pairs_and_appends_rest() {
    let a = vec![text("x")];
    let b = vec![comment(), text("y")];
    let mut controls = vec![label("x")];
    assert_eq!(diff_splice_node_list(&mut controls, &a, &b, 3), Ok(()));
    assert_eq!(controls, vec![Control::Empty, label("y")]);
}

#[test]
fn list_diff_drops_controls_past_shorter_target() {
    let a = vec![comment(), comment(), comment()];
    let b = vec![comment()];
    let mut controls = vec![Control::Empty, Control::Empty, Control::Empty];
    assert_eq!(diff_splice_node_list(&mut controls, &a, &b, 3), Ok(()));
    assert_eq!(controls, vec![Control::Empty]);
}

#[test]
fn list_diff_recurses_into_nested_lists() {
    let a = vec![VNode::Multi(vec![text("p")])];
    let b = vec![VNode::Multi(vec![comment(), text("q")])];
    let mut controls = vec![Control::Group { children: vec![label("p")] }];
    assert_eq!(diff_splice_node_list(&mut controls, &a, &b, 3), Ok(()));
    assert_eq!(controls, vec![Control::Group { children: vec![Control::Empty, label("q")] }]);
}

#[test]
fn list_diff_skips_empty_list_pairs() {
    let a = vec![VNode::Multi(vec![])];
    let b = vec![VNode::Multi(vec![])];
    let mut controls: Vec<Control> = vec![];
    assert_eq!(diff_splice_node_list(&mut controls, &a, &b, 3), Ok(()));
    assert_eq!(controls, vec![]);
}

#[test]
fn list_diff_depth_errors() {
    let mut controls = vec![label("x")];
    assert_eq!(
        diff_splice_node_list(&mut controls, &[text("x")], &[comment()], 0),
        Err(LayoutError::DepthLimitExceeded)
    );
    assert_eq!(controls, vec![label("x")]);
    let mut controls = vec![];
    assert_eq!(
        diff_splice_node_list(&mut controls, &[], &[text("a"), memo(1, text("b"))], 1),
        Err(LayoutError::DepthLimitExceeded)
    );
    assert_eq!(controls, vec![label("a")]);
}

#[test]
fn list_diff_result_is_fresh_render_of_target() {
    let a = vec![text("x"), VNode::Multi(vec![comment()]), comment()];
    let b = vec![comment(), VNode::Multi(vec![text("y"), text("z")])];
    let mut controls: Vec<Control> = a.iter().map(|n| insert_node(n, 4).unwrap()).collect();
    diff_splice_node_list(&mut controls, &a, &b, 4).unwrap();
    let fresh: Vec<Control> = b.iter().map(|n| insert_node(n, 4).unwrap()).collect();
    assert_eq!(controls, fresh);
}

#[test]
fn list_into_list_diffs_children() {
    let a = VNode::Multi(vec![text("x")]);
    let b = VNode::Multi(vec![comment(), text("y")]);
    let mut controls = insert_node(&a, 3).unwrap();
    assert_eq!(diff_splice_node(&mut controls, &a, &b, 3), Ok(true));
    assert_eq!(controls, Control::Group { children: vec![Control::Empty, label("y")] });
    assert_eq!(controls, insert_node(&b, 3).unwrap());
}

#[test]
fn empty_lists_keep_their_controls() {
    let mut controls = Control::Group { children: vec![] };
    assert_eq!(
        diff_splice_node(&mut controls, &VNode::Multi(vec![]), &VNode::Multi(vec![]), 1),
        Ok(false)
    );
    assert_eq!(controls, Control::Group { children: vec![] });
}

#[test]
fn list_pair_diff_error_restores_controls() {
    let a = VNode::Multi(vec![]);
    let b = VNode::Multi(vec![text("a"), memo(1, text("b"))]);
    let mut controls = Control::Group { children: vec![] };
    assert_eq!(diff_splice_node(&mut controls, &a, &b, 2), Err(LayoutError::DepthLimitExceeded));
    assert_eq!(controls, Control::Group { children: vec![] });
}

#[test]
fn list_diff_error_keeps_what_was_done() {
    let b = vec![text("a"), memo(1, text("b"))];
    let mut controls: Vec<Control> = vec![];
    assert_eq!(diff_splice_node_list(&mut controls, &[], &b, 1), Err(LayoutError::DepthLimitExceeded));
    assert_eq!(controls, vec![label("a")]);
}
