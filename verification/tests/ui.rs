use lignin_native_windows_gui::render::insert_node;
use lignin_native_windows_gui::ui::DEPTH_LIMIT;
use lignin_native_windows_gui::{Control, LayoutError, LigninUi, VNode};

fn text(s: &str) -> VNode {
    VNode::Text { text: s.to_string() }
}

fn memo(key: u64, content: VNode) -> VNode {
    VNode::Memoized { state_key: key, content: Box::new(content) }
}

#[test]
fn new_ui_shows_empty_list() {
    let ui = LigninUi::new();
    assert_eq!(ui.vdom(), &VNode::Multi(vec![]));
    assert_eq!(ui.controls(), &Control::Group { children: vec![] });
    assert_eq!(ui.controls(), &insert_node(ui.vdom(), DEPTH_LIMIT).unwrap());
}

#[test]
fn build_partial_goes_over_to_next_tree() {
    let mut ui = LigninUi::new();
    let next = memo(1, text("hello"));
    assert!(ui.can_build(&next));
    assert_eq!(ui.build_partial(next), Ok(true));
    assert_eq!(ui.vdom(), &memo(1, text("hello")));
    assert_eq!(ui.controls(), &Control::Label { text: "hello".to_string() });
    // The same state key: nothing is rebuilt, though the tree is taken over.
    let same = memo(1, text("hello"));
    assert!(ui.can_build(&same));
    assert_eq!(ui.build_partial(same), Ok(false));
    // A new state key: the content is diffed.
    let changed = memo(2, VNode::Comment { comment: String::new() });
    assert_eq!(ui.build_partial(changed), Ok(true));
    assert_eq!(ui.controls(), &Control::Empty);
    assert_eq!(ui.controls(), &insert_node(ui.vdom(), DEPTH_LIMIT).unwrap());
}

#[test]
fn build_partial_error_changes_nothing() {
    let mut ui = LigninUi::new();
    let mut deep = text("bottom");
    for k in 0..DEPTH_LIMIT as u64 {
        deep = memo(k, deep);
    }
    assert!(ui.can_build(&deep));
    assert_eq!(ui.build_partial(deep), Err(LayoutError::DepthLimitExceeded));
    assert_eq!(ui.vdom(), &VNode::Multi(vec![]));
    assert_eq!(ui.controls(), &Control::Group { children: vec![] });
}

#[test]
fn unsupported_updates_are_told_ahead() {
    let mut ui = LigninUi::new();
    ui.build_partial(text("a")).unwrap();
    // Two texts in the same place are not diffed by this renderer.
    assert!(!ui.can_build(&text("b")));
    assert!(!ui.can_build(&VNode::RemnantSite));
}

#[test]
fn first_build_of_a_list_shows_its_texts() {
    let mut ui = LigninUi::new();
    let next = VNode::Multi(vec![text("Hello Windows!")]);
    assert!(ui.can_build(&next));
    assert_eq!(ui.build_partial(next), Ok(true));
    assert_eq!(
        ui.controls(),
        &Control::Group { children: vec![Control::Label { text: "Hello Windows!".to_string() }] }
    );
    assert_eq!(ui.controls(), &insert_node(ui.vdom(), DEPTH_LIMIT).unwrap());
    // The same list again: the pair of texts is not supported.
    assert!(!ui.can_build(&VNode::Multi(vec![text("Hello Windows!")])));
    // A list of another shape: the text becomes a comment, a text is added.
    let next = VNode::Multi(vec![VNode::Comment { comment: String::new() }, text("more")]);
    assert!(ui.can_build(&next));
    assert_eq!(ui.build_partial(next), Ok(true));
    assert_eq!(ui.controls(), &insert_node(ui.vdom(), DEPTH_LIMIT).unwrap());
}

#[test]
fn duplicate_copies_the_state() {
    let mut ui = LigninUi::new();
    ui.build_partial(memo(3, text("x"))).unwrap();
    let copy = ui.duplicate();
    assert_eq!(copy.vdom(), ui.vdom());
    assert_eq!(copy.controls(), ui.controls());
}
