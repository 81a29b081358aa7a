//! Rendering a virtual DOM tree into controls, and gathering the text it shows.
use crate::controls::{
    controls_view, lemma_plans_prefix_stops, lemma_texts_prefix_stops, plan_element, plan_of,
    plans_of, text_of, texts_of, Control, LayoutError, Outcome,
};
use crate::vdom::{Element, NodeView, VNode};
use vstd::prelude::*;

verus! {

/// Appends what an element's summary reads to `w`.
fn write_summary(w: &mut String, name: &String)
    ensures
        final(w)@ == old(w)@ + crate::controls::element_summary(name@),
{
    proof {
        reveal_strlit("<");
        reveal_strlit(" \u{2026}>");
    }
    w.append("<");
    w.append(name.as_str());
    w.append(" \u{2026}>");
    assert(w@ =~= old(w)@ + crate::controls::element_summary(name@));
}

/// Appends the text that `content` shows to `w`.
fn collect_text_into(content: &VNode, w: &mut String, depth_limit: usize) -> (r: Result<(), LayoutError>)
    requires
        !(text_of(content@, depth_limit as nat) is Unsupported),
    ensures
        text_of(content@, depth_limit as nat) matches Outcome::Done(t) ==> r is Ok && final(w)@
            == old(w)@ + t,
        text_of(content@, depth_limit as nat) is TooDeep ==> r is Err,
    decreases depth_limit,
{
    if depth_limit == 0 {
        return Err(LayoutError::DepthLimitExceeded);
    }
    let depth = depth_limit - 1;
    match content {
        VNode::Comment { .. } => {
            assert(w@ =~= old(w)@ + Seq::<char>::empty());
        },
        VNode::HtmlElement { element } => {
            assert(element@.name == element.name@);
            write_summary(w, &element.name);
        },
        VNode::MathMlElement { element } => {
            assert(element@.name == element.name@);
            write_summary(w, &element.name);
        },
        VNode::SvgElement { element } => {
            assert(element@.name == element.name@);
            write_summary(w, &element.name);
        },
        VNode::Memoized { content: inner, .. } => {
            assert(text_of(content@, depth_limit as nat) == text_of(inner@, depth as nat));
            match collect_text_into(inner, w, depth) {
                Ok(()) => {},
                Err(e) => return Err(e),
            }
        },
        VNode::Multi(children) => {
            let ghost nodes = Seq::new(
                children.len() as nat,
                |j: int|
                    if 0 <= j < children.len() {
                        children@[j]@
                    } else {
                        NodeView::RemnantSite
                    },
            );
            proof {
                if let NodeView::Multi(cs) = content@ {
                    assert(cs =~= nodes);
                }
            }
            let ghost w0 = w@;
            let ghost mut acc: Seq<char> = Seq::empty();
            let mut i: usize = 0;
            assert(nodes.take(0) =~= Seq::<NodeView>::empty());
            while i < children.len()
                invariant
                    0 <= i <= children.len(),
                    depth + 1 == depth_limit,
                    nodes.len() == children.len(),
                    forall|j: int| 0 <= j < children.len() ==> #[trigger] nodes[j] == children@[j]@,
                    texts_of(nodes.take(i as int), depth as nat) == Outcome::Done(acc),
                    w@ == w0 + acc,
                    !(texts_of(nodes, depth as nat) is Unsupported),
                    texts_of(nodes, depth as nat) == text_of(content@, depth_limit as nat),
                decreases children.len() - i,
            {
                assert(nodes.take(i + 1).drop_last() =~= nodes.take(i as int));
                assert(nodes.take(i + 1).last() == nodes[i as int]);
                proof {
                    if text_of(nodes[i as int], depth as nat) is Unsupported {
                        lemma_texts_prefix_stops(nodes, i + 1, depth as nat);
                    }
                }
                let ghost wprev = w@;
                match collect_text_into(&children[i], w, depth) {
                    Ok(()) => {
                        proof {
                            let u = text_of(nodes[i as int], depth as nat)->Done_0;
                            assert(w@ == wprev + u);
                            assert(texts_of(nodes.take(i + 1), depth as nat) == Outcome::Done(
                                acc + u,
                            ));
                            acc = acc + u;
                            assert(w@ =~= w0 + acc);
                        }
                    },
                    Err(e) => {
                        proof {
                            lemma_texts_prefix_stops(nodes, i + 1, depth as nat);
                        }
                        return Err(e);
                    },
                }
                i = i + 1;
            }
            assert(nodes.take(i as int) =~= nodes);
        },
        VNode::Keyed(fragments) => {
            let ghost nodes = Seq::new(
                fragments.len() as nat,
                |j: int|
                    if 0 <= j < fragments.len() {
                        fragments@[j].content@
                    } else {
                        NodeView::RemnantSite
                    },
            );
            proof {
                if let NodeView::Keyed(fs) = content@ {
                    assert(fs.map_values(|f: (u32, NodeView)| f.1) =~= nodes);
                }
            }
            let ghost w0 = w@;
            let ghost mut acc: Seq<char> = Seq::empty();
            let mut i: usize = 0;
            assert(nodes.take(0) =~= Seq::<NodeView>::empty());
            while i < fragments.len()
                invariant
                    0 <= i <= fragments.len(),
                    depth + 1 == depth_limit,
                    nodes.len() == fragments.len(),
                    forall|j: int|
                        0 <= j < fragments.len() ==> #[trigger] nodes[j] == fragments@[j].content@,
                    texts_of(nodes.take(i as int), depth as nat) == Outcome::Done(acc),
                    w@ == w0 + acc,
                    !(texts_of(nodes, depth as nat) is Unsupported),
                    texts_of(nodes, depth as nat) == text_of(content@, depth_limit as nat),
                decreases fragments.len() - i,
            {
                assert(nodes.take(i + 1).drop_last() =~= nodes.take(i as int));
                assert(nodes.take(i + 1).last() == nodes[i as int]);
                proof {
                    if text_of(nodes[i as int], depth as nat) is Unsupported {
                        lemma_texts_prefix_stops(nodes, i + 1, depth as nat);
                    }
                }
                let ghost wprev = w@;
                match collect_text_into(&fragments[i].content, w, depth) {
                    Ok(()) => {
                        proof {
                            let u = text_of(nodes[i as int], depth as nat)->Done_0;
                            assert(w@ == wprev + u);
                            assert(texts_of(nodes.take(i + 1), depth as nat) == Outcome::Done(
                                acc + u,
                            ));
                            acc = acc + u;
                            assert(w@ =~= w0 + acc);
                        }
                    },
                    Err(e) => {
                        proof {
                            lemma_texts_prefix_stops(nodes, i + 1, depth as nat);
                        }
                        return Err(e);
                    },
                }
                i = i + 1;
            }
            assert(nodes.take(i as int) =~= nodes);
        },
        VNode::Text { text } => {
            w.append(text.as_str());
        },
        VNode::RemnantSite => vstd::pervasive::unreached(),
    }
    Ok(())
}

/// The link control for an `<a>` element: a label with the text of its
/// content that opens the target of each `href` attribute.
pub fn insert_html_element(element: &Element, depth_limit: usize) -> (r: Result<Control, LayoutError>)
    requires
        !(plan_element(element@, depth_limit as nat) is Unsupported),
    ensures
        plan_element(element@, depth_limit as nat) matches Outcome::Done(c) ==> r is Ok && r->Ok_0@
            == c,
        plan_element(element@, depth_limit as nat) is TooDeep ==> r is Err,
{
    let ghost ev = element@;
    assert(ev.content == Box::new((*element.content)@));
    let rtf = match collect_text(&element.content, depth_limit) {
        Ok(text) => text,
        Err(e) => return Err(e),
    };
    let mut targets: Vec<String> = Vec::new();
    let mut i: usize = 0;
    while i < element.attributes.len()
        invariant
            i <= element.attributes.len(),
            ev == element@,
            targets.len() == i,
            forall|j: int| 0 <= j < i ==> #[trigger] targets@[j]@ == element.attributes@[j].value@,
        decreases element.attributes.len() - i,
    {
        targets.push(element.attributes[i].value.clone());
        i = i + 1;
    }
    let r = Control::Link { text: rtf, targets };
    assert(r@ == plan_element(ev, depth_limit as nat)->Done_0) by {
        let tv = targets@.map_values(|t: String| t@);
        let av = ev.attributes.map_values(|a: (Seq<char>, Seq<char>)| a.1);
        assert(tv =~= av);
    }
    Ok(r)
}

/// The controls for a node: nothing for a comment, a label for a text, a link
/// for an `<a>` element, a group for a list of nodes, and for a memoized
/// node those of its content.
pub fn insert_node(vdom_b: &VNode, depth_limit: usize) -> (r: Result<Control, LayoutError>)
    requires
        !(plan_of(vdom_b@, depth_limit as nat) is Unsupported),
    ensures
        plan_of(vdom_b@, depth_limit as nat) matches Outcome::Done(c) ==> r is Ok && r->Ok_0@ == c,
        plan_of(vdom_b@, depth_limit as nat) is TooDeep ==> r is Err,
    decreases depth_limit,
{
    if depth_limit == 0 {
        return Err(LayoutError::DepthLimitExceeded);
    }
    let depth = depth_limit - 1;
    match vdom_b {
        VNode::Comment { .. } => Ok(Control::Empty),
        VNode::HtmlElement { element } => insert_html_element(element, depth_limit),
        VNode::Memoized { content: inner, .. } => {
            assert(plan_of(vdom_b@, depth_limit as nat) == plan_of(inner@, depth as nat));
            insert_node(inner, depth)
        },
        VNode::Multi(children) => {
            let ghost nodes = Seq::new(
                children.len() as nat,
                |j: int|
                    if 0 <= j < children.len() {
                        children@[j]@
                    } else {
                        NodeView::RemnantSite
                    },
            );
            proof {
                if let NodeView::Multi(cs) = vdom_b@ {
                    assert(cs =~= nodes);
                }
            }
            let mut controls: Vec<Control> = Vec::new();
            let mut i: usize = 0;
            assert(nodes.take(0) =~= Seq::<NodeView>::empty());
            assert(controls_view(controls@) =~= Seq::empty());
            while i < children.len()
                invariant
                    0 <= i <= children.len(),
                    depth + 1 == depth_limit,
                    nodes.len() == children.len(),
                    forall|j: int| 0 <= j < children.len() ==> #[trigger] nodes[j] == children@[j]@,
                    plans_of(nodes.take(i as int), depth as nat) == Outcome::Done(
                        controls_view(controls@),
                    ),
                    !(plans_of(nodes, depth as nat) is Unsupported),
                    plan_of(vdom_b@, depth_limit as nat) == match plans_of(nodes, depth as nat) {
                        Outcome::Done(cs) => Outcome::Done(
                            crate::controls::ControlView::Group { children: cs },
                        ),
                        Outcome::TooDeep => Outcome::TooDeep,
                        Outcome::Unsupported => Outcome::Unsupported,
                    },
                decreases children.len() - i,
            {
                assert(nodes.take(i + 1).drop_last() =~= nodes.take(i as int));
                assert(nodes.take(i + 1).last() == nodes[i as int]);
                proof {
                    if plan_of(nodes[i as int], depth as nat) is Unsupported {
                        lemma_plans_prefix_stops(nodes, i + 1, depth as nat);
                    }
                }
                match insert_node(&children[i], depth) {
                    Ok(c) => {
                        let ghost before = controls@;
                        controls.push(c);
                        proof {
                            assert(controls_view(controls@) =~= controls_view(before).push(c@));
                        }
                    },
                    Err(e) => {
                        proof {
                            lemma_plans_prefix_stops(nodes, i + 1, depth as nat);
                        }
                        return Err(e);
                    },
                }
                i = i + 1;
            }
            assert(nodes.take(i as int) =~= nodes);
            let r = Control::Group { children: controls };
            assert(r@ == plan_of(vdom_b@, depth_limit as nat)->Done_0) by {
                if let crate::controls::ControlView::Group { children: cs } = r@ {
                    assert(cs =~= controls_view(controls@));
                }
            }
            Ok(r)
        },
        VNode::Text { text } => Ok(Control::Label { text: text.clone() }),
        VNode::MathMlElement { .. } | VNode::SvgElement { .. } | VNode::Keyed(..)
        | VNode::RemnantSite => vstd::pervasive::unreached(),
    }
}

/// The text that `content` shows: text nodes as they are, elements as a
/// summary of their name, comments as nothing, the rest by their contents.
pub fn collect_text(content: &VNode, depth_limit: usize) -> (r: Result<String, LayoutError>)
    requires
        !(text_of(content@, depth_limit as nat) is Unsupported),
    ensures
        text_of(content@, depth_limit as nat) matches Outcome::Done(t) ==> r is Ok && r->Ok_0@
            == t,
        text_of(content@, depth_limit as nat) is TooDeep ==> r is Err,
{
    let mut text = String::new();
    match collect_text_into(content, &mut text, depth_limit) {
        Ok(()) => {
            assert(text@ =~= Seq::<char>::empty() + text@);
            Ok(text)
        },
        Err(e) => Err(e),
    }
}

} // verus!
