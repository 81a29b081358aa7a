//! Telling ahead of time how far rendering and diffing a tree will get, so
//! that a caller can keep to what the renderer supports.
use crate::controls::{
    all_hrefs, href_name, is_link_name, plan_element, plan_of, plans_of, text_of, texts_of, Outcome,
};
use crate::controls::{controls_view, lemma_group_view, Control, ControlView};
use crate::diff::{append_plans, diff_list_of, diff_of, diff_pairs, empty_lists};
use crate::vdom::{lemma_multi_view, nodes_view, Element, NodeView, VNode};
use vstd::prelude::*;

verus! {

/// How far an outcome gets, without its result.
#[derive(Debug, PartialEq, Eq, Structural)]
pub enum Reach {
    Complete,
    TooDeep,
    Unsupported,
}

/// How far an outcome gets.
pub open spec fn reach_of<T>(o: Outcome<T>) -> Reach {
    match o {
        Outcome::Done(_) => Reach::Complete,
        Outcome::TooDeep => Reach::TooDeep,
        Outcome::Unsupported => Reach::Unsupported,
    }
}

/// Whether a tag name is that of a link.
pub fn is_link_tag(name: &String) -> (r: bool)
    ensures
        r == is_link_name(name@),
{
    let s = name.as_str();
    if s.unicode_len() != 1 {
        return false;
    }
    let c = s.get_char(0);
    assert(c == 'a' ==> name@ =~= seq!['a']);
    assert(c == 'A' ==> name@ =~= seq!['A']);
    c == 'a' || c == 'A'
}

/// Whether an attribute name is that of a link target.
pub fn is_href(name: &String) -> (r: bool)
    ensures
        r == (name@ == href_name()),
{
    let s = name.as_str();
    if s.unicode_len() != 4 {
        return false;
    }
    let r = s.get_char(0) == 'h' && s.get_char(1) == 'r' && s.get_char(2) == 'e' && s.get_char(3)
        == 'f';
    assert(r ==> name@ =~= href_name());
    r
}

/// How far gathering the text of a sequence of nodes gets.
fn texts_reach(nodes: &Vec<VNode>, depth_limit: usize) -> (r: Reach)
    ensures
        r == reach_of(texts_of(nodes_view(nodes@), depth_limit as nat)),
    decreases depth_limit, 1nat,
{
    let ghost ns = nodes_view(nodes@);
    let mut i: usize = 0;
    assert(ns.take(0) =~= Seq::<NodeView>::empty());
    while i < nodes.len()
        invariant
            i <= nodes.len(),
            ns == nodes_view(nodes@),
            texts_of(ns.take(i as int), depth_limit as nat) is Done,
        decreases nodes.len() - i,
    {
        assert(ns.take(i + 1).drop_last() =~= ns.take(i as int));
        assert(ns.take(i + 1).last() == nodes@[i as int]@);
        let r = text_reach(&nodes[i], depth_limit);
        if r != Reach::Complete {
            proof {
                crate::controls::lemma_texts_prefix_stops(ns, i + 1, depth_limit as nat);
            }
            return r;
        }
        i = i + 1;
    }
    assert(ns.take(i as int) =~= ns);
    Reach::Complete
}

/// How far gathering the text of a node gets.
pub fn text_reach(node: &VNode, depth_limit: usize) -> (r: Reach)
    ensures
        r == reach_of(text_of(node@, depth_limit as nat)),
    decreases depth_limit, 0nat,
{
    if depth_limit == 0 {
        return Reach::TooDeep;
    }
    match node {
        VNode::Memoized { content: inner, .. } => {
            assert(text_of(node@, depth_limit as nat) == text_of(inner@, (depth_limit - 1) as nat));
            text_reach(inner, depth_limit - 1)
        },
        VNode::Multi(children) => {
            proof {
                lemma_multi_view(*children);
            }
            texts_reach(children, depth_limit - 1)
        },
        VNode::Keyed(fragments) => {
            let ghost ns = Seq::new(fragments.len() as nat, |j: int| fragments@[j].content@);
            proof {
                if let NodeView::Keyed(fs) = node@ {
                    assert(fs.map_values(|f: (u32, NodeView)| f.1) =~= ns);
                }
            }
            let mut i: usize = 0;
            assert(ns.take(0) =~= Seq::<NodeView>::empty());
            while i < fragments.len()
                invariant
                    i <= fragments.len(),
                    depth_limit > 0,
                    ns.len() == fragments.len(),
                    forall|j: int| 0 <= j < fragments.len() ==> #[trigger] ns[j] == fragments@[j].content@,
                    texts_of(ns.take(i as int), (depth_limit - 1) as nat) is Done,
                    texts_of(ns, (depth_limit - 1) as nat) == text_of(node@, depth_limit as nat),
                decreases fragments.len() - i,
            {
                assert(ns.take(i + 1).drop_last() =~= ns.take(i as int));
                assert(ns.take(i + 1).last() == ns[i as int]);
                let r = text_reach(&fragments[i].content, depth_limit - 1);
                if r != Reach::Complete {
                    proof {
                        crate::controls::lemma_texts_prefix_stops(
                            ns,
                            i + 1,
                            (depth_limit - 1) as nat,
                        );
                    }
                    return r;
                }
                i = i + 1;
            }
            assert(ns.take(i as int) =~= ns);
            Reach::Complete
        },
        VNode::RemnantSite => Reach::Unsupported,
        _ => Reach::Complete,
    }
}

/// How far rendering an element gets.
pub fn element_reach(element: &Element, depth_limit: usize) -> (r: Reach)
    ensures
        r == reach_of(plan_element(element@, depth_limit as nat)),
{
    let ghost ev = element@;
    if !is_link_tag(&element.name) {
        return Reach::Unsupported;
    }
    assert(ev.content == Box::new((*element.content)@));
    let t = text_reach(&element.content, depth_limit);
    if t != Reach::Complete {
        return t;
    }
    let mut i: usize = 0;
    while i < element.attributes.len()
        invariant
            i <= element.attributes.len(),
            ev == element@,
            is_link_name(ev.name),
            text_of(*ev.content, depth_limit as nat) is Done,
            forall|j: int| 0 <= j < i ==> #[trigger] ev.attributes[j].0 == href_name(),
        decreases element.attributes.len() - i,
    {
        if !is_href(&element.attributes[i].name) {
            assert(!all_hrefs(ev.attributes)) by {
                assert(ev.attributes[i as int].0 != href_name());
            }
            return Reach::Unsupported;
        }
        i = i + 1;
    }
    assert(all_hrefs(ev.attributes));
    Reach::Complete
}

/// How far rendering a sequence of nodes gets.
fn plans_reach(nodes: &Vec<VNode>, depth_limit: usize) -> (r: Reach)
    ensures
        r == reach_of(plans_of(nodes_view(nodes@), depth_limit as nat)),
    decreases depth_limit, 1nat,
{
    let ghost ns = nodes_view(nodes@);
    let mut i: usize = 0;
    assert(ns.take(0) =~= Seq::<NodeView>::empty());
    while i < nodes.len()
        invariant
            i <= nodes.len(),
            ns == nodes_view(nodes@),
            plans_of(ns.take(i as int), depth_limit as nat) is Done,
        decreases nodes.len() - i,
    {
        assert(ns.take(i + 1).drop_last() =~= ns.take(i as int));
        assert(ns.take(i + 1).last() == nodes@[i as int]@);
        let r = plan_reach(&nodes[i], depth_limit);
        if r != Reach::Complete {
            proof {
                crate::controls::lemma_plans_prefix_stops(ns, i + 1, depth_limit as nat);
            }
            return r;
        }
        i = i + 1;
    }
    assert(ns.take(i as int) =~= ns);
    Reach::Complete
}

/// How far rendering a node gets.
pub fn plan_reach(node: &VNode, depth_limit: usize) -> (r: Reach)
    ensures
        r == reach_of(plan_of(node@, depth_limit as nat)),
    decreases depth_limit, 0nat,
{
    if depth_limit == 0 {
        return Reach::TooDeep;
    }
    match node {
        VNode::Comment { .. } => Reach::Complete,
        VNode::HtmlElement { element } => element_reach(element, depth_limit),
        VNode::Memoized { content: inner, .. } => {
            assert(plan_of(node@, depth_limit as nat) == plan_of(inner@, (depth_limit - 1) as nat));
            plan_reach(inner, depth_limit - 1)
        },
        VNode::Multi(children) => {
            proof {
                lemma_multi_view(*children);
            }
            plans_reach(children, depth_limit - 1)
        },
        VNode::Text { .. } => Reach::Complete,
        _ => Reach::Unsupported,
    }
}

/// How far diffing `vdom_a` into `vdom_b` gets, from `controls`.
pub fn diff_reach(controls: &Control, vdom_a: &VNode, vdom_b: &VNode, depth_limit: usize) -> (r: Reach)
    ensures
        r == reach_of(diff_of(controls@, vdom_a@, vdom_b@, depth_limit as nat).1),
    decreases depth_limit, 0nat,
{
    if depth_limit == 0 {
        return Reach::TooDeep;
    }
    match (vdom_a, vdom_b) {
        (VNode::Comment { .. }, VNode::Comment { .. }) => Reach::Complete,
        (
            VNode::Memoized { state_key: key_a, content: content_a },
            VNode::Memoized { state_key: key_b, content: content_b },
        ) => {
            if *key_a != *key_b {
                assert(diff_of(controls@, vdom_a@, vdom_b@, depth_limit as nat) == diff_of(
                    controls@,
                    content_a@,
                    content_b@,
                    (depth_limit - 1) as nat,
                ));
                diff_reach(controls, content_a, content_b, depth_limit - 1)
            } else {
                Reach::Complete
            }
        },
        (VNode::Multi(list_a), VNode::Multi(list_b)) => {
            proof {
                lemma_multi_view(*list_a);
                lemma_multi_view(*list_b);
            }
            if list_a.len() == 0 && list_b.len() == 0 {
                return Reach::Complete;
            }
            match controls {
                Control::Group { children } => {
                    proof {
                        lemma_group_view(*children);
                    }
                    diff_list_reach(children, list_a, list_b, depth_limit - 1)
                },
                _ => Reach::Unsupported,
            }
        },
        (VNode::HtmlElement { .. }, VNode::HtmlElement { .. })
        | (VNode::MathMlElement { .. }, VNode::MathMlElement { .. })
        | (VNode::SvgElement { .. }, VNode::SvgElement { .. })
        | (VNode::Keyed(..), VNode::Keyed(..))
        | (VNode::Text { .. }, VNode::Text { .. })
        | (VNode::RemnantSite, VNode::RemnantSite) => Reach::Unsupported,
        (_, b) => plan_reach(b, depth_limit),
    }
}

/// How far appending the controls of `nodes[k..]` gets.
pub open spec fn appended_reach(nodes: Seq<NodeView>, k: int, depth: nat) -> Reach
    decreases nodes.len() - k,
{
    if k < 0 || k >= nodes.len() {
        Reach::Complete
    } else {
        match plan_of(nodes[k], depth) {
            Outcome::Done(_) => appended_reach(nodes, k + 1, depth),
            Outcome::TooDeep => Reach::TooDeep,
            Outcome::Unsupported => Reach::Unsupported,
        }
    }
}

/// How far appending gets does not depend on what it appends to.
pub proof fn lemma_appended_reach(acc: Seq<ControlView>, nodes: Seq<NodeView>, k: int, depth: nat)
    ensures
        reach_of(append_plans(acc, nodes, k, depth).1) == appended_reach(nodes, k, depth),
    decreases nodes.len() - k,
{
    if 0 <= k < nodes.len() {
        if let Outcome::Done(c) = plan_of(nodes[k], depth) {
            lemma_appended_reach(acc.push(c), nodes, k + 1, depth);
        }
    }
}

/// How far diffing the list `vdom_a` into the list `vdom_b` gets, from `controls`.
pub fn diff_list_reach(
    controls: &Vec<Control>,
    vdom_a: &Vec<VNode>,
    vdom_b: &Vec<VNode>,
    depth_limit: usize,
) -> (r: Reach)
    ensures
        r == reach_of(
            diff_list_of(
                controls_view(controls@),
                nodes_view(vdom_a@),
                nodes_view(vdom_b@),
                depth_limit as nat,
            ).1,
        ),
    decreases depth_limit, 1nat,
{
    if depth_limit == 0 {
        return Reach::TooDeep;
    }
    let ghost a = nodes_view(vdom_a@);
    let ghost b = nodes_view(vdom_b@);
    let ghost depth = depth_limit as nat;
    let ghost cs = controls_view(controls@);
    let ghost total = diff_pairs(cs, a, b, 0, depth);
    let ghost mut st = cs;
    let ghost n = if a.len() < b.len() {
        a.len()
    } else {
        b.len()
    };
    let ghost whole = diff_list_of(cs, a, b, depth);
    assert(reach_of(whole.1) == match total.1 {
        Outcome::Done(()) => reach_of(
            append_plans(
                if total.0.len() > n {
                    total.0.take(n as int)
                } else {
                    total.0
                },
                b,
                n as int,
                depth,
            ).1,
        ),
        _ => reach_of(total.1),
    });
    proof {
        lemma_appended_reach(
            if total.0.len() > n {
                total.0.take(n as int)
            } else {
                total.0
            },
            b,
            n as int,
            depth,
        );
    }
    let mut i: usize = 0;
    while i < vdom_a.len() && i < vdom_b.len()
        invariant
            depth_limit > 0,
            depth == depth_limit as nat,
            a == nodes_view(vdom_a@),
            b == nodes_view(vdom_b@),
            cs == controls_view(controls@),
            i <= vdom_a.len(),
            i <= vdom_b.len(),
            st.len() == cs.len(),
            forall|j: int| i <= j < cs.len() ==> #[trigger] st[j] == cs[j],
            total.1 == diff_pairs(st, a, b, i as int, depth).1,
            n == (if a.len() < b.len() { a.len() } else { b.len() }),
            whole == diff_list_of(cs, a, b, depth),
            reach_of(whole.1) == match total.1 {
                Outcome::Done(()) => appended_reach(b, n as int, depth),
                _ => reach_of(total.1),
            },
        decreases vdom_a.len() - i,
    {
        assert(a[i as int] == vdom_a@[i as int]@);
        assert(b[i as int] == vdom_b@[i as int]@);
        let skip = match (&vdom_a[i], &vdom_b[i]) {
            (VNode::Multi(list_a), VNode::Multi(list_b)) => {
                proof {
                    lemma_multi_view(*list_a);
                    lemma_multi_view(*list_b);
                }
                list_a.len() == 0 && list_b.len() == 0
            },
            _ => false,
        };
        assert(skip == empty_lists(a[i as int], b[i as int]));
        if !skip {
            if i >= controls.len() {
                return Reach::Unsupported;
            }
            assert(st[i as int] == controls@[i as int]@);
            let r = diff_reach(&controls[i], &vdom_a[i], &vdom_b[i], depth_limit);
            if r != Reach::Complete {
                return r;
            }
            proof {
                st = st.update(i as int, diff_of(st[i as int], a[i as int], b[i as int], depth).0);
            }
        }
        i = i + 1;
    }
    assert(i == n);
    let mut j: usize = i;
    while j < vdom_b.len()
        invariant
            depth == depth_limit as nat,
            b == nodes_view(vdom_b@),
            i <= j <= vdom_b.len(),
            appended_reach(b, i as int, depth) == appended_reach(b, j as int, depth),
            total.1 is Done,
            cs == controls_view(controls@),
            a == nodes_view(vdom_a@),
            reach_of(whole.1) == appended_reach(b, i as int, depth),
            whole == diff_list_of(cs, a, b, depth),
        decreases vdom_b.len() - j,
    {
        assert(b[j as int] == vdom_b@[j as int]@);
        let r = plan_reach(&vdom_b[j], depth_limit);
        if r != Reach::Complete {
            return r;
        }
        j = j + 1;
    }
    Reach::Complete
}

} // verus!
