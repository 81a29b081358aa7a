//! Bringing the controls of one virtual DOM tree up to date with the next.
use crate::controls::{
    controls_view, lemma_controls_view_update, lemma_group_view, plan_of, plans_of, Control,
    ControlView, LayoutError, Outcome,
};
use crate::render::insert_node;
use crate::vdom::{lemma_multi_view, nodes_view, NodeView, VNode};
use vstd::prelude::*;

verus! {

/// What diffing `a` into `b` makes of the controls of `a`: the controls
/// afterwards, and how it ends, with whether the controls were rebuilt.
///
/// Comments stay; memoized nodes with equal state keys stay and otherwise diff
/// their contents one level deeper; two lists diff their children one level
/// deeper, as `diff_list_of` describes, in place of the group that shows them
/// (two empty lists stay); nodes of different kinds are rebuilt from `b`. Two
/// elements, keyed lists, texts or remnant sites of the same kind are not
/// supported, nor lists whose controls are not a group. Where the diff stops
/// short, the controls stay as they were.
pub open spec fn diff_of(controls: ControlView, a: NodeView, b: NodeView, depth: nat) -> (
    ControlView,
    Outcome<bool>,
)
    decreases depth, 0int, 0int,
{
    if depth == 0 {
        (controls, Outcome::TooDeep)
    } else {
        match (a, b) {
            (NodeView::Comment { .. }, NodeView::Comment { .. }) => (controls, Outcome::Done(false)),
            (NodeView::HtmlElement { .. }, NodeView::HtmlElement { .. }) => (
                controls,
                Outcome::Unsupported,
            ),
            (NodeView::MathMlElement { .. }, NodeView::MathMlElement { .. }) => (
                controls,
                Outcome::Unsupported,
            ),
            (NodeView::SvgElement { .. }, NodeView::SvgElement { .. }) => (
                controls,
                Outcome::Unsupported,
            ),
            (
                NodeView::Memoized { state_key: key_a, content: content_a },
                NodeView::Memoized { state_key: key_b, content: content_b },
            ) => if key_a != key_b {
                diff_of(controls, *content_a, *content_b, (depth - 1) as nat)
            } else {
                (controls, Outcome::Done(false))
            },
            (NodeView::Multi(list_a), NodeView::Multi(list_b)) => if list_a.len() == 0
                && list_b.len() == 0 {
                (controls, Outcome::Done(false))
            } else {
                match controls {
                    ControlView::Group { children } => {
                        let (inner, outcome) = diff_list_of(
                            children,
                            list_a,
                            list_b,
                            (depth - 1) as nat,
                        );
                        match outcome {
                            Outcome::Done(()) => (ControlView::Group { children: inner }, Outcome::Done(true)),
                            Outcome::TooDeep => (controls, Outcome::TooDeep),
                            Outcome::Unsupported => (controls, Outcome::Unsupported),
                        }
                    },
                    _ => (controls, Outcome::Unsupported),
                }
            },
            (NodeView::Keyed(..), NodeView::Keyed(..)) => (controls, Outcome::Unsupported),
            (NodeView::Text { .. }, NodeView::Text { .. }) => (controls, Outcome::Unsupported),
            (NodeView::RemnantSite, NodeView::RemnantSite) => (controls, Outcome::Unsupported),
            (_, b) => match plan_of(b, depth) {
                Outcome::Done(c) => (c, Outcome::Done(true)),
                Outcome::TooDeep => (controls, Outcome::TooDeep),
                Outcome::Unsupported => (controls, Outcome::Unsupported),
            },
        }
    }
}

/// Two empty lists, which a list diff passes over without touching the controls.
pub open spec fn empty_lists(x: NodeView, y: NodeView) -> bool {
    x matches NodeView::Multi(list_x) && y matches NodeView::Multi(list_y) && list_x.len() == 0
        && list_y.len() == 0
}

/// Appends the controls of `nodes[k..]` to `acc`, in order; the first node that
/// stops short ends it, with what was appended until then kept.
pub open spec fn append_plans(acc: Seq<ControlView>, nodes: Seq<NodeView>, k: int, depth: nat) -> (
    Seq<ControlView>,
    Outcome<()>,
)
    decreases nodes.len() - k,
{
    if k < 0 || k >= nodes.len() {
        (acc, Outcome::Done(()))
    } else {
        match plan_of(nodes[k], depth) {
            Outcome::Done(c) => append_plans(acc.push(c), nodes, k + 1, depth),
            Outcome::TooDeep => (acc, Outcome::TooDeep),
            Outcome::Unsupported => (acc, Outcome::Unsupported),
        }
    }
}

/// What diffing a list `a` into a list `b` makes of the controls of `a`, and
/// how it ends.
///
/// The nodes are taken in pairs from the front; each pair but two empty lists
/// is diffed as `diff_of` describes, in place of the controls at its position.
/// The controls past the last pair are dropped and those of the rest of `b`
/// appended. Missing controls are not supported.
pub open spec fn diff_list_of(
    controls: Seq<ControlView>,
    a: Seq<NodeView>,
    b: Seq<NodeView>,
    depth: nat,
) -> (Seq<ControlView>, Outcome<()>)
    decreases depth, 2int, 0int,
{
    if depth == 0 {
        (controls, Outcome::TooDeep)
    } else {
        let n = if a.len() < b.len() {
            a.len()
        } else {
            b.len()
        };
        let (after, outcome) = diff_pairs(controls, a, b, 0, depth);
        match outcome {
            Outcome::Done(()) => append_plans(
                if after.len() > n {
                    after.take(n as int)
                } else {
                    after
                },
                b,
                n as int,
                depth,
            ),
            _ => (after, outcome),
        }
    }
}

/// Diffs the pairs of `a` and `b` from position `i` on, as `diff_list_of` describes.
pub open spec fn diff_pairs(
    controls: Seq<ControlView>,
    a: Seq<NodeView>,
    b: Seq<NodeView>,
    i: int,
    depth: nat,
) -> (Seq<ControlView>, Outcome<()>)
    decreases depth, 1int, a.len() - i,
{
    if i < 0 || i >= a.len() || i >= b.len() || depth == 0 {
        (controls, Outcome::Done(()))
    } else if empty_lists(a[i], b[i]) {
        diff_pairs(controls, a, b, i + 1, depth)
    } else if i >= controls.len() {
        (controls, Outcome::Unsupported)
    } else {
        let (c, outcome) = diff_of(controls[i], a[i], b[i], depth);
        let next = controls.update(i, c);
        match outcome {
            Outcome::Done(_) => diff_pairs(next, a, b, i + 1, depth),
            Outcome::TooDeep => (next, Outcome::TooDeep),
            Outcome::Unsupported => (next, Outcome::Unsupported),
        }
    }
}

/// Two nodes at the same place diff consistently: memoized nodes with the same
/// state key have the same content, and otherwise their contents diff
/// consistently one level deeper; two lists pair off consistently one level deeper.
pub open spec fn diff_consistent(a: NodeView, b: NodeView, depth: nat) -> bool
    decreases depth, 0nat, 0nat,
{
    match (a, b) {
        (
            NodeView::Memoized { state_key: key_a, content: content_a },
            NodeView::Memoized { state_key: key_b, content: content_b },
        ) => if key_a == key_b {
            *content_a == *content_b
        } else {
            depth == 0 || diff_consistent(*content_a, *content_b, (depth - 1) as nat)
        },
        (NodeView::Multi(list_a), NodeView::Multi(list_b)) => depth == 0 || lists_consistent(
            list_a,
            list_b,
            (depth - 1) as nat,
        ),
        _ => true,
    }
}

/// Every pair of nodes at the same place of `a` and `b` diffs consistently.
pub open spec fn lists_consistent(a: Seq<NodeView>, b: Seq<NodeView>, depth: nat) -> bool
    decreases depth, 1nat, a.len(),
{
    a.len() == 0 || b.len() == 0 || (diff_consistent(a[0], b[0], depth) && lists_consistent(
        a.drop_first(),
        b.drop_first(),
        depth,
    ))
}

/// Lists that pair off consistently do so at each place.
pub proof fn lemma_lists_consistent_at(a: Seq<NodeView>, b: Seq<NodeView>, depth: nat)
    requires
        lists_consistent(a, b, depth),
    ensures
        forall|k: int| 0 <= k < a.len() && k < b.len() ==> #[trigger] diff_consistent(a[k], b[k], depth),
    decreases a.len(),
{
    if a.len() > 0 && b.len() > 0 {
        lemma_lists_consistent_at(a.drop_first(), b.drop_first(), depth);
        assert forall|k: int| 0 <= k < a.len() && k < b.len() implies #[trigger] diff_consistent(
            a[k],
            b[k],
            depth,
        ) by {
            if k > 0 {
                assert(a.drop_first()[k - 1] == a[k]);
                assert(b.drop_first()[k - 1] == b[k]);
            }
        }
    }
}

/// A sequence renders to the controls that its nodes render to, one by one.
pub proof fn lemma_plans_pointwise(s: Seq<NodeView>, cs: Seq<ControlView>, depth: nat)
    ensures
        plans_of(s, depth) == Outcome::Done(cs) <==> (cs.len() == s.len() && forall|k: int|
            0 <= k < s.len() ==> #[trigger] plan_of(s[k], depth) == Outcome::Done(cs[k])),
    decreases s.len(),
{
    if s.len() > 0 {
        lemma_plans_pointwise(s.drop_last(), cs.drop_last(), depth);
        if plans_of(s, depth) == Outcome::Done(cs) {
            let prefix = plans_of(s.drop_last(), depth)->Done_0;
            let c = plan_of(s.last(), depth)->Done_0;
            assert(cs == prefix.push(c));
            assert(cs.drop_last() =~= prefix);
            assert forall|k: int| 0 <= k < s.len() implies #[trigger] plan_of(s[k], depth)
                == Outcome::Done(cs[k]) by {
                if k < s.len() - 1 {
                    assert(s.drop_last()[k] == s[k]);
                    assert(cs.drop_last()[k] == cs[k]);
                }
            }
        }
        if cs.len() == s.len() && forall|k: int|
            0 <= k < s.len() ==> #[trigger] plan_of(s[k], depth) == Outcome::Done(cs[k]) {
            assert forall|k: int| 0 <= k < s.len() - 1 implies #[trigger] plan_of(
                s.drop_last()[k],
                depth,
            ) == Outcome::Done(cs.drop_last()[k]) by {
                assert(plan_of(s[k], depth) == Outcome::Done(cs[k]));
            }
            assert(plan_of(s[s.len() - 1], depth) == Outcome::Done(cs[s.len() - 1]));
            assert(cs.drop_last().push(cs.last()) =~= cs);
        }
    } else {
        if cs.len() == 0 {
            assert(cs =~= Seq::<ControlView>::empty());
        }
    }
}

/// Appending the controls of the rest of `nodes` to those of its first `k`
/// nodes gives the controls of all of them.
pub proof fn lemma_append_plans_renders(acc: Seq<ControlView>, nodes: Seq<NodeView>, k: int, depth: nat)
    requires
        0 <= k <= nodes.len(),
        acc.len() == k,
        forall|j: int| 0 <= j < k ==> #[trigger] plan_of(nodes[j], depth) == Outcome::Done(acc[j]),
        append_plans(acc, nodes, k, depth).1 is Done,
    ensures
        ({
            let r = append_plans(acc, nodes, k, depth).0;
            &&& r.len() == nodes.len()
            &&& forall|j: int| 0 <= j < nodes.len() ==> #[trigger] plan_of(nodes[j], depth)
                == Outcome::Done(r[j])
        }),
    decreases nodes.len() - k,
{
    if k < nodes.len() {
        let c = plan_of(nodes[k], depth)->Done_0;
        assert forall|j: int| 0 <= j < k + 1 implies #[trigger] plan_of(nodes[j], depth)
            == Outcome::Done(acc.push(c)[j]) by {
            if j < k {
                assert(acc.push(c)[j] == acc[j]);
            }
        }
        lemma_append_plans_renders(acc.push(c), nodes, k + 1, depth);
    }
}

/// A diff that goes through turns the controls rendered for `a` into those
/// rendered for `b`, where the two trees diff consistently.
pub proof fn lemma_diff_renders_target(a: NodeView, b: NodeView, depth: nat, c: ControlView)
    requires
        plan_of(a, depth) == Outcome::Done(c),
        diff_consistent(a, b, depth),
        diff_of(c, a, b, depth).1 is Done,
    ensures
        plan_of(b, depth) == Outcome::Done(diff_of(c, a, b, depth).0),
    decreases depth, 0int, 0int,
{
    if depth > 0 {
        match (a, b) {
            (
                NodeView::Memoized { state_key: key_a, content: content_a },
                NodeView::Memoized { state_key: key_b, content: content_b },
            ) => {
                if key_a != key_b {
                    lemma_diff_renders_target(*content_a, *content_b, (depth - 1) as nat, c);
                }
            },
            (NodeView::Multi(list_a), NodeView::Multi(list_b)) => {
                if list_a.len() == 0 && list_b.len() == 0 {
                    assert(list_a =~= list_b);
                } else {
                    let children = plans_of(list_a, (depth - 1) as nat)->Done_0;
                    assert(c == ControlView::Group { children });
                    lemma_diff_list_renders_target(children, list_a, list_b, (depth - 1) as nat);
                }
            },
            _ => {},
        }
    }
}

/// Diffing the pairs from `i` on turns controls that render `b` before `i` and
/// `a` from `i` on into controls that render `b` over all pairs and `a` after them.
pub proof fn lemma_diff_pairs_render(
    cs: Seq<ControlView>,
    a: Seq<NodeView>,
    b: Seq<NodeView>,
    i: int,
    depth: nat,
)
    requires
        depth > 0,
        0 <= i <= a.len(),
        i <= b.len(),
        cs.len() == a.len(),
        forall|k: int| 0 <= k < i ==> #[trigger] plan_of(b[k], depth) == Outcome::Done(cs[k]),
        forall|k: int| i <= k < a.len() ==> #[trigger] plan_of(a[k], depth) == Outcome::Done(cs[k]),
        forall|k: int| 0 <= k < a.len() && k < b.len() ==> #[trigger] diff_consistent(a[k], b[k], depth),
        diff_pairs(cs, a, b, i, depth).1 is Done,
    ensures
        ({
            let r = diff_pairs(cs, a, b, i, depth).0;
            &&& r.len() == a.len()
            &&& forall|k: int| 0 <= k < a.len() && k < b.len() ==> #[trigger] plan_of(b[k], depth)
                == Outcome::Done(r[k])
            &&& forall|k: int| b.len() <= k < a.len() ==> #[trigger] plan_of(a[k], depth)
                == Outcome::Done(r[k])
        }),
    decreases depth, 1int, a.len() - i,
{
    if i < a.len() && i < b.len() {
        assert(diff_consistent(a[i], b[i], depth));
        assert(plan_of(a[i], depth) == Outcome::Done(cs[i]));
        let next = if empty_lists(a[i], b[i]) {
            assert(a[i]->Multi_0 =~= b[i]->Multi_0);
            cs
        } else {
            lemma_diff_renders_target(a[i], b[i], depth, cs[i]);
            cs.update(i, diff_of(cs[i], a[i], b[i], depth).0)
        };
        assert forall|k: int| 0 <= k < i + 1 implies #[trigger] plan_of(b[k], depth)
            == Outcome::Done(next[k]) by {
            if k < i {
                assert(plan_of(b[k], depth) == Outcome::Done(cs[k]));
            }
        }
        assert forall|k: int| i + 1 <= k < a.len() implies #[trigger] plan_of(a[k], depth)
            == Outcome::Done(next[k]) by {
            assert(plan_of(a[k], depth) == Outcome::Done(cs[k]));
        }
        lemma_diff_pairs_render(next, a, b, i + 1, depth);
    }
}

/// A list diff that goes through turns the controls rendered for the list `a`
/// into those rendered for the list `b`, where the lists pair off consistently.
pub proof fn lemma_diff_list_renders_target(
    controls: Seq<ControlView>,
    a: Seq<NodeView>,
    b: Seq<NodeView>,
    depth: nat,
)
    requires
        plans_of(a, depth) == Outcome::Done(controls),
        lists_consistent(a, b, depth),
        diff_list_of(controls, a, b, depth).1 is Done,
    ensures
        plans_of(b, depth) == Outcome::Done(diff_list_of(controls, a, b, depth).0),
    decreases depth, 2int, 0int,
{
    lemma_plans_pointwise(a, controls, depth);
    lemma_lists_consistent_at(a, b, depth);
    let n = if a.len() < b.len() {
        a.len()
    } else {
        b.len()
    };
    lemma_diff_pairs_render(controls, a, b, 0, depth);
    let after = diff_pairs(controls, a, b, 0, depth).0;
    let acc = if after.len() > n {
        after.take(n as int)
    } else {
        after
    };
    assert forall|j: int| 0 <= j < n implies #[trigger] plan_of(b[j], depth) == Outcome::Done(
        acc[j],
    ) by {
        assert(plan_of(b[j], depth) == Outcome::Done(after[j]));
    }
    lemma_append_plans_renders(acc, b, n as int, depth);
    lemma_plans_pointwise(b, diff_list_of(controls, a, b, depth).0, depth);
}

/// Which variant a node is.
pub open spec fn node_kind(node: NodeView) -> nat {
    match node {
        NodeView::Comment { .. } => 0,
        NodeView::HtmlElement { .. } => 1,
        NodeView::MathMlElement { .. } => 2,
        NodeView::SvgElement { .. } => 3,
        NodeView::Memoized { .. } => 4,
        NodeView::Multi(..) => 5,
        NodeView::Keyed(..) => 6,
        NodeView::Text { .. } => 7,
        NodeView::RemnantSite => 8,
    }
}

/// Memoized nodes with different state keys diff their contents one level
/// deeper, from the same controls.
pub proof fn lemma_diff_memoized(
    controls: ControlView,
    key_a: u64,
    content_a: NodeView,
    key_b: u64,
    content_b: NodeView,
    depth: nat,
)
    requires
        depth > 0,
        key_a != key_b,
    ensures
        diff_of(
            controls,
            NodeView::Memoized { state_key: key_a, content: Box::new(content_a) },
            NodeView::Memoized { state_key: key_b, content: Box::new(content_b) },
            depth,
        ) == diff_of(controls, content_a, content_b, (depth - 1) as nat),
{
}

/// Nodes of different kinds are rebuilt from `b` at the same depth; where that
/// stops short the controls stay.
pub proof fn lemma_diff_kinds_differ(controls: ControlView, a: NodeView, b: NodeView, depth: nat)
    requires
        depth > 0,
        node_kind(a) != node_kind(b),
    ensures
        diff_of(controls, a, b, depth) == match plan_of(b, depth) {
            Outcome::Done(c) => (c, Outcome::Done(true)),
            Outcome::TooDeep => (controls, Outcome::TooDeep),
            Outcome::Unsupported => (controls, Outcome::Unsupported),
        },
{
}

/// A diff that stops short leaves the controls as they were.
pub proof fn lemma_diff_error_keeps(controls: ControlView, a: NodeView, b: NodeView, depth: nat)
    requires
        !(diff_of(controls, a, b, depth).1 is Done),
    ensures
        diff_of(controls, a, b, depth).0 == controls,
    decreases depth,
{
    if depth > 0 {
        if let (
            NodeView::Memoized { state_key: key_a, content: content_a },
            NodeView::Memoized { state_key: key_b, content: content_b },
        ) = (a, b) {
            if key_a != key_b {
                lemma_diff_error_keeps(controls, *content_a, *content_b, (depth - 1) as nat);
            }
        }
    }
}

/// A diff that reports the controls not rebuilt leaves them as they were.
pub proof fn lemma_diff_unrebuilt_keeps(controls: ControlView, a: NodeView, b: NodeView, depth: nat)
    requires
        diff_of(controls, a, b, depth).1 == Outcome::Done(false),
    ensures
        diff_of(controls, a, b, depth).0 == controls,
    decreases depth,
{
    if depth > 0 {
        if let (
            NodeView::Memoized { state_key: key_a, content: content_a },
            NodeView::Memoized { state_key: key_b, content: content_b },
        ) = (a, b) {
            if key_a != key_b {
                lemma_diff_unrebuilt_keeps(controls, *content_a, *content_b, (depth - 1) as nat);
            }
        }
    }
}

/// Comments, memoized nodes with the same state key and two empty lists keep
/// their controls and are not rebuilt.
pub proof fn lemma_diff_unchanged(controls: ControlView, a: NodeView, b: NodeView, depth: nat)
    requires
        depth > 0,
        (a is Comment && b is Comment) || (a matches NodeView::Memoized { state_key: ka, .. } && b matches NodeView::Memoized { state_key: kb, .. } && ka == kb) || empty_lists(a, b),
    ensures
        diff_of(controls, a, b, depth) == (controls, Outcome::<bool>::Done(false)),
{
}

/// A list renders as the group of the controls of its nodes, each one level deeper.
pub proof fn lemma_plan_multi(nodes: Seq<NodeView>, cs: Seq<ControlView>, depth: nat)
    requires
        depth > 0,
    ensures
        plan_of(NodeView::Multi(nodes), depth) == Outcome::Done(ControlView::Group { children: cs })
            <==> (cs.len() == nodes.len() && forall|i: int|
            0 <= i < nodes.len() ==> #[trigger] plan_of(nodes[i], (depth - 1) as nat)
                == Outcome::Done(cs[i])),
{
    lemma_plans_pointwise(nodes, cs, (depth - 1) as nat);
}

/// Diffing the pairs from `i` on changes each control at a pair's position as
/// diffing that pair alone would, and no other.
pub proof fn lemma_diff_pairs_pointwise(
    cs: Seq<ControlView>,
    a: Seq<NodeView>,
    b: Seq<NodeView>,
    i: int,
    depth: nat,
)
    requires
        0 <= i,
        diff_pairs(cs, a, b, i, depth).1 is Done,
    ensures
        ({
            let r = diff_pairs(cs, a, b, i, depth).0;
            &&& r.len() == cs.len()
            &&& forall|j: int| 0 <= j < cs.len() && !(i <= j < a.len() && j < b.len()) ==> #[trigger] r[j]
                == cs[j]
            &&& forall|j: int| i <= j < a.len() && j < b.len() && j < cs.len() ==> #[trigger] r[j] == if empty_lists(a[j], b[j]) {
                cs[j]
            } else {
                diff_of(cs[j], a[j], b[j], depth).0
            }
        }),
    decreases a.len() - i,
{
    if i < a.len() && i < b.len() && depth > 0 {
        if empty_lists(a[i], b[i]) {
            lemma_diff_pairs_pointwise(cs, a, b, i + 1, depth);
        } else {
            let next = cs.update(i, diff_of(cs[i], a[i], b[i], depth).0);
            lemma_diff_pairs_pointwise(next, a, b, i + 1, depth);
        }
    }
}

/// Appending keeps what it appends to and adds the controls of the rest of the nodes.
pub proof fn lemma_append_plans_pointwise(acc: Seq<ControlView>, nodes: Seq<NodeView>, k: int, depth: nat)
    requires
        0 <= k <= nodes.len(),
        acc.len() == k,
        append_plans(acc, nodes, k, depth).1 is Done,
    ensures
        ({
            let r = append_plans(acc, nodes, k, depth).0;
            &&& r.len() == nodes.len()
            &&& forall|j: int| 0 <= j < k ==> #[trigger] r[j] == acc[j]
            &&& forall|j: int| k <= j < nodes.len() ==> #[trigger] plan_of(nodes[j], depth)
                == Outcome::Done(r[j])
        }),
    decreases nodes.len() - k,
{
    if k < nodes.len() {
        let c = plan_of(nodes[k], depth)->Done_0;
        lemma_append_plans_pointwise(acc.push(c), nodes, k + 1, depth);
        let r = append_plans(acc, nodes, k, depth).0;
        assert forall|j: int| 0 <= j < k implies #[trigger] r[j] == acc[j] by {
            assert(acc.push(c)[j] == acc[j]);
        }
    }
}

/// A list diff that goes through, from at least as many controls as there are
/// pairs, leaves at each pair's position what diffing that pair alone leaves
/// (two empty lists keep theirs), and after the pairs the controls of the rest
/// of `b`.
pub proof fn lemma_diff_list_pointwise(
    cs: Seq<ControlView>,
    a: Seq<NodeView>,
    b: Seq<NodeView>,
    depth: nat,
)
    requires
        cs.len() >= a.len() || cs.len() >= b.len(),
        diff_list_of(cs, a, b, depth).1 is Done,
    ensures
        ({
            let r = diff_list_of(cs, a, b, depth).0;
            &&& r.len() == b.len()
            &&& forall|j: int| 0 <= j < a.len() && j < b.len() ==> #[trigger] r[j] == if empty_lists(a[j], b[j]) {
                cs[j]
            } else {
                diff_of(cs[j], a[j], b[j], depth).0
            }
            &&& forall|j: int| a.len() <= j < b.len() ==> #[trigger] plan_of(b[j], depth)
                == Outcome::Done(r[j])
        }),
{
    let n = if a.len() < b.len() {
        a.len()
    } else {
        b.len()
    };
    lemma_diff_pairs_pointwise(cs, a, b, 0, depth);
    let after = diff_pairs(cs, a, b, 0, depth).0;
    let acc = if after.len() > n {
        after.take(n as int)
    } else {
        after
    };
    lemma_append_plans_pointwise(acc, b, n as int, depth);
    let r = diff_list_of(cs, a, b, depth).0;
    assert forall|j: int| 0 <= j < a.len() && j < b.len() implies #[trigger] r[j] == if empty_lists(
        a[j],
        b[j],
    ) {
        cs[j]
    } else {
        diff_of(cs[j], a[j], b[j], depth).0
    } by {
        assert(r[j] == acc[j]);
        assert(acc[j] == after[j]);
    }
}

/// Brings `controls`, rendered for `vdom_a`, up to date with `vdom_b`; tells
/// whether they were rebuilt.
pub fn diff_splice_node(
    controls: &mut Control,
    vdom_a: &VNode,
    vdom_b: &VNode,
    depth_limit: usize,
) -> (r: Result<bool, LayoutError>)
    requires
        !(diff_of(old(controls)@, vdom_a@, vdom_b@, depth_limit as nat).1 is Unsupported),
    ensures
        final(controls)@ == diff_of(old(controls)@, vdom_a@, vdom_b@, depth_limit as nat).0,
        diff_of(old(controls)@, vdom_a@, vdom_b@, depth_limit as nat).1 matches Outcome::Done(
            rebuilt,
        ) ==> r == Ok::<bool, LayoutError>(rebuilt),
        diff_of(old(controls)@, vdom_a@, vdom_b@, depth_limit as nat).1 is TooDeep ==> r is Err,
        r is Err ==> final(controls)@ == old(controls)@,
        plan_of(vdom_a@, depth_limit as nat) == Outcome::Done(old(controls)@) && diff_consistent(
            vdom_a@,
            vdom_b@,
            depth_limit as nat,
        ) && r is Ok ==> plan_of(vdom_b@, depth_limit as nat) == Outcome::Done(final(controls)@),
    decreases depth_limit, 0nat,
{
    proof {
        if plan_of(vdom_a@, depth_limit as nat) == Outcome::Done(old(controls)@) && diff_consistent(
            vdom_a@,
            vdom_b@,
            depth_limit as nat,
        ) && diff_of(old(controls)@, vdom_a@, vdom_b@, depth_limit as nat).1 is Done {
            lemma_diff_renders_target(vdom_a@, vdom_b@, depth_limit as nat, old(controls)@);
        }
    }
    if depth_limit == 0 {
        return Err(LayoutError::DepthLimitExceeded);
    }
    match (vdom_a, vdom_b) {
        (VNode::Comment { .. }, VNode::Comment { .. }) => Ok(false),
        (
            VNode::Memoized { state_key: key_a, content: content_a },
            VNode::Memoized { state_key: key_b, content: content_b },
        ) => {
            assert(diff_of(old(controls)@, vdom_a@, vdom_b@, depth_limit as nat) == if *key_a
                != *key_b {
                diff_of(old(controls)@, content_a@, content_b@, (depth_limit - 1) as nat)
            } else {
                (old(controls)@, Outcome::Done(false))
            });
            if *key_a != *key_b {
                diff_splice_node(controls, content_a, content_b, depth_limit - 1)
            } else {
                Ok(false)
            }
        },
        (VNode::Multi(list_a), VNode::Multi(list_b)) => {
            proof {
                lemma_multi_view(*list_a);
                lemma_multi_view(*list_b);
            }
            if list_a.len() == 0 && list_b.len() == 0 {
                return Ok(false);
            }
            let kept = controls.duplicate();
            let mut taken = Control::Empty;
            std::mem::swap(&mut taken, controls);
            match taken {
                Control::Group { children } => {
                    proof {
                        lemma_group_view(children);
                    }
                    let mut children = children;
                    let res = diff_splice_node_list(
                        &mut children,
                        list_a.as_slice(),
                        list_b.as_slice(),
                        depth_limit - 1,
                    );
                    proof {
                        lemma_group_view(children);
                    }
                    match res {
                        Ok(()) => {
                            *controls = Control::Group { children };
                            Ok(true)
                        },
                        Err(e) => {
                            *controls = kept;
                            Err(e)
                        },
                    }
                },
                _ => {
                    proof {
                        if let Control::Group { children } = *old(controls) {
                            lemma_group_view(children);
                        }
                    }
                    vstd::pervasive::unreached()
                },
            }
        },
        (VNode::HtmlElement { .. }, VNode::HtmlElement { .. })
        | (VNode::MathMlElement { .. }, VNode::MathMlElement { .. })
        | (VNode::SvgElement { .. }, VNode::SvgElement { .. })
        | (VNode::Keyed(..), VNode::Keyed(..))
        | (VNode::Text { .. }, VNode::Text { .. })
        | (VNode::RemnantSite, VNode::RemnantSite) => vstd::pervasive::unreached(),
        (_, b) => match insert_node(b, depth_limit) {
            Ok(c) => {
                *controls = c;
                Ok(true)
            },
            Err(e) => Err(e),
        },
    }
}

/// Brings `controls`, rendered for the list `vdom_a`, up to date with the list
/// `vdom_b`. On an error the controls are left as far as the diff had come.
pub fn diff_splice_node_list(
    controls: &mut Vec<Control>,
    vdom_a: &[VNode],
    vdom_b: &[VNode],
    depth_limit: usize,
) -> (r: Result<(), LayoutError>)
    requires
        !(diff_list_of(
            controls_view(old(controls)@),
            nodes_view(vdom_a@),
            nodes_view(vdom_b@),
            depth_limit as nat,
        ).1 is Unsupported),
    ensures
        ({
            let (after, outcome) = diff_list_of(
                controls_view(old(controls)@),
                nodes_view(vdom_a@),
                nodes_view(vdom_b@),
                depth_limit as nat,
            );
            &&& controls_view(final(controls)@) == after
            &&& (r is Ok <==> outcome is Done)
        }),
        plans_of(nodes_view(vdom_a@), depth_limit as nat) == Outcome::Done(
            controls_view(old(controls)@),
        ) && lists_consistent(nodes_view(vdom_a@), nodes_view(vdom_b@), depth_limit as nat) && r is Ok
            ==> plans_of(nodes_view(vdom_b@), depth_limit as nat) == Outcome::Done(
            controls_view(final(controls)@),
        ),
    decreases depth_limit, 1nat,
{
    if depth_limit == 0 {
        return Err(LayoutError::DepthLimitExceeded);
    }
    let ghost a = nodes_view(vdom_a@);
    let ghost b = nodes_view(vdom_b@);
    let ghost depth = depth_limit as nat;
    let ghost whole = diff_list_of(controls_view(controls@), a, b, depth);
    let ghost total = diff_pairs(controls_view(controls@), a, b, 0, depth);
    let mut i: usize = 0;
    while i < vdom_a.len() && i < vdom_b.len()
        invariant
            depth_limit > 0,
            depth == depth_limit as nat,
            a == nodes_view(vdom_a@),
            b == nodes_view(vdom_b@),
            i <= vdom_a.len(),
            i <= vdom_b.len(),
            total == diff_pairs(controls_view(controls@), a, b, i as int, depth),
            !(whole.1 is Unsupported),
            whole == diff_list_of(controls_view(old(controls)@), a, b, depth),
            whole == match total.1 {
                Outcome::Done(()) => append_plans(
                    if total.0.len() > (if a.len() < b.len() { a.len() } else { b.len() }) {
                        total.0.take((if a.len() < b.len() { a.len() } else { b.len() }) as int)
                    } else {
                        total.0
                    },
                    b,
                    (if a.len() < b.len() { a.len() } else { b.len() }) as int,
                    depth,
                ),
                _ => total,
            },
        decreases vdom_a.len() - i,
    {
        let ghost before_vec = controls@;
        let ghost before = controls_view(controls@);
        assert(a[i as int] == vdom_a@[i as int]@);
        assert(b[i as int] == vdom_b@[i as int]@);
        let skip = match (&vdom_a[i], &vdom_b[i]) {
            (VNode::Multi(list_a), VNode::Multi(list_b)) => {
                proof {
                    lemma_multi_view(*list_a);
                    lemma_multi_view(*list_b);
                }
                list_a.len() == 0 && list_b.len() == 0
            },
            _ => false,
        };
        assert(skip == empty_lists(a[i as int], b[i as int]));
        if !skip {
            let res = diff_splice_node(&mut controls[i], &vdom_a[i], &vdom_b[i], depth_limit);
            proof {
                lemma_controls_view_update(before_vec, i as int, controls@[i as int]);
                assert(controls@ == before_vec.update(i as int, controls@[i as int]));
            }
            if let Err(e) = res {
                return Err(e);
            }
        }
        i = i + 1;
    }
    let ghost n = if a.len() < b.len() {
        a.len()
    } else {
        b.len()
    };
    assert(i == n);
    controls.truncate(i);
    assert(controls_view(controls@) =~= if total.0.len() > n {
        total.0.take(n as int)
    } else {
        total.0
    });
    let ghost rest = append_plans(controls_view(controls@), b, i as int, depth);
    let mut j: usize = i;
    while j < vdom_b.len()
        invariant
            depth == depth_limit as nat,
            b == nodes_view(vdom_b@),
            i <= j <= vdom_b.len(),
            rest == append_plans(controls_view(controls@), b, j as int, depth),
            !(rest.1 is Unsupported),
            whole == rest,
            whole == diff_list_of(controls_view(old(controls)@), nodes_view(vdom_a@), b, depth),
        decreases vdom_b.len() - j,
    {
        assert(b[j as int] == vdom_b@[j as int]@);
        let ghost before = controls@;
        match insert_node(&vdom_b[j], depth_limit) {
            Ok(c) => {
                controls.push(c);
                assert(controls_view(controls@) =~= controls_view(before).push(c@));
            },
            Err(e) => {
                assert(rest == (controls_view(controls@), Outcome::<()>::TooDeep));
                return Err(e);
            },
        }
        j = j + 1;
    }
    proof {
        if plans_of(a, depth) == Outcome::Done(controls_view(old(controls)@)) && lists_consistent(
            a,
            b,
            depth,
        ) {
            lemma_diff_list_renders_target(controls_view(old(controls)@), a, b, depth);
        }
    }
    Ok(())
}

} // verus!
