//! The native controls that stand for a virtual DOM tree, and how a tree is
//! rendered into them.
use crate::vdom::{ElementView, NodeView};
use vstd::prelude::*;

verus! {

/// Rendering gave up because the tree nests deeper than the depth limit allows.
#[derive(Debug, PartialEq, Eq, Structural)]
pub enum LayoutError {
    DepthLimitExceeded,
}

/// A control, or a group of them, as the renderer creates it for a node.
#[derive(Debug, PartialEq, Eq)]
pub enum Control {
    /// Nothing is shown (a comment).
    Empty,
    /// A plain text label.
    Label { text: String },
    /// A link: a label showing `text` that opens each of `targets` when clicked
    /// and shows it as a tooltip.
    Link { text: String, targets: Vec<String> },
    /// The controls of a sequence of nodes, in order.
    Group { children: Vec<Control> },
}

/// The view of a control.
pub enum ControlView {
    Empty,
    Label { text: Seq<char> },
    Link { text: Seq<char>, targets: Seq<Seq<char>> },
    Group { children: Seq<ControlView> },
}

impl Control {
    pub open spec fn view_control(self) -> ControlView
        decreases self,
    {
        match self {
            Control::Empty => ControlView::Empty,
            Control::Label { text } => ControlView::Label { text: text@ },
            Control::Link { text, targets } => ControlView::Link {
                text: text@,
                targets: targets@.map_values(|t: String| t@),
            },
            Control::Group { children } => ControlView::Group {
                children: Seq::new(
                    children.len() as nat,
                    |i: int|
                        if 0 <= i < children.len() {
                            children@[i].view_control()
                        } else {
                            ControlView::Empty
                        },
                ),
            },
        }
    }
}

impl Control {
    /// A copy of the controls.
    pub fn duplicate(&self) -> (r: Control)
        ensures
            r@ == self@,
        decreases self,
    {
        match self {
            Control::Empty => Control::Empty,
            Control::Label { text } => Control::Label { text: text.clone() },
            Control::Link { text, targets } => {
                let mut copies: Vec<String> = Vec::new();
                let mut i: usize = 0;
                while i < targets.len()
                    invariant
                        i <= targets.len(),
                        copies@ == targets@.take(i as int),
                    decreases targets.len() - i,
                {
                    copies.push(targets[i].clone());
                    assert(targets@.take(i + 1) =~= targets@.take(i as int).push(targets@[i as int]));
                    i = i + 1;
                }
                assert(targets@.take(i as int) =~= targets@);
                Control::Link { text: text.clone(), targets: copies }
            },
            Control::Group { children } => {
                let mut copies: Vec<Control> = Vec::new();
                let mut i: usize = 0;
                while i < children.len()
                    invariant
                        *self == (Control::Group { children: *children }),
                        i <= children.len(),
                        copies.len() == i,
                        forall|j: int| 0 <= j < i ==> #[trigger] copies@[j]@ == children@[j]@,
                    decreases children.len() - i,
                {
                    proof {
                        assert(decreases_to!(children => children@));
                        assert(decreases_to!(children@ => children@[i as int]));
                        assert(decreases_to!(*self => self->children));
                        assert(decreases_to!(*self => children@[i as int]));
                    }
                    copies.push(children[i].duplicate());
                    i = i + 1;
                }
                proof {
                    lemma_group_view(*children);
                    lemma_group_view(copies);
                    assert(controls_view(copies@) =~= controls_view(children@));
                }
                Control::Group { children: copies }
            },
        }
    }
}

impl View for Control {
    type V = ControlView;

    open spec fn view(&self) -> ControlView {
        self.view_control()
    }
}

/// The views of a sequence of controls.
pub open spec fn controls_view(s: Seq<Control>) -> Seq<ControlView> {
    Seq::new(s.len(), |i: int| s[i]@)
}

/// The view of a group is the sequence of the views of its controls.
pub proof fn lemma_group_view(children: Vec<Control>)
    ensures
        (Control::Group { children })@ == (ControlView::Group { children: controls_view(children@) }),
{
    if let ControlView::Group { children: cs } = (Control::Group { children })@ {
        assert(cs =~= controls_view(children@));
    }
}

/// Replacing one control replaces its view.
pub proof fn lemma_controls_view_update(s: Seq<Control>, i: int, c: Control)
    requires
        0 <= i < s.len(),
    ensures
        controls_view(s.update(i, c)) == controls_view(s).update(i, c@),
{
    assert(controls_view(s.update(i, c)) =~= controls_view(s).update(i, c@));
}

/// What rendering a node comes to: a result, or the two ways it stops short.
pub enum Outcome<T> {
    Done(T),
    /// The depth limit was reached.
    TooDeep,
    /// Rendering cannot go on with what it met: something it has no support
    /// for, or controls that do not fit the tree. The functions that render and
    /// diff leave such inputs out by their preconditions.
    Unsupported,
}

/// What an element's summary in a text reads: `<`, its name, a space, an ellipsis, `>`.
pub open spec fn element_summary(name: Seq<char>) -> Seq<char> {
    seq!['<'] + name + seq![' ', '\u{2026}', '>']
}

/// The text that a node shows, with `depth` levels of nesting allowed.
pub open spec fn text_of(node: NodeView, depth: nat) -> Outcome<Seq<char>>
    decreases depth, 0nat, 0nat,
{
    if depth == 0 {
        Outcome::TooDeep
    } else {
        match node {
            NodeView::Comment { .. } => Outcome::Done(Seq::empty()),
            NodeView::HtmlElement { element } => Outcome::Done(element_summary(element.name)),
            NodeView::MathMlElement { element } => Outcome::Done(element_summary(element.name)),
            NodeView::SvgElement { element } => Outcome::Done(element_summary(element.name)),
            NodeView::Memoized { content, .. } => text_of(*content, (depth - 1) as nat),
            NodeView::Multi(children) => texts_of(children, (depth - 1) as nat),
            NodeView::Keyed(fragments) => texts_of(
                fragments.map_values(|f: (u32, NodeView)| f.1),
                (depth - 1) as nat,
            ),
            NodeView::Text { text } => Outcome::Done(text),
            NodeView::RemnantSite => Outcome::Unsupported,
        }
    }
}

/// The texts of a sequence of nodes, joined in order; the first node that
/// stops short decides the outcome.
pub open spec fn texts_of(nodes: Seq<NodeView>, depth: nat) -> Outcome<Seq<char>>
    decreases depth, 1nat, nodes.len(),
{
    if nodes.len() == 0 {
        Outcome::Done(Seq::empty())
    } else {
        match texts_of(nodes.drop_last(), depth) {
            Outcome::Done(t) => match text_of(nodes.last(), depth) {
                Outcome::Done(u) => Outcome::Done(t + u),
                Outcome::TooDeep => Outcome::TooDeep,
                Outcome::Unsupported => Outcome::Unsupported,
            },
            Outcome::TooDeep => Outcome::TooDeep,
            Outcome::Unsupported => Outcome::Unsupported,
        }
    }
}

/// Whether a tag name is that of a link: its ASCII uppercase is `A`.
pub open spec fn is_link_name(name: Seq<char>) -> bool {
    name == seq!['a'] || name == seq!['A']
}

/// The name of the link target attribute.
pub open spec fn href_name() -> Seq<char> {
    seq!['h', 'r', 'e', 'f']
}

/// Whether every attribute is a link target.
pub open spec fn all_hrefs(attributes: Seq<(Seq<char>, Seq<char>)>) -> bool {
    forall|i: int| 0 <= i < attributes.len() ==> #[trigger] attributes[i].0 == href_name()
}

/// The control that an element renders to. Only links are supported, and on a
/// link only link targets.
pub open spec fn plan_element(element: ElementView, depth: nat) -> Outcome<ControlView> {
    if !is_link_name(element.name) {
        Outcome::Unsupported
    } else {
        match text_of(*element.content, depth) {
            Outcome::Done(text) => if all_hrefs(element.attributes) {
                Outcome::Done(
                    ControlView::Link {
                        text,
                        targets: element.attributes.map_values(|a: (Seq<char>, Seq<char>)| a.1),
                    },
                )
            } else {
                Outcome::Unsupported
            },
            Outcome::TooDeep => Outcome::TooDeep,
            Outcome::Unsupported => Outcome::Unsupported,
        }
    }
}

/// The controls that a node renders to, with `depth` levels of nesting allowed.
pub open spec fn plan_of(node: NodeView, depth: nat) -> Outcome<ControlView>
    decreases depth, 0nat, 0nat,
{
    if depth == 0 {
        Outcome::TooDeep
    } else {
        match node {
            NodeView::Comment { .. } => Outcome::Done(ControlView::Empty),
            NodeView::HtmlElement { element } => plan_element(element, depth),
            NodeView::MathMlElement { .. } => Outcome::Unsupported,
            NodeView::SvgElement { .. } => Outcome::Unsupported,
            NodeView::Memoized { content, .. } => plan_of(*content, (depth - 1) as nat),
            NodeView::Multi(children) => match plans_of(children, (depth - 1) as nat) {
                Outcome::Done(cs) => Outcome::Done(ControlView::Group { children: cs }),
                Outcome::TooDeep => Outcome::TooDeep,
                Outcome::Unsupported => Outcome::Unsupported,
            },
            NodeView::Keyed(..) => Outcome::Unsupported,
            NodeView::Text { text } => Outcome::Done(ControlView::Label { text }),
            NodeView::RemnantSite => Outcome::Unsupported,
        }
    }
}

/// The controls of a sequence of nodes, in order; the first node that stops
/// short decides the outcome.
pub open spec fn plans_of(nodes: Seq<NodeView>, depth: nat) -> Outcome<Seq<ControlView>>
    decreases depth, 1nat, nodes.len(),
{
    if nodes.len() == 0 {
        Outcome::Done(Seq::empty())
    } else {
        match plans_of(nodes.drop_last(), depth) {
            Outcome::Done(cs) => match plan_of(nodes.last(), depth) {
                Outcome::Done(c) => Outcome::Done(cs.push(c)),
                Outcome::TooDeep => Outcome::TooDeep,
                Outcome::Unsupported => Outcome::Unsupported,
            },
            Outcome::TooDeep => Outcome::TooDeep,
            Outcome::Unsupported => Outcome::Unsupported,
        }
    }
}

/// Once a prefix of the nodes stops short, the whole sequence stops the same way.
pub proof fn lemma_texts_prefix_stops(nodes: Seq<NodeView>, i: int, depth: nat)
    requires
        0 <= i <= nodes.len(),
        !(texts_of(nodes.take(i), depth) is Done),
    ensures
        texts_of(nodes, depth) == texts_of(nodes.take(i), depth),
    decreases nodes.len(),
{
    if i == nodes.len() {
        assert(nodes.take(i) =~= nodes);
    } else {
        assert(nodes.drop_last().take(i) =~= nodes.take(i));
        lemma_texts_prefix_stops(nodes.drop_last(), i, depth);
    }
}

/// Once a prefix of the nodes stops short, the whole sequence stops the same way.
pub proof fn lemma_plans_prefix_stops(nodes: Seq<NodeView>, i: int, depth: nat)
    requires
        0 <= i <= nodes.len(),
        !(plans_of(nodes.take(i), depth) is Done),
    ensures
        plans_of(nodes, depth) == plans_of(nodes.take(i), depth),
    decreases nodes.len(),
{
    if i == nodes.len() {
        assert(nodes.take(i) =~= nodes);
    } else {
        assert(nodes.drop_last().take(i) =~= nodes.take(i));
        lemma_plans_prefix_stops(nodes.drop_last(), i, depth);
    }
}

/// Raising the depth limit keeps the text of a node that was gathered in full.
pub proof fn lemma_text_depth(node: NodeView, depth: nat, more: nat)
    requires
        text_of(node, depth) is Done,
        depth <= more,
    ensures
        text_of(node, more) == text_of(node, depth),
    decreases depth, 0nat, 0nat,
{
    match node {
        NodeView::Memoized { content, .. } => {
            lemma_text_depth(*content, (depth - 1) as nat, (more - 1) as nat);
        },
        NodeView::Multi(children) => {
            lemma_texts_depth(children, (depth - 1) as nat, (more - 1) as nat);
        },
        NodeView::Keyed(fragments) => {
            lemma_texts_depth(
                fragments.map_values(|f: (u32, NodeView)| f.1),
                (depth - 1) as nat,
                (more - 1) as nat,
            );
        },
        _ => {},
    }
}

/// Raising the depth limit keeps the text of a sequence that was gathered in full.
pub proof fn lemma_texts_depth(nodes: Seq<NodeView>, depth: nat, more: nat)
    requires
        texts_of(nodes, depth) is Done,
        depth <= more,
    ensures
        texts_of(nodes, more) == texts_of(nodes, depth),
    decreases depth, 1nat, nodes.len(),
{
    if nodes.len() > 0 {
        lemma_texts_depth(nodes.drop_last(), depth, more);
        lemma_text_depth(nodes.last(), depth, more);
    }
}

/// Raising the depth limit keeps the controls of a node that was rendered in full.
pub proof fn lemma_plan_depth(node: NodeView, depth: nat, more: nat)
    requires
        plan_of(node, depth) is Done,
        depth <= more,
    ensures
        plan_of(node, more) == plan_of(node, depth),
    decreases depth, 0nat, 0nat,
{
    match node {
        NodeView::HtmlElement { element } => {
            lemma_text_depth(*element.content, depth, more);
        },
        NodeView::Memoized { content, .. } => {
            lemma_plan_depth(*content, (depth - 1) as nat, (more - 1) as nat);
        },
        NodeView::Multi(children) => {
            lemma_plans_depth(children, (depth - 1) as nat, (more - 1) as nat);
        },
        _ => {},
    }
}

/// Raising the depth limit keeps the controls of a sequence that was rendered in full.
pub proof fn lemma_plans_depth(nodes: Seq<NodeView>, depth: nat, more: nat)
    requires
        plans_of(nodes, depth) is Done,
        depth <= more,
    ensures
        plans_of(nodes, more) == plans_of(nodes, depth),
    decreases depth, 1nat, nodes.len(),
{
    if nodes.len() > 0 {
        lemma_plans_depth(nodes.drop_last(), depth, more);
        lemma_plan_depth(nodes.last(), depth, more);
    }
}

/// A memoized node renders as its content one level deeper, whatever its key.
pub proof fn lemma_plan_memoized(state_key: u64, content: NodeView, depth: nat)
    requires
        depth > 0,
    ensures
        plan_of(NodeView::Memoized { state_key, content: Box::new(content) }, depth) == plan_of(
            content,
            (depth - 1) as nat,
        ),
{
}

/// An HTML element renders as `plan_element` describes, at the same depth.
pub proof fn lemma_plan_html(element: ElementView, depth: nat)
    requires
        depth > 0,
    ensures
        plan_of(NodeView::HtmlElement { element }, depth) == plan_element(element, depth),
{
}

/// The first node of a sequence that does not render decides how rendering
/// the sequence stops; every node before it renders.
pub proof fn lemma_plans_first_stop(nodes: Seq<NodeView>, depth: nat)
    requires
        !(plans_of(nodes, depth) is Done),
    ensures
        exists|i: int|
            0 <= i < nodes.len() && (forall|j: int| 0 <= j < i ==> #[trigger] plan_of(nodes[j], depth) is Done)
                && !(plan_of(nodes[i], depth) is Done) && (plans_of(nodes, depth) is TooDeep <==> #[trigger] plan_of(
                nodes[i],
                depth,
            ) is TooDeep),
    decreases nodes.len(),
{
    let init = nodes.drop_last();
    if plans_of(init, depth) is Done {
        let i = nodes.len() - 1;
        assert forall|j: int| 0 <= j < i implies #[trigger] plan_of(nodes[j], depth) is Done by {
            lemma_plans_done_at(init, depth, j);
            assert(init[j] == nodes[j]);
        }
        assert(plan_of(nodes[i], depth) is TooDeep <==> plans_of(nodes, depth) is TooDeep);
    } else {
        lemma_plans_first_stop(init, depth);
        let i = choose|i: int|
            0 <= i < init.len() && (forall|j: int| 0 <= j < i ==> #[trigger] plan_of(init[j], depth) is Done)
                && !(plan_of(init[i], depth) is Done) && (plans_of(init, depth) is TooDeep <==> #[trigger] plan_of(
                init[i],
                depth,
            ) is TooDeep);
        assert forall|j: int| 0 <= j < i implies #[trigger] plan_of(nodes[j], depth) is Done by {
            assert(init[j] == nodes[j]);
            assert(plan_of(init[j], depth) is Done);
        }
        assert(init[i] == nodes[i]);
    }
}

/// Every node of a sequence that renders in full renders.
pub proof fn lemma_plans_done_at(nodes: Seq<NodeView>, depth: nat, j: int)
    requires
        plans_of(nodes, depth) is Done,
        0 <= j < nodes.len(),
    ensures
        plan_of(nodes[j], depth) is Done,
    decreases nodes.len(),
{
    if j < nodes.len() - 1 {
        lemma_plans_done_at(nodes.drop_last(), depth, j);
        assert(nodes.drop_last()[j] == nodes[j]);
    }
}

/// The texts of a sequence joined in order, last to first.
pub open spec fn joined(texts: Seq<Seq<char>>) -> Seq<char>
    decreases texts.len(),
{
    if texts.len() == 0 {
        Seq::empty()
    } else {
        joined(texts.drop_last()) + texts.last()
    }
}

/// Where every node of a sequence shows its text, the sequence shows them all,
/// joined in order.
pub proof fn lemma_texts_joined(nodes: Seq<NodeView>, texts: Seq<Seq<char>>, depth: nat)
    requires
        texts.len() == nodes.len(),
        forall|i: int| 0 <= i < nodes.len() ==> #[trigger] text_of(nodes[i], depth) == Outcome::Done(
            texts[i],
        ),
    ensures
        texts_of(nodes, depth) == Outcome::Done(joined(texts)),
    decreases nodes.len(),
{
    if nodes.len() > 0 {
        assert forall|i: int| 0 <= i < nodes.len() - 1 implies #[trigger] text_of(
            nodes.drop_last()[i],
            depth,
        ) == Outcome::Done(texts.drop_last()[i]) by {
            assert(text_of(nodes[i], depth) == Outcome::Done(texts[i]));
        }
        lemma_texts_joined(nodes.drop_last(), texts.drop_last(), depth);
        assert(text_of(nodes[nodes.len() - 1], depth) == Outcome::Done(texts[texts.len() - 1]));
    }
}

/// The first node of a sequence whose text is not gathered decides how
/// gathering the sequence stops; every node before it shows its text.
pub proof fn lemma_texts_first_stop(nodes: Seq<NodeView>, depth: nat)
    requires
        !(texts_of(nodes, depth) is Done),
    ensures
        exists|i: int|
            0 <= i < nodes.len() && (forall|j: int| 0 <= j < i ==> #[trigger] text_of(nodes[j], depth) is Done)
                && !(text_of(nodes[i], depth) is Done) && (texts_of(nodes, depth) is TooDeep <==> #[trigger] text_of(
                nodes[i],
                depth,
            ) is TooDeep),
    decreases nodes.len(),
{
    let init = nodes.drop_last();
    if texts_of(init, depth) is Done {
        let i = nodes.len() - 1;
        assert forall|j: int| 0 <= j < i implies #[trigger] text_of(nodes[j], depth) is Done by {
            lemma_texts_done_at(init, depth, j);
            assert(init[j] == nodes[j]);
        }
        assert(text_of(nodes[i], depth) is TooDeep <==> texts_of(nodes, depth) is TooDeep);
    } else {
        lemma_texts_first_stop(init, depth);
        let i = choose|i: int|
            0 <= i < init.len() && (forall|j: int| 0 <= j < i ==> #[trigger] text_of(init[j], depth) is Done)
                && !(text_of(init[i], depth) is Done) && (texts_of(init, depth) is TooDeep <==> #[trigger] text_of(
                init[i],
                depth,
            ) is TooDeep);
        assert forall|j: int| 0 <= j < i implies #[trigger] text_of(nodes[j], depth) is Done by {
            assert(init[j] == nodes[j]);
            assert(text_of(init[j], depth) is Done);
        }
        assert(init[i] == nodes[i]);
    }
}

/// Every node of a sequence whose text is gathered in full shows its text.
pub proof fn lemma_texts_done_at(nodes: Seq<NodeView>, depth: nat, j: int)
    requires
        texts_of(nodes, depth) is Done,
        0 <= j < nodes.len(),
    ensures
        text_of(nodes[j], depth) is Done,
    decreases nodes.len(),
{
    if j < nodes.len() - 1 {
        lemma_texts_done_at(nodes.drop_last(), depth, j);
        assert(nodes.drop_last()[j] == nodes[j]);
    }
}


/// Joining texts in order is flattening them.
pub proof fn lemma_joined_flatten(texts: Seq<Seq<char>>)
    ensures
        joined(texts) == texts.flatten(),
{
    assert(joined(texts) == texts.flatten_alt()) by {
        lemma_joined_flatten_alt(texts);
    }
    texts.lemma_flatten_and_flatten_alt_are_equivalent();
}

proof fn lemma_joined_flatten_alt(texts: Seq<Seq<char>>)
    ensures
        joined(texts) == texts.flatten_alt(),
    decreases texts.len(),
{
    if texts.len() > 0 {
        lemma_joined_flatten_alt(texts.drop_last());
    }
}

/// Where the nodes before `i` all show their text and node `i` does not, the
/// sequence stops as node `i` does.
pub proof fn lemma_texts_stop_at(nodes: Seq<NodeView>, i: int, depth: nat)
    requires
        0 <= i < nodes.len(),
        forall|j: int| 0 <= j < i ==> #[trigger] text_of(nodes[j], depth) is Done,
        !(text_of(nodes[i], depth) is Done),
    ensures
        texts_of(nodes, depth) == text_of(nodes[i], depth),
    decreases nodes.len(),
{
    let init = nodes.drop_last();
    if i == nodes.len() - 1 {
        let texts = Seq::new(init.len(), |j: int| text_of(init[j], depth)->Done_0);
        assert forall|j: int| 0 <= j < init.len() implies #[trigger] text_of(init[j], depth)
            == Outcome::Done(texts[j]) by {
            assert(init[j] == nodes[j]);
            assert(text_of(nodes[j], depth) is Done);
        }
        lemma_texts_joined(init, texts, depth);
    } else {
        assert forall|j: int| 0 <= j < i implies #[trigger] text_of(init[j], depth) is Done by {
            assert(init[j] == nodes[j]);
            assert(text_of(nodes[j], depth) is Done);
        }
        assert(init[i] == nodes[i]);
        lemma_texts_stop_at(init, i, depth);
    }
}

/// A keyed list shows the texts of all its fragments' contents, one level
/// deeper, joined in order.
pub proof fn lemma_text_keyed(fragments: Seq<(u32, NodeView)>, texts: Seq<Seq<char>>, depth: nat)
    requires
        depth > 0,
        texts.len() == fragments.len(),
        forall|i: int| 0 <= i < fragments.len() ==> #[trigger] text_of(fragments[i].1, (depth - 1) as nat)
            == Outcome::Done(texts[i]),
    ensures
        text_of(NodeView::Keyed(fragments), depth) == Outcome::Done(texts.flatten()),
{
    let nodes = fragments.map_values(|f: (u32, NodeView)| f.1);
    assert forall|i: int| 0 <= i < nodes.len() implies #[trigger] text_of(nodes[i], (depth - 1) as nat)
        == Outcome::Done(texts[i]) by {
        assert(nodes[i] == fragments[i].1);
    }
    lemma_texts_joined(nodes, texts, (depth - 1) as nat);
    lemma_joined_flatten(texts);
}

/// A keyed list whose fragments show their text up to fragment `i`, which does
/// not, stops as that fragment's content does.
pub proof fn lemma_text_keyed_stops(fragments: Seq<(u32, NodeView)>, i: int, depth: nat)
    requires
        depth > 0,
        0 <= i < fragments.len(),
        forall|j: int| 0 <= j < i ==> #[trigger] text_of(fragments[j].1, (depth - 1) as nat) is Done,
        !(text_of(fragments[i].1, (depth - 1) as nat) is Done),
    ensures
        text_of(NodeView::Keyed(fragments), depth) == text_of(fragments[i].1, (depth - 1) as nat),
{
    let nodes = fragments.map_values(|f: (u32, NodeView)| f.1);
    assert forall|j: int| 0 <= j < i implies #[trigger] text_of(nodes[j], (depth - 1) as nat) is Done by {
        assert(nodes[j] == fragments[j].1);
        assert(text_of(fragments[j].1, (depth - 1) as nat) is Done);
    }
    assert(nodes[i] == fragments[i].1);
    lemma_texts_stop_at(nodes, i, (depth - 1) as nat);
}

/// A list shows the texts of all its children, one level deeper, joined in order.
pub proof fn lemma_text_multi(children: Seq<NodeView>, texts: Seq<Seq<char>>, depth: nat)
    requires
        depth > 0,
        texts.len() == children.len(),
        forall|i: int| 0 <= i < children.len() ==> #[trigger] text_of(children[i], (depth - 1) as nat)
            == Outcome::Done(texts[i]),
    ensures
        text_of(NodeView::Multi(children), depth) == Outcome::Done(texts.flatten()),
{
    lemma_texts_joined(children, texts, (depth - 1) as nat);
    lemma_joined_flatten(texts);
}

/// A list whose children show their text up to child `i`, which does not,
/// stops as that child does.
pub proof fn lemma_text_multi_stops(children: Seq<NodeView>, i: int, depth: nat)
    requires
        depth > 0,
        0 <= i < children.len(),
        forall|j: int| 0 <= j < i ==> #[trigger] text_of(children[j], (depth - 1) as nat) is Done,
        !(text_of(children[i], (depth - 1) as nat) is Done),
    ensures
        text_of(NodeView::Multi(children), depth) == text_of(children[i], (depth - 1) as nat),
{
    lemma_texts_stop_at(children, i, (depth - 1) as nat);
}

/// A memoized node shows the text of its content one level deeper, whatever its key.
pub proof fn lemma_text_memoized(state_key: u64, content: NodeView, depth: nat)
    requires
        depth > 0,
    ensures
        text_of(NodeView::Memoized { state_key, content: Box::new(content) }, depth) == text_of(
            content,
            (depth - 1) as nat,
        ),
{
}

/// Leaves show what they hold: a text its text, a comment nothing, an element
/// its summary; a remnant site is not supported; nothing shows at depth zero.
pub proof fn lemma_text_leaves(node: NodeView, depth: nat)
    ensures
        depth == 0 ==> text_of(node, depth) is TooDeep,
        depth > 0 ==> match node {
            NodeView::Text { text } => text_of(node, depth) == Outcome::Done(text),
            NodeView::Comment { .. } => text_of(node, depth) == Outcome::Done(Seq::<char>::empty()),
            NodeView::HtmlElement { element } => text_of(node, depth) == Outcome::Done(
                seq!['<'] + element.name + seq![' ', '\u{2026}', '>'],
            ),
            NodeView::MathMlElement { element } => text_of(node, depth) == Outcome::Done(
                seq!['<'] + element.name + seq![' ', '\u{2026}', '>'],
            ),
            NodeView::SvgElement { element } => text_of(node, depth) == Outcome::Done(
                seq!['<'] + element.name + seq![' ', '\u{2026}', '>'],
            ),
            NodeView::RemnantSite => text_of(node, depth) is Unsupported,
            _ => true,
        },
{
}

/// Where the nodes before `i` all render and node `i` does not, the sequence
/// stops as node `i` does.
pub proof fn lemma_plans_stop_at(nodes: Seq<NodeView>, i: int, depth: nat)
    requires
        0 <= i < nodes.len(),
        forall|j: int| 0 <= j < i ==> #[trigger] plan_of(nodes[j], depth) is Done,
        !(plan_of(nodes[i], depth) is Done),
    ensures
        plans_of(nodes, depth) is TooDeep <==> plan_of(nodes[i], depth) is TooDeep,
        plans_of(nodes, depth) is Unsupported <==> plan_of(nodes[i], depth) is Unsupported,
    decreases nodes.len(),
{
    let init = nodes.drop_last();
    if i == nodes.len() - 1 {
        if !(plans_of(init, depth) is Done) {
            lemma_plans_first_stop(init, depth);
            let k = choose|k: int|
                0 <= k < init.len() && (forall|j: int| 0 <= j < k ==> #[trigger] plan_of(init[j], depth) is Done)
                    && !(plan_of(init[k], depth) is Done) && (plans_of(init, depth) is TooDeep <==> #[trigger] plan_of(
                    init[k],
                    depth,
                ) is TooDeep);
            assert(init[k] == nodes[k]);
            assert(plan_of(nodes[k], depth) is Done);
        }
    } else {
        assert forall|j: int| 0 <= j < i implies #[trigger] plan_of(init[j], depth) is Done by {
            assert(init[j] == nodes[j]);
            assert(plan_of(nodes[j], depth) is Done);
        }
        assert(init[i] == nodes[i]);
        lemma_plans_stop_at(init, i, depth);
    }
}

/// A list whose children render up to child `i`, which does not, stops as
/// that child does.
pub proof fn lemma_plan_multi_stops(children: Seq<NodeView>, i: int, depth: nat)
    requires
        depth > 0,
        0 <= i < children.len(),
        forall|j: int| 0 <= j < i ==> #[trigger] plan_of(children[j], (depth - 1) as nat) is Done,
        !(plan_of(children[i], (depth - 1) as nat) is Done),
    ensures
        plan_of(NodeView::Multi(children), depth) is TooDeep <==> plan_of(children[i], (depth - 1) as nat) is TooDeep,
        plan_of(NodeView::Multi(children), depth) is Unsupported <==> plan_of(children[i], (depth - 1) as nat) is Unsupported,
{
    lemma_plans_stop_at(children, i, (depth - 1) as nat);
}


/// A link whose attributes are all link targets renders as a link that reads
/// the text of its content, at the same depth, and leads to the attribute
/// values in order; a link with any other attribute, or an element of any
/// other name, is not supported.
pub proof fn lemma_plan_link(element: ElementView, text: Seq<char>, depth: nat)
    requires
        depth > 0,
    ensures
        !(element.name == seq!['a'] || element.name == seq!['A']) ==> plan_of(
            NodeView::HtmlElement { element },
            depth,
        ) is Unsupported,
        (element.name == seq!['a'] || element.name == seq!['A']) && (exists|i: int|
            0 <= i < element.attributes.len() && #[trigger] element.attributes[i].0 != seq!['h', 'r', 'e', 'f'])
            && text_of(*element.content, depth) is Done ==> plan_of(
            NodeView::HtmlElement { element },
            depth,
        ) is Unsupported,
        (element.name == seq!['a'] || element.name == seq!['A']) && (forall|i: int|
            0 <= i < element.attributes.len() ==> #[trigger] element.attributes[i].0 == seq!['h', 'r', 'e', 'f'])
            && text_of(*element.content, depth) == Outcome::Done(text) ==> plan_of(
            NodeView::HtmlElement { element },
            depth,
        ) == Outcome::Done(
            ControlView::Link {
                text,
                targets: Seq::new(element.attributes.len(), |i: int| element.attributes[i].1),
            },
        ),
        (element.name == seq!['a'] || element.name == seq!['A']) && !(text_of(*element.content, depth) is Done)
            ==> plan_of(NodeView::HtmlElement { element }, depth) == match text_of(*element.content, depth) {
                Outcome::TooDeep => Outcome::<ControlView>::TooDeep,
                _ => Outcome::<ControlView>::Unsupported,
            },
{
    assert(element.attributes.map_values(|a: (Seq<char>, Seq<char>)| a.1) =~= Seq::new(
        element.attributes.len(),
        |i: int| element.attributes[i].1,
    ));
}

/// Leaves render as what they hold: a text as a label of it, a comment as
/// nothing; other elements than HTML ones, keyed lists and remnant sites are
/// not supported; nothing renders at depth zero.
pub proof fn lemma_plan_leaves(node: NodeView, depth: nat)
    ensures
        depth == 0 ==> plan_of(node, depth) is TooDeep,
        depth > 0 ==> match node {
            NodeView::Text { text } => plan_of(node, depth) == Outcome::Done(ControlView::Label { text }),
            NodeView::Comment { .. } => plan_of(node, depth) == Outcome::Done(ControlView::Empty),
            NodeView::MathMlElement { .. } => plan_of(node, depth) is Unsupported,
            NodeView::SvgElement { .. } => plan_of(node, depth) is Unsupported,
            NodeView::Keyed(..) => plan_of(node, depth) is Unsupported,
            NodeView::RemnantSite => plan_of(node, depth) is Unsupported,
            _ => true,
        },
{
}

} // verus!
