//! A virtual DOM tree as plain values, and its mathematical view.
use vstd::prelude::*;

verus! {

/// An attribute of an element.
#[derive(Debug, PartialEq, Eq)]
pub struct Attribute {
    pub name: String,
    pub value: String,
}

/// An element: its tag name, its attributes and its content.
#[derive(Debug, PartialEq, Eq)]
pub struct Element {
    pub name: String,
    pub attributes: Vec<Attribute>,
    pub content: Box<VNode>,
}

/// A node of a keyed list, with the key that identifies it among its siblings.
#[derive(Debug, PartialEq, Eq)]
pub struct ReorderableFragment {
    pub dom_key: u32,
    pub content: VNode,
}

/// A node of a virtual DOM tree.
#[derive(Debug, PartialEq, Eq)]
pub enum VNode {
    Comment { comment: String },
    HtmlElement { element: Element },
    MathMlElement { element: Element },
    SvgElement { element: Element },
    /// Content that is taken to be unchanged while `state_key` is.
    Memoized { state_key: u64, content: Box<VNode> },
    Multi(Vec<VNode>),
    Keyed(Vec<ReorderableFragment>),
    Text { text: String },
    RemnantSite,
}

/// The view of an element.
pub struct ElementView {
    pub name: Seq<char>,
    /// Names and values of the attributes, in order.
    pub attributes: Seq<(Seq<char>, Seq<char>)>,
    pub content: Box<NodeView>,
}

/// The view of a node: the same tree with its strings as sequences of characters.
pub enum NodeView {
    Comment { comment: Seq<char> },
    HtmlElement { element: ElementView },
    MathMlElement { element: ElementView },
    SvgElement { element: ElementView },
    Memoized { state_key: u64, content: Box<NodeView> },
    Multi(Seq<NodeView>),
    Keyed(Seq<(u32, NodeView)>),
    Text { text: Seq<char> },
    RemnantSite,
}

impl Element {
    pub open spec fn view_element(self) -> ElementView
        decreases self,
    {
        ElementView {
            name: self.name@,
            attributes: self.attributes@.map_values(|a: Attribute| (a.name@, a.value@)),
            content: Box::new((*self.content).view_node()),
        }
    }
}

impl VNode {
    pub open spec fn view_node(self) -> NodeView
        decreases self,
    {
        match self {
            VNode::Comment { comment } => NodeView::Comment { comment: comment@ },
            VNode::HtmlElement { element } => NodeView::HtmlElement { element: element.view_element() },
            VNode::MathMlElement { element } => NodeView::MathMlElement {
                element: element.view_element(),
            },
            VNode::SvgElement { element } => NodeView::SvgElement { element: element.view_element() },
            VNode::Memoized { state_key, content } => NodeView::Memoized {
                state_key,
                content: Box::new((*content).view_node()),
            },
            VNode::Multi(children) => NodeView::Multi(
                Seq::new(
                    children.len() as nat,
                    |i: int|
                        if 0 <= i < children.len() {
                            children@[i].view_node()
                        } else {
                            NodeView::RemnantSite
                        },
                ),
            ),
            VNode::Keyed(fragments) => NodeView::Keyed(
                Seq::new(
                    fragments.len() as nat,
                    |i: int|
                        if 0 <= i < fragments.len() {
                            (fragments@[i].dom_key, fragments@[i].content.view_node())
                        } else {
                            (0u32, NodeView::RemnantSite)
                        },
                ),
            ),
            VNode::Text { text } => NodeView::Text { text: text@ },
            VNode::RemnantSite => NodeView::RemnantSite,
        }
    }
}

/// The views of a sequence of nodes.
pub open spec fn nodes_view(s: Seq<VNode>) -> Seq<NodeView> {
    Seq::new(s.len(), |i: int| s[i]@)
}

/// The view of a list of nodes is the list of their views.
pub proof fn lemma_multi_view(children: Vec<VNode>)
    ensures
        VNode::Multi(children)@ == NodeView::Multi(nodes_view(children@)),
{
    if let NodeView::Multi(cs) = VNode::Multi(children)@ {
        assert(cs =~= nodes_view(children@));
    }
}

impl Attribute {
    /// A copy of the attribute.
    pub fn duplicate(&self) -> (r: Attribute)
        ensures
            r == *self,
    {
        Attribute { name: self.name.clone(), value: self.value.clone() }
    }
}

impl Element {
    /// A copy of the element.
    pub fn duplicate(&self) -> (r: Element)
        ensures
            r@ == self@,
        decreases self,
    {
        let mut attributes: Vec<Attribute> = Vec::new();
        let mut i: usize = 0;
        while i < self.attributes.len()
            invariant
                i <= self.attributes.len(),
                attributes@ == self.attributes@.take(i as int),
            decreases self.attributes.len() - i,
        {
            attributes.push(self.attributes[i].duplicate());
            assert(self.attributes@.take(i + 1) =~= self.attributes@.take(i as int).push(
                self.attributes@[i as int],
            ));
            i = i + 1;
        }
        assert(self.attributes@.take(i as int) =~= self.attributes@);
        let content = Box::new((*self.content).duplicate());
        let r = Element { name: self.name.clone(), attributes, content };
        assert(r@.attributes =~= self@.attributes);
        r
    }
}

impl VNode {
    /// A copy of the node.
    pub fn duplicate(&self) -> (r: VNode)
        ensures
            r@ == self@,
        decreases self,
    {
        match self {
            VNode::Comment { comment } => VNode::Comment { comment: comment.clone() },
            VNode::HtmlElement { element } => VNode::HtmlElement { element: element.duplicate() },
            VNode::MathMlElement { element } => VNode::MathMlElement { element: element.duplicate() },
            VNode::SvgElement { element } => VNode::SvgElement { element: element.duplicate() },
            VNode::Memoized { state_key, content } => VNode::Memoized {
                state_key: *state_key,
                content: Box::new((**content).duplicate()),
            },
            VNode::Multi(children) => {
                let mut copies: Vec<VNode> = Vec::new();
                let mut i: usize = 0;
                while i < children.len()
                    invariant
                        *self == VNode::Multi(*children),
                        i <= children.len(),
                        copies.len() == i,
                        forall|j: int| 0 <= j < i ==> #[trigger] copies@[j]@ == children@[j]@,
                    decreases children.len() - i,
                {
                    proof {
                        assert(decreases_to!(children => children@));
                        assert(decreases_to!(children@ => children@[i as int]));
                        assert(decreases_to!(*self => self->Multi_0));
                        assert(decreases_to!(*self => children@[i as int]));
                    }
                    copies.push(children[i].duplicate());
                    i = i + 1;
                }
                proof {
                    lemma_multi_view(*children);
                    lemma_multi_view(copies);
                    assert(nodes_view(copies@) =~= nodes_view(children@));
                }
                VNode::Multi(copies)
            },
            VNode::Keyed(fragments) => {
                let mut copies: Vec<ReorderableFragment> = Vec::new();
                let mut i: usize = 0;
                while i < fragments.len()
                    invariant
                        *self == VNode::Keyed(*fragments),
                        i <= fragments.len(),
                        copies.len() == i,
                        forall|j: int|
                            0 <= j < i ==> #[trigger] copies@[j].content@ == fragments@[j].content@
                                && copies@[j].dom_key == fragments@[j].dom_key,
                    decreases fragments.len() - i,
                {
                    proof {
                        assert(decreases_to!(fragments => fragments@));
                        assert(decreases_to!(fragments@ => fragments@[i as int]));
                        assert(decreases_to!(fragments@[i as int] => fragments@[i as int].content));
                        assert(decreases_to!(*self => self->Keyed_0));
                        assert(decreases_to!(*self => fragments@[i as int].content));
                    }
                    copies.push(
                        ReorderableFragment {
                            dom_key: fragments[i].dom_key,
                            content: fragments[i].content.duplicate(),
                        },
                    );
                    i = i + 1;
                }
                let r = VNode::Keyed(copies);
                proof {
                    if let NodeView::Keyed(x) = r@ {
                        if let NodeView::Keyed(y) = self@ {
                            assert forall|j: int| 0 <= j < x.len() implies x[j] == y[j] by {
                                assert(copies@[j].content@ == fragments@[j].content@);
                            }
                            assert(x =~= y);
                        }
                    }
                }
                r
            },
            VNode::Text { text } => VNode::Text { text: text.clone() },
            VNode::RemnantSite => VNode::RemnantSite,
        }
    }
}

impl View for VNode {
    type V = NodeView;

    open spec fn view(&self) -> NodeView {
        self.view_node()
    }
}

impl View for Element {
    type V = ElementView;

    open spec fn view(&self) -> ElementView {
        self.view_element()
    }
}

} // verus!
