//! The state of a user interface: the virtual DOM last rendered and the
//! controls that show it.
use crate::controls::{plan_of, Control, ControlView, LayoutError, Outcome};
use crate::diff::{diff_consistent, diff_of, diff_splice_node};
use crate::support::{diff_reach, Reach};
use crate::vdom::{NodeView, VNode};
use vstd::prelude::*;

verus! {

/// How deeply a virtual DOM may nest before rendering gives up.
pub const DEPTH_LIMIT: usize = 1000;

/// A user interface: the virtual DOM it shows and the controls that show it.
pub struct LigninUi {
    vdom: VNode,
    controls: Control,
}

impl LigninUi {
    /// The view of the virtual DOM last rendered.
    pub closed spec fn vdom_view(&self) -> NodeView {
        self.vdom@
    }

    /// The view of the controls.
    pub closed spec fn controls_view(&self) -> ControlView {
        self.controls@
    }

    /// The controls are what rendering the virtual DOM afresh would create.
    pub open spec fn in_sync(&self) -> bool {
        plan_of(self.vdom_view(), DEPTH_LIMIT as nat) == Outcome::Done(self.controls_view())
    }

    /// A user interface that shows an empty list, with an empty group of controls.
    pub fn new() -> (r: Self)
        ensures
            r.vdom_view() == NodeView::Multi(Seq::empty()),
            r.controls_view() == (ControlView::Group { children: Seq::empty() }),
            r.in_sync(),
    {
        let nodes: Vec<VNode> = Vec::new();
        let children: Vec<Control> = Vec::new();
        proof {
            crate::vdom::lemma_multi_view(nodes);
            crate::controls::lemma_group_view(children);
        }
        let r = LigninUi { vdom: VNode::Multi(nodes), controls: Control::Group { children } };
        proof {
            assert(crate::vdom::nodes_view(Seq::<VNode>::empty()) =~= Seq::empty());
            assert(crate::controls::controls_view(Seq::<Control>::empty()) =~= Seq::empty());
            assert(crate::controls::plans_of(Seq::<NodeView>::empty(), (DEPTH_LIMIT - 1) as nat)
                == Outcome::Done(Seq::<ControlView>::empty()));
            assert(r.vdom_view() == NodeView::Multi(Seq::empty()));
            assert(plan_of(r.vdom_view(), DEPTH_LIMIT as nat) == Outcome::Done(
                ControlView::Group { children: Seq::empty() },
            ));
        }
        r
    }

    /// The virtual DOM last rendered.
    pub fn vdom(&self) -> (r: &VNode)
        ensures
            r@ == self.vdom_view(),
    {
        &self.vdom
    }

    /// The controls that show it.
    pub fn controls(&self) -> (r: &Control)
        ensures
            r@ == self.controls_view(),
    {
        &self.controls
    }

    /// A copy of the user interface's state.
    pub fn duplicate(&self) -> (r: Self)
        ensures
            r.vdom_view() == self.vdom_view(),
            r.controls_view() == self.controls_view(),
    {
        LigninUi { vdom: self.vdom.duplicate(), controls: self.controls.duplicate() }
    }

    /// Whether `build_partial` supports going over to `next`.
    pub fn can_build(&self, next: &VNode) -> (r: bool)
        ensures
            r == !(diff_of(self.controls_view(), self.vdom_view(), next@, DEPTH_LIMIT as nat).1 is Unsupported),
    {
        diff_reach(&self.controls, &self.vdom, next, DEPTH_LIMIT) != Reach::Unsupported
    }

    /// Goes over to showing `next`, bringing the controls up to date; tells
    /// whether they were rebuilt. On an error nothing changes.
    pub fn build_partial(&mut self, next: VNode) -> (r: Result<bool, LayoutError>)
        requires
            !(diff_of(
                old(self).controls_view(),
                old(self).vdom_view(),
                next@,
                DEPTH_LIMIT as nat,
            ).1 is Unsupported),
        ensures
            ({
                let (after, outcome) = diff_of(
                    old(self).controls_view(),
                    old(self).vdom_view(),
                    next@,
                    DEPTH_LIMIT as nat,
                );
                &&& final(self).controls_view() == after
                &&& outcome matches Outcome::Done(rebuilt) ==> r == Ok::<bool, LayoutError>(rebuilt)
                    && final(self).vdom_view() == next@
                &&& outcome is TooDeep ==> r is Err && final(self).vdom_view() == old(
                    self,
                ).vdom_view()
            }),
            r is Err ==> final(self).vdom_view() == old(self).vdom_view()
                && final(self).controls_view() == old(self).controls_view(),
            old(self).in_sync() && diff_consistent(old(self).vdom_view(), next@, DEPTH_LIMIT as nat)
                && r is Ok ==> final(self).in_sync(),
    {
        let rebuilt = match diff_splice_node(&mut self.controls, &self.vdom, &next, DEPTH_LIMIT) {
            Ok(rebuilt) => rebuilt,
            Err(e) => return Err(e),
        };
        self.vdom = next;
        Ok(rebuilt)
    }
}

} // verus!
