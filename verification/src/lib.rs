//! Reconciliation of a lignin virtual DOM against a tree of native controls,
//! together with the reference-counted map and temporary binding set it uses.

pub mod count;
pub mod key_order;
pub mod rc_hash_map;
pub mod vdom;
pub mod controls;
pub mod render;
pub mod diff;
pub mod support;
pub mod ui;
pub mod temp_set;

pub use controls::{Control, LayoutError};
pub use rc_hash_map::{CountSaturatedError, DrainWeak, RcBTreeMap};
pub use temp_set::{TempEventBindingSet, TempEventBindingSetBorrow};
pub use ui::LigninUi;
pub use vdom::{Attribute, Element, ReorderableFragment, VNode};
