//! Notifications of structural changes.

use crate::entity::Entity;
use vstd::prelude::*;

verus! {

/// One change of the hierarchy, as reported to whoever listens.
#[derive(Clone, Copy, Debug, PartialEq, Eq, Structural)]
pub enum HierarchyEvent {
    /// `child` had no parent and now has `parent`.
    ChildAdded { child: Entity, parent: Entity },
    /// `child` had `parent` and now has none.
    ChildRemoved { child: Entity, parent: Entity },
    /// `child` left `previous_parent` for `new_parent`.
    ChildMoved { child: Entity, previous_parent: Entity, new_parent: Entity },
}

} // verus!
