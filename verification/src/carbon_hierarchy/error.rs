//! Why a structural edit is refused.

use vstd::prelude::*;

verus! {

/// The reasons for which an edit of the hierarchy is refused. A refused edit
/// changes nothing.
#[derive(Clone, Copy, Debug, PartialEq, Eq, Structural)]
pub enum HierarchyError {
    /// An entity was to become its own parent or child.
    SelfParenting,
    /// An entity that the edit must write to does not live.
    MissingEntity,
    /// The position at which children were to be put in lies past the end
    /// of the children that stay.
    IndexOutOfBounds,
}

} // verus!
