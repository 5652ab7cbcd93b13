//! Where an entity is.

use crate::entity::Entity;
use vstd::prelude::*;

verus! {

/// A transform of the kind `T` together with the frame that it is expressed
/// in: another entity, or the world where there is none.
pub struct Pose<T> {
    pub transform: T,
    pub reference_frame: Option<Entity>,
}

/// Why poses cannot be propagated.
#[derive(Clone, Copy, Debug, PartialEq, Eq, Structural)]
pub enum PoseError {
    /// A joint, the frame that its pose is expressed in, or the child that
    /// it drives carries no pose.
    MissingPose,
    /// The joints span no tree that can be walked from its roots: a joint
    /// is itself driven by a joint, two joints drive one child, or joints
    /// wait for one another in a circle.
    NotReady,
}

} // verus!
