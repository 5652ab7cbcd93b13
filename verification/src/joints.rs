//! Joints: what couples a link to the child that it drives.

use crate::entity::Entity;
use vstd::prelude::*;

verus! {

/// A joint's state: the one entity that it drives, and its motion at this
/// instant as a transform of the kind `T`.
pub struct Joint<T> {
    /// The entity whose pose the joint updates.
    pub child: Entity,
    /// The joint's instantaneous motion.
    pub motion: T,
}

/// The tree of transforms that a robot's links and joints span.
pub struct TransformTree {}

/// The kinematic model read off a tree of transforms.
pub struct TransformModel {}

} // verus!
