//! What an entity is composed of.

use crate::entity::Entity;
use vstd::prelude::*;

verus! {

/// The mark of a type whose values can be attached to an entity.
pub trait Component: Send + Sync + 'static {
}

/// The number under which a kind of component is registered.
pub struct ComponentId(usize);

/// A registry of entities and of the kinds of component that they carry.
pub struct Core {
    id: u32,
    pub(crate) entities: Vec<Entity>,
    pub(crate) components: Vec<ComponentId>,
}

} // verus!
