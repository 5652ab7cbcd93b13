//! The relation that a child owns: the one entity that is its parent.

use crate::entity::Entity;
use vstd::prelude::*;

verus! {

/// What a type must offer to store an entity's parent: it holds one entity
/// and nothing else.
pub trait Parent: Sized {
    /// The entity held.
    spec fn entity(&self) -> Entity;

    /// A holder of `parent`.
    fn new(parent: Entity) -> (p: Self)
        ensures
            p.entity() == parent,
    ;

    /// The entity held.
    fn get(&self) -> (e: Entity)
        ensures
            e == self.entity(),
    ;
}

/// The plain holder of a parent.
#[derive(Clone, Copy, Debug)]
pub struct ParentLink {
    parent: Entity,
}

impl Parent for ParentLink {
    closed spec fn entity(&self) -> Entity {
        self.parent
    }

    fn new(parent: Entity) -> (p: Self) {
        ParentLink { parent }
    }

    fn get(&self) -> (e: Entity) {
        self.parent
    }
}

} // verus!
