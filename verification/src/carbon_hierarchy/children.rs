//! The relation that a parent owns: the ordered list of its children.

use crate::entity::Entity;
use crate::sequences::{callable_on, retained_by};
use crate::small_vec::{
    items, sv_as_slice, sv_extend_from_slice, sv_from_slice, sv_insert_from_slice, sv_len,
    sv_push, sv_retain, EntityVec,
};
use vstd::prelude::*;

verus! {

/// What a type must offer to store an entity's children. Every operation of
/// the hierarchy is built from these primitives, so any storage that meets
/// the contracts can stand in.
pub trait Children: Sized {
    /// The children held, in order.
    spec fn entities(&self) -> Seq<Entity>;

    /// A holder of the entities of `children`.
    fn new(children: EntityVec) -> (c: Self)
        ensures
            c.entities() == items(children),
    ;

    /// A holder of copies of the slice's entities.
    fn from_slice(slice: &[Entity]) -> (c: Self)
        ensures
            c.entities() == slice@,
    {
        Self::new(sv_from_slice(slice))
    }

    /// Gives up the backing list.
    fn get(self) -> (v: EntityVec)
        ensures
            items(v) == self.entities(),
    ;

    /// The backing list.
    fn get_ref(&self) -> (v: &EntityVec)
        ensures
            items(*v) == self.entities(),
    ;

    /// The backing list, open to change: what it holds when the borrow ends
    /// is what the holder then holds.
    fn get_mut(&mut self) -> (v: &mut EntityVec)
        ensures
            items(*v) == old(self).entities(),
            final(self).entities() == items(*final(v)),
    ;

    /// Exchanges the entities at two positions.
    fn swap(&mut self, swap_to_index: usize, swap_from_index: usize)
        requires
            swap_to_index < old(self).entities().len(),
            swap_from_index < old(self).entities().len(),
        ensures
            final(self).entities() == old(self).entities().update(
                swap_to_index as int,
                old(self).entities()[swap_from_index as int],
            ).update(swap_from_index as int, old(self).entities()[swap_to_index as int]),
    ;

    /// Appends one entity.
    fn push(&mut self, entity: Entity)
        ensures
            final(self).entities() == old(self).entities().push(entity),
    ;

    /// Keeps the entities that `f` accepts, in their order. `f` is asked
    /// once for each position.
    fn retain<F: Fn(&Entity) -> bool>(&mut self, f: F)
        requires
            callable_on(f, old(self).entities()),
        ensures
            retained_by(f, old(self).entities(), final(self).entities()),
    ;

    /// Appends the slice's entities.
    fn extend(&mut self, other: &[Entity])
        ensures
            final(self).entities() == old(self).entities() + other@,
    ;

    /// Puts the slice's entities in at `index`, shifting what follows back.
    fn insert_from_slice(&mut self, index: usize, slice: &[Entity])
        requires
            index <= old(self).entities().len(),
        ensures
            final(self).entities() == old(self).entities().subrange(0, index as int) + slice@
                + old(self).entities().subrange(
                index as int,
                old(self).entities().len() as int,
            ),
    ;
}

/// Children kept in an inline-first list.
pub struct ChildList {
    list: EntityVec,
}

impl ChildList {
    /// How many children are held.
    pub fn len(&self) -> (n: usize)
        ensures
            n == self.entities().len(),
    {
        sv_len(&self.list)
    }

    /// The children held, copied into a vector in their order.
    pub fn to_vec(&self) -> (out: Vec<Entity>)
        ensures
            out@ == self.entities(),
    {
        let slice = sv_as_slice(&self.list);
        let mut out: Vec<Entity> = Vec::new();
        let mut i: usize = 0;
        while i < slice.len()
            invariant
                i <= slice.len(),
                out@ == slice@.subrange(0, i as int),
            decreases slice.len() - i,
        {
            out.push(slice[i]);
            i += 1;
        }
        assert(slice@.subrange(0, slice.len() as int) == slice@);
        out
    }
}

impl Children for ChildList {
    closed spec fn entities(&self) -> Seq<Entity> {
        items(self.list)
    }

    fn new(children: EntityVec) -> (c: Self) {
        ChildList { list: children }
    }

    fn get(self) -> (v: EntityVec) {
        self.list
    }

    fn get_ref(&self) -> (v: &EntityVec) {
        &self.list
    }

    fn get_mut(&mut self) -> (v: &mut EntityVec) {
        &mut self.list
    }

    fn swap(&mut self, swap_to_index: usize, swap_from_index: usize) {
        let mut copy = self.to_vec();
        let a = copy[swap_to_index];
        let b = copy[swap_from_index];
        copy.set(swap_to_index, b);
        copy.set(swap_from_index, a);
        self.list = sv_from_slice(copy.as_slice());
    }

    fn push(&mut self, entity: Entity) {
        sv_push(&mut self.list, entity);
    }

    fn retain<F: Fn(&Entity) -> bool>(&mut self, f: F) {
        sv_retain(&mut self.list, f);
    }

    fn extend(&mut self, other: &[Entity]) {
        sv_extend_from_slice(&mut self.list, other);
    }

    fn insert_from_slice(&mut self, index: usize, slice: &[Entity]) {
        sv_insert_from_slice(&mut self.list, index, slice);
    }
}

} // verus!
