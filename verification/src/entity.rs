//! Entity identifiers.

use crate::sequences::distinct;
use vstd::prelude::*;

verus! {

/// An opaque, stable handle for one composable object of the hierarchy.
///
/// Two handles denote the same entity exactly when their bits are equal.
#[derive(Clone, Copy, Debug, PartialEq, Eq, Structural, Hash)]
pub struct Entity {
    pub bits: u64,
}

impl Entity {
    /// Builds the handle that carries `bits`.
    pub fn from_bits(bits: u64) -> (e: Entity)
        ensures
            e == (Entity { bits }),
    {
        Entity { bits }
    }

    /// The raw bits of this handle.
    pub fn to_bits(self) -> (bits: u64)
        ensures
            bits == self.bits,
    {
        self.bits
    }
}

/// Whether `e` occurs in `list`.
pub fn slice_contains(list: &[Entity], e: Entity) -> (found: bool)
    ensures
        found == list@.contains(e),
{
    let mut i: usize = 0;
    while i < list.len()
        invariant
            i <= list.len(),
            forall|j: int| 0 <= j < i ==> list@[j] != e,
        decreases list.len() - i,
    {
        if list[i] == e {
            return true;
        }
        i += 1;
    }
    false
}

/// The entities of `list`, each once, in the order in which they first
/// occur.
pub fn distinct_entities(list: &[Entity]) -> (once: Vec<Entity>)
    ensures
        once@ == distinct(list@),
{
    let mut once: Vec<Entity> = Vec::new();
    let mut i: usize = 0;
    while i < list.len()
        invariant
            i <= list.len(),
            once@ == distinct(list@.subrange(0, i as int)),
        decreases list.len() - i,
    {
        proof {
            assert(list@.subrange(0, i + 1).drop_last() == list@.subrange(0, i as int));
        }
        if !slice_contains(once.as_slice(), list[i]) {
            once.push(list[i]);
        }
        i += 1;
    }
    assert(list@.subrange(0, list.len() as int) == list@);
    once
}

} // verus!
