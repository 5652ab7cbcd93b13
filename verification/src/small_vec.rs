//! The trusted interface to `smallvec::SmallVec`, the inline-first vector
//! that backs every list of entities and every batch of events.
//!
//! Nothing in this file is proved: each function states what the method of
//! `SmallVec` that it calls does to the items held. Running out of memory
//! aborts, as it does for `Vec`.

use crate::carbon_hierarchy::hierarchy_event::HierarchyEvent;
use crate::entity::Entity;
use crate::sequences::{callable_on, retained_by};
use smallvec::SmallVec;
use vstd::prelude::*;

verus! {

/// An ordered list of entities that stays inline while it holds at most
/// eight of them: a `SmallVec<[Entity; 8]>`.
#[verifier::external_body]
pub struct EntityVec {
    inner: SmallVec<[Entity; 8]>,
}

/// The entities that a list holds, in order.
pub uninterp spec fn items(v: EntityVec) -> Seq<Entity>;

/// `SmallVec::new`: a list that holds nothing.
#[verifier::external_body]
pub(crate) fn sv_new() -> (v: EntityVec)
    ensures
        items(v) == Seq::<Entity>::empty(),
{
    EntityVec { inner: SmallVec::new() }
}

/// `SmallVec::from_slice`: a list that holds copies of the slice's items, in
/// the slice's order.
#[verifier::external_body]
pub(crate) fn sv_from_slice(slice: &[Entity]) -> (v: EntityVec)
    ensures
        items(v) == slice@,
{
    EntityVec { inner: SmallVec::from_slice(slice) }
}

/// `SmallVec::len`: how many items the list holds.
#[verifier::external_body]
pub(crate) fn sv_len(v: &EntityVec) -> (n: usize)
    ensures
        n == items(*v).len(),
{
    v.inner.len()
}

/// `SmallVec::as_slice`: the items held, as a slice in the same order.
#[verifier::external_body]
pub(crate) fn sv_as_slice(v: &EntityVec) -> (slice: &[Entity])
    ensures
        slice@ == items(*v),
{
    v.inner.as_slice()
}

/// `SmallVec::push`: appends `e` behind the items already held.
#[verifier::external_body]
pub(crate) fn sv_push(v: &mut EntityVec, e: Entity)
    ensures
        items(*final(v)) == items(*old(v)).push(e),
{
    v.inner.push(e)
}

/// `SmallVec::extend_from_slice`: appends copies of the slice's items, in
/// order, behind the items already held.
#[verifier::external_body]
pub(crate) fn sv_extend_from_slice(v: &mut EntityVec, slice: &[Entity])
    ensures
        items(*final(v)) == items(*old(v)) + slice@,
{
    v.inner.extend_from_slice(slice)
}

/// `SmallVec::insert_from_slice`: copies the slice's items in at position
/// `index` and shifts the items from that position on behind them. The
/// method panics when `index` is past the end, which `requires` excludes.
#[verifier::external_body]
pub(crate) fn sv_insert_from_slice(v: &mut EntityVec, index: usize, slice: &[Entity])
    requires
        index <= items(*old(v)).len(),
    ensures
        items(*final(v)) == items(*old(v)).subrange(0, index as int) + slice@ + items(
            *old(v),
        ).subrange(index as int, items(*old(v)).len() as int),
{
    v.inner.insert_from_slice(index, slice)
}

/// `SmallVec::retain`: calls `f` once on each item, front to back, and keeps
/// exactly the items for which it returned `true`, in their order.
#[verifier::external_body]
pub(crate) fn sv_retain<F: Fn(&Entity) -> bool>(v: &mut EntityVec, f: F)
    requires
        callable_on(f, items(*old(v))),
    ensures
        retained_by(f, items(*old(v)), items(*final(v))),
{
    v.inner.retain(|e| f(e))
}

/// A batch of events that stays inline while it holds at most eight of
/// them: a `SmallVec<[HierarchyEvent; 8]>`.
#[verifier::external_body]
pub struct EventVec {
    inner: SmallVec<[HierarchyEvent; 8]>,
}

/// The events that a batch holds, in order.
pub uninterp spec fn batch(v: EventVec) -> Seq<HierarchyEvent>;

/// `SmallVec::new`: a batch that holds nothing.
#[verifier::external_body]
pub(crate) fn ev_new() -> (v: EventVec)
    ensures
        batch(v) == Seq::<HierarchyEvent>::empty(),
{
    EventVec { inner: SmallVec::new() }
}

/// `SmallVec::push`: appends `event` behind the events already held.
#[verifier::external_body]
pub(crate) fn ev_push(v: &mut EventVec, event: HierarchyEvent)
    ensures
        batch(*final(v)) == batch(*old(v)).push(event),
{
    v.inner.push(event)
}

/// `SmallVec::as_slice`: the events held, as a slice in the same order.
#[verifier::external_body]
pub(crate) fn ev_as_slice(v: &EventVec) -> (slice: &[HierarchyEvent])
    ensures
        slice@ == batch(*v),
{
    v.inner.as_slice()
}

} // verus!
