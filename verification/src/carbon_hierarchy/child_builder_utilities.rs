//! The low-level steps from which every structural edit is built. Each keeps
//! one side of the relation; the operations of the builder put them together
//! so that both sides agree.

use crate::carbon_hierarchy::children::Children;
use crate::carbon_hierarchy::hierarchy_event::HierarchyEvent;
use crate::carbon_hierarchy::parent::Parent;
use crate::carbon_hierarchy::world::World;
use crate::entity::{distinct_entities, slice_contains, Entity};
use crate::sequences::distinct;
use crate::carbon_hierarchy::model::{not_among, removal_from};
use crate::sequences::{lemma_push_to_set, lemma_retained_is_filter};
use crate::small_vec::{batch, ev_as_slice, ev_new, ev_push, sv_as_slice};
use vstd::prelude::*;

verus! {

/// Sends `events`, in order. Where nothing listens they are dropped, which
/// is no error.
pub fn push_events<C: Children, P: Parent>(world: &mut World<C, P>, events: &[HierarchyEvent])
    requires
        old(world).wf(),
    ensures
        final(world)@ == old(world)@.push_events(events@),
        final(world).wf(),
        final(world).collections() == old(world).collections(),
{
    let mut i: usize = 0;
    while i < events.len()
        invariant
            i <= events.len(),
            world.wf(),
            world@ == old(world)@.push_events(events@.subrange(0, i as int)),
            world.collections() == old(world).collections(),
        decreases events.len() - i,
    {
        let recorded = world.send_event(events[i]);
        proof {
            let sent = events@.subrange(0, i as int);
            assert(events@.subrange(0, i + 1) == sent.push(events@[i as int]));
            if recorded {
                let log = old(world)@.events.unwrap();
                assert((log + sent) + seq![events@[i as int]] == log + sent.push(events@[i as int]));
            }
        }
        i += 1;
    }
    assert(events@.subrange(0, events.len() as int) == events@);
}

/// Appends `child` to the children of `parent`, and creates the collection
/// where `parent` holds none. Whether `child` is listed already is not
/// looked at: the caller answers for that.
pub fn add_child_unchecked<C: Children, P: Parent>(
    world: &mut World<C, P>,
    parent: Entity,
    child: Entity,
)
    requires
        old(world).wf(),
        old(world)@.alive.contains(parent),
    ensures
        final(world)@ == old(world)@.add_child_unchecked(parent, child),
        final(world).wf(),
{
    match world.take_children(parent) {
        Some(mut children) => {
            children.push(child);
            world.put_children(parent, children);
        },
        None => {
            let one = [child];
            let children = C::from_slice(&one);
            assert(children.entities() == Seq::<Entity>::empty().push(child));
            world.put_children(parent, children);
        },
    }
}

/// Makes `new_parent` the parent that `child` holds and returns the parent
/// that it held before, if any. The children of neither parent are touched.
pub fn update_parent<C: Children, P: Parent>(
    world: &mut World<C, P>,
    child: Entity,
    new_parent: Entity,
) -> (previous: Option<Entity>)
    requires
        old(world).wf(),
        old(world)@.alive.contains(child),
    ensures
        previous == old(world)@.parent_of(child),
        final(world)@ == old(world)@.with_parent(child, new_parent),
        final(world).wf(),
        final(world).collections() == old(world).collections(),
{
    let previous = match world.take_parent(child) {
        Some(held) => Some(held.get()),
        None => None,
    };
    world.put_parent(child, P::new(new_parent));
    previous
}

/// Removes one occurrence of `child`, the first, from the children of
/// `parent`. A collection that holds nothing afterwards is given up. Nothing
/// happens where `parent` holds no collection.
pub fn remove_from_children<C: Children, P: Parent>(
    world: &mut World<C, P>,
    parent: Entity,
    child: Entity,
)
    requires
        old(world).wf(),
    ensures
        final(world)@ == old(world)@.remove_from_children(parent, child),
        final(world).wf(),
{
    let held = world.take_children(parent);
    if let Some(children) = held {
        let list = sv_as_slice(children.get_ref());
        let mut rest: Vec<Entity> = Vec::new();
        let mut found = false;
        let mut i: usize = 0;
        while i < list.len()
            invariant
                i <= list.len(),
                !found ==> rest@ == list@.subrange(0, i as int),
                !found ==> forall|j: int| 0 <= j < i ==> list@[j] != child,
                found ==> exists|k: int|
                    0 <= k < i && list@[k] == child && (forall|j: int| 0 <= j < k ==> list@[j]
                        != child) && rest@ == list@.subrange(0, k) + list@.subrange(
                        k + 1,
                        i as int,
                    ),
            decreases list.len() - i,
        {
            if !found && list[i] == child {
                found = true;
                assert(rest@ == list@.subrange(0, i as int) + list@.subrange(i + 1, i + 1));
            } else {
                let ghost before = rest@;
                rest.push(list[i]);
                proof {
                    if found {
                        let k = choose|k: int|
                            0 <= k < i && list@[k] == child && (forall|j: int|
                                0 <= j < k ==> list@[j] != child) && before == list@.subrange(0, k)
                                + list@.subrange(k + 1, i as int);
                        assert(rest@ == list@.subrange(0, k) + list@.subrange(k + 1, i + 1));
                    } else {
                        assert(rest@ == list@.subrange(0, i + 1));
                    }
                }
            }
            i += 1;
        }
        proof {
            list@.index_of_first_ensures(child);
            if found {
                let k = choose|k: int|
                    0 <= k < list.len() && list@[k] == child && (forall|j: int|
                        0 <= j < k ==> list@[j] != child) && rest@ == list@.subrange(0, k)
                        + list@.subrange(k + 1, list.len() as int);
                let first = list@.index_of_first(child).unwrap();
                assert(first == k) by {
                    if first < k {
                        assert(list@[first] != child);
                    }
                }
                assert(rest@ == list@.remove_value(child));
            } else {
                assert(!list@.contains(child));
                assert(list@.subrange(0, list.len() as int) == list@);
                assert(rest@ == list@.remove_value(child));
            }
        }
        if rest.len() > 0 {
            // The parent lived when its collection was taken, and still does.
            world.put_children(parent, C::from_slice(rest.as_slice()));
        }
    }
}

/// Makes `parent` the parent of `child`, removes `child` from the children
/// of the parent that it had, and announces the change: an addition where
/// it had no parent, a move where it had another. Where it had `parent`
/// already, nothing changes and nothing is announced. The children of
/// `parent` are not touched.
pub fn update_old_parent<C: Children, P: Parent>(
    world: &mut World<C, P>,
    child: Entity,
    parent: Entity,
)
    requires
        old(world).wf(),
        old(world)@.alive.contains(child),
    ensures
        final(world)@ == old(world)@.update_old_parent(child, parent),
        final(world).wf(),
{
    let previous = update_parent(world, child, parent);
    match previous {
        Some(previous_parent) => {
            if previous_parent == parent {
                assert(world@ == old(world)@);
                return ;
            }
            remove_from_children(world, previous_parent, child);
            let moved = [HierarchyEvent::ChildMoved { child, previous_parent, new_parent: parent }];
            assert(moved@ == seq![moved@[0]]);
            push_events(world, &moved);
        },
        None => {
            let added = [HierarchyEvent::ChildAdded { child, parent }];
            assert(added@ == seq![added@[0]]);
            push_events(world, &added);
        },
    }
}

/// Makes `parent` the parent of each entity of `children`, in order, as
/// `update_old_parent` does for one, and announces the changes together
/// when all are made.
pub fn update_old_parents<C: Children, P: Parent>(
    world: &mut World<C, P>,
    parent: Entity,
    children: &[Entity],
)
    requires
        old(world).wf(),
        forall|i: int| 0 <= i < children@.len() ==> old(world)@.alive.contains(children@[i]),
    ensures
        final(world)@ == old(world)@.update_old_parents(parent, children@),
        final(world).wf(),
{
    let mut events = ev_new();
    let mut i: usize = 0;
    while i < children.len()
        invariant
            i <= children.len(),
            world.wf(),
            forall|j: int| 0 <= j < children@.len() ==> world@.alive.contains(children@[j]),
            world@ == old(world)@.reparented_all(parent, children@.subrange(0, i as int)),
            batch(events) == old(world)@.reparent_all_events(parent, children@.subrange(0, i as int)),
        decreases children.len() - i,
    {
        let child = children[i];
        let ghost before = world@;
        proof {
            assert(children@.subrange(0, i + 1).drop_last() == children@.subrange(0, i as int));
        }
        if let Some(previous) = update_parent(world, child, parent) {
            if parent == previous {
                assert(world@ == before);
            } else {
                remove_from_children(world, previous, child);
                ev_push(
                    &mut events,
                    HierarchyEvent::ChildMoved { child, previous_parent: previous, new_parent: parent },
                );
            }
        } else {
            ev_push(&mut events, HierarchyEvent::ChildAdded { child, parent });
        }
        assert(world@ == before.reparented(child, parent));
        assert(world@.alive == before.alive);
        i += 1;
    }
    assert(children@.subrange(0, children.len() as int) == children@);
    push_events(world, ev_as_slice(&events));
}

/// Removes from the children of `parent` the entities of `children` that it
/// lists: each gives up its parent, one removal is announced for each,
/// however often it is named, and the collection is given up where nothing
/// is left in it. Entities that
/// `parent` does not list are passed over. Nothing happens where `parent`
/// holds no collection.
pub fn remove_children<C: Children, P: Parent>(
    parent: Entity,
    children: &[Entity],
    world: &mut World<C, P>,
)
    requires
        old(world).wf(),
    ensures
        final(world)@ == old(world)@.remove_children(parent, children@),
        final(world).wf(),
{
    let held = world.take_children(parent);
    if let Some(mut parent_children) = held {
        let ghost kids = parent_children.entities();
        let ghost listed = old(world)@.listed_by(parent);
        let ghost tell = removal_from(parent);
        let named = distinct_entities(children);
        let mut events = ev_new();
        let mut i: usize = 0;
        while i < named.len()
            invariant
                i <= named.len(),
                named@ == distinct(children@),
                world.wf(),
                kids == parent_children.entities(),
                kids == old(world)@.children[parent],
                old(world)@.children.contains_key(parent),
                listed == old(world)@.listed_by(parent),
                tell == removal_from(parent),
                world@ == old(world)@.without_children(parent).without_parents(
                    named@.subrange(0, i as int).filter(listed).to_set(),
                ),
                batch(events) == named@.subrange(0, i as int).filter(listed).map_values(tell),
            decreases named.len() - i,
        {
            let child = named[i];
            let ghost done = named@.subrange(0, i as int);
            proof {
                reveal(Seq::filter);
                assert(named@.subrange(0, i + 1).drop_last() == done);
            }
            if slice_contains(sv_as_slice(parent_children.get_ref()), child) {
                ev_push(&mut events, HierarchyEvent::ChildRemoved { child, parent });
                world.take_parent(child);
                proof {
                    let f = done.filter(listed);
                    assert(named@.subrange(0, i + 1).filter(listed) == f.push(child));
                    lemma_push_to_set(f, child);
                    assert(f.push(child).map_values(tell) == f.map_values(tell).push(
                        HierarchyEvent::ChildRemoved { child, parent },
                    ));
                }
            } else {
                proof {
                    assert(named@.subrange(0, i + 1).filter(listed) == done.filter(listed));
                }
            }
            i += 1;
        }
        assert(named@.subrange(0, named.len() as int) == named@);
        push_events(world, ev_as_slice(&events));
        let unlisted = |c: &Entity| -> (keep: bool)
            ensures
                keep == !children@.contains(*c),
            { !slice_contains(children, *c) };
        parent_children.retain(unlisted);
        proof {
            lemma_retained_is_filter(
                unlisted,
                kids,
                parent_children.entities(),
                not_among(children@),
            );
        }
        let left = sv_as_slice(parent_children.get_ref()).len();
        if left > 0 {
            world.put_children(parent, parent_children);
        }
    }
}

/// Takes from `parent` its whole collection and from each entity that it
/// listed the parent that the entity holds. Nothing is announced.
pub fn clear_children<C: Children, P: Parent>(parent: Entity, world: &mut World<C, P>)
    requires
        old(world).wf(),
    ensures
        final(world)@ == old(world)@.clear_children(parent),
        final(world).wf(),
{
    let held = world.take_children(parent);
    if let Some(children) = held {
        let list = sv_as_slice(children.get_ref());
        let mut i: usize = 0;
        while i < list.len()
            invariant
                i <= list.len(),
                world.wf(),
                list@ == old(world)@.children_of(parent),
                world@ == old(world)@.without_children(parent).without_parents(
                    list@.subrange(0, i as int).to_set(),
                ),
            decreases list.len() - i,
        {
            world.take_parent(list[i]);
            proof {
                let done = list@.subrange(0, i as int);
                assert(list@.subrange(0, i + 1) == done.push(list@[i as int]));
                lemma_push_to_set(done, list@[i as int]);
            }
            i += 1;
        }
        assert(list@.subrange(0, list.len() as int) == list@);
    } else {
        assert(old(world)@.children_of(parent).to_set() == Set::<Entity>::empty());
        assert(world@ == old(world)@.clear_children(parent));
    }
}

} // verus!
