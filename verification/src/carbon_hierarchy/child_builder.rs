//! The structural operations: attaching, detaching and replacing children
//! with both sides of the relation kept in step.

use crate::carbon_hierarchy::child_builder_utilities::{
    add_child_unchecked, clear_children, push_events, remove_children, remove_from_children,
    update_old_parent, update_old_parents,
};
use crate::carbon_hierarchy::children::Children;
use crate::carbon_hierarchy::error::HierarchyError;
use crate::carbon_hierarchy::hierarchy_event::HierarchyEvent;
use crate::carbon_hierarchy::model::{not_among, other_than, Hierarchy};
use crate::carbon_hierarchy::parent::Parent;
use crate::carbon_hierarchy::world::World;
use crate::entity::{distinct_entities, slice_contains, Entity};
use crate::sequences::{distinct, lemma_distinct, lemma_retained_is_filter};
use crate::small_vec::sv_as_slice;
use vstd::prelude::*;

verus! {

/// Says why `children` cannot be attached to `parent`, if they cannot.
pub fn check_attach<C: Children, P: Parent>(
    world: &World<C, P>,
    parent: Entity,
    children: &[Entity],
) -> (verdict: Result<(), HierarchyError>)
    ensures
        verdict == match world@.attach_error(parent, children@) {
            Some(error) => Err::<(), HierarchyError>(error),
            None => Ok(()),
        },
{
    if slice_contains(children, parent) {
        return Err(HierarchyError::SelfParenting);
    }
    if !world.contains(parent) {
        return Err(HierarchyError::MissingEntity);
    }
    let mut i: usize = 0;
    while i < children.len()
        invariant
            i <= children.len(),
            !children@.contains(parent),
            world@.alive.contains(parent),
            forall|j: int| 0 <= j < i ==> world@.alive.contains(#[trigger] children@[j]),
        decreases children.len() - i,
    {
        if !world.contains(children[i]) {
            assert(!world@.alive.contains(children@[i as int]));
            return Err(HierarchyError::MissingEntity);
        }
        i += 1;
    }
    Ok(())
}

/// Says why `children` cannot be put in at `index` among the children of
/// `parent`, if they cannot.
pub fn check_insert<C: Children, P: Parent>(
    world: &World<C, P>,
    parent: Entity,
    index: usize,
    children: &[Entity],
) -> (verdict: Result<(), HierarchyError>)
    ensures
        verdict == match world@.insert_error(parent, index as int, children@) {
            Some(error) => Err::<(), HierarchyError>(error),
            None => Ok(()),
        },
{
    if let Err(error) = check_attach(world, parent, children) {
        return Err(error);
    }
    if let Some(held) = world.children(parent) {
        let once = distinct_entities(children);
        let list = sv_as_slice(held.get_ref());
        let mut count: usize = 0;
        let mut i: usize = 0;
        while i < list.len()
            invariant
                i <= list.len(),
                count == list@.subrange(0, i as int).filter(not_among(once@)).len(),
                count <= i,
            decreases list.len() - i,
        {
            proof {
                reveal(Seq::filter);
                assert(list@.subrange(0, i + 1).drop_last() == list@.subrange(0, i as int));
            }
            if !slice_contains(once.as_slice(), list[i]) {
                count += 1;
            }
            i += 1;
        }
        assert(list@.subrange(0, list.len() as int) == list@);
        if index > count {
            return Err(HierarchyError::IndexOutOfBounds);
        }
    }
    Ok(())
}

/// Makes the entities of `once`, none of which is named twice, the last
/// children of `parent`.
fn attach_last<C: Children, P: Parent>(world: &mut World<C, P>, parent: Entity, once: &[Entity])
    requires
        old(world).wf(),
        old(world)@.all_alive(parent, once@),
    ensures
        final(world)@ == old(world)@.attach_last(parent, once@),
        final(world).wf(),
{
    if once.len() == 0 {
        return ;
    }
    update_old_parents(world, parent, once);
    proof {
        old(world)@.lemma_reparented_all_keeps(parent, once@);
    }
    let ghost moved = world@;
    match world.take_children(parent) {
        Some(mut children_component) => {
            let unlisted = |value: &Entity| -> (keep: bool)
                ensures
                    keep == !once@.contains(*value),
                { !slice_contains(once, *value) };
            let ghost before = children_component.entities();
            children_component.retain(unlisted);
            proof {
                lemma_retained_is_filter(
                    unlisted,
                    before,
                    children_component.entities(),
                    not_among(once@),
                );
            }
            children_component.extend(once);
            world.put_children(parent, children_component);
        },
        None => {
            let children_component = C::from_slice(once);
            proof {
                reveal(Seq::filter);
                assert(moved.children_of(parent).filter(not_among(once@)) + once@ == once@);
            }
            world.put_children(parent, children_component);
        },
    }
}

/// Puts the entities of `once`, none of which is named twice, in at
/// `index` among the children of `parent`.
fn attach_at<C: Children, P: Parent>(
    world: &mut World<C, P>,
    parent: Entity,
    index: usize,
    once: &[Entity],
)
    requires
        old(world).wf(),
        old(world)@.all_alive(parent, once@),
        old(world)@.children.contains_key(parent) ==> index <= old(world)@.staying(
            parent,
            once@,
        ).len(),
    ensures
        final(world)@ == old(world)@.attach_at(parent, index as int, once@),
        final(world).wf(),
{
    update_old_parents(world, parent, once);
    proof {
        old(world)@.lemma_reparented_all_keeps(parent, once@);
    }
    let ghost moved = world@;
    match world.take_children(parent) {
        Some(mut children_component) => {
            let unlisted = |value: &Entity| -> (keep: bool)
                ensures
                    keep == !once@.contains(*value),
                { !slice_contains(once, *value) };
            let ghost before = children_component.entities();
            children_component.retain(unlisted);
            proof {
                lemma_retained_is_filter(
                    unlisted,
                    before,
                    children_component.entities(),
                    not_among(once@),
                );
            }
            children_component.insert_from_slice(index, once);
            let left = sv_as_slice(children_component.get_ref()).len();
            if left > 0 {
                world.put_children(parent, children_component);
            }
        },
        None => {
            proof {
                reveal(Seq::filter);
                let stay = moved.staying(parent, once@);
                assert(stay.subrange(0, 0) + once@ + stay.subrange(0, stay.len() as int) == once@);
            }
            if once.len() > 0 {
                world.put_children(parent, C::from_slice(once));
            }
        },
    }
}

/// The operations that attach, detach and replace children, for whatever
/// carries them out: at once on a store, or later from a queue. No entity
/// may be named as its own child; whoever cannot rule that out asks
/// `check_attach` first. Each operation hands the receiver back.
pub trait BuildChildren: Sized {
    /// Whether the receiver is in a state in which it takes operations.
    spec fn ready(&self) -> bool;

    /// Whether the receiver can make `children` children of `parent`.
    spec fn takes(&self, parent: Entity, children: Seq<Entity>) -> bool;

    /// Whether the receiver can put `children` in at `index` among the
    /// children of `parent`.
    spec fn takes_at(&self, parent: Entity, index: int, children: Seq<Entity>) -> bool;

    /// Makes `child` the last child of `parent`.
    fn add_child(&mut self, parent: Entity, child: Entity) -> (out: &mut Self)
        requires
            old(self).ready(),
            child != parent,
            old(self).takes(parent, seq![child]),
        ensures
            out.ready(),
            *final(self) == *final(out),
    ;

    /// Makes `children` the last children of `parent`, each once, in the
    /// order in which they are first named.
    fn add_children(&mut self, parent: Entity, children: &[Entity]) -> (out: &mut Self)
        requires
            old(self).ready(),
            !children@.contains(parent),
            old(self).takes(parent, children@),
        ensures
            out.ready(),
            *final(self) == *final(out),
    ;

    /// Makes `children` children of `parent` at position `index`, each
    /// once, in the order in which they are first named, shifting the
    /// children behind that position back.
    fn insert_children(&mut self, parent: Entity, index: usize, children: &[Entity]) -> (out:
        &mut Self)
        requires
            old(self).ready(),
            !children@.contains(parent),
            old(self).takes(parent, children@),
            old(self).takes_at(parent, index as int, children@),
        ensures
            out.ready(),
            *final(self) == *final(out),
    ;

    /// Detaches from `parent` those of `children` that it lists.
    fn remove_children(&mut self, parent: Entity, children: &[Entity]) -> (out: &mut Self)
        requires
            old(self).ready(),
        ensures
            out.ready(),
            *final(self) == *final(out),
    ;

    /// Makes `parent` the parent of `child`: `add_child` seen from the child.
    fn set_parent(&mut self, child: Entity, parent: Entity) -> (out: &mut Self)
        requires
            old(self).ready(),
            child != parent,
            old(self).takes(parent, seq![child]),
        ensures
            out.ready(),
            *final(self) == *final(out),
    ;

    /// Detaches `child` from its parent.
    fn remove_parent(&mut self, child: Entity) -> (out: &mut Self)
        requires
            old(self).ready(),
        ensures
            out.ready(),
            *final(self) == *final(out),
    ;

    /// Detaches all children of `parent`.
    fn clear_children(&mut self, parent: Entity) -> (out: &mut Self)
        requires
            old(self).ready(),
        ensures
            out.ready(),
            *final(self) == *final(out),
    ;

    /// Detaches all children of `parent` and attaches `children` in their
    /// place, each once, in the order in which they are first named.
    fn replace_children(&mut self, parent: Entity, children: &[Entity]) -> (out: &mut Self)
        requires
            old(self).ready(),
            !children@.contains(parent),
            old(self).takes(parent, children@),
        ensures
            out.ready(),
            *final(self) == *final(out),
    ;
}

/// The operations carried out at once on a store. The entities that an
/// operation attaches, and the parent that takes them, must live.
impl<C: Children, P: Parent> BuildChildren for World<C, P> {
    open spec fn ready(&self) -> bool {
        self.wf()
    }

    open spec fn takes(&self, parent: Entity, children: Seq<Entity>) -> bool {
        self@.all_alive(parent, children)
    }

    open spec fn takes_at(&self, parent: Entity, index: int, children: Seq<Entity>) -> bool {
        self@.index_fits(parent, index, children)
    }

    fn add_child(&mut self, parent: Entity, child: Entity) -> (out: &mut Self)
        ensures
            out@ == old(self)@.add_child(parent, child),
    {
        assert(self@.alive.contains(seq![child][0]));
        update_old_parent(self, child, parent);
        let ghost moved = self@;
        match self.take_children(parent) {
            Some(mut children_component) => {
                let apart = |value: &Entity| -> (keep: bool)
                    ensures
                        keep == (child != *value),
                    { child != *value };
                let ghost before = children_component.entities();
                children_component.retain(apart);
                proof {
                    lemma_retained_is_filter(
                        apart,
                        before,
                        children_component.entities(),
                        other_than(child),
                    );
                }
                children_component.push(child);
                self.put_children(parent, children_component);
            },
            None => {
                let one = [child];
                let children_component = C::from_slice(&one);
                proof {
                    reveal(Seq::filter);
                    assert(moved.children_of(parent).filter(other_than(child)).push(child)
                        == one@);
                }
                self.put_children(parent, children_component);
            },
        }
        self
    }

    fn add_children(&mut self, parent: Entity, children: &[Entity]) -> (out: &mut Self)
        ensures
            out@ == old(self)@.add_children(parent, children@),
    {
        let once = distinct_entities(children);
        proof {
            lemma_named_once_live(self@, parent, children@);
        }
        attach_last(self, parent, once.as_slice());
        self
    }

    fn insert_children(&mut self, parent: Entity, index: usize, children: &[Entity]) -> (out:
        &mut Self)
        ensures
            out@ == old(self)@.insert_children(parent, index as int, children@),
    {
        let once = distinct_entities(children);
        proof {
            lemma_named_once_live(self@, parent, children@);
        }
        attach_at(self, parent, index, once.as_slice());
        self
    }

    fn remove_children(&mut self, parent: Entity, children: &[Entity]) -> (out: &mut Self)
        ensures
            out@ == old(self)@.remove_children(parent, children@),
    {
        remove_children(parent, children, self);
        self
    }

    fn set_parent(&mut self, child: Entity, parent: Entity) -> (out: &mut Self)
        ensures
            out@ == old(self)@.add_child(parent, child),
    {
        self.add_child(parent, child)
    }

    fn remove_parent(&mut self, child: Entity) -> (out: &mut Self)
        ensures
            out@ == old(self)@.remove_parent(child),
    {
        if let Some(held) = self.take_parent(child) {
            let parent = held.get();
            remove_from_children(self, parent, child);
            let removed = [HierarchyEvent::ChildRemoved { child, parent }];
            assert(removed@ == seq![removed@[0]]);
            push_events(self, &removed);
        } else {
            assert(self@ == old(self)@);
        }
        self
    }

    fn clear_children(&mut self, parent: Entity) -> (out: &mut Self)
        ensures
            out@ == old(self)@.clear_children(parent),
    {
        clear_children(parent, self);
        self
    }

    fn replace_children(&mut self, parent: Entity, children: &[Entity]) -> (out: &mut Self)
        ensures
            out@ == old(self)@.replace_children(parent, children@),
    {
        clear_children(parent, self);
        assert(self@.all_alive(parent, children@));
        self.add_children(parent, children)
    }
}

/// Where the named entities live, so do the entities named once.
proof fn lemma_named_once_live(h: Hierarchy, parent: Entity, children: Seq<Entity>)
    requires
        h.all_alive(parent, children),
    ensures
        h.all_alive(parent, distinct(children)),
{
    lemma_distinct(children);
    let once = distinct(children);
    assert forall|i: int| 0 <= i < once.len() implies h.alive.contains(#[trigger] once[i]) by {
        assert(once.contains(once[i]));
        let k = choose|k: int| 0 <= k < children.len() && children[k] == once[i];
        assert(h.alive.contains(children[k]));
    }
}

/// What builds children of one parent, one spawned entity at a time.
pub trait ChildBuild {
    /// The parent whose children are built.
    spec fn parent(&self) -> Entity;

    /// The parent whose children are built.
    fn parent_entity(&self) -> (e: Entity)
        ensures
            e == self.parent(),
    ;

    /// Spawns an entity in `world` that is to be a child of the parent.
    /// Its identifier was never handed out before.
    fn spawn_empty<C: Children, P: Parent>(&mut self, world: &mut World<C, P>) -> (child: Entity)
        requires
            old(world).wf(),
            old(world)@.alive.contains(old(self).parent()),
            old(world)@.next < u64::MAX,
        ensures
            final(world).wf(),
            final(self).parent() == old(self).parent(),
            child == old(world)@.fresh(),
            final(world)@.alive == old(world)@.alive.insert(child),
            final(world)@.next == old(world)@.next + 1,
    ;
}

/// Builds children of one parent directly in a store: each spawned entity
/// is a child at once.
pub struct WorldChildBuilder {
    parent: Entity,
}

impl WorldChildBuilder {
    /// A builder of children of `parent`.
    pub fn new(parent: Entity) -> (builder: Self)
        ensures
            builder.parent() == parent,
    {
        WorldChildBuilder { parent }
    }
}

impl ChildBuild for WorldChildBuilder {
    closed spec fn parent(&self) -> Entity {
        self.parent
    }

    fn parent_entity(&self) -> (e: Entity) {
        self.parent
    }

    /// The spawned entity holds the parent, is appended to the parent's
    /// children, and the addition is announced.
    fn spawn_empty<C: Children, P: Parent>(&mut self, world: &mut World<C, P>) -> (child: Entity)
        ensures
            final(world)@ == old(world)@.spawn_child(old(self).parent()),
    {
        let entity = world.spawn_empty();
        world.put_parent(entity, P::new(self.parent));
        add_child_unchecked(world, self.parent, entity);
        let added = [HierarchyEvent::ChildAdded { child: entity, parent: self.parent }];
        assert(added@ == seq![added@[0]]);
        push_events(world, &added);
        entity
    }
}

impl<C: Children, P: Parent> World<C, P> {
    /// Spawns an entity as the last child of `parent`. Nothing is
    /// announced.
    pub fn with_child(&mut self, parent: Entity) -> (out: &mut Self)
        requires
            old(self).wf(),
            old(self)@.next < u64::MAX,
            old(self)@.alive.contains(parent),
        ensures
            out.wf(),
            out@ == old(self)@.with_child(parent),
            *final(self) == *final(out),
    {
        let child = self.spawn_empty();
        self.put_parent(child, P::new(parent));
        let ghost grown = self@;
        match self.take_children(parent) {
            Some(mut children_component) => {
                let apart = |value: &Entity| -> (keep: bool)
                    ensures
                        keep == (child != *value),
                    { child != *value };
                let ghost before = children_component.entities();
                children_component.retain(apart);
                proof {
                    lemma_retained_is_filter(
                        apart,
                        before,
                        children_component.entities(),
                        other_than(child),
                    );
                }
                children_component.push(child);
                self.put_children(parent, children_component);
            },
            None => {
                let one = [child];
                proof {
                    reveal(Seq::filter);
                    assert(grown.children_of(parent).filter(other_than(child)).push(child)
                        == one@);
                }
                self.put_children(parent, C::from_slice(&one));
            },
        }
        self
    }

    /// Spawns `count` entities as children of `parent`, one after another,
    /// each announced as an addition, and returns them in the order in
    /// which they were spawned.
    pub fn with_children(&mut self, parent: Entity, count: usize) -> (children: Vec<Entity>)
        requires
            old(self).wf(),
            old(self)@.next + count <= u64::MAX,
            old(self)@.alive.contains(parent),
        ensures
            final(self).wf(),
            children@.len() == count,
            final(self)@ == old(self)@.spawn_children(parent, count as nat),
            forall|i: int| 0 <= i < count ==> (#[trigger] children@[i]).bits == old(self)@.next + i,
    {
        let mut builder = WorldChildBuilder::new(parent);
        let mut children: Vec<Entity> = Vec::new();
        let mut i: usize = 0;
        while i < count
            invariant
                i <= count,
                self.wf(),
                old(self)@.next + count <= u64::MAX,
                builder.parent() == parent,
                self@.alive.contains(parent),
                self@ == old(self)@.spawn_children(parent, i as nat),
                self@.next == old(self)@.next + i,
                children@.len() == i,
                forall|k: int| 0 <= k < i ==> (#[trigger] children@[k]).bits == old(self)@.next + k,
            decreases count - i,
        {
            let child = builder.spawn_empty(self);
            children.push(child);
            i += 1;
        }
        children
    }
}

} // verus!
