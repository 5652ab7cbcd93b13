//! Structural edits as values: each names the entities that it is about and
//! does, when it is applied to a store, what the operation of its name does
//! at once. A queue holds such values until they are flushed.

use crate::carbon_hierarchy::child_builder::{
    check_attach, check_insert, BuildChildren, ChildBuild,
};
use crate::carbon_hierarchy::children::Children;
use crate::carbon_hierarchy::error::HierarchyError;
use crate::carbon_hierarchy::hierarchy::{
    DespawnChildrenRecursive, DespawnRecursive, DespawnRecursiveExt,
};
use crate::carbon_hierarchy::model::Hierarchy;
use crate::carbon_hierarchy::parent::Parent;
use crate::carbon_hierarchy::world::World;
use crate::entity::{slice_contains, Entity};
use crate::small_vec::{items, sv_as_slice, sv_from_slice, sv_new, sv_push, EntityVec};
use vstd::prelude::*;

verus! {

/// The command that makes `child` the last child of `parent`.
pub struct AddChild {
    /// The entity that takes the child.
    pub parent: Entity,
    /// The entity to attach.
    pub child: Entity,
}

/// The command that puts `children` in at `index` among the children of
/// `parent`, shifting the children behind that position back.
pub struct InsertChildren {
    pub parent: Entity,
    pub children: EntityVec,
    pub index: usize,
}

/// The command that makes `children` the last children of `parent`.
pub struct AddChildren {
    pub parent: Entity,
    pub children: EntityVec,
}

/// The command that detaches from `parent` those of `children` that it
/// lists.
pub struct RemoveChildren {
    pub parent: Entity,
    pub children: EntityVec,
}

/// The command that detaches all children of `parent`.
pub struct ClearChildren {
    pub parent: Entity,
}

/// The command that detaches all children of `parent` and attaches
/// `children` in their place.
pub struct ReplaceChildren {
    pub parent: Entity,
    pub children: EntityVec,
}

/// The command that detaches `child` from its parent.
pub struct RemoveParent {
    /// The entity whose parent is to be removed.
    pub child: Entity,
}

impl AddChild {
    /// Carries the command out.
    pub fn apply<C: Children, P: Parent>(self, world: &mut World<C, P>)
        requires
            old(world).wf(),
            old(world)@.attach_error(self.parent, seq![self.child]).is_none(),
        ensures
            final(world).wf(),
            final(world)@ == old(world)@.add_child(self.parent, self.child),
    {
        assert(seq![self.child][0] == self.child);
        world.add_child(self.parent, self.child);
    }
}

impl InsertChildren {
    /// Carries the command out.
    pub fn apply<C: Children, P: Parent>(self, world: &mut World<C, P>)
        requires
            old(world).wf(),
            old(world)@.insert_error(self.parent, self.index as int, items(self.children)).is_none(),
        ensures
            final(world).wf(),
            final(world)@ == old(world)@.insert_children(
                self.parent,
                self.index as int,
                items(self.children),
            ),
    {
        world.insert_children(self.parent, self.index, sv_as_slice(&self.children));
    }
}

impl AddChildren {
    /// Carries the command out.
    pub fn apply<C: Children, P: Parent>(self, world: &mut World<C, P>)
        requires
            old(world).wf(),
            old(world)@.attach_error(self.parent, items(self.children)).is_none(),
        ensures
            final(world).wf(),
            final(world)@ == old(world)@.add_children(self.parent, items(self.children)),
    {
        world.add_children(self.parent, sv_as_slice(&self.children));
    }
}

impl RemoveChildren {
    /// Carries the command out.
    pub fn apply<C: Children, P: Parent>(self, world: &mut World<C, P>)
        requires
            old(world).wf(),
        ensures
            final(world).wf(),
            final(world)@ == old(world)@.remove_children(self.parent, items(self.children)),
    {
        world.remove_children(self.parent, sv_as_slice(&self.children));
    }
}

impl ClearChildren {
    /// Carries the command out.
    pub fn apply<C: Children, P: Parent>(self, world: &mut World<C, P>)
        requires
            old(world).wf(),
        ensures
            final(world).wf(),
            final(world)@ == old(world)@.clear_children(self.parent),
    {
        world.clear_children(self.parent);
    }
}

impl ReplaceChildren {
    /// Carries the command out.
    pub fn apply<C: Children, P: Parent>(self, world: &mut World<C, P>)
        requires
            old(world).wf(),
            old(world)@.attach_error(self.parent, items(self.children)).is_none(),
        ensures
            final(world).wf(),
            final(world)@ == old(world)@.replace_children(self.parent, items(self.children)),
    {
        world.replace_children(self.parent, sv_as_slice(&self.children));
    }
}

impl RemoveParent {
    /// Carries the command out.
    pub fn apply<C: Children, P: Parent>(self, world: &mut World<C, P>)
        requires
            old(world).wf(),
        ensures
            final(world).wf(),
            final(world)@ == old(world)@.remove_parent(self.child),
    {
        world.remove_parent(self.child);
    }
}

/// Any structural edit, as a value.
pub enum HierarchyCommand {
    AddChild(AddChild),
    InsertChildren(InsertChildren),
    AddChildren(AddChildren),
    RemoveChildren(RemoveChildren),
    ClearChildren(ClearChildren),
    ReplaceChildren(ReplaceChildren),
    RemoveParent(RemoveParent),
    DespawnRecursive(DespawnRecursive),
    DespawnChildrenRecursive(DespawnChildrenRecursive),
}

impl HierarchyCommand {
    /// Why the command is refused on the store `h`, if it is.
    pub open spec fn refusal(self, h: Hierarchy) -> Option<HierarchyError> {
        match self {
            HierarchyCommand::AddChild(c) => h.attach_error(c.parent, seq![c.child]),
            HierarchyCommand::InsertChildren(c) => h.insert_error(
                c.parent,
                c.index as int,
                items(c.children),
            ),
            HierarchyCommand::AddChildren(c) => h.attach_error(c.parent, items(c.children)),
            HierarchyCommand::ReplaceChildren(c) => h.attach_error(c.parent, items(c.children)),
            _ => None,
        }
    }

    /// The store that the command makes of `h`: `h` itself where the
    /// command is refused.
    pub open spec fn effect(self, h: Hierarchy) -> Hierarchy {
        if self.refusal(h).is_some() {
            h
        } else {
            match self {
                HierarchyCommand::AddChild(c) => h.add_child(c.parent, c.child),
                HierarchyCommand::InsertChildren(c) => h.insert_children(
                    c.parent,
                    c.index as int,
                    items(c.children),
                ),
                HierarchyCommand::AddChildren(c) => h.add_children(c.parent, items(c.children)),
                HierarchyCommand::RemoveChildren(c) => h.remove_children(
                    c.parent,
                    items(c.children),
                ),
                HierarchyCommand::ClearChildren(c) => h.clear_children(c.parent),
                HierarchyCommand::ReplaceChildren(c) => h.replace_children(
                    c.parent,
                    items(c.children),
                ),
                HierarchyCommand::RemoveParent(c) => h.remove_parent(c.child),
                HierarchyCommand::DespawnRecursive(c) => h.despawn_recursive(c.entity),
                HierarchyCommand::DespawnChildrenRecursive(c) => h.despawn_descendants(c.entity),
            }
        }
    }

    /// Says why the command is refused on `world`, if it is.
    pub fn check<C: Children, P: Parent>(&self, world: &World<C, P>) -> (verdict: Result<
        (),
        HierarchyError,
    >)
        ensures
            verdict == match self.refusal(world@) {
                Some(error) => Err::<(), HierarchyError>(error),
                None => Ok(()),
            },
    {
        match self {
            HierarchyCommand::AddChild(c) => {
                let one = [c.child];
                assert(one@ == seq![c.child]);
                check_attach(world, c.parent, &one)
            },
            HierarchyCommand::InsertChildren(c) => check_insert(
                world,
                c.parent,
                c.index,
                sv_as_slice(&c.children),
            ),
            HierarchyCommand::AddChildren(c) => check_attach(
                world,
                c.parent,
                sv_as_slice(&c.children),
            ),
            HierarchyCommand::ReplaceChildren(c) => check_attach(
                world,
                c.parent,
                sv_as_slice(&c.children),
            ),
            _ => Ok(()),
        }
    }

    /// Carries out a command that is not refused.
    pub fn apply<C: Children, P: Parent>(self, world: &mut World<C, P>)
        requires
            old(world).wf(),
            self.refusal(old(world)@).is_none(),
        ensures
            final(world).wf(),
            final(world)@ == self.effect(old(world)@),
    {
        match self {
            HierarchyCommand::AddChild(c) => c.apply(world),
            HierarchyCommand::InsertChildren(c) => c.apply(world),
            HierarchyCommand::AddChildren(c) => c.apply(world),
            HierarchyCommand::RemoveChildren(c) => c.apply(world),
            HierarchyCommand::ClearChildren(c) => c.apply(world),
            HierarchyCommand::ReplaceChildren(c) => c.apply(world),
            HierarchyCommand::RemoveParent(c) => c.apply(world),
            HierarchyCommand::DespawnRecursive(c) => c.apply(world),
            HierarchyCommand::DespawnChildrenRecursive(c) => c.apply(world),
        }
    }
}

/// The store that `commands`, applied in order, make of `h`.
pub open spec fn run(h: Hierarchy, commands: Seq<HierarchyCommand>) -> Hierarchy
    decreases commands.len(),
{
    if commands.len() == 0 {
        h
    } else {
        commands.last().effect(run(h, commands.drop_last()))
    }
}

/// The refusals that `commands`, applied in order to `h`, meet, in order.
pub open spec fn refusals(h: Hierarchy, commands: Seq<HierarchyCommand>) -> Seq<HierarchyError>
    decreases commands.len(),
{
    if commands.len() == 0 {
        Seq::empty()
    } else {
        let before = refusals(h, commands.drop_last());
        match commands.last().refusal(run(h, commands.drop_last())) {
            Some(error) => before.push(error),
            None => before,
        }
    }
}

/// Edits that wait to be applied. Code that may not change a store where it
/// stands puts its edits here; they take effect, in the order in which they
/// were put, when the queue is flushed.
pub struct CommandQueue {
    pending: Vec<HierarchyCommand>,
}

impl View for CommandQueue {
    type V = Seq<HierarchyCommand>;

    closed spec fn view(&self) -> Seq<HierarchyCommand> {
        self.pending@
    }
}

impl CommandQueue {
    /// A queue in which nothing waits.
    pub fn new() -> (queue: Self)
        ensures
            queue@ == Seq::<HierarchyCommand>::empty(),
    {
        CommandQueue { pending: Vec::new() }
    }

    /// How many edits wait.
    pub fn len(&self) -> (n: usize)
        ensures
            n == self@.len(),
    {
        self.pending.len()
    }

    /// Puts `command` behind the edits that wait.
    pub fn queue(&mut self, command: HierarchyCommand)
        ensures
            final(self)@ == old(self)@.push(command),
    {
        self.pending.push(command);
    }

    /// Applies the edits that wait to `world`, in the order in which they
    /// were put, and leaves the queue empty. Each edit is checked against
    /// the store as it then stands; a refused edit is not applied, changes
    /// nothing and does not stop the edits behind it. The refusals are
    /// returned in order.
    pub fn flush<C: Children, P: Parent>(&mut self, world: &mut World<C, P>) -> (refused: Vec<
        HierarchyError,
    >)
        requires
            old(world).wf(),
        ensures
            final(world).wf(),
            final(world)@ == run(old(world)@, old(self)@),
            refused@ == refusals(old(world)@, old(self)@),
            final(self)@ == Seq::<HierarchyCommand>::empty(),
    {
        let mut waiting: Vec<HierarchyCommand> = Vec::new();
        std::mem::swap(&mut waiting, &mut self.pending);
        let ghost all = waiting@;
        let total = waiting.len();
        let mut refused: Vec<HierarchyError> = Vec::new();
        // Commands are applied oldest first; taking them from the back of
        // the reversed list keeps each one owned when it is applied.
        let mut reversed: Vec<HierarchyCommand> = Vec::new();
        while waiting.len() > 0
            invariant
                waiting@.len() + reversed@.len() == all.len(),
                waiting@ == all.subrange(0, waiting@.len() as int),
                forall|k: int|
                    0 <= k < reversed@.len() ==> reversed@[k] == all[all.len() - 1 - k],
            decreases waiting.len(),
        {
            let command = waiting.pop().unwrap();
            reversed.push(command);
        }
        let mut done: usize = 0;
        while reversed.len() > 0
            invariant
                world.wf(),
                all.len() == total,
                done + reversed@.len() == all.len(),
                forall|k: int|
                    0 <= k < reversed@.len() ==> reversed@[k] == all[all.len() - 1 - k],
                world@ == run(old(world)@, all.subrange(0, done as int)),
                refused@ == refusals(old(world)@, all.subrange(0, done as int)),
            decreases reversed.len(),
        {
            let command = reversed.pop().unwrap();
            proof {
                assert(command == all[done as int]);
                assert(all.subrange(0, done + 1).drop_last() == all.subrange(0, done as int));
                assert(all.subrange(0, done + 1).last() == command);
            }
            match command.check(world) {
                Ok(()) => {
                    command.apply(world);
                },
                Err(error) => {
                    refused.push(error);
                },
            }
            done += 1;
        }
        assert(all.subrange(0, all.len() as int) == all);
        refused
    }
}

/// The operations put off: each waits in the queue until the flush, which
/// checks it against the store as it then stands.
impl BuildChildren for CommandQueue {
    open spec fn ready(&self) -> bool {
        true
    }

    open spec fn takes(&self, parent: Entity, children: Seq<Entity>) -> bool {
        true
    }

    open spec fn takes_at(&self, parent: Entity, index: int, children: Seq<Entity>) -> bool {
        true
    }

    fn add_child(&mut self, parent: Entity, child: Entity) -> (out: &mut Self)
        ensures
            out@ == old(self)@.push(HierarchyCommand::AddChild(AddChild { parent, child })),
    {
        self.pending.push(HierarchyCommand::AddChild(AddChild { parent, child }));
        self
    }

    fn add_children(&mut self, parent: Entity, children: &[Entity]) -> (out: &mut Self)
        ensures
            out@.drop_last() == old(self)@,
            out@.len() == old(self)@.len() + 1,
            out@.last() matches HierarchyCommand::AddChildren(c) && c.parent == parent && items(
                c.children,
            ) == children@,
    {
        self.pending.push(
            HierarchyCommand::AddChildren(AddChildren { parent, children: sv_from_slice(children) }),
        );
        assert(self@.drop_last() == old(self)@);
        self
    }

    fn insert_children(&mut self, parent: Entity, index: usize, children: &[Entity]) -> (out:
        &mut Self)
        ensures
            out@.drop_last() == old(self)@,
            out@.len() == old(self)@.len() + 1,
            out@.last() matches HierarchyCommand::InsertChildren(c) && c.parent == parent
                && c.index == index && items(c.children) == children@,
    {
        self.pending.push(
            HierarchyCommand::InsertChildren(
                InsertChildren { parent, children: sv_from_slice(children), index },
            ),
        );
        assert(self@.drop_last() == old(self)@);
        self
    }

    fn remove_children(&mut self, parent: Entity, children: &[Entity]) -> (out: &mut Self)
        ensures
            out@.drop_last() == old(self)@,
            out@.len() == old(self)@.len() + 1,
            out@.last() matches HierarchyCommand::RemoveChildren(c) && c.parent == parent
                && items(c.children) == children@,
    {
        self.pending.push(
            HierarchyCommand::RemoveChildren(
                RemoveChildren { parent, children: sv_from_slice(children) },
            ),
        );
        assert(self@.drop_last() == old(self)@);
        self
    }

    fn set_parent(&mut self, child: Entity, parent: Entity) -> (out: &mut Self)
        ensures
            out@ == old(self)@.push(HierarchyCommand::AddChild(AddChild { parent, child })),
    {
        self.add_child(parent, child)
    }

    fn remove_parent(&mut self, child: Entity) -> (out: &mut Self)
        ensures
            out@ == old(self)@.push(HierarchyCommand::RemoveParent(RemoveParent { child })),
    {
        self.pending.push(HierarchyCommand::RemoveParent(RemoveParent { child }));
        self
    }

    fn clear_children(&mut self, parent: Entity) -> (out: &mut Self)
        ensures
            out@ == old(self)@.push(HierarchyCommand::ClearChildren(ClearChildren { parent })),
    {
        self.pending.push(HierarchyCommand::ClearChildren(ClearChildren { parent }));
        self
    }

    fn replace_children(&mut self, parent: Entity, children: &[Entity]) -> (out: &mut Self)
        ensures
            out@.drop_last() == old(self)@,
            out@.len() == old(self)@.len() + 1,
            out@.last() matches HierarchyCommand::ReplaceChildren(c) && c.parent == parent
                && items(c.children) == children@,
    {
        self.pending.push(
            HierarchyCommand::ReplaceChildren(
                ReplaceChildren { parent, children: sv_from_slice(children) },
            ),
        );
        assert(self@.drop_last() == old(self)@);
        self
    }
}

/// Recursive destruction put off until the queue is flushed.
impl DespawnRecursiveExt for CommandQueue {
    open spec fn sound(&self) -> bool {
        true
    }

    fn despawn_recursive(&mut self, entity: Entity)
        ensures
            final(self)@ == old(self)@.push(
                HierarchyCommand::DespawnRecursive(DespawnRecursive { entity, warn: true }),
            ),
    {
        self.pending.push(
            HierarchyCommand::DespawnRecursive(DespawnRecursive { entity, warn: true }),
        );
    }

    fn despawn_descendants(&mut self, entity: Entity) -> (out: &mut Self)
        ensures
            out@ == old(self)@.push(
                HierarchyCommand::DespawnChildrenRecursive(
                    DespawnChildrenRecursive { entity, warn: true },
                ),
            ),
    {
        self.pending.push(
            HierarchyCommand::DespawnChildrenRecursive(
                DespawnChildrenRecursive { entity, warn: true },
            ),
        );
        self
    }

    fn try_despawn_recursive(&mut self, entity: Entity)
        ensures
            final(self)@ == old(self)@.push(
                HierarchyCommand::DespawnRecursive(DespawnRecursive { entity, warn: false }),
            ),
    {
        self.pending.push(
            HierarchyCommand::DespawnRecursive(DespawnRecursive { entity, warn: false }),
        );
    }

    fn try_despawn_descendants(&mut self, entity: Entity) -> (out: &mut Self)
        ensures
            out@ == old(self)@.push(
                HierarchyCommand::DespawnChildrenRecursive(
                    DespawnChildrenRecursive { entity, warn: false },
                ),
            ),
    {
        self.pending.push(
            HierarchyCommand::DespawnChildrenRecursive(
                DespawnChildrenRecursive { entity, warn: false },
            ),
        );
        self
    }
}

/// Builds children of one parent for later: each entity is spawned at once,
/// so that its identifier is known, and becomes a child when the command
/// that the builder ends in is applied.
pub struct ChildBuilder {
    add_children: AddChildren,
}

impl ChildBuilder {
    /// The entities spawned so far, in order.
    pub closed spec fn spawned(&self) -> Seq<Entity> {
        items(self.add_children.children)
    }

    /// A builder of children of `parent` that has spawned nothing.
    pub fn new(parent: Entity) -> (builder: Self)
        ensures
            builder.parent() == parent,
            builder.spawned() == Seq::<Entity>::empty(),
    {
        let children = sv_new();
        ChildBuilder { add_children: AddChildren { parent, children } }
    }

    /// Ends the building: the command that attaches the spawned entities
    /// to the parent, in order, is put into `queue`. The parent may not be
    /// among them.
    pub fn finish(self, queue: &mut CommandQueue)
        requires
            !self.spawned().contains(self.parent()),
        ensures
            final(queue)@.drop_last() == old(queue)@,
            final(queue)@.len() == old(queue)@.len() + 1,
            final(queue)@.last() matches HierarchyCommand::AddChildren(c) && c.parent
                == self.parent() && items(c.children) == self.spawned(),
    {
        queue.pending.push(HierarchyCommand::AddChildren(self.add_children));
        assert(queue@.drop_last() == old(queue)@);
    }

    /// Whether the parent is among the entities spawned so far, in which
    /// case the building cannot be ended.
    pub fn names_parent(&self) -> (yes: bool)
        ensures
            yes == self.spawned().contains(self.parent()),
    {
        slice_contains(sv_as_slice(&self.add_children.children), self.add_children.parent)
    }
}

impl ChildBuild for ChildBuilder {
    closed spec fn parent(&self) -> Entity {
        self.add_children.parent
    }

    fn parent_entity(&self) -> (e: Entity) {
        self.add_children.parent
    }

    /// The spawned entity has no relations yet; the builder remembers it.
    fn spawn_empty<C: Children, P: Parent>(&mut self, world: &mut World<C, P>) -> (child: Entity)
        ensures
            final(world)@ == old(world)@.spawn(),
            final(self).spawned() == old(self).spawned().push(child),
    {
        let entity = world.spawn_empty();
        sv_push(&mut self.add_children.children, entity);
        entity
    }
}

impl CommandQueue {
    /// Spawns an entity in `world` at once and queues the command that
    /// makes it the last child of `parent`.
    pub fn with_child<C: Children, P: Parent>(
        &mut self,
        world: &mut World<C, P>,
        parent: Entity,
    ) -> (out: &mut Self)
        requires
            old(world).wf(),
            old(world)@.next < u64::MAX,
        ensures
            final(world).wf(),
            final(world)@ == old(world)@.spawn(),
            out@ == old(self)@.push(
                HierarchyCommand::AddChild(AddChild { parent, child: old(world)@.fresh() }),
            ),
            *final(self) == *final(out),
    {
        let child = world.spawn_empty();
        self.pending.push(HierarchyCommand::AddChild(AddChild { parent, child }));
        self
    }
}

} // verus!
