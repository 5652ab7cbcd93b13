use carbon_rs::carbon_hierarchy::child_builder::{BuildChildren, ChildBuild};
use carbon_rs::carbon_hierarchy::child_builder_commands::{
    AddChild, AddChildren, ChildBuilder, ClearChildren, CommandQueue, HierarchyCommand,
    InsertChildren, RemoveChildren, RemoveParent, ReplaceChildren,
};
use carbon_rs::carbon_hierarchy::children::{ChildList, Children};
use carbon_rs::carbon_hierarchy::error::HierarchyError;
use carbon_rs::carbon_hierarchy::hierarchy::{
    DespawnChildrenRecursive, DespawnRecursive, DespawnRecursiveExt,
};
use carbon_rs::carbon_hierarchy::hierarchy_event::HierarchyEvent;
use carbon_rs::carbon_hierarchy::parent::ParentLink;
use carbon_rs::carbon_hierarchy::world::World;
use carbon_rs::entity::Entity;
use carbon_rs::small_vec::EntityVec;

type Store = World<ChildList, ParentLink>;

fn kids(world: &Store, e: Entity) -> Vec<Entity> {
    match world.children(e) {
        Some(list) => list.to_vec(),
        None => Vec::new(),
    }
}

fn list(of: &[Entity]) -> EntityVec {
    ChildList::from_slice(of).get()
}

fn store_with(n: usize) -> (Store, Vec<Entity>) {
    let mut world = Store::new();
    world.init_events();
    let mut all = Vec::new();
    for _ in 0..n {
        all.push(world.spawn_empty());
    }
    (world, all)
}

#[test]
fn add_child_command_does_what_the_operation_does() {
    let (mut world, e) = store_with(3);
    let command = HierarchyCommand::AddChild(AddChild { parent: e[0], child: e[1] });
    assert_eq!(command.check(&world), Ok(()));
    command.apply(&mut world);
    assert_eq!(kids(&world, e[0]), vec![e[1]]);
    assert_eq!(world.parent(e[1]), Some(e[0]));
    AddChild { parent: e[0], child: e[2] }.apply(&mut world);
    assert_eq!(kids(&world, e[0]), vec![e[1], e[2]]);
    assert_eq!(
        HierarchyCommand::AddChild(AddChild { parent: e[0], child: e[0] }).check(&world),
        Err(HierarchyError::SelfParenting)
    );
    assert_eq!(
        HierarchyCommand::AddChild(AddChild { parent: e[0], child: Entity::from_bits(9) })
            .check(&world),
        Err(HierarchyError::MissingEntity)
    );
    assert_eq!(kids(&world, e[0]), vec![e[1], e[2]]);
}

#[test]
fn batch_commands_do_what_the_operations_do() {
    let (mut world, e) = store_with(6);
    AddChildren { parent: e[0], children: list(&[e[1], e[2], e[1]]) }.apply(&mut world);
    assert_eq!(kids(&world, e[0]), vec![e[1], e[2]]);
    InsertChildren { parent: e[0], children: list(&[e[3], e[4], e[3]]), index: 1 }
        .apply(&mut world);
    assert_eq!(kids(&world, e[0]), vec![e[1], e[3], e[4], e[2]]);
    assert_eq!(
        HierarchyCommand::InsertChildren(InsertChildren {
            parent: e[0],
            children: list(&[e[5]]),
            index: 5
        })
        .check(&world),
        Err(HierarchyError::IndexOutOfBounds)
    );
    RemoveChildren { parent: e[0], children: list(&[e[3], e[5]]) }.apply(&mut world);
    assert_eq!(kids(&world, e[0]), vec![e[1], e[4], e[2]]);
    assert_eq!(world.parent(e[3]), None);
    assert_eq!(
        HierarchyCommand::ReplaceChildren(ReplaceChildren {
            parent: e[0],
            children: list(&[e[5], e[0]])
        })
        .check(&world),
        Err(HierarchyError::SelfParenting)
    );
    assert_eq!(kids(&world, e[0]), vec![e[1], e[4], e[2]]);
    ReplaceChildren { parent: e[0], children: list(&[e[5], e[5]]) }.apply(&mut world);
    assert_eq!(kids(&world, e[0]), vec![e[5]]);
    assert_eq!(world.parent(e[1]), None);
    RemoveParent { child: e[5] }.apply(&mut world);
    assert_eq!(world.parent(e[5]), None);
    assert!(world.children(e[0]).is_none());
    AddChildren { parent: e[0], children: list(&[e[1], e[2]]) }.apply(&mut world);
    ClearChildren { parent: e[0] }.apply(&mut world);
    assert!(world.children(e[0]).is_none());
    assert_eq!(world.parent(e[2]), None);
    assert_eq!(
        HierarchyCommand::ClearChildren(ClearChildren { parent: Entity::from_bits(70) })
            .check(&world),
        Ok(())
    );
}

#[test]
fn despawn_commands_do_what_the_operations_do() {
    let (mut world, e) = store_with(5);
    world.add_children(e[0], &[e[1], e[2]]);
    world.add_child(e[1], e[3]);
    DespawnChildrenRecursive { entity: e[1], warn: true }.apply(&mut world);
    assert!(world.contains(e[1]));
    assert!(!world.contains(e[3]));
    DespawnRecursive { entity: e[0], warn: false }.apply(&mut world);
    assert!(!world.contains(e[0]));
    assert!(!world.contains(e[1]));
    assert!(!world.contains(e[2]));
    assert!(world.contains(e[4]));
}

#[test]
fn queued_edits_wait_until_the_flush() {
    let (mut world, e) = store_with(5);
    let mut queue = CommandQueue::new();
    assert_eq!(queue.len(), 0);
    queue.add_child(e[0], e[1]);
    queue.add_children(e[0], &[e[2], e[3]]);
    queue.set_parent(e[4], e[2]);
    queue.remove_parent(e[3]);
    assert_eq!(queue.len(), 4);
    // nothing has happened yet
    assert!(world.children(e[0]).is_none());
    assert_eq!(world.parent(e[1]), None);
    let refused = queue.flush(&mut world);
    assert!(refused.is_empty());
    assert_eq!(queue.len(), 0);
    assert_eq!(kids(&world, e[0]), vec![e[1], e[2]]);
    assert_eq!(kids(&world, e[2]), vec![e[4]]);
    assert_eq!(world.parent(e[3]), None);
    assert_eq!(
        world.drain_events(),
        vec![
            HierarchyEvent::ChildAdded { child: e[1], parent: e[0] },
            HierarchyEvent::ChildAdded { child: e[2], parent: e[0] },
            HierarchyEvent::ChildAdded { child: e[3], parent: e[0] },
            HierarchyEvent::ChildAdded { child: e[4], parent: e[2] },
            HierarchyEvent::ChildRemoved { child: e[3], parent: e[0] },
        ]
    );
    // a second flush has nothing to do
    assert!(queue.flush(&mut world).is_empty());
    assert_eq!(kids(&world, e[0]), vec![e[1], e[2]]);
}

#[test]
fn flush_refuses_self_parenting_and_changes_nothing() {
    let (mut world, e) = store_with(3);
    world.add_child(e[0], e[1]);
    world.drain_events();
    let mut queue = CommandQueue::new();
    queue.queue(HierarchyCommand::AddChild(AddChild { parent: e[0], child: e[0] }));
    queue.queue(HierarchyCommand::AddChildren(AddChildren {
        parent: e[0],
        children: list(&[e[2], e[0]]),
    }));
    queue.queue(HierarchyCommand::InsertChildren(InsertChildren {
        parent: e[0],
        children: list(&[e[0]]),
        index: 0,
    }));
    queue.queue(HierarchyCommand::ReplaceChildren(ReplaceChildren {
        parent: e[0],
        children: list(&[e[0], e[2]]),
    }));
    assert_eq!(queue.len(), 4);
    assert_eq!(queue.flush(&mut world), vec![HierarchyError::SelfParenting; 4]);
    assert_eq!(kids(&world, e[0]), vec![e[1]]);
    assert_eq!(world.parent(e[0]), None);
    assert_eq!(world.parent(e[2]), None);
    assert!(world.drain_events().is_empty());
}

#[test]
fn queued_operations_hand_the_queue_back() {
    let (mut world, e) = store_with(4);
    let mut queue = CommandQueue::new();
    queue.add_child(e[0], e[1]).add_children(e[0], &[e[2], e[2]]).set_parent(e[3], e[2]);
    assert_eq!(queue.len(), 3);
    assert!(queue.flush(&mut world).is_empty());
    assert_eq!(kids(&world, e[0]), vec![e[1], e[2]]);
    assert_eq!(kids(&world, e[2]), vec![e[3]]);
}

#[test]
fn flush_goes_on_after_a_refused_edit() {
    let (mut world, e) = store_with(4);
    let mut queue = CommandQueue::new();
    queue.add_child(e[0], e[1]);
    queue.add_child(Entity::from_bits(40), e[2]);
    queue.insert_children(e[0], 7, &[e[2]]);
    queue.queue(HierarchyCommand::AddChild(AddChild { parent: e[3], child: e[3] }));
    queue.replace_children(e[0], &[e[3]]);
    queue.remove_children(e[0], &[e[1]]);
    queue.clear_children(e[2]);
    assert_eq!(queue.len(), 7);
    let refused = queue.flush(&mut world);
    assert_eq!(
        refused,
        vec![
            HierarchyError::MissingEntity,
            HierarchyError::IndexOutOfBounds,
            HierarchyError::SelfParenting,
        ]
    );
    assert_eq!(kids(&world, e[0]), vec![e[3]]);
    assert_eq!(world.parent(e[1]), None);
    assert_eq!(world.parent(e[2]), None);
}

#[test]
fn queued_despawns_are_applied_in_order() {
    let (mut world, e) = store_with(6);
    world.add_children(e[0], &[e[1], e[2]]);
    world.add_child(e[1], e[3]);
    world.add_child(e[4], e[5]);
    let mut queue = CommandQueue::new();
    queue.despawn_descendants(e[1]);
    queue.try_despawn_descendants(e[2]);
    queue.despawn_recursive(e[4]);
    queue.try_despawn_recursive(Entity::from_bits(77));
    assert_eq!(queue.len(), 4);
    assert!(world.contains(e[3]));
    assert!(queue.flush(&mut world).is_empty());
    assert!(world.contains(e[0]));
    assert!(world.contains(e[1]));
    assert!(world.contains(e[2]));
    assert!(!world.contains(e[3]));
    assert!(!world.contains(e[4]));
    assert!(!world.contains(e[5]));
    assert_eq!(kids(&world, e[0]), vec![e[1], e[2]]);
}

#[test]
fn deferred_builder_spawns_now_and_attaches_later() {
    let (mut world, e) = store_with(1);
    let mut queue = CommandQueue::new();
    let mut builder = ChildBuilder::new(e[0]);
    assert_eq!(builder.parent_entity(), e[0]);
    let a = builder.spawn_empty(&mut world);
    let b = builder.spawn_empty(&mut world);
    assert_eq!(a, Entity::from_bits(1));
    assert_eq!(b, Entity::from_bits(2));
    assert!(world.contains(a));
    assert_eq!(world.parent(a), None);
    assert!(!builder.names_parent());
    builder.finish(&mut queue);
    assert_eq!(queue.len(), 1);
    assert!(world.children(e[0]).is_none());
    assert!(queue.flush(&mut world).is_empty());
    assert_eq!(kids(&world, e[0]), vec![a, b]);
    assert_eq!(world.parent(b), Some(e[0]));
}

#[test]
fn deferred_builder_without_children_queues_an_empty_batch() {
    let (mut world, e) = store_with(1);
    let mut queue = CommandQueue::new();
    let builder = ChildBuilder::new(e[0]);
    assert!(!builder.names_parent());
    builder.finish(&mut queue);
    assert_eq!(queue.len(), 1);
    assert!(queue.flush(&mut world).is_empty());
    assert!(world.children(e[0]).is_none());
}

#[test]
fn deferred_builder_finds_a_parent_among_its_children() {
    let mut world = Store::new();
    // the parent is the entity that will be spawned next
    let mut builder = ChildBuilder::new(Entity::from_bits(0));
    assert!(!builder.names_parent());
    let spawned = builder.spawn_empty(&mut world);
    assert_eq!(spawned, Entity::from_bits(0));
    assert!(builder.names_parent());
}

#[test]
fn queued_with_child_spawns_now_and_attaches_later() {
    let (mut world, e) = store_with(1);
    let mut queue = CommandQueue::new();
    queue.with_child(&mut world, e[0]);
    let child = Entity::from_bits(1);
    assert!(world.contains(child));
    assert_eq!(world.parent(child), None);
    assert_eq!(queue.len(), 1);
    assert!(queue.flush(&mut world).is_empty());
    assert_eq!(world.parent(child), Some(e[0]));
    assert_eq!(kids(&world, e[0]), vec![child]);
}
