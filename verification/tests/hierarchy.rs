use carbon_rs::carbon_hierarchy::child_builder::{
    check_attach, check_insert, BuildChildren, ChildBuild, WorldChildBuilder,
};
use carbon_rs::carbon_hierarchy::child_builder_utilities::{
    add_child_unchecked, clear_children, push_events, remove_children, remove_from_children,
    update_old_parent, update_old_parents, update_parent,
};
use carbon_rs::carbon_hierarchy::children::{ChildList, Children};
use carbon_rs::carbon_hierarchy::error::HierarchyError;
use carbon_rs::carbon_hierarchy::hierarchy::{
    despawn_children_recursive, despawn_with_children_recursive, DespawnRecursiveExt,
};
use carbon_rs::carbon_hierarchy::hierarchy_event::HierarchyEvent;
use carbon_rs::carbon_hierarchy::parent::{Parent, ParentLink};
use carbon_rs::carbon_hierarchy::world::World;
use carbon_rs::entity::{distinct_entities, slice_contains, Entity};

type Store = World<ChildList, ParentLink>;

fn kids(world: &Store, e: Entity) -> Vec<Entity> {
    match world.children(e) {
        Some(list) => list.to_vec(),
        None => Vec::new(),
    }
}

fn has_collection(world: &Store, e: Entity) -> bool {
    world.children(e).is_some()
}

fn store_with(n: usize) -> (Store, Vec<Entity>) {
    let mut world = Store::new();
    world.init_events();
    let mut all = Vec::new();
    for _ in 0..n {
        all.push(world.spawn_empty());
    }
    (world, all)
}

/// Checks the inverse invariant over the given entities.
fn assert_inverse(world: &Store, all: &[Entity]) {
    for &p in all {
        let list = kids(world, p);
        if has_collection(world, p) {
            assert!(!list.is_empty());
        }
        for (i, c) in list.iter().enumerate() {
            assert_eq!(world.parent(*c), Some(p));
            assert!(!list[..i].contains(c));
        }
    }
    for &c in all {
        if let Some(p) = world.parent(c) {
            assert_ne!(p, c);
            assert!(kids(world, p).contains(&c));
        }
    }
}

#[test]
fn entity_round_trips_through_its_bits() {
    let e = Entity::from_bits(42);
    assert_eq!(e.to_bits(), 42);
    assert_eq!(Entity::from_bits(42), e);
    assert_ne!(Entity::from_bits(43), e);
}

#[test]
fn slice_contains_finds_what_is_there() {
    let a = Entity::from_bits(1);
    let b = Entity::from_bits(2);
    assert!(slice_contains(&[a, b], b));
    assert!(!slice_contains(&[a], b));
    assert!(!slice_contains(&[], a));
}

#[test]
fn spawned_identifiers_are_never_handed_out_twice() {
    let mut world = Store::new();
    let a = world.spawn_empty();
    let b = world.spawn_empty();
    assert_eq!(a.to_bits(), 0);
    assert_eq!(b.to_bits(), 1);
    assert!(world.despawn(a));
    assert!(!world.contains(a));
    let c = world.spawn_empty();
    assert_eq!(c.to_bits(), 2);
    assert!(!world.contains(a));
    assert!(!world.despawn(a));
    assert!(world.can_spawn());
}

#[test]
fn child_list_keeps_what_it_is_given() {
    let a = Entity::from_bits(1);
    let b = Entity::from_bits(2);
    let c = Entity::from_bits(3);
    let list = ChildList::from_slice(&[a, b, c]);
    assert_eq!(list.len(), 3);
    assert_eq!(list.to_vec(), vec![a, b, c]);
    let again = ChildList::new(list.get());
    assert_eq!(again.to_vec(), vec![a, b, c]);
}

#[test]
fn child_list_push_appends() {
    let a = Entity::from_bits(1);
    let b = Entity::from_bits(2);
    let mut list = ChildList::from_slice(&[a]);
    list.push(b);
    assert_eq!(list.to_vec(), vec![a, b]);
}

#[test]
fn child_list_extend_appends_in_order() {
    let e: Vec<Entity> = (0..12).map(Entity::from_bits).collect();
    let mut list = ChildList::from_slice(&e[..2]);
    list.extend(&e[2..]);
    assert_eq!(list.to_vec(), e);
}

#[test]
fn child_list_insert_from_slice_shifts_back() {
    let e: Vec<Entity> = (0..5).map(Entity::from_bits).collect();
    let mut list = ChildList::from_slice(&[e[0], e[1], e[2]]);
    list.insert_from_slice(1, &[e[3], e[4]]);
    assert_eq!(list.to_vec(), vec![e[0], e[3], e[4], e[1], e[2]]);
    list.insert_from_slice(5, &[e[0]]);
    assert_eq!(list.to_vec(), vec![e[0], e[3], e[4], e[1], e[2], e[0]]);
}

#[test]
fn child_list_retain_keeps_accepted_in_order() {
    let e: Vec<Entity> = (0..6).map(Entity::from_bits).collect();
    let mut list = ChildList::from_slice(&e);
    list.retain(|x: &Entity| x.to_bits() % 2 == 0);
    assert_eq!(list.to_vec(), vec![e[0], e[2], e[4]]);
}

#[test]
fn child_list_swap_exchanges_two_positions() {
    let e: Vec<Entity> = (0..3).map(Entity::from_bits).collect();
    let mut list = ChildList::from_slice(&e);
    list.swap(0, 2);
    assert_eq!(list.to_vec(), vec![e[2], e[1], e[0]]);
    list.swap(1, 1);
    assert_eq!(list.to_vec(), vec![e[2], e[1], e[0]]);
}

#[test]
fn child_list_get_mut_opens_the_backing_list() {
    let e: Vec<Entity> = (0..3).map(Entity::from_bits).collect();
    let mut list = ChildList::from_slice(&e[..2]);
    let inner = list.get_mut();
    *inner = ChildList::from_slice(&e).get();
    assert_eq!(list.to_vec(), e);
}

#[test]
fn parent_link_holds_one_entity() {
    let p = ParentLink::new(Entity::from_bits(9));
    assert_eq!(p.get(), Entity::from_bits(9));
}

#[test]
fn update_parent_returns_the_previous_parent() {
    let (mut world, e) = store_with(3);
    assert_eq!(update_parent(&mut world, e[2], e[0]), None);
    assert_eq!(world.parent(e[2]), Some(e[0]));
    assert_eq!(update_parent(&mut world, e[2], e[1]), Some(e[0]));
    assert_eq!(world.parent(e[2]), Some(e[1]));
    // the children of neither parent are touched
    assert!(!has_collection(&world, e[0]));
    assert!(!has_collection(&world, e[1]));
    assert!(world.drain_events().is_empty());
}

#[test]
fn add_child_unchecked_appends_even_twice() {
    let (mut world, e) = store_with(2);
    add_child_unchecked(&mut world, e[0], e[1]);
    assert_eq!(kids(&world, e[0]), vec![e[1]]);
    add_child_unchecked(&mut world, e[0], e[1]);
    assert_eq!(kids(&world, e[0]), vec![e[1], e[1]]);
    assert_eq!(world.parent(e[1]), None);
}

#[test]
fn remove_from_children_removes_one_occurrence() {
    let (mut world, e) = store_with(3);
    add_child_unchecked(&mut world, e[0], e[1]);
    add_child_unchecked(&mut world, e[0], e[2]);
    add_child_unchecked(&mut world, e[0], e[1]);
    remove_from_children(&mut world, e[0], e[1]);
    assert_eq!(kids(&world, e[0]), vec![e[2], e[1]]);
    remove_from_children(&mut world, e[0], e[1]);
    assert_eq!(kids(&world, e[0]), vec![e[2]]);
    remove_from_children(&mut world, e[0], e[1]);
    assert_eq!(kids(&world, e[0]), vec![e[2]]);
    remove_from_children(&mut world, e[0], e[2]);
    assert!(!has_collection(&world, e[0]));
    // a parent without a collection, and one that does not live
    remove_from_children(&mut world, e[0], e[2]);
    remove_from_children(&mut world, Entity::from_bits(77), e[2]);
    assert!(!has_collection(&world, e[0]));
}

#[test]
fn update_old_parent_announces_addition_and_move() {
    let (mut world, e) = store_with(3);
    update_old_parent(&mut world, e[2], e[0]);
    assert_eq!(world.parent(e[2]), Some(e[0]));
    // the new parent's children are not touched
    assert!(!has_collection(&world, e[0]));
    assert_eq!(
        world.drain_events(),
        vec![HierarchyEvent::ChildAdded { child: e[2], parent: e[0] }]
    );
    add_child_unchecked(&mut world, e[0], e[2]);
    update_old_parent(&mut world, e[2], e[1]);
    assert!(!has_collection(&world, e[0]));
    assert_eq!(
        world.drain_events(),
        vec![HierarchyEvent::ChildMoved { child: e[2], previous_parent: e[0], new_parent: e[1] }]
    );
    update_old_parent(&mut world, e[2], e[1]);
    assert!(world.drain_events().is_empty());
}

#[test]
fn update_old_parents_announces_together_in_order() {
    let (mut world, e) = store_with(4);
    world.add_child(e[0], e[2]);
    world.drain_events();
    update_old_parents(&mut world, e[1], &[e[2], e[3], e[2]]);
    assert_eq!(
        world.drain_events(),
        vec![
            HierarchyEvent::ChildMoved { child: e[2], previous_parent: e[0], new_parent: e[1] },
            HierarchyEvent::ChildAdded { child: e[3], parent: e[1] },
        ]
    );
    assert!(!has_collection(&world, e[0]));
    assert!(!has_collection(&world, e[1]));
    assert_eq!(world.parent(e[2]), Some(e[1]));
    assert_eq!(world.parent(e[3]), Some(e[1]));
}

#[test]
fn push_events_is_dropped_where_nothing_listens() {
    let mut world = Store::new();
    let a = world.spawn_empty();
    let b = world.spawn_empty();
    push_events(&mut world, &[HierarchyEvent::ChildAdded { child: b, parent: a }]);
    assert!(!world.send_event(HierarchyEvent::ChildAdded { child: b, parent: a }));
    assert!(world.drain_events().is_empty());
    world.add_child(a, b);
    assert!(world.drain_events().is_empty());
    world.init_events();
    assert!(world.drain_events().is_empty());
    push_events(
        &mut world,
        &[
            HierarchyEvent::ChildAdded { child: b, parent: a },
            HierarchyEvent::ChildRemoved { child: b, parent: a },
        ],
    );
    assert!(world.send_event(HierarchyEvent::ChildAdded { child: a, parent: b }));
    assert_eq!(
        world.drain_events(),
        vec![
            HierarchyEvent::ChildAdded { child: b, parent: a },
            HierarchyEvent::ChildRemoved { child: b, parent: a },
            HierarchyEvent::ChildAdded { child: a, parent: b },
        ]
    );
    assert!(world.drain_events().is_empty());
    // recording goes on after the events were taken
    world.init_events();
    assert!(world.send_event(HierarchyEvent::ChildAdded { child: a, parent: b }));
    assert_eq!(world.drain_events().len(), 1);
}

#[test]
fn inverse_invariant_holds_after_every_edit() {
    let (mut world, e) = store_with(8);
    world.add_child(e[0], e[1]);
    assert_inverse(&world, &e);
    world.add_children(e[0], &[e[2], e[3], e[4]]);
    assert_inverse(&world, &e);
    world.insert_children(e[5], 0, &[e[2], e[6]]);
    assert_inverse(&world, &e);
    world.set_parent(e[7], e[2]);
    assert_inverse(&world, &e);
    world.remove_children(e[0], &[e[3], e[6]]);
    assert_inverse(&world, &e);
    world.remove_parent(e[4]);
    assert_inverse(&world, &e);
    world.replace_children(e[5], &[e[1], e[3]]);
    assert_inverse(&world, &e);
    world.clear_children(e[5]);
    assert_inverse(&world, &e);
    assert_eq!(kids(&world, e[2]), vec![e[7]]);
    assert_eq!(world.parent(e[7]), Some(e[2]));
    assert_eq!(world.parent(e[1]), None);
}

#[test]
fn self_parenting_is_found_before_anything_is_written() {
    let (mut world, e) = store_with(4);
    world.add_children(e[0], &[e[1], e[2]]);
    world.drain_events();
    assert_eq!(check_attach(&world, e[0], &[e[0]]), Err(HierarchyError::SelfParenting));
    assert_eq!(check_attach(&world, e[0], &[e[3], e[0]]), Err(HierarchyError::SelfParenting));
    assert_eq!(check_insert(&world, e[0], 0, &[e[3], e[0]]), Err(HierarchyError::SelfParenting));
    assert_eq!(check_attach(&world, e[0], &[e[3]]), Ok(()));
    assert_eq!(check_attach(&world, e[0], &[]), Ok(()));
    // the checks write nothing
    assert_eq!(kids(&world, e[0]), vec![e[1], e[2]]);
    assert_eq!(world.parent(e[0]), None);
    assert_eq!(world.parent(e[3]), None);
    assert_eq!(world.parent(e[1]), Some(e[0]));
    assert!(world.drain_events().is_empty());
    assert_inverse(&world, &e);
}

#[test]
fn entities_that_do_not_live_are_found_before_anything_is_written() {
    let (mut world, e) = store_with(3);
    let ghost = Entity::from_bits(99);
    assert_eq!(check_attach(&world, ghost, &[e[0]]), Err(HierarchyError::MissingEntity));
    assert_eq!(check_attach(&world, e[0], &[ghost]), Err(HierarchyError::MissingEntity));
    assert_eq!(check_attach(&world, e[0], &[e[1], ghost]), Err(HierarchyError::MissingEntity));
    assert_eq!(check_insert(&world, e[0], 0, &[ghost]), Err(HierarchyError::MissingEntity));
    assert_eq!(check_attach(&world, ghost, &[]), Err(HierarchyError::MissingEntity));
    // self-parenting is looked for first
    assert_eq!(check_attach(&world, ghost, &[ghost]), Err(HierarchyError::SelfParenting));
    assert_eq!(world.parent(e[1]), None);
    assert!(!has_collection(&world, e[0]));
    // detaching what is not there is no error
    world.remove_parent(ghost);
    world.remove_children(ghost, &[e[0]]);
    world.clear_children(ghost);
    assert!(world.drain_events().is_empty());
}

#[test]
fn a_child_named_twice_is_attached_once() {
    let (mut world, e) = store_with(6);
    world.add_children(e[0], &[e[1], e[1]]);
    assert_eq!(kids(&world, e[0]), vec![e[1]]);
    assert_eq!(world.parent(e[1]), Some(e[0]));
    assert_eq!(
        world.drain_events(),
        vec![HierarchyEvent::ChildAdded { child: e[1], parent: e[0] }]
    );
    // the order is that of the first naming
    world.add_children(e[0], &[e[3], e[2], e[3], e[1], e[2]]);
    assert_eq!(kids(&world, e[0]), vec![e[3], e[2], e[1]]);
    world.insert_children(e[0], 1, &[e[4], e[5], e[4]]);
    assert_eq!(kids(&world, e[0]), vec![e[3], e[4], e[5], e[2], e[1]]);
    // the position is counted among the children that stay
    assert_eq!(check_insert(&world, e[0], 3, &[e[1], e[1], e[2]]), Ok(()));
    assert_eq!(
        check_insert(&world, e[0], 4, &[e[1], e[1], e[2]]),
        Err(HierarchyError::IndexOutOfBounds)
    );
    world.insert_children(e[0], 3, &[e[1], e[1], e[2]]);
    assert_eq!(kids(&world, e[0]), vec![e[3], e[4], e[5], e[1], e[2]]);
    world.replace_children(e[0], &[e[2], e[2], e[2]]);
    assert_eq!(kids(&world, e[0]), vec![e[2]]);
    assert_eq!(world.parent(e[3]), None);
    assert_inverse(&world, &e);
    // one removal is announced, however often the child is named
    world.drain_events();
    world.remove_children(e[0], &[e[2], e[2]]);
    assert_eq!(
        world.drain_events(),
        vec![HierarchyEvent::ChildRemoved { child: e[2], parent: e[0] }]
    );
    assert!(!has_collection(&world, e[0]));
}

#[test]
fn distinct_entities_keeps_the_first_occurrences() {
    let e: Vec<Entity> = (0..4).map(Entity::from_bits).collect();
    assert_eq!(distinct_entities(&[e[2], e[0], e[2], e[1], e[0]]), vec![e[2], e[0], e[1]]);
    assert_eq!(distinct_entities(&[e[3], e[3]]), vec![e[3]]);
    assert_eq!(distinct_entities(&e), e);
    assert!(distinct_entities(&[]).is_empty());
}

#[test]
fn adding_a_child_again_announces_nothing_and_lists_it_once() {
    let (mut world, e) = store_with(4);
    world.add_children(e[0], &[e[1], e[2], e[3]]);
    world.drain_events();
    world.add_child(e[0], e[1]);
    assert!(world.drain_events().is_empty());
    // listed once, and now last
    assert_eq!(kids(&world, e[0]), vec![e[2], e[3], e[1]]);
    assert_eq!(world.parent(e[1]), Some(e[0]));
    world.add_child(e[0], e[1]);
    assert_eq!(kids(&world, e[0]), vec![e[2], e[3], e[1]]);
    assert!(world.drain_events().is_empty());
}

#[test]
fn moving_a_child_announces_exactly_one_move() {
    let (mut world, e) = store_with(4);
    world.add_children(e[0], &[e[2], e[3]]);
    world.drain_events();
    world.add_child(e[1], e[2]);
    assert_eq!(kids(&world, e[0]), vec![e[3]]);
    assert_eq!(kids(&world, e[1]), vec![e[2]]);
    assert_eq!(world.parent(e[2]), Some(e[1]));
    assert_eq!(
        world.drain_events(),
        vec![HierarchyEvent::ChildMoved { child: e[2], previous_parent: e[0], new_parent: e[1] }]
    );
}

#[test]
fn operations_hand_the_store_back() {
    let (mut world, e) = store_with(4);
    world.add_child(e[0], e[1]).add_child(e[0], e[2]).set_parent(e[3], e[1]).remove_parent(e[2]);
    assert_eq!(kids(&world, e[0]), vec![e[1]]);
    assert_eq!(kids(&world, e[1]), vec![e[3]]);
    world.clear_children(e[1]).replace_children(e[0], &[e[2], e[3]]).remove_children(e[0], &[e[2]]);
    assert_eq!(kids(&world, e[0]), vec![e[3]]);
    assert_inverse(&world, &e);
}

#[test]
fn first_parenting_announces_an_addition() {
    let (mut world, e) = store_with(2);
    world.set_parent(e[1], e[0]);
    assert_eq!(
        world.drain_events(),
        vec![HierarchyEvent::ChildAdded { child: e[1], parent: e[0] }]
    );
    assert_eq!(kids(&world, e[0]), vec![e[1]]);
}

#[test]
fn removing_the_last_child_leaves_no_collection() {
    let (mut world, e) = store_with(3);
    world.add_child(e[0], e[1]);
    assert!(has_collection(&world, e[0]));
    world.remove_children(e[0], &[e[1]]);
    assert!(!has_collection(&world, e[0]));
    assert_eq!(world.parent(e[1]), None);

    world.add_child(e[0], e[1]);
    world.remove_parent(e[1]);
    assert!(!has_collection(&world, e[0]));

    world.add_child(e[0], e[1]);
    world.add_child(e[2], e[1]);
    assert!(!has_collection(&world, e[0]));
    assert_eq!(kids(&world, e[2]), vec![e[1]]);

    world.clear_children(e[2]);
    assert!(!has_collection(&world, e[2]));
    assert_eq!(world.parent(e[1]), None);
}

#[test]
fn remove_children_passes_over_what_is_not_listed() {
    let (mut world, e) = store_with(5);
    world.add_children(e[0], &[e[1], e[2]]);
    world.add_child(e[3], e[4]);
    world.drain_events();
    remove_children(e[0], &[e[4], e[2], e[3]], &mut world);
    assert_eq!(kids(&world, e[0]), vec![e[1]]);
    assert_eq!(world.parent(e[2]), None);
    // not listed by this parent: untouched
    assert_eq!(world.parent(e[4]), Some(e[3]));
    assert_eq!(
        world.drain_events(),
        vec![HierarchyEvent::ChildRemoved { child: e[2], parent: e[0] }]
    );
    // a parent without children: nothing happens
    remove_children(e[1], &[e[4]], &mut world);
    assert_eq!(world.parent(e[4]), Some(e[3]));
    assert!(world.drain_events().is_empty());
}

#[test]
fn remove_parent_announces_the_removal() {
    let (mut world, e) = store_with(3);
    world.add_children(e[0], &[e[1], e[2]]);
    world.drain_events();
    world.remove_parent(e[1]);
    assert_eq!(world.parent(e[1]), None);
    assert_eq!(kids(&world, e[0]), vec![e[2]]);
    assert_eq!(
        world.drain_events(),
        vec![HierarchyEvent::ChildRemoved { child: e[1], parent: e[0] }]
    );
    world.remove_parent(e[1]);
    assert!(world.drain_events().is_empty());
}

#[test]
fn clear_children_announces_nothing() {
    let (mut world, e) = store_with(3);
    world.add_children(e[0], &[e[1], e[2]]);
    world.drain_events();
    clear_children(e[0], &mut world);
    assert!(!has_collection(&world, e[0]));
    assert_eq!(world.parent(e[1]), None);
    assert_eq!(world.parent(e[2]), None);
    assert!(world.drain_events().is_empty());
    clear_children(e[0], &mut world);
    assert!(!has_collection(&world, e[0]));
}

#[test]
fn add_children_appends_and_moves_listed_ones_to_the_end() {
    let (mut world, e) = store_with(6);
    world.add_children(e[0], &[e[1], e[2], e[3]]);
    world.add_children(e[0], &[e[4], e[2]]);
    assert_eq!(kids(&world, e[0]), vec![e[1], e[3], e[4], e[2]]);
    // nothing to add: nothing changes
    world.drain_events();
    world.add_children(e[5], &[]);
    assert!(!has_collection(&world, e[5]));
    assert!(world.drain_events().is_empty());
}

#[test]
fn insert_children_puts_in_at_the_position() {
    let (mut world, e) = store_with(7);
    world.add_children(e[0], &[e[1], e[2], e[3]]);
    world.insert_children(e[0], 1, &[e[4], e[5]]);
    assert_eq!(kids(&world, e[0]), vec![e[1], e[4], e[5], e[2], e[3]]);
    // a listed child is taken out before the position is counted
    world.insert_children(e[0], 4, &[e[1]]);
    assert_eq!(kids(&world, e[0]), vec![e[4], e[5], e[2], e[3], e[1]]);
    world.insert_children(e[0], 0, &[e[3]]);
    assert_eq!(kids(&world, e[0]), vec![e[3], e[4], e[5], e[2], e[1]]);
    // a parent without children takes them as they come
    world.insert_children(e[6], 0, &[e[2], e[1]]);
    assert_eq!(kids(&world, e[6]), vec![e[2], e[1]]);
    assert_eq!(kids(&world, e[0]), vec![e[3], e[4], e[5]]);
    assert_inverse(&world, &e);
}

#[test]
fn insert_children_past_the_end_is_found() {
    let (mut world, e) = store_with(5);
    world.add_children(e[0], &[e[1], e[2]]);
    world.drain_events();
    assert_eq!(check_insert(&world, e[0], 3, &[e[3]]), Err(HierarchyError::IndexOutOfBounds));
    // two children are listed, but only one stays
    assert_eq!(
        check_insert(&world, e[0], 2, &[e[2], e[3]]),
        Err(HierarchyError::IndexOutOfBounds)
    );
    assert_eq!(check_insert(&world, e[0], 1, &[e[2], e[3]]), Ok(()));
    assert_eq!(kids(&world, e[0]), vec![e[1], e[2]]);
    assert_eq!(world.parent(e[3]), None);
    assert!(world.drain_events().is_empty());
    assert_eq!(check_insert(&world, e[0], 2, &[e[3]]), Ok(()));
    world.insert_children(e[0], 2, &[e[3]]);
    assert_eq!(kids(&world, e[0]), vec![e[1], e[2], e[3]]);
    // nothing to put in: no collection appears
    world.insert_children(e[4], 0, &[]);
    assert!(!has_collection(&world, e[4]));
    // a parent without children takes them at any position
    assert_eq!(check_insert(&world, e[4], 9, &[e[3], e[2]]), Ok(()));
    world.insert_children(e[4], 9, &[e[3], e[2]]);
    assert_eq!(kids(&world, e[4]), vec![e[3], e[2]]);
    assert_eq!(kids(&world, e[0]), vec![e[1]]);
}

#[test]
fn replace_children_detaches_then_attaches() {
    let (mut world, e) = store_with(5);
    world.add_children(e[0], &[e[1], e[2]]);
    world.drain_events();
    world.replace_children(e[0], &[e[2], e[3]]);
    assert_eq!(kids(&world, e[0]), vec![e[2], e[3]]);
    assert_eq!(world.parent(e[1]), None);
    assert_eq!(world.parent(e[2]), Some(e[0]));
    // a child in both sets lost its parent silently and is announced as added
    assert_eq!(
        world.drain_events(),
        vec![
            HierarchyEvent::ChildAdded { child: e[2], parent: e[0] },
            HierarchyEvent::ChildAdded { child: e[3], parent: e[0] },
        ]
    );
    world.replace_children(e[0], &[]);
    assert!(!has_collection(&world, e[0]));
    assert_eq!(world.parent(e[2]), None);
}

#[test]
fn despawn_recursive_destroys_the_whole_subtree() {
    let (mut world, e) = store_with(8);
    // 0 -> [1, 2], 1 -> [3, 4], 3 -> [5], 6 -> [7]
    world.add_children(e[0], &[e[1], e[2]]);
    world.add_children(e[1], &[e[3], e[4]]);
    world.add_child(e[3], e[5]);
    world.add_child(e[6], e[7]);
    world.drain_events();
    world.despawn_recursive(e[1]);
    for gone in [e[1], e[3], e[4], e[5]] {
        assert!(!world.contains(gone));
        assert_eq!(world.parent(gone), None);
        assert!(!has_collection(&world, gone));
    }
    for stays in [e[0], e[2], e[6], e[7]] {
        assert!(world.contains(stays));
    }
    assert_eq!(kids(&world, e[0]), vec![e[2]]);
    assert_eq!(kids(&world, e[6]), vec![e[7]]);
    assert!(world.drain_events().is_empty());
    assert_inverse(&world, &e);
}

#[test]
fn despawn_returns_the_destroyed_children_first() {
    let (mut world, e) = store_with(8);
    // 0 -> [1, 2], 1 -> [3, 4], 3 -> [5], 6 -> [7]
    world.add_children(e[0], &[e[1], e[2]]);
    world.add_children(e[1], &[e[3], e[4]]);
    world.add_child(e[3], e[5]);
    world.add_child(e[6], e[7]);
    let done = despawn_with_children_recursive(&mut world, e[1], true);
    assert_eq!(done.destroyed, vec![e[5], e[3], e[4], e[1]]);
    assert!(done.missing.is_empty());
    let done = despawn_children_recursive(&mut world, e[6], false);
    assert_eq!(done.destroyed, vec![e[7]]);
    assert!(world.contains(e[6]));
    let done = despawn_children_recursive(&mut world, e[0], true);
    assert_eq!(done.destroyed, vec![e[2]]);
    // nothing lives below any more
    let done = despawn_children_recursive(&mut world, e[0], true);
    assert!(done.destroyed.is_empty() && done.missing.is_empty());
    // what is gone is not destroyed again, and is reported where that is asked for
    let done = despawn_with_children_recursive(&mut world, e[1], true);
    assert!(done.destroyed.is_empty());
    assert_eq!(done.missing, vec![e[1]]);
    let done = despawn_with_children_recursive(&mut world, e[1], false);
    assert!(done.destroyed.is_empty() && done.missing.is_empty());
    let done = despawn_with_children_recursive(&mut world, e[0], false);
    assert_eq!(done.destroyed, vec![e[0]]);
}

#[test]
fn despawn_reports_listed_entities_that_are_gone() {
    let (mut world, e) = store_with(5);
    world.add_children(e[0], &[e[1], e[2], e[3]]);
    add_child_unchecked(&mut world, e[1], e[2]);
    assert!(world.despawn(e[2]));
    assert!(!world.despawn(e[2]));
    assert_eq!(kids(&world, e[0]), vec![e[1], e[2], e[3]]);
    let done = despawn_with_children_recursive(&mut world, e[0], true);
    assert_eq!(done.destroyed, vec![e[1], e[3], e[0]]);
    // met twice, reported once
    assert_eq!(done.missing, vec![e[2]]);

    let (mut world, e) = store_with(3);
    world.add_children(e[0], &[e[1], e[2]]);
    assert!(world.despawn(e[1]));
    let done = despawn_children_recursive(&mut world, e[0], false);
    assert_eq!(done.destroyed, vec![e[2]]);
    assert!(done.missing.is_empty());
    // an entity that is met twice and lived is destroyed once and is not missing
    let (mut world, e) = store_with(3);
    add_child_unchecked(&mut world, e[0], e[1]);
    add_child_unchecked(&mut world, e[0], e[1]);
    let done = despawn_with_children_recursive(&mut world, e[0], true);
    assert_eq!(done.destroyed, vec![e[1], e[0]]);
    assert!(done.missing.is_empty());
}

#[test]
fn despawn_recursive_of_an_only_child_leaves_no_collection() {
    let (mut world, e) = store_with(3);
    world.add_child(e[0], e[1]);
    world.add_child(e[1], e[2]);
    despawn_with_children_recursive(&mut world, e[1], true);
    assert!(world.contains(e[0]));
    assert!(!world.contains(e[1]));
    assert!(!world.contains(e[2]));
    assert!(!has_collection(&world, e[0]));
}

#[test]
fn despawn_descendants_keeps_the_root() {
    let (mut world, e) = store_with(6);
    world.add_children(e[0], &[e[1], e[2]]);
    world.add_child(e[1], e[3]);
    world.add_child(e[4], e[0]);
    world.despawn_descendants(e[0]);
    assert!(world.contains(e[0]));
    assert!(!has_collection(&world, e[0]));
    assert_eq!(world.parent(e[0]), Some(e[4]));
    assert_eq!(kids(&world, e[4]), vec![e[0]]);
    for gone in [e[1], e[2], e[3]] {
        assert!(!world.contains(gone));
    }
    assert!(world.contains(e[5]));
    assert_inverse(&world, &e);
    // nothing below: nothing happens
    despawn_children_recursive(&mut world, e[5], false);
    assert!(world.contains(e[5]));
}

#[test]
fn despawn_of_what_does_not_live_is_no_error() {
    let (mut world, e) = store_with(2);
    world.add_child(e[0], e[1]);
    let ghost = Entity::from_bits(50);
    world.despawn_recursive(ghost);
    world.try_despawn_recursive(ghost);
    world.despawn_descendants(ghost);
    world.try_despawn_descendants(ghost);
    assert!(world.contains(e[0]));
    assert!(world.contains(e[1]));
    assert_eq!(kids(&world, e[0]), vec![e[1]]);
    // a listed entity that is gone already is passed over
    assert!(world.despawn(e[1]));
    assert_eq!(kids(&world, e[0]), vec![e[1]]);
    world.try_despawn_recursive(e[0]);
    assert!(!world.contains(e[0]));
}

#[test]
fn despawn_recursive_ends_on_a_cycle() {
    let (mut world, e) = store_with(3);
    world.add_child(e[0], e[1]);
    world.add_child(e[1], e[0]);
    world.add_child(e[1], e[2]);
    world.despawn_recursive(e[0]);
    assert!(!world.contains(e[0]));
    assert!(!world.contains(e[1]));
    assert!(!world.contains(e[2]));
}

#[test]
fn despawn_descendants_on_a_cycle_takes_the_root_too() {
    let (mut world, e) = store_with(2);
    world.add_child(e[0], e[1]);
    world.add_child(e[1], e[0]);
    world.despawn_descendants(e[0]);
    assert!(!world.contains(e[0]));
    assert!(!world.contains(e[1]));
}

#[test]
fn despawn_recursive_handles_a_chain_of_thousands() {
    let (mut world, e) = store_with(5001);
    for i in 0..5000 {
        world.add_child(e[i], e[i + 1]);
    }
    world.despawn_recursive(e[1]);
    assert!(world.contains(e[0]));
    assert!(!has_collection(&world, e[0]));
    for i in 1..5001 {
        assert!(!world.contains(e[i]));
    }
}

#[test]
fn despawn_recursive_handles_a_wide_parent() {
    let (mut world, e) = store_with(40);
    world.add_children(e[0], &e[1..]);
    assert_eq!(kids(&world, e[0]).len(), 39);
    world.despawn_descendants(e[0]);
    assert!(world.contains(e[0]));
    for i in 1..40 {
        assert!(!world.contains(e[i]));
    }
}

#[test]
fn with_child_spawns_and_attaches() {
    let (mut world, e) = store_with(2);
    world.with_child(e[0]);
    let child = Entity::from_bits(2);
    assert!(world.contains(child));
    assert_eq!(world.parent(child), Some(e[0]));
    assert_eq!(kids(&world, e[0]), vec![child]);
    assert!(world.drain_events().is_empty());
    world.with_child(e[0]).with_child(e[1]);
    assert_eq!(kids(&world, e[0]), vec![child, Entity::from_bits(3)]);
    assert_eq!(kids(&world, e[1]), vec![Entity::from_bits(4)]);
}

#[test]
fn with_children_spawns_a_batch() {
    let (mut world, e) = store_with(1);
    let made = world.with_children(e[0], 3);
    assert_eq!(made, vec![Entity::from_bits(1), Entity::from_bits(2), Entity::from_bits(3)]);
    assert_eq!(kids(&world, e[0]), made);
    assert_eq!(
        world.drain_events(),
        vec![
            HierarchyEvent::ChildAdded { child: made[0], parent: e[0] },
            HierarchyEvent::ChildAdded { child: made[1], parent: e[0] },
            HierarchyEvent::ChildAdded { child: made[2], parent: e[0] },
        ]
    );
    assert!(world.with_children(e[0], 0).is_empty());
    let mut all = vec![e[0]];
    all.extend(made);
    assert_inverse(&world, &all);
}

#[test]
fn world_child_builder_spawns_children_of_its_parent() {
    let (mut world, e) = store_with(1);
    let mut builder = WorldChildBuilder::new(e[0]);
    assert_eq!(builder.parent_entity(), e[0]);
    let a = builder.spawn_empty(&mut world);
    let b = builder.spawn_empty(&mut world);
    assert_eq!(kids(&world, e[0]), vec![a, b]);
    assert_eq!(world.parent(a), Some(e[0]));
    assert_eq!(world.parent(b), Some(e[0]));
    assert_eq!(world.drain_events().len(), 2);
}
