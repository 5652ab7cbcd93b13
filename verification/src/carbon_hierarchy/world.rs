//! The entity store: the one place that holds which entities live and the
//! relations between them.

use crate::carbon_hierarchy::children::Children;
use crate::carbon_hierarchy::hierarchy_event::HierarchyEvent;
use crate::carbon_hierarchy::model::Hierarchy;
use crate::carbon_hierarchy::parent::Parent;
use crate::entity::Entity;
use std::collections::HashMap;
use std::collections::HashSet;
use vstd::prelude::*;

verus! {

broadcast use vstd::std_specs::hash::group_hash_axioms;

/// An entity store over a storage `C` for children and `P` for parents.
pub struct World<C: Children, P: Parent> {
    alive: HashSet<u64>,
    parents: HashMap<u64, P>,
    children: HashMap<u64, C>,
    events: Option<Vec<HierarchyEvent>>,
    next: u64,
}

impl<C: Children, P: Parent> View for World<C, P> {
    type V = Hierarchy;

    closed spec fn view(&self) -> Hierarchy {
        Hierarchy {
            alive: Set::new(|e: Entity| self.alive@.contains(e.bits)),
            parent: Map::new(
                |e: Entity| self.parents@.contains_key(e.bits),
                |e: Entity| self.parents@[e.bits].entity(),
            ),
            children: Map::new(
                |e: Entity| self.children@.contains_key(e.bits),
                |e: Entity| self.children@[e.bits].entities(),
            ),
            events: match self.events {
                Some(log) => Some(log@),
                None => None,
            },
            next: self.next as nat,
        }
    }
}

impl<C: Children, P: Parent> World<C, P> {
    /// The store's invariant, which every operation keeps.
    pub open spec fn wf(&self) -> bool {
        self@.wf() && self@.next <= u64::MAX
    }

    /// How many entities hold a collection of children.
    pub closed spec fn collections(&self) -> nat {
        self.children@.dom().len()
    }

    /// A store without entities, to which nothing listens.
    pub fn new() -> (world: Self)
        ensures
            world@ == Hierarchy::empty(),
            world.wf(),
    {
        World {
            alive: HashSet::new(),
            parents: HashMap::new(),
            children: HashMap::new(),
            events: None,
            next: 0,
        }
    }

    /// Starts recording events, where they were not recorded already.
    pub fn init_events(&mut self)
        ensures
            final(self)@ == (Hierarchy {
                events: Some(
                    match old(self)@.events {
                        Some(log) => log,
                        None => Seq::empty(),
                    },
                ),
                ..old(self)@
            }),
            final(self).collections() == old(self).collections(),
    {
        if self.events.is_none() {
            self.events = Some(Vec::new());
        }
    }

    /// The events recorded and not yet taken, oldest first. Afterwards none
    /// is held. Where nothing listens there is nothing to take.
    pub fn drain_events(&mut self) -> (taken: Vec<HierarchyEvent>)
        ensures
            taken@ == match old(self)@.events {
                Some(log) => log,
                None => Seq::empty(),
            },
            final(self)@ == (Hierarchy {
                events: match old(self)@.events {
                    Some(log) => Some(Seq::empty()),
                    None => None,
                },
                ..old(self)@
            }),
            final(self).collections() == old(self).collections(),
    {
        let held = self.events.take();
        match held {
            Some(log) => {
                self.events = Some(Vec::new());
                log
            },
            None => Vec::new(),
        }
    }

    /// Records `event` where something listens, and says whether it did.
    pub fn send_event(&mut self, event: HierarchyEvent) -> (recorded: bool)
        ensures
            recorded == old(self)@.events.is_some(),
            final(self)@ == old(self)@.push_events(seq![event]),
            final(self).collections() == old(self).collections(),
    {
        let held = self.events.take();
        match held {
            Some(mut log) => {
                log.push(event);
                self.events = Some(log);
                assert(old(self)@.events.unwrap() + seq![event] == old(self)@.events.unwrap().push(
                    event,
                ));
                true
            },
            None => false,
        }
    }

    /// Whether another entity can be spawned: the identifiers are not used up.
    pub fn can_spawn(&self) -> (yes: bool)
        ensures
            yes == (self@.next < u64::MAX),
    {
        self.next < u64::MAX
    }

    /// Creates an entity without relations. Its identifier was never handed
    /// out before.
    pub fn spawn_empty(&mut self) -> (e: Entity)
        requires
            old(self).wf(),
            old(self)@.next < u64::MAX,
        ensures
            e.bits == old(self)@.next,
            !old(self)@.alive.contains(e),
            final(self)@ == old(self)@.spawn(),
            final(self).wf(),
            final(self).collections() == old(self).collections(),
    {
        let id = self.next;
        self.alive.insert(id);
        self.next = id + 1;
        Entity::from_bits(id)
    }

    /// Whether `e` lives.
    pub fn contains(&self, e: Entity) -> (yes: bool)
        ensures
            yes == self@.alive.contains(e),
    {
        self.alive.contains(&e.to_bits())
    }

    /// Destroys `e` alone, with the relations that it holds, and says
    /// whether it lived.
    pub fn despawn(&mut self, e: Entity) -> (lived: bool)
        requires
            old(self).wf(),
        ensures
            lived == old(self)@.alive.contains(e),
            final(self)@ == old(self)@.despawn(e),
            final(self).wf(),
            final(self).collections() == old(self).collections() - (if old(
                self,
            )@.children.contains_key(e) {
                1nat
            } else {
                0nat
            }),
    {
        let key = e.to_bits();
        self.parents.remove(&key);
        self.children.remove(&key);
        let lived = self.alive.remove(&key);
        lived
    }

    /// The parent that `e` holds, if any.
    pub fn parent(&self, e: Entity) -> (held: Option<Entity>)
        ensures
            held == self@.parent_of(e),
    {
        match self.parents.get(&e.to_bits()) {
            Some(p) => Some(p.get()),
            None => None,
        }
    }

    /// Makes `e` hold `parent`, in place of what it held.
    pub fn put_parent(&mut self, e: Entity, parent: P)
        requires
            old(self).wf(),
            old(self)@.alive.contains(e),
        ensures
            final(self)@ == old(self)@.with_parent(e, parent.entity()),
            final(self).wf(),
            final(self).collections() == old(self).collections(),
    {
        self.parents.insert(e.to_bits(), parent);
    }

    /// Takes from `e` the parent that it holds, if any.
    pub fn take_parent(&mut self, e: Entity) -> (held: Option<P>)
        requires
            old(self).wf(),
        ensures
            match held {
                Some(p) => old(self)@.parent_of(e) == Some(p.entity()),
                None => old(self)@.parent_of(e).is_none(),
            },
            final(self)@ == old(self)@.without_parent(e),
            final(self).wf(),
            final(self).collections() == old(self).collections(),
    {
        self.parents.remove(&e.to_bits())
    }

    /// The children that `e` holds, if it holds a collection.
    pub fn children(&self, e: Entity) -> (held: Option<&C>)
        ensures
            match held {
                Some(c) => self@.children.contains_key(e) && c.entities() == self@.children[e],
                None => !self@.children.contains_key(e),
            },
    {
        self.children.get(&e.to_bits())
    }

    /// Makes `e` hold `children`, in place of what it held.
    pub fn put_children(&mut self, e: Entity, children: C)
        requires
            old(self).wf(),
            old(self)@.alive.contains(e),
        ensures
            final(self)@ == old(self)@.with_children(e, children.entities()),
            final(self).wf(),
            final(self).collections() == old(self).collections() + (if old(
                self,
            )@.children.contains_key(e) {
                0nat
            } else {
                1nat
            }),
    {
        self.children.insert(e.to_bits(), children);
    }

    /// Takes from `e` the collection of children that it holds, if any.
    pub fn take_children(&mut self, e: Entity) -> (held: Option<C>)
        requires
            old(self).wf(),
        ensures
            match held {
                Some(c) => old(self)@.children.contains_key(e) && c.entities() == old(
                    self,
                )@.children[e],
                None => !old(self)@.children.contains_key(e),
            },
            final(self)@ == old(self)@.without_children(e),
            final(self).wf(),
            final(self).collections() == old(self).collections() - (if old(
                self,
            )@.children.contains_key(e) {
                1nat
            } else {
                0nat
            }),
    {
        self.children.remove(&e.to_bits())
    }
}

} // verus!
