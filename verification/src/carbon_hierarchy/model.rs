//! The mathematical model of an entity store: which entities live, who is
//! whose parent, who lists whom as a child, and which events were recorded.
//!
//! Every operation of the hierarchy is stated as a function on this model.

use crate::carbon_hierarchy::error::HierarchyError;
use crate::carbon_hierarchy::hierarchy_event::HierarchyEvent;
use crate::entity::Entity;
use crate::sequences::distinct;
use vstd::prelude::*;

verus! {

/// The state of an entity store.
#[verifier::ext_equal]
pub struct Hierarchy {
    /// The entities that were spawned and not destroyed since.
    pub alive: Set<Entity>,
    /// The parent relation: each key names the parent that it holds.
    pub parent: Map<Entity, Entity>,
    /// The children relation: each key names the children that it holds.
    pub children: Map<Entity, Seq<Entity>>,
    /// The events recorded so far, or `None` where nothing listens.
    pub events: Option<Seq<HierarchyEvent>>,
    /// Every identifier below this number has been handed out.
    pub next: nat,
}

/// The test of not occurring in `list`.
pub open spec fn not_among(list: Seq<Entity>) -> spec_fn(Entity) -> bool {
    |c: Entity| !list.contains(c)
}

/// The test of being another entity than `e`.
pub open spec fn other_than(e: Entity) -> spec_fn(Entity) -> bool {
    |c: Entity| c != e
}

/// The announcement that a child left `parent`, as a function of the child.
pub open spec fn removal_from(parent: Entity) -> spec_fn(Entity) -> HierarchyEvent {
    |c: Entity| HierarchyEvent::ChildRemoved { child: c, parent }
}

impl Hierarchy {
    /// The store in which nothing was ever spawned and nothing listens.
    pub open spec fn empty() -> Hierarchy {
        Hierarchy {
            alive: Set::empty(),
            parent: Map::empty(),
            children: Map::empty(),
            events: None,
            next: 0,
        }
    }

    /// The store's own invariant: relations sit on living entities only, and
    /// no living entity carries an identifier that is still to be handed out.
    pub open spec fn wf(self) -> bool {
        &&& forall|e: Entity| #[trigger] self.alive.contains(e) ==> e.bits < self.next
        &&& forall|e: Entity| #[trigger] self.parent.contains_key(e) ==> self.alive.contains(e)
        &&& forall|e: Entity| #[trigger] self.children.contains_key(e) ==> self.alive.contains(e)
    }

    /// The parent that `e` holds, if any.
    pub open spec fn parent_of(self, e: Entity) -> Option<Entity> {
        if self.parent.contains_key(e) {
            Some(self.parent[e])
        } else {
            None
        }
    }

    /// The children that `e` holds; none where it holds no collection.
    pub open spec fn children_of(self, e: Entity) -> Seq<Entity> {
        if self.children.contains_key(e) {
            self.children[e]
        } else {
            Seq::empty()
        }
    }

    /// Whether `p` lists `c` among its children.
    pub open spec fn lists(self, p: Entity, c: Entity) -> bool {
        self.children.contains_key(p) && self.children[p].contains(c)
    }

    /// The store after the next identifier was handed out to a new entity.
    pub open spec fn spawn(self) -> Hierarchy {
        Hierarchy {
            alive: self.alive.insert(Entity { bits: self.next as u64 }),
            next: self.next + 1,
            ..self
        }
    }

    /// The store after `e` was destroyed alone: it and the relations that it
    /// held are gone, what others hold of it stays.
    pub open spec fn despawn(self, e: Entity) -> Hierarchy {
        Hierarchy {
            alive: self.alive.remove(e),
            parent: self.parent.remove(e),
            children: self.children.remove(e),
            ..self
        }
    }

    /// The store after `e` came to hold `p` as its parent.
    pub open spec fn with_parent(self, e: Entity, p: Entity) -> Hierarchy {
        Hierarchy { parent: self.parent.insert(e, p), ..self }
    }

    /// The store after `e` gave up the parent that it held.
    pub open spec fn without_parent(self, e: Entity) -> Hierarchy {
        Hierarchy { parent: self.parent.remove(e), ..self }
    }

    /// The store after `e` came to hold exactly `list` as its children.
    pub open spec fn with_children(self, e: Entity, list: Seq<Entity>) -> Hierarchy {
        Hierarchy { children: self.children.insert(e, list), ..self }
    }

    /// The store after `e` gave up its collection of children.
    pub open spec fn without_children(self, e: Entity) -> Hierarchy {
        Hierarchy { children: self.children.remove(e), ..self }
    }

    /// The store after `e` came to hold `list`, or no collection where
    /// `list` is empty: an empty collection is never kept.
    pub open spec fn with_collapsed(self, e: Entity, list: Seq<Entity>) -> Hierarchy {
        if list.len() == 0 {
            self.without_children(e)
        } else {
            self.with_children(e, list)
        }
    }

    /// The store after `events` were sent: recorded where something listens,
    /// dropped where nothing does.
    pub open spec fn push_events(self, events: Seq<HierarchyEvent>) -> Hierarchy {
        match self.events {
            Some(log) => Hierarchy { events: Some(log + events), ..self },
            None => self,
        }
    }

    /// The store after every entity of `set` gave up the parent that it held.
    pub open spec fn without_parents(self, set: Set<Entity>) -> Hierarchy {
        Hierarchy { parent: self.parent.remove_keys(set), ..self }
    }

    /// The store after `child` was appended to the children of `parent`,
    /// whether it was listed there or not.
    pub open spec fn add_child_unchecked(self, parent: Entity, child: Entity) -> Hierarchy {
        self.with_children(parent, self.children_of(parent).push(child))
    }

    /// The store after one occurrence of `child`, the first, left the
    /// children of `parent`. A collection that holds nothing afterwards is
    /// given up.
    pub open spec fn remove_from_children(self, parent: Entity, child: Entity) -> Hierarchy {
        if self.children.contains_key(parent) {
            self.with_collapsed(parent, self.children[parent].remove_value(child))
        } else {
            self
        }
    }

    /// The relations after `child` took `parent` as its parent and left the
    /// children of the parent that it had before, if that was another. The
    /// children of `parent` are as they were.
    pub open spec fn reparented(self, child: Entity, parent: Entity) -> Hierarchy {
        match self.parent_of(child) {
            Some(previous) => if previous == parent {
                self
            } else {
                self.with_parent(child, parent).remove_from_children(previous, child)
            },
            None => self.with_parent(child, parent),
        }
    }

    /// The events that tell of `child` taking `parent` as its parent: none
    /// where it had that parent already.
    pub open spec fn reparent_events(self, child: Entity, parent: Entity) -> Seq<HierarchyEvent> {
        match self.parent_of(child) {
            Some(previous) => if previous == parent {
                Seq::empty()
            } else {
                seq![HierarchyEvent::ChildMoved { child, previous_parent: previous, new_parent: parent }]
            },
            None => seq![HierarchyEvent::ChildAdded { child, parent }],
        }
    }

    /// The store after `child` took `parent` as its parent, left its former
    /// parent's children and the change was announced.
    pub open spec fn update_old_parent(self, child: Entity, parent: Entity) -> Hierarchy {
        self.reparented(child, parent).push_events(self.reparent_events(child, parent))
    }

    /// The relations after each entity of `children`, in order, took
    /// `parent` as its parent.
    pub open spec fn reparented_all(self, parent: Entity, children: Seq<Entity>) -> Hierarchy
        decreases children.len(),
    {
        if children.len() == 0 {
            self
        } else {
            self.reparented_all(parent, children.drop_last()).reparented(children.last(), parent)
        }
    }

    /// The events that tell of each entity of `children`, in order, taking
    /// `parent` as its parent.
    pub open spec fn reparent_all_events(self, parent: Entity, children: Seq<Entity>) -> Seq<
        HierarchyEvent,
    >
        decreases children.len(),
    {
        if children.len() == 0 {
            Seq::empty()
        } else {
            self.reparent_all_events(parent, children.drop_last()) + self.reparented_all(
                parent,
                children.drop_last(),
            ).reparent_events(children.last(), parent)
        }
    }

    /// The store after each entity of `children`, in order, took `parent` as
    /// its parent and the changes were announced together.
    pub open spec fn update_old_parents(self, parent: Entity, children: Seq<Entity>) -> Hierarchy {
        self.reparented_all(parent, children).push_events(
            self.reparent_all_events(parent, children),
        )
    }

    /// The test of being listed among the children of `parent`.
    pub open spec fn listed_by(self, parent: Entity) -> spec_fn(Entity) -> bool {
        |c: Entity| self.lists(parent, c)
    }

    /// The entities of `children` that `parent` lists, each once, in the
    /// order in which `children` first names them.
    pub open spec fn listed(self, parent: Entity, children: Seq<Entity>) -> Seq<Entity> {
        distinct(children).filter(self.listed_by(parent))
    }

    /// The store after the entities of `children` that `parent` lists left
    /// it: each gave up its parent, `parent` no longer lists any of them,
    /// and one removal was announced for each. Where `parent` holds no
    /// collection nothing happens.
    pub open spec fn remove_children(self, parent: Entity, children: Seq<Entity>) -> Hierarchy {
        if self.children.contains_key(parent) {
            let gone = self.listed(parent, children);
            self.without_parents(gone.to_set()).push_events(
                gone.map_values(removal_from(parent)),
            ).with_collapsed(parent, self.children[parent].filter(not_among(children)))
        } else {
            self
        }
    }

    /// The store after `parent` gave up its collection and each entity that
    /// it listed gave up its parent. Nothing is announced.
    pub open spec fn clear_children(self, parent: Entity) -> Hierarchy {
        self.without_children(parent).without_parents(self.children_of(parent).to_set())
    }

    /// Why `children` cannot be made children of `parent`, if they cannot:
    /// `parent` is among them, or it or one of them does not live.
    pub open spec fn attach_error(self, parent: Entity, children: Seq<Entity>) -> Option<
        HierarchyError,
    > {
        if children.contains(parent) {
            Some(HierarchyError::SelfParenting)
        } else if !self.all_alive(parent, children) {
            Some(HierarchyError::MissingEntity)
        } else {
            None
        }
    }

    /// Whether `parent` and every entity of `children` live.
    pub open spec fn all_alive(self, parent: Entity, children: Seq<Entity>) -> bool {
        &&& self.alive.contains(parent)
        &&& forall|i: int| 0 <= i < children.len() ==> self.alive.contains(#[trigger] children[i])
    }

    /// The store after `child` became the last child of `parent`: it left
    /// the parent that it had, and the change was announced. Where it was a
    /// child of `parent` already, it moves to the end and nothing is
    /// announced.
    pub open spec fn add_child(self, parent: Entity, child: Entity) -> Hierarchy {
        let moved = self.update_old_parent(child, parent);
        moved.with_children(
            parent,
            moved.children_of(parent).filter(other_than(child)).push(child),
        )
    }

    /// The store after the entities of `once`, none of which is named
    /// twice, became the last children of `parent`, in their order. Nothing
    /// changes where there are none.
    pub open spec fn attach_last(self, parent: Entity, once: Seq<Entity>) -> Hierarchy {
        if once.len() == 0 {
            self
        } else {
            let moved = self.update_old_parents(parent, once);
            moved.with_children(parent, moved.children_of(parent).filter(not_among(once)) + once)
        }
    }

    /// The store after the entities of `children` became the last children
    /// of `parent`: each once, in the order in which they are first named.
    pub open spec fn add_children(self, parent: Entity, children: Seq<Entity>) -> Hierarchy {
        self.attach_last(parent, distinct(children))
    }

    /// The children of `parent` that stay in their places when `once` are
    /// put in: those that are not among `once`.
    pub open spec fn staying(self, parent: Entity, once: Seq<Entity>) -> Seq<Entity> {
        self.children_of(parent).filter(not_among(once))
    }

    /// Whether `index` is a position at which `children` can be put in
    /// among the children of `parent`: not past the end of those that stay.
    /// A parent that holds no collection takes them at any index.
    pub open spec fn index_fits(self, parent: Entity, index: int, children: Seq<Entity>) -> bool {
        self.children.contains_key(parent) ==> index <= self.staying(
            parent,
            distinct(children),
        ).len()
    }

    /// Why `children` cannot be put in at `index` among the children of
    /// `parent`, if they cannot.
    pub open spec fn insert_error(
        self,
        parent: Entity,
        index: int,
        children: Seq<Entity>,
    ) -> Option<HierarchyError> {
        match self.attach_error(parent, children) {
            Some(error) => Some(error),
            None => if !self.index_fits(parent, index, children) {
                Some(HierarchyError::IndexOutOfBounds)
            } else {
                None
            },
        }
    }

    /// The store after the entities of `once`, none of which is named
    /// twice, became children of `parent` at position `index` among those
    /// that stay, which keep their order around them. Where `parent` held
    /// no collection they are its children as they come.
    pub open spec fn attach_at(self, parent: Entity, index: int, once: Seq<Entity>) -> Hierarchy {
        let moved = self.update_old_parents(parent, once);
        let stay = moved.staying(parent, once);
        let at = if moved.children.contains_key(parent) {
            index
        } else {
            0
        };
        moved.with_collapsed(
            parent,
            stay.subrange(0, at) + once + stay.subrange(at, stay.len() as int),
        )
    }

    /// The store after the entities of `children` became children of
    /// `parent` at position `index`: each once, in the order in which they
    /// are first named.
    pub open spec fn insert_children(
        self,
        parent: Entity,
        index: int,
        children: Seq<Entity>,
    ) -> Hierarchy {
        self.attach_at(parent, index, distinct(children))
    }

    /// The store after `child` gave up its parent and left that parent's
    /// children, which was announced. Nothing changes where it has none.
    pub open spec fn remove_parent(self, child: Entity) -> Hierarchy {
        match self.parent_of(child) {
            Some(parent) => self.without_parent(child).remove_from_children(
                parent,
                child,
            ).push_events(seq![HierarchyEvent::ChildRemoved { child, parent }]),
            None => self,
        }
    }

    /// The store after `parent` gave up all its children and took
    /// `children` in their place.
    pub open spec fn replace_children(self, parent: Entity, children: Seq<Entity>) -> Hierarchy {
        self.clear_children(parent).add_children(parent, children)
    }

    /// The inverse invariant: `p` lists `c` exactly when `c` holds `p` as
    /// its parent; no collection lists an entity twice or holds nothing; and
    /// no entity is its own parent.
    pub open spec fn consistent(self) -> bool {
        &&& forall|p: Entity, c: Entity| #[trigger]
            self.lists(p, c) <==> self.parent_of(c) == Some(p)
        &&& forall|p: Entity| #[trigger]
            self.children.contains_key(p) ==> self.children[p].no_duplicates()
                && self.children[p].len() > 0
        &&& forall|e: Entity| self.parent_of(e) != Some(e)
    }

    /// Taking a parent changes neither who lives nor what the new parent
    /// lists.
    pub proof fn lemma_reparented_keeps(self, child: Entity, parent: Entity)
        ensures
            self.reparented(child, parent).alive == self.alive,
            self.reparented(child, parent).next == self.next,
            self.reparented(child, parent).children.contains_key(parent)
                == self.children.contains_key(parent),
            self.reparented(child, parent).children_of(parent) == self.children_of(parent),
    {
    }

    /// Taking a parent one after another changes neither who lives nor what
    /// the new parent lists.
    pub proof fn lemma_reparented_all_keeps(self, parent: Entity, children: Seq<Entity>)
        ensures
            self.reparented_all(parent, children).alive == self.alive,
            self.reparented_all(parent, children).next == self.next,
            self.reparented_all(parent, children).children.contains_key(parent)
                == self.children.contains_key(parent),
            self.reparented_all(parent, children).children_of(parent) == self.children_of(parent),
        decreases children.len(),
    {
        if children.len() > 0 {
            self.lemma_reparented_all_keeps(parent, children.drop_last());
            self.reparented_all(parent, children.drop_last()).lemma_reparented_keeps(
                children.last(),
                parent,
            );
        }
    }

    /// The entity that is spawned next.
    pub open spec fn fresh(self) -> Entity {
        Entity { bits: self.next as u64 }
    }

    /// The store after a new entity was spawned as the last child of
    /// `parent`. Nothing is announced.
    pub open spec fn with_child(self, parent: Entity) -> Hierarchy {
        let child = self.fresh();
        let grown = self.spawn().with_parent(child, parent);
        grown.with_children(parent, grown.children_of(parent).filter(other_than(child)).push(child))
    }

    /// The store after a new entity was spawned and appended to the
    /// children of `parent`, which was announced as an addition.
    pub open spec fn spawn_child(self, parent: Entity) -> Hierarchy {
        let child = self.fresh();
        self.spawn().with_parent(child, parent).add_child_unchecked(parent, child).push_events(
            seq![HierarchyEvent::ChildAdded { child, parent }],
        )
    }

    /// The store after `count` entities were spawned as children of
    /// `parent`, one after another.
    pub open spec fn spawn_children(self, parent: Entity, count: nat) -> Hierarchy
        decreases count,
    {
        if count == 0 {
            self
        } else {
            self.spawn_children(parent, (count - 1) as nat).spawn_child(parent)
        }
    }
}

} // verus!
