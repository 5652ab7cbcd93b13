//! What holds of the structural operations, proved over the model.

use crate::carbon_hierarchy::hierarchy_event::HierarchyEvent;
use crate::carbon_hierarchy::model::{not_among, other_than, Hierarchy};
use crate::entity::Entity;
use crate::sequences::{
    distinct, lemma_distinct, lemma_filter_contains_iff, lemma_filter_no_duplicates,
    lemma_filter_out_one, lemma_inserted_no_duplicates, lemma_push_to_set,
    lemma_remove_value_no_duplicates,
};
use vstd::prelude::*;

verus! {

impl Hierarchy {
    /// The inverse invariant but for the entities of `set`: each of them
    /// holds `p` as its parent and is listed by no other entity, while `p`
    /// may or may not list it yet.
    pub open spec fn consistent_but(self, p: Entity, set: Set<Entity>) -> bool {
        &&& forall|x: Entity, y: Entity|
            !set.contains(y) ==> (#[trigger] self.lists(x, y) <==> self.parent_of(y) == Some(x))
        &&& forall|y: Entity| #[trigger] set.contains(y) ==> self.parent_of(y) == Some(p)
        &&& forall|x: Entity, y: Entity|
            set.contains(y) && x != p ==> !#[trigger] self.lists(x, y)
        &&& forall|q: Entity| #[trigger]
            self.children.contains_key(q) ==> self.children[q].no_duplicates()
                && self.children[q].len() > 0
        &&& forall|e: Entity| self.parent_of(e) != Some(e)
    }

    /// The inverse invariant speaks of the two relations only.
    pub proof fn lemma_consistent_by_relations(self, other: Hierarchy)
        requires
            self.consistent(),
            self.parent == other.parent,
            self.children == other.children,
        ensures
            other.consistent(),
    {
        assert forall|x: Entity, y: Entity| #[trigger]
            other.lists(x, y) <==> other.parent_of(y) == Some(x) by {
            assert(self.lists(x, y) <==> self.parent_of(y) == Some(x));
        }
        assert forall|e: Entity| other.parent_of(e) != Some(e) by {
            assert(self.parent_of(e) != Some(e));
        }
    }

    /// One entity taking `p` as its parent keeps the invariant but for the
    /// entities that took it so far.
    pub proof fn lemma_reparented_step(self, c: Entity, p: Entity, set: Set<Entity>)
        requires
            self.consistent_but(p, set),
            c != p,
        ensures
            self.reparented(c, p).consistent_but(p, set.insert(c)),
    {
        let after = self.reparented(c, p);
        let more = set.insert(c);
        match self.parent_of(c) {
            Some(q) => {
                if q == p {
                    if !set.contains(c) {
                        assert(self.lists(p, c));
                    }
                    assert forall|x: Entity, y: Entity| more.contains(y) && x != p implies !(
                    #[trigger] after.lists(x, y)) by {
                        if y == c && !set.contains(c) {
                            if self.lists(x, c) {
                                assert(self.parent_of(c) == Some(x));
                            }
                        }
                    }
                } else {
                    assert(!set.contains(c));
                    assert(self.lists(q, c));
                    let list = self.children[q];
                    lemma_remove_value_no_duplicates(list, c);
                    let rest = list.remove_value(c);
                    assert forall|x: Entity, y: Entity| #[trigger]
                        after.lists(x, y) <==> (self.lists(x, y) && !(x == q && y == c)) by {
                        if x == q {
                            assert(rest.contains(y) <==> list.contains(y) && y != c);
                        }
                    }
                    assert forall|x: Entity, y: Entity| !more.contains(y) implies (
                    #[trigger] after.lists(x, y) <==> after.parent_of(y) == Some(x)) by {
                        assert(self.lists(x, y) <==> self.parent_of(y) == Some(x));
                    }
                    assert forall|x: Entity, y: Entity| more.contains(y) && x != p implies !(
                    #[trigger] after.lists(x, y)) by {
                        if y == c {
                            if self.lists(x, c) {
                                assert(self.parent_of(c) == Some(x));
                            }
                        } else {
                            assert(!self.lists(x, y));
                        }
                    }
                    assert forall|e: Entity| after.parent_of(e) != Some(e) by {
                        assert(self.parent_of(e) != Some(e));
                    }
                }
            },
            None => {
                assert(!set.contains(c));
                assert forall|x: Entity, y: Entity| #[trigger]
                    after.lists(x, y) <==> self.lists(x, y) by {}
                assert forall|x: Entity, y: Entity| more.contains(y) && x != p implies !(
                #[trigger] after.lists(x, y)) by {
                    if y == c {
                        if self.lists(x, c) {
                            assert(self.parent_of(c) == Some(x));
                        }
                    } else {
                        assert(!self.lists(x, y));
                    }
                }
                assert forall|e: Entity| after.parent_of(e) != Some(e) by {
                    assert(self.parent_of(e) != Some(e));
                }
            },
        }
    }

    /// Entities taking `p` as their parent one after another keep the
    /// invariant but for themselves.
    pub proof fn lemma_reparented_all_step(self, p: Entity, children: Seq<Entity>)
        requires
            self.consistent(),
            !children.contains(p),
        ensures
            self.reparented_all(p, children).consistent_but(p, children.to_set()),
        decreases children.len(),
    {
        if children.len() == 0 {
            assert(children.to_set() == Set::<Entity>::empty());
        } else {
            let front = children.drop_last();
            assert forall|i: int| 0 <= i < front.len() implies front[i] != p by {
                assert(children[i] == front[i]);
            }
            self.lemma_reparented_all_step(p, front);
            assert(children.last() != p);
            self.reparented_all(p, front).lemma_reparented_step(
                children.last(),
                p,
                front.to_set(),
            );
            assert(children == front.push(children.last()));
            lemma_push_to_set(front, children.last());
        }
    }

    /// Where the invariant holds but for `set`, giving `p` a list that holds
    /// what it listed and the entities of `set`, each once, restores it.
    pub proof fn lemma_listing_restores(self, p: Entity, set: Set<Entity>, list: Seq<Entity>)
        requires
            self.consistent_but(p, set),
            list.no_duplicates(),
            forall|x: Entity| #[trigger] list.contains(x) <==> self.lists(p, x) || set.contains(x),
        ensures
            self.with_collapsed(p, list).consistent(),
    {
        let after = self.with_collapsed(p, list);
        if list.len() == 0 {
            assert forall|y: Entity| !set.contains(y) by {
                assert(!list.contains(y));
            }
            if self.children.contains_key(p) {
                assert(self.lists(p, self.children[p][0]));
                assert(list.contains(self.children[p][0]));
            }
            assert(after.children == self.children);
            assert forall|x: Entity, y: Entity| #[trigger]
                after.lists(x, y) <==> after.parent_of(y) == Some(x) by {
                assert(self.lists(x, y) <==> self.parent_of(y) == Some(x));
            }
        } else {
            assert forall|x: Entity, y: Entity| #[trigger]
                after.lists(x, y) <==> after.parent_of(y) == Some(x) by {
                assert(after.parent_of(y) == self.parent_of(y));
                if x == p {
                    assert(after.lists(p, y) <==> list.contains(y));
                    assert(list.contains(y) <==> self.lists(p, y) || set.contains(y));
                    if !set.contains(y) {
                        assert(self.lists(p, y) <==> self.parent_of(y) == Some(p));
                    }
                } else {
                    assert(after.lists(x, y) <==> self.lists(x, y));
                    if set.contains(y) {
                        assert(!self.lists(x, y));
                    } else {
                        assert(self.lists(x, y) <==> self.parent_of(y) == Some(x));
                    }
                }
            }
            assert forall|q: Entity| #[trigger] after.children.contains_key(q) implies after.children[q].no_duplicates()
                && after.children[q].len() > 0 by {
                if q != p {
                    assert(self.children.contains_key(q));
                }
            }
        }
        assert forall|e: Entity| after.parent_of(e) != Some(e) by {
            assert(self.parent_of(e) != Some(e));
        }
    }

    /// Attaching one child keeps the inverse invariant.
    pub proof fn lemma_add_child_consistent(self, parent: Entity, child: Entity)
        requires
            self.consistent(),
            child != parent,
        ensures
            self.add_child(parent, child).consistent(),
    {
        let moved = self.reparented(child, parent);
        assert(self.consistent_but(parent, Set::empty()));
        self.lemma_reparented_step(child, parent, Set::empty());
        let set = Set::<Entity>::empty().insert(child);
        self.lemma_reparented_keeps(child, parent);
        let was = moved.children_of(parent);
        if moved.children.contains_key(parent) {
            assert(was.no_duplicates());
        }
        let mid = seq![child];
        let apart = other_than(child);
        assert forall|x: Entity| #[trigger] apart(x) == !mid.contains(x) by {
            if x == child {
                assert(mid[0] == x);
            }
        }
        let stay = was.filter(apart);
        lemma_inserted_no_duplicates(was, mid, apart, stay.len() as int);
        let list = stay.push(child);
        assert(list == stay.subrange(0, stay.len() as int) + mid + stay.subrange(
            stay.len() as int,
            stay.len() as int,
        ));
        assert forall|x: Entity| #[trigger] list.contains(x) <==> moved.lists(parent, x)
            || set.contains(x) by {
            if x == child {
                assert(mid[0] == x);
            }
        }
        moved.lemma_listing_restores(parent, set, list);
        assert(list.len() > 0);
        let pushed = self.update_old_parent(child, parent);
        assert(pushed.children == moved.children);
        assert(pushed.parent == moved.parent);
        moved.with_collapsed(parent, list).lemma_consistent_by_relations(
            self.add_child(parent, child),
        );
    }

    /// Putting in, at a position, children of which none is named twice
    /// keeps the inverse invariant.
    pub proof fn lemma_attach_at_consistent(self, parent: Entity, index: int, once: Seq<Entity>)
        requires
            self.consistent(),
            !once.contains(parent),
            once.no_duplicates(),
            0 <= index,
            self.children.contains_key(parent) ==> index <= self.staying(parent, once).len(),
        ensures
            self.attach_at(parent, index, once).consistent(),
    {
        let moved = self.reparented_all(parent, once);
        self.lemma_reparented_all_step(parent, once);
        self.lemma_reparented_all_keeps(parent, once);
        let was = moved.children_of(parent);
        if moved.children.contains_key(parent) {
            assert(was.no_duplicates());
        }
        let apart = not_among(once);
        let stay = was.filter(apart);
        let at = if moved.children.contains_key(parent) {
            index
        } else {
            0
        };
        lemma_inserted_no_duplicates(was, once, apart, at);
        let list = stay.subrange(0, at) + once + stay.subrange(at, stay.len() as int);
        moved.lemma_listing_restores(parent, once.to_set(), list);
        let pushed = self.update_old_parents(parent, once);
        assert(pushed.children == moved.children);
        assert(pushed.parent == moved.parent);
        moved.with_collapsed(parent, list).lemma_consistent_by_relations(
            self.attach_at(parent, index, once),
        );
    }

    /// Attaching, at the end, children of which none is named twice keeps
    /// the inverse invariant.
    pub proof fn lemma_attach_last_consistent(self, parent: Entity, once: Seq<Entity>)
        requires
            self.consistent(),
            !once.contains(parent),
            once.no_duplicates(),
        ensures
            self.attach_last(parent, once).consistent(),
    {
        if once.len() > 0 {
            let stay = self.staying(parent, once);
            self.lemma_attach_at_consistent(parent, stay.len() as int, once);
            self.lemma_reparented_all_keeps(parent, once);
            let moved = self.update_old_parents(parent, once);
            assert(moved.children_of(parent) == self.children_of(parent));
            let list = stay.subrange(0, stay.len() as int) + once + stay.subrange(
                stay.len() as int,
                stay.len() as int,
            );
            assert(list == stay + once);
            assert(list.len() > 0);
            self.attach_at(parent, stay.len() as int, once).lemma_consistent_by_relations(
                self.attach_last(parent, once),
            );
        }
    }

    /// Putting children in at a position keeps the inverse invariant,
    /// however often a child is named.
    pub proof fn lemma_insert_children_consistent(
        self,
        parent: Entity,
        index: int,
        children: Seq<Entity>,
    )
        requires
            self.consistent(),
            !children.contains(parent),
            0 <= index,
            self.index_fits(parent, index, children),
        ensures
            self.insert_children(parent, index, children).consistent(),
            forall|c: Entity|
                children.contains(c) ==> #[trigger] self.insert_children(
                    parent,
                    index,
                    children,
                ).parent_of(c) == Some(parent),
    {
        lemma_distinct(children);
        let once = distinct(children);
        self.lemma_attach_at_consistent(parent, index, once);
        self.lemma_attached_hold_parent(parent, once);
        let out = self.insert_children(parent, index, children);
        let moved = self.update_old_parents(parent, once);
        assert forall|c: Entity| children.contains(c) implies #[trigger] out.parent_of(c) == Some(
            parent,
        ) by {
            assert(once.contains(c));
            assert(moved.parent_of(c) == Some(parent));
        }
    }

    /// Attaching children at the end keeps the inverse invariant, however
    /// often a child is named, and lists each of them once.
    pub proof fn lemma_add_children_consistent(self, parent: Entity, children: Seq<Entity>)
        requires
            self.consistent(),
            !children.contains(parent),
        ensures
            self.add_children(parent, children).consistent(),
            forall|c: Entity|
                children.contains(c) ==> #[trigger] self.add_children(parent, children).parent_of(
                    c,
                ) == Some(parent),
    {
        lemma_distinct(children);
        let once = distinct(children);
        self.lemma_attach_last_consistent(parent, once);
        self.lemma_attached_hold_parent(parent, once);
        let out = self.add_children(parent, children);
        let moved = self.update_old_parents(parent, once);
        assert forall|c: Entity| children.contains(c) implies #[trigger] out.parent_of(c) == Some(
            parent,
        ) by {
            assert(once.contains(c));
            assert(moved.parent_of(c) == Some(parent));
            if once.len() == 0 {
                let k = choose|k: int| 0 <= k < once.len() && once[k] == c;
            }
        }
    }

    /// After entities took `parent` as their parent one after another, each
    /// of them holds it.
    pub proof fn lemma_attached_hold_parent(self, parent: Entity, once: Seq<Entity>)
        ensures
            forall|c: Entity|
                once.contains(c) ==> #[trigger] self.update_old_parents(parent, once).parent_of(c)
                    == Some(parent),
            forall|c: Entity|
                once.contains(c) ==> #[trigger] self.reparented_all(parent, once).parent_of(c)
                    == Some(parent),
        decreases once.len(),
    {
        if once.len() > 0 {
            let front = once.drop_last();
            self.lemma_attached_hold_parent(parent, front);
            let before = self.reparented_all(parent, front);
            let after = self.reparented_all(parent, once);
            assert forall|c: Entity| once.contains(c) implies #[trigger] after.parent_of(c) == Some(
                parent,
            ) by {
                let k = choose|k: int| 0 <= k < once.len() && once[k] == c;
                if k < front.len() {
                    assert(front[k] == c);
                    assert(front.contains(c));
                    assert(before.parent_of(c) == Some(parent));
                }
            }
            assert forall|c: Entity| once.contains(c) implies #[trigger] self.update_old_parents(
                parent,
                once,
            ).parent_of(c) == Some(parent) by {
                assert(after.parent_of(c) == Some(parent));
            }
        }
    }

    /// Detaching listed children keeps the inverse invariant.
    pub proof fn lemma_remove_children_consistent(self, parent: Entity, children: Seq<Entity>)
        requires
            self.consistent(),
        ensures
            self.remove_children(parent, children).consistent(),
    {
        if self.children.contains_key(parent) {
            let after = self.remove_children(parent, children);
            let list = self.children[parent];
            let gone = self.listed(parent, children);
            let rest = list.filter(not_among(children));
            lemma_filter_no_duplicates(list, not_among(children));
            lemma_distinct(children);
            assert forall|y: Entity| #[trigger] gone.contains(y) <==> children.contains(y)
                && self.lists(parent, y) by {
                lemma_filter_contains_iff(distinct(children), self.listed_by(parent), y);
            }
            assert forall|y: Entity| #[trigger] rest.contains(y) <==> list.contains(y)
                && !children.contains(y) by {
                lemma_filter_contains_iff(list, not_among(children), y);
            }
            assert forall|x: Entity, y: Entity| #[trigger]
                after.lists(x, y) <==> after.parent_of(y) == Some(x) by {
                assert(self.lists(x, y) <==> self.parent_of(y) == Some(x));
                assert(self.lists(parent, y) <==> self.parent_of(y) == Some(parent));
                assert(gone.to_set().contains(y) <==> gone.contains(y));
                if x == parent {
                    assert(after.lists(parent, y) <==> rest.contains(y));
                } else {
                    assert(after.lists(x, y) <==> self.lists(x, y));
                }
            }
            assert forall|e: Entity| after.parent_of(e) != Some(e) by {
                assert(self.parent_of(e) != Some(e));
            }
        }
    }

    /// Detaching a child from its parent keeps the inverse invariant.
    pub proof fn lemma_remove_parent_consistent(self, child: Entity)
        requires
            self.consistent(),
        ensures
            self.remove_parent(child).consistent(),
    {
        match self.parent_of(child) {
            Some(parent) => {
                let after = self.remove_parent(child);
                assert(self.lists(parent, child));
                let list = self.children[parent];
                lemma_remove_value_no_duplicates(list, child);
                let rest = list.remove_value(child);
                assert forall|x: Entity, y: Entity| #[trigger]
                    after.lists(x, y) <==> after.parent_of(y) == Some(x) by {
                    assert(self.lists(x, y) <==> self.parent_of(y) == Some(x));
                    if x == parent {
                        assert(rest.contains(y) <==> list.contains(y) && y != child);
                    }
                }
                assert forall|e: Entity| after.parent_of(e) != Some(e) by {
                    assert(self.parent_of(e) != Some(e));
                }
            },
            None => {},
        }
    }

    /// Detaching all children keeps the inverse invariant.
    pub proof fn lemma_clear_children_consistent(self, parent: Entity)
        requires
            self.consistent(),
        ensures
            self.clear_children(parent).consistent(),
    {
        let after = self.clear_children(parent);
        let list = self.children_of(parent);
        assert forall|x: Entity, y: Entity| #[trigger]
            after.lists(x, y) <==> after.parent_of(y) == Some(x) by {
            assert(self.lists(x, y) <==> self.parent_of(y) == Some(x));
            assert(self.lists(parent, y) <==> self.parent_of(y) == Some(parent));
            assert(list.to_set().contains(y) <==> list.contains(y));
        }
        assert forall|e: Entity| after.parent_of(e) != Some(e) by {
            assert(self.parent_of(e) != Some(e));
        }
    }

    /// Replacing all children keeps the inverse invariant, however often a
    /// new child is named.
    pub proof fn lemma_replace_children_consistent(self, parent: Entity, children: Seq<Entity>)
        requires
            self.consistent(),
            !children.contains(parent),
        ensures
            self.replace_children(parent, children).consistent(),
    {
        self.lemma_clear_children_consistent(parent);
        self.clear_children(parent).lemma_add_children_consistent(parent, children);
    }

    /// Spawning keeps the inverse invariant, and the store in which nothing
    /// was spawned has it.
    pub proof fn lemma_spawn_consistent(self)
        requires
            self.consistent(),
        ensures
            self.spawn().consistent(),
            Hierarchy::empty().consistent(),
    {
        let after = self.spawn();
        assert forall|x: Entity, y: Entity| #[trigger]
            after.lists(x, y) <==> after.parent_of(y) == Some(x) by {
            assert(self.lists(x, y) <==> self.parent_of(y) == Some(x));
        }
        assert forall|e: Entity| after.parent_of(e) != Some(e) by {
            assert(self.parent_of(e) != Some(e));
        }
    }

    /// Attaching a child to the parent that it has already announces
    /// nothing and lists the child once, at the end.
    pub proof fn lemma_add_child_again(self, parent: Entity, child: Entity)
        requires
            self.consistent(),
            self.lists(parent, child),
        ensures
            self.add_child(parent, child).events == self.events,
            self.add_child(parent, child).parent == self.parent,
            self.add_child(parent, child).children[parent].no_duplicates(),
            self.add_child(parent, child).children[parent].last() == child,
            self.add_child(parent, child).children[parent].len() == self.children[parent].len(),
            forall|x: Entity|
                self.add_child(parent, child).lists(parent, x) <==> #[trigger] self.lists(
                    parent,
                    x,
                ),
    {
        assert(self.parent_of(child) == Some(parent));
        assert(self.reparent_events(child, parent) == Seq::<HierarchyEvent>::empty());
        match self.events {
            Some(log) => {
                assert(log + Seq::<HierarchyEvent>::empty() == log);
            },
            None => {},
        }
        let was = self.children[parent];
        let mid = seq![child];
        let apart = other_than(child);
        assert forall|x: Entity| #[trigger] apart(x) == !mid.contains(x) by {
            if x == child {
                assert(mid[0] == x);
            }
        }
        let stay = was.filter(apart);
        lemma_inserted_no_duplicates(was, mid, apart, stay.len() as int);
        let list = stay.push(child);
        assert(list == stay.subrange(0, stay.len() as int) + mid + stay.subrange(
            stay.len() as int,
            stay.len() as int,
        ));
        lemma_remove_value_no_duplicates(was, child);
        lemma_filter_out_one(was, child);
        assert forall|x: Entity|
            self.add_child(parent, child).lists(parent, x) <==> #[trigger] self.lists(
                parent,
                x,
            ) by {
            if x == child {
                assert(mid[0] == x);
            }
        }
    }

    /// Moving a child from one parent to another takes it out of the first
    /// parent's children, puts it into the second's, and announces exactly
    /// that one move.
    pub proof fn lemma_move_consistency(self, child: Entity, from: Entity, to: Entity)
        requires
            self.consistent(),
            self.parent_of(child) == Some(from),
            from != to,
            child != to,
        ensures
            !self.add_child(to, child).lists(from, child),
            self.add_child(to, child).lists(to, child),
            self.add_child(to, child).parent_of(child) == Some(to),
            self.add_child(to, child).events == self.push_events(
                seq![
                    HierarchyEvent::ChildMoved { child, previous_parent: from, new_parent: to },
                ],
            ).events,
            self.add_child(to, child).consistent(),
    {
        self.lemma_add_child_consistent(to, child);
        let after = self.add_child(to, child);
        assert(after.parent_of(child) == Some(to));
        assert(after.lists(to, child));
        if after.lists(from, child) {
            assert(after.parent_of(child) == Some(from));
        }
    }

    /// When the last child of a parent leaves, by being detached or by
    /// moving elsewhere, the parent holds no collection at all.
    pub proof fn lemma_last_child_collapses(self, parent: Entity, child: Entity, to: Entity)
        requires
            self.consistent(),
            self.children.contains_key(parent),
            self.children[parent] == seq![child],
            to != parent,
            to != child,
        ensures
            !self.remove_parent(child).children.contains_key(parent),
            !self.remove_children(parent, seq![child]).children.contains_key(parent),
            !self.clear_children(parent).children.contains_key(parent),
            !self.add_child(to, child).children.contains_key(parent),
    {
        let list = self.children[parent];
        assert(list[0] == child);
        assert(self.lists(parent, child));
        assert(self.parent_of(child) == Some(parent));
        list.index_of_first_ensures(child);
        assert(list.remove_value(child).len() == 0);
        let only = seq![child];
        assert(only[0] == child);
        lemma_filter_no_duplicates(list, not_among(only));
        assert(list.filter(not_among(only)).len() == 0) by {
            let rest = list.filter(not_among(only));
            if rest.len() > 0 {
                lemma_filter_contains_iff(list, not_among(only), rest[0]);
                assert(rest.contains(rest[0]));
                let k = choose|k: int| 0 <= k < list.len() && list[k] == rest[0];
                assert(only.contains(rest[0]));
            }
        }
    }

    /// Whether every relation names living entities only: nobody lists, and
    /// nobody holds as its parent, an entity that does not live.
    pub open spec fn refers_to_living(self) -> bool {
        &&& forall|p: Entity, c: Entity| #[trigger]
            self.lists(p, c) ==> self.alive.contains(p) && self.alive.contains(c)
        &&& forall|c: Entity| #[trigger]
            self.parent.contains_key(c) ==> self.alive.contains(c) && self.alive.contains(
                self.parent[c],
            )
    }

    /// In a store that keeps both invariants every relation names living
    /// entities only.
    pub proof fn lemma_consistent_refers_to_living(self)
        requires
            self.wf(),
            self.consistent(),
        ensures
            self.refers_to_living(),
    {
        assert forall|p: Entity, c: Entity| #[trigger] self.lists(p, c) implies self.alive.contains(
            p,
        ) && self.alive.contains(c) by {
            assert(self.parent_of(c) == Some(p));
        }
        assert forall|c: Entity| #[trigger] self.parent.contains_key(c) implies self.alive.contains(
            c,
        ) && self.alive.contains(self.parent[c]) by {
            assert(self.lists(self.parent[c], c) <==> self.parent_of(c) == Some(self.parent[c]));
        }
    }

    /// Destroying an entity with its descendants is complete: the entity
    /// and each of its descendants are gone and nothing else is; nobody
    /// lists the entity any more; and where the inverse invariant held and
    /// every relation named living entities, both still hold, so that no
    /// relation is left that names an entity that is gone.
    pub proof fn lemma_despawn_recursive_complete(self, root: Entity)
        requires
            self.consistent(),
            self.refers_to_living(),
        ensures
            !self.despawn_recursive(root).alive.contains(root),
            forall|e: Entity| #[trigger]
                self.is_descendant(root, e) ==> !self.despawn_recursive(root).alive.contains(e),
            forall|e: Entity| #[trigger]
                self.despawn_recursive(root).alive.contains(e) <==> self.alive.contains(e) && e
                    != root && !self.is_descendant(root, e),
            forall|p: Entity| !#[trigger] self.despawn_recursive(root).lists(p, root),
            self.wf() ==> self.despawn_recursive(root).wf(),
            self.despawn_recursive(root).consistent(),
            self.despawn_recursive(root).refers_to_living(),
    {
        let gone = self.subtree(root);
        let cut = self.detached(root);
        let after = self.despawn_recursive(root);
        self.lemma_reaches_self(root);
        self.lemma_detached_lists(root);
        self.lemma_detached_unlisted(root);
        assert forall|e: Entity| gone.contains(e) <==> e == root || self.is_descendant(root, e) by {
            self.lemma_reaches_iff_descends(root, e);
        }
        assert forall|x: Entity, y: Entity| #[trigger] after.lists(x, y) implies !gone.contains(y)
            && self.lists(x, y) by {
            assert(cut.lists(x, y));
            assert(y != root);
            assert(self.lists(x, y) <==> self.parent_of(y) == Some(x));
            if gone.contains(y) {
                let by = self.lemma_descendant_is_listed(root, y);
                assert(self.parent_of(y) == Some(by));
            }
        }
        assert forall|x: Entity, y: Entity| #[trigger]
            after.lists(x, y) <==> after.parent_of(y) == Some(x) by {
            assert(self.lists(x, y) <==> self.parent_of(y) == Some(x));
            if after.parent_of(y) == Some(x) {
                if gone.contains(x) {
                    self.lemma_reaches_child(root, x, y);
                }
                assert(cut.lists(x, y));
            }
        }
        assert forall|q: Entity| #[trigger] after.children.contains_key(q) implies after.children[q].no_duplicates()
            && after.children[q].len() > 0 by {
            assert(cut.children.contains_key(q));
        }
        assert forall|e: Entity| after.parent_of(e) != Some(e) by {
            assert(self.parent_of(e) != Some(e));
        }
        assert forall|p: Entity| !#[trigger] after.lists(p, root) by {
            assert(!cut.lists(p, root));
        }
        if self.wf() {
            assert forall|e: Entity| #[trigger] after.children.contains_key(e) implies after.alive.contains(
                e,
            ) by {
                assert(cut.children.contains_key(e) ==> self.children.contains_key(e));
            }
        }
        assert forall|p: Entity, c: Entity| #[trigger] after.lists(p, c) implies after.alive.contains(
            p,
        ) && after.alive.contains(c) by {
            assert(self.lists(p, c));
        }
        assert forall|c: Entity| #[trigger] after.parent.contains_key(c) implies after.alive.contains(
            c,
        ) && after.alive.contains(after.parent[c]) by {
            let q = self.parent[c];
            assert(self.parent.contains_key(c));
            assert(self.alive.contains(c) && self.alive.contains(self.parent[c]));
            assert(self.lists(q, c) <==> self.parent_of(c) == Some(q));
            if gone.contains(q) {
                self.lemma_reaches_child(root, q, c);
            }
        }
    }

    /// Destroying an entity with its descendants leaves its parent and its
    /// siblings as they were, where the parent is not below the entity: the
    /// parent lists the siblings in their order, and each sibling still
    /// holds the parent.
    pub proof fn lemma_despawn_recursive_keeps_siblings(self, root: Entity, parent: Entity)
        requires
            self.consistent(),
            self.parent_of(root) == Some(parent),
            !self.reaches(root, parent),
        ensures
            self.despawn_recursive(root).alive.contains(parent) == self.alive.contains(parent),
            self.despawn_recursive(root).children_of(parent) == self.children[parent].filter(
                other_than(root),
            ),
            self.despawn_recursive(root).children.contains_key(parent)
                <==> self.children[parent].len() >= 2,
            forall|s: Entity|
                s != root && #[trigger] self.lists(parent, s) ==> self.despawn_recursive(
                    root,
                ).parent_of(s) == Some(parent) && self.despawn_recursive(root).lists(parent, s)
                    && (self.alive.contains(s) ==> self.despawn_recursive(root).alive.contains(s)),
    {
        let gone = self.subtree(root);
        let cut = self.detached(root);
        let after = self.despawn_recursive(root);
        let list = self.children[parent];
        let rest = list.filter(other_than(root));
        assert(self.lists(parent, root));
        self.lemma_detached_lists(root);
        lemma_filter_no_duplicates(list, other_than(root));
        lemma_filter_out_one(list, root);
        assert(!gone.contains(parent));
        assert(after.children_of(parent) == rest);
        assert forall|s: Entity| s != root && #[trigger] self.lists(parent, s) implies after.parent_of(
            s,
        ) == Some(parent) && after.lists(parent, s) && (self.alive.contains(s)
            ==> after.alive.contains(s)) by {
            assert(self.parent_of(s) == Some(parent));
            if gone.contains(s) {
                self.lemma_reaches_iff_descends(root, s);
                let by = self.lemma_descendant_is_listed(root, s);
                assert(self.parent_of(s) == Some(by));
            }
            lemma_filter_contains_iff(list, other_than(root), s);
            assert(cut.lists(parent, s));
        }
    }

    /// Destroying the descendants of an entity that is not below itself
    /// destroys each of them and nothing else, leaves the entity as it was
    /// but without a collection of children, and keeps the invariants.
    pub proof fn lemma_despawn_descendants_only(self, root: Entity)
        requires
            self.consistent(),
            self.refers_to_living(),
            !self.is_descendant(root, root),
        ensures
            forall|e: Entity| #[trigger]
                self.is_descendant(root, e) ==> !self.despawn_descendants(root).alive.contains(e),
            forall|e: Entity| #[trigger]
                self.despawn_descendants(root).alive.contains(e) <==> self.alive.contains(e)
                    && !self.is_descendant(root, e),
            self.despawn_descendants(root).alive.contains(root) == self.alive.contains(root),
            self.despawn_descendants(root).parent_of(root) == self.parent_of(root),
            !self.despawn_descendants(root).children.contains_key(root),
            self.wf() ==> self.despawn_descendants(root).wf(),
            self.despawn_descendants(root).consistent(),
            self.despawn_descendants(root).refers_to_living(),
    {
        let gone = self.descendants(root);
        let after = self.despawn_descendants(root);
        self.lemma_reaches_self(root);
        assert forall|x: Entity, y: Entity| #[trigger] after.lists(x, y) implies !gone.contains(y)
            && self.lists(x, y) by {
            assert(self.lists(x, y) <==> self.parent_of(y) == Some(x));
            if gone.contains(y) {
                let by = self.lemma_descendant_is_listed(root, y);
                assert(self.parent_of(y) == Some(by));
            }
        }
        assert forall|x: Entity, y: Entity| #[trigger]
            after.lists(x, y) <==> after.parent_of(y) == Some(x) by {
            assert(self.lists(x, y) <==> self.parent_of(y) == Some(x));
            if after.parent_of(y) == Some(x) {
                if gone.contains(x) || x == root {
                    if x != root {
                        self.lemma_reaches_iff_descends(root, x);
                    }
                    self.lemma_reaches_child(root, x, y);
                }
            }
        }
        assert forall|e: Entity| after.parent_of(e) != Some(e) by {
            assert(self.parent_of(e) != Some(e));
        }
        assert forall|p: Entity, c: Entity| #[trigger] after.lists(p, c) implies after.alive.contains(
            p,
        ) && after.alive.contains(c) by {
            assert(self.lists(p, c));
        }
        assert forall|c: Entity| #[trigger] after.parent.contains_key(c) implies after.alive.contains(
            c,
        ) && after.alive.contains(after.parent[c]) by {
            let q = self.parent[c];
            assert(self.parent.contains_key(c));
            assert(self.alive.contains(c) && self.alive.contains(self.parent[c]));
            assert(self.lists(q, c) <==> self.parent_of(c) == Some(q));
            if gone.contains(q) {
                self.lemma_reaches_iff_descends(root, q);
                self.lemma_reaches_child(root, q, c);
            }
        }
    }

    /// Spawning a child through the builder keeps the inverse invariant.
    pub proof fn lemma_spawn_child_consistent(self, parent: Entity)
        requires
            self.wf(),
            self.next < u64::MAX,
            self.consistent(),
            self.alive.contains(parent),
        ensures
            self.spawn_child(parent).consistent(),
            self.with_child(parent).consistent(),
            self.with_child(parent).children == self.spawn_child(parent).children,
            self.with_child(parent).parent == self.spawn_child(parent).parent,
    {
        let child = self.fresh();
        self.lemma_consistent_refers_to_living();
        assert(!self.alive.contains(child));
        let grown = self.spawn().with_parent(child, parent);
        assert(self.consistent_but(parent, Set::empty()));
        assert(grown.consistent_but(parent, Set::<Entity>::empty().insert(child))) by {
            assert forall|x: Entity, y: Entity| #[trigger] grown.lists(x, y) <==> self.lists(x, y) by {}
            assert forall|x: Entity| !self.lists(x, child) by {
                if self.lists(x, child) {
                    assert(self.alive.contains(child));
                }
            }
            assert forall|e: Entity| grown.parent_of(e) != Some(e) by {
                assert(self.parent_of(e) != Some(e));
            }
        }
        let was = grown.children_of(parent);
        if grown.children.contains_key(parent) {
            assert(was.no_duplicates());
        }
        assert(!was.contains(child)) by {
            if was.contains(child) {
                assert(self.lists(parent, child));
            }
        }
        let list = was.push(child);
        assert forall|i: int, j: int|
            0 <= i < list.len() && 0 <= j < list.len() && i != j implies list[i] != list[j] by {
            if i == was.len() {
                assert(was.contains(was[j]));
            }
            if j == was.len() {
                assert(was.contains(was[i]));
            }
        }
        assert forall|x: Entity| #[trigger] list.contains(x) <==> grown.lists(parent, x)
            || Set::<Entity>::empty().insert(child).contains(x) by {
            if list.contains(x) {
                let k = choose|k: int| 0 <= k < list.len() && list[k] == x;
                if k < was.len() {
                    assert(was[k] == x);
                }
            }
            if was.contains(x) {
                let k = choose|k: int| 0 <= k < was.len() && was[k] == x;
                assert(list[k] == x);
            }
            if x == child {
                assert(list[was.len() as int] == x);
            }
        }
        grown.lemma_listing_restores(parent, Set::<Entity>::empty().insert(child), list);
        assert(was.filter(other_than(child)) == was) by {
            assert forall|i: int| 0 <= i < was.len() implies other_than(child)(#[trigger] was[i]) by {
                assert(was.contains(was[i]));
            }
            crate::sequences::lemma_filter_all(was, other_than(child));
        }
        grown.with_collapsed(parent, list).lemma_consistent_by_relations(self.spawn_child(parent));
        grown.with_collapsed(parent, list).lemma_consistent_by_relations(self.with_child(parent));
    }
}

} // verus!
