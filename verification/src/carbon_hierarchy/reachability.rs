//! Descent along the children relation, and what recursive destruction
//! leaves behind.

use crate::carbon_hierarchy::model::{other_than, Hierarchy};
use crate::entity::Entity;
use crate::sequences::lemma_filter_contains_iff;
use vstd::prelude::*;

verus! {

impl Hierarchy {
    /// Whether each entity of `path` lists the next one as a child.
    pub open spec fn is_path(self, path: Seq<Entity>) -> bool {
        &&& path.len() > 0
        &&& forall|i: int|
            0 <= i < path.len() - 1 ==> self.lists(#[trigger] path[i], path[i + 1])
    }

    /// Whether `to` is `from` or is reached from it by going from an entity
    /// to one of its listed children, any number of times.
    pub open spec fn reaches(self, from: Entity, to: Entity) -> bool {
        exists|path: Seq<Entity>|
            #[trigger] self.is_path(path) && path.first() == from && path.last() == to
    }

    /// Whether `e` is a child of `root`, or a child of a child, and so on.
    pub open spec fn is_descendant(self, root: Entity, e: Entity) -> bool {
        exists|path: Seq<Entity>|
            #[trigger] self.is_path(path) && path.len() >= 2 && path.first() == root
                && path.last() == e
    }

    /// `root` with all its descendants.
    pub open spec fn subtree(self, root: Entity) -> Set<Entity> {
        Set::new(|e: Entity| self.reaches(root, e))
    }

    /// The descendants of `root`.
    pub open spec fn descendants(self, root: Entity) -> Set<Entity> {
        Set::new(|e: Entity| self.is_descendant(root, e))
    }

    /// Every entity that is one of `roots` or descends from one.
    pub open spec fn reached_from(self, roots: Seq<Entity>) -> Set<Entity> {
        Set::new(|e: Entity| exists|i: int| 0 <= i < roots.len() && self.reaches(#[trigger] roots[i], e))
    }

    /// The store after every entity of `set` was destroyed: each is gone
    /// with the relations that it held.
    pub open spec fn without_all(self, set: Set<Entity>) -> Hierarchy {
        Hierarchy {
            alive: self.alive.difference(set),
            parent: self.parent.remove_keys(set),
            children: self.children.remove_keys(set),
            ..self
        }
    }

    /// The store after the parent of `e`, if it has one, ceased to list
    /// `e`. A collection that holds nothing afterwards is given up.
    pub open spec fn detached(self, e: Entity) -> Hierarchy {
        match self.parent_of(e) {
            Some(p) => if self.children.contains_key(p) {
                self.with_collapsed(p, self.children[p].filter(other_than(e)))
            } else {
                self
            },
            None => self,
        }
    }

    /// The store after `root` was destroyed with all its descendants, and
    /// its parent ceased to list it.
    pub open spec fn despawn_recursive(self, root: Entity) -> Hierarchy {
        self.detached(root).without_all(self.subtree(root))
    }

    /// The store after the descendants of `root` were destroyed and `root`
    /// gave up its collection of children.
    pub open spec fn despawn_descendants(self, root: Entity) -> Hierarchy {
        self.without_children(root).without_all(self.descendants(root))
    }

    /// Whether `set` holds, with each of its entities, the children that the
    /// entity lists.
    pub open spec fn closed_under_children(self, set: Set<Entity>) -> bool {
        forall|x: Entity, y: Entity| set.contains(x) && #[trigger] self.lists(x, y) ==> set.contains(y)
    }

    /// An entity reaches itself.
    pub proof fn lemma_reaches_self(self, e: Entity)
        ensures
            self.reaches(e, e),
    {
        let path = seq![e];
        assert(self.is_path(path));
        assert(path.first() == e && path.last() == e);
    }

    /// What is reached reaches its listed children.
    pub proof fn lemma_reaches_child(self, from: Entity, via: Entity, to: Entity)
        requires
            self.reaches(from, via),
            self.lists(via, to),
        ensures
            self.reaches(from, to),
            self.is_descendant(from, to),
    {
        let path = choose|path: Seq<Entity>|
            #[trigger] self.is_path(path) && path.first() == from && path.last() == via;
        let longer = path.push(to);
        assert forall|i: int| 0 <= i < longer.len() - 1 implies self.lists(
            #[trigger] longer[i],
            longer[i + 1],
        ) by {
            if i < path.len() - 1 {
                assert(self.lists(path[i], path[i + 1]));
            }
        }
        assert(self.is_path(longer));
        assert(longer.first() == from && longer.last() == to);
    }

    /// A set that is closed under children holds the end of every path that
    /// begins in it.
    pub proof fn lemma_closed_holds_path(self, set: Set<Entity>, path: Seq<Entity>)
        requires
            self.closed_under_children(set),
            self.is_path(path),
            set.contains(path.first()),
        ensures
            set.contains(path.last()),
        decreases path.len(),
    {
        if path.len() > 1 {
            let front = path.drop_last();
            assert forall|i: int| 0 <= i < front.len() - 1 implies self.lists(
                #[trigger] front[i],
                front[i + 1],
            ) by {
                assert(self.lists(path[i], path[i + 1]));
            }
            self.lemma_closed_holds_path(set, front);
            assert(self.lists(path[path.len() - 2], path[path.len() - 2 + 1]));
        }
    }

    /// The end of a path is a path.
    pub proof fn lemma_path_suffix(self, path: Seq<Entity>, k: int)
        requires
            self.is_path(path),
            0 <= k < path.len(),
        ensures
            self.is_path(path.subrange(k, path.len() as int)),
            path.subrange(k, path.len() as int).first() == path[k],
            path.subrange(k, path.len() as int).last() == path.last(),
    {
        let tail = path.subrange(k, path.len() as int);
        assert forall|i: int| 0 <= i < tail.len() - 1 implies self.lists(
            #[trigger] tail[i],
            tail[i + 1],
        ) by {
            assert(self.lists(path[k + i], path[k + i + 1]));
        }
    }

    /// What a store lists after a detachment, it listed before; and all it
    /// has lost is that the parent listed the detached entity.
    pub proof fn lemma_detached_lists(self, e: Entity)
        ensures
            forall|x: Entity, y: Entity| #[trigger]
                self.detached(e).lists(x, y) ==> self.lists(x, y),
            forall|x: Entity, y: Entity|
                y != e && self.lists(x, y) ==> #[trigger] self.detached(e).lists(x, y),
            self.detached(e).alive == self.alive,
            self.detached(e).parent == self.parent,
    {
        let after = self.detached(e);
        match self.parent_of(e) {
            Some(p) => {
                if self.children.contains_key(p) {
                    let list = self.children[p];
                    let rest = list.filter(other_than(e));
                    assert forall|x: Entity, y: Entity| #[trigger]
                        after.lists(x, y) implies self.lists(x, y) by {
                        if x == p {
                            lemma_filter_contains_iff(list, other_than(e), y);
                        }
                    }
                    assert forall|x: Entity, y: Entity| y != e && self.lists(x, y) implies
                    #[trigger] after.lists(x, y) by {
                        if x == p {
                            lemma_filter_contains_iff(list, other_than(e), y);
                            assert(rest.contains(y));
                            assert(rest.len() > 0);
                        }
                    }
                }
            },
            None => {},
        }
    }

    /// Detaching an entity from its parent does not change what descends
    /// from the entity.
    pub proof fn lemma_detached_path(self, e: Entity, path: Seq<Entity>)
        requires
            self.is_path(path),
            path.first() == e,
        ensures
            self.detached(e).reaches(e, path.last()),
        decreases path.len(),
    {
        let after = self.detached(e);
        if exists|k: int| 1 <= k < path.len() && path[k] == e {
            let k = choose|k: int| 1 <= k < path.len() && path[k] == e;
            self.lemma_path_suffix(path, k);
            self.lemma_detached_path(e, path.subrange(k, path.len() as int));
        } else {
            self.lemma_detached_lists(e);
            assert forall|i: int| 0 <= i < path.len() - 1 implies after.lists(
                #[trigger] path[i],
                path[i + 1],
            ) by {
                assert(self.lists(path[i], path[i + 1]));
                assert(path[i + 1] != e);
            }
            assert(after.is_path(path));
        }
    }

    /// The subtree of an entity is the same before and after the entity is
    /// detached from its parent.
    pub proof fn lemma_detached_subtree(self, e: Entity)
        ensures
            self.detached(e).reached_from(seq![e]) == self.subtree(e),
    {
        let after = self.detached(e);
        let roots = seq![e];
        self.lemma_detached_lists(e);
        assert forall|x: Entity| after.reached_from(roots).contains(x) == self.subtree(e).contains(
            x,
        ) by {
            if after.reached_from(roots).contains(x) {
                let i = choose|i: int| 0 <= i < roots.len() && after.reaches(#[trigger] roots[i], x);
                let path = choose|path: Seq<Entity>|
                    #[trigger] after.is_path(path) && path.first() == e && path.last() == x;
                assert forall|i: int| 0 <= i < path.len() - 1 implies self.lists(
                    #[trigger] path[i],
                    path[i + 1],
                ) by {
                    assert(after.lists(path[i], path[i + 1]));
                }
                assert(self.is_path(path));
            }
            if self.reaches(e, x) {
                let path = choose|path: Seq<Entity>|
                    #[trigger] self.is_path(path) && path.first() == e && path.last() == x;
                self.lemma_detached_path(e, path);
                assert(after.reaches(roots[0], x));
            }
        }
    }

    /// A path that leaves `e` for a child can be cut down to one that does
    /// not come back to `e` before its end.
    pub proof fn lemma_descendant_path(self, e: Entity, path: Seq<Entity>)
        requires
            self.is_path(path),
            path.len() >= 2,
            path.first() == e,
        ensures
            self.without_children(e).reached_from(self.children_of(e)).contains(path.last()),
        decreases path.len(),
    {
        let after = self.without_children(e);
        let roots = self.children_of(e);
        if exists|k: int| 1 <= k < path.len() - 1 && path[k] == e {
            let k = choose|k: int| 1 <= k < path.len() - 1 && path[k] == e;
            self.lemma_path_suffix(path, k);
            self.lemma_descendant_path(e, path.subrange(k, path.len() as int));
        } else {
            let tail = path.subrange(1, path.len() as int);
            assert forall|i: int| 0 <= i < tail.len() - 1 implies after.lists(
                #[trigger] tail[i],
                tail[i + 1],
            ) by {
                assert(self.lists(path[i + 1], path[i + 1 + 1]));
                assert(path[i + 1] != e);
            }
            assert(after.is_path(tail));
            assert(self.lists(path[0], path[1]));
            let j = choose|j: int| 0 <= j < roots.len() && roots[j] == path[1];
            assert(tail.first() == roots[j] && tail.last() == path.last());
            assert(after.reaches(roots[j], path.last()));
        }
    }

    /// The descendants of an entity are what is reached from its children
    /// without going through the entity's own collection.
    pub proof fn lemma_children_reach_descendants(self, e: Entity)
        ensures
            self.without_children(e).reached_from(self.children_of(e)) == self.descendants(e),
    {
        let after = self.without_children(e);
        let roots = self.children_of(e);
        assert forall|x: Entity| after.reached_from(roots).contains(x) == self.descendants(
            e,
        ).contains(x) by {
            if after.reached_from(roots).contains(x) {
                let i = choose|i: int| 0 <= i < roots.len() && after.reaches(#[trigger] roots[i], x);
                let path = choose|path: Seq<Entity>|
                    #[trigger] after.is_path(path) && path.first() == roots[i] && path.last() == x;
                let whole = seq![e] + path;
                assert(self.lists(e, roots[i]));
                assert forall|k: int| 0 <= k < whole.len() - 1 implies self.lists(
                    #[trigger] whole[k],
                    whole[k + 1],
                ) by {
                    if k > 0 {
                        assert(after.lists(path[k - 1], path[k - 1 + 1]));
                    }
                }
                assert(self.is_path(whole));
                assert(whole.first() == e && whole.last() == x);
            }
            if self.is_descendant(e, x) {
                let path = choose|path: Seq<Entity>|
                    #[trigger] self.is_path(path) && path.len() >= 2 && path.first() == e
                        && path.last() == x;
                self.lemma_descendant_path(e, path);
            }
        }
    }

    /// The beginning of a path is a path.
    pub proof fn lemma_path_prefix(self, path: Seq<Entity>, k: int)
        requires
            self.is_path(path),
            0 < k <= path.len(),
        ensures
            self.is_path(path.subrange(0, k)),
            path.subrange(0, k).first() == path.first(),
            path.subrange(0, k).last() == path[k - 1],
    {
        let head = path.subrange(0, k);
        assert forall|i: int| 0 <= i < head.len() - 1 implies self.lists(
            #[trigger] head[i],
            head[i + 1],
        ) by {
            assert(self.lists(path[i], path[i + 1]));
        }
    }

    /// Whoever descends from `root` is listed by `root` or by another
    /// entity that descends from it.
    pub proof fn lemma_descendant_is_listed(self, root: Entity, e: Entity) -> (by: Entity)
        requires
            self.is_descendant(root, e),
        ensures
            self.lists(by, e),
            by == root || self.is_descendant(root, by),
            self.reaches(root, by),
    {
        let path = choose|path: Seq<Entity>|
            #[trigger] self.is_path(path) && path.len() >= 2 && path.first() == root
                && path.last() == e;
        let k = path.len() - 2;
        assert(self.lists(path[k], path[k + 1]));
        self.lemma_path_prefix(path, k + 1);
        let head = path.subrange(0, k + 1);
        assert(self.is_path(head) && head.first() == root && head.last() == path[k]);
        if k > 0 {
            assert(head.len() >= 2);
        }
        path[k]
    }

    /// Whoever is reached from `root` is `root` or descends from it, and
    /// the other way round.
    pub proof fn lemma_reaches_iff_descends(self, root: Entity, e: Entity)
        ensures
            self.reaches(root, e) <==> e == root || self.is_descendant(root, e),
    {
        if self.reaches(root, e) {
            let path = choose|path: Seq<Entity>|
                #[trigger] self.is_path(path) && path.first() == root && path.last() == e;
            if path.len() >= 2 {
                assert(self.is_descendant(root, e));
            }
        }
        if e == root {
            self.lemma_reaches_self(root);
        }
        if self.is_descendant(root, e) {
            let path = choose|path: Seq<Entity>|
                #[trigger] self.is_path(path) && path.len() >= 2 && path.first() == root
                    && path.last() == e;
            assert(self.reaches(root, e));
        }
    }

    /// After a detachment nobody lists the detached entity, where only its
    /// parent did.
    pub proof fn lemma_detached_unlisted(self, e: Entity)
        requires
            self.consistent(),
        ensures
            forall|x: Entity| !#[trigger] self.detached(e).lists(x, e),
            forall|q: Entity| #[trigger]
                self.detached(e).children.contains_key(q) ==> self.detached(
                    e,
                ).children[q].no_duplicates() && self.detached(e).children[q].len() > 0,
    {
        let after = self.detached(e);
        self.lemma_detached_lists(e);
        assert forall|x: Entity| !#[trigger] after.lists(x, e) by {
            if after.lists(x, e) {
                assert(self.lists(x, e));
                assert(self.parent_of(e) == Some(x));
                lemma_filter_contains_iff(self.children[x], other_than(e), e);
            }
        }
        match self.parent_of(e) {
            Some(p) => {
                if self.children.contains_key(p) {
                    crate::sequences::lemma_filter_no_duplicates(self.children[p], other_than(e));
                }
            },
            None => {},
        }
    }

    /// Whether `log` names children before their parents: whoever is listed
    /// by an entity of `log` that is not below itself comes before that
    /// entity.
    pub open spec fn children_first(self, log: Seq<Entity>) -> bool {
        forall|i: int, j: int|
            0 <= i < log.len() && 0 <= j < log.len() && #[trigger] self.lists(log[i], log[j])
                && !self.is_descendant(log[i], log[i]) ==> j < i
    }

    /// What descends from an entity passes this on to its listed children.
    pub proof fn lemma_descendant_child(self, from: Entity, via: Entity, to: Entity)
        requires
            from == via || self.is_descendant(from, via),
            self.lists(via, to),
        ensures
            self.is_descendant(from, to),
    {
        self.lemma_reaches_iff_descends(from, via);
        self.lemma_reaches_child(from, via, to);
    }

    /// Who is reached from an entity that it lists is below itself.
    pub proof fn lemma_listed_ancestor_is_cyclic(self, a: Entity, b: Entity)
        requires
            self.lists(a, b),
            self.reaches(b, a),
        ensures
            self.is_descendant(a, a),
    {
        let path = choose|path: Seq<Entity>|
            #[trigger] self.is_path(path) && path.first() == b && path.last() == a;
        let whole = seq![a] + path;
        assert forall|k: int| 0 <= k < whole.len() - 1 implies self.lists(
            #[trigger] whole[k],
            whole[k + 1],
        ) by {
            if k > 0 {
                assert(self.lists(path[k - 1], path[k - 1 + 1]));
            }
        }
        assert(self.is_path(whole) && whole.len() >= 2 && whole.first() == a && whole.last() == a);
    }

    /// What descends in a store that lists no more than this one descends
    /// in this one.
    pub proof fn lemma_descends_in_larger(self, part: Hierarchy, a: Entity, b: Entity)
        requires
            forall|x: Entity, y: Entity| #[trigger] part.lists(x, y) ==> self.lists(x, y),
            part.is_descendant(a, b),
        ensures
            self.is_descendant(a, b),
    {
        let path = choose|path: Seq<Entity>|
            #[trigger] part.is_path(path) && path.len() >= 2 && path.first() == a && path.last()
                == b;
        assert forall|i: int| 0 <= i < path.len() - 1 implies self.lists(
            #[trigger] path[i],
            path[i + 1],
        ) by {
            assert(part.lists(path[i], path[i + 1]));
        }
        assert(self.is_path(path));
    }
}

} // verus!
