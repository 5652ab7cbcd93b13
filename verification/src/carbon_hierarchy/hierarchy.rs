//! Destroying an entity together with everything below it.

use crate::carbon_hierarchy::children::Children;
use crate::carbon_hierarchy::model::{other_than, Hierarchy};
use crate::carbon_hierarchy::parent::Parent;
use crate::carbon_hierarchy::world::World;
use crate::entity::Entity;
use crate::sequences::lemma_retained_is_filter;
use crate::small_vec::sv_as_slice;
use std::collections::HashSet;
use vstd::prelude::*;

verus! {

broadcast use vstd::std_specs::hash::group_hash_axioms;

/// What a recursive destruction did.
pub struct Despawned {
    /// The entities that were destroyed, children before their parents.
    pub destroyed: Vec<Entity>,
    /// The entities that were to be destroyed and did not live when the
    /// destruction began, each once; none where no report was asked for.
    pub missing: Vec<Entity>,
}

/// The command that destroys an entity and all its descendants.
pub struct DespawnRecursive {
    /// The entity to destroy.
    pub entity: Entity,
    /// Whether an entity that does not live is to be reported.
    pub warn: bool,
}

/// The command that destroys the descendants of an entity.
pub struct DespawnChildrenRecursive {
    /// The entity whose descendants are to be destroyed.
    pub entity: Entity,
    /// Whether an entity that does not live is to be reported.
    pub warn: bool,
}

impl DespawnRecursive {
    /// Carries the command out.
    pub fn apply<C: Children, P: Parent>(self, world: &mut World<C, P>)
        requires
            old(world).wf(),
        ensures
            final(world)@ == old(world)@.despawn_recursive(self.entity),
            final(world).wf(),
    {
        let _ = despawn_with_children_recursive(world, self.entity, self.warn);
    }
}

impl DespawnChildrenRecursive {
    /// Carries the command out.
    pub fn apply<C: Children, P: Parent>(self, world: &mut World<C, P>)
        requires
            old(world).wf(),
        ensures
            final(world)@ == old(world)@.despawn_descendants(self.entity),
            final(world).wf(),
    {
        let _ = despawn_children_recursive(world, self.entity, self.warn);
    }
}

/// Recursive destruction, for whatever carries it out: at once on a store,
/// or later from a queue.
pub trait DespawnRecursiveExt: Sized {
    /// Whether the receiver is in a state in which it takes operations.
    spec fn sound(&self) -> bool;

    /// Destroys `entity` and all its descendants. Entities that do not live
    /// are to be reported.
    fn despawn_recursive(&mut self, entity: Entity)
        requires
            old(self).sound(),
        ensures
            final(self).sound(),
    ;

    /// Destroys the descendants of `entity` and hands the receiver back.
    /// Entities that do not live are to be reported.
    fn despawn_descendants(&mut self, entity: Entity) -> (out: &mut Self)
        requires
            old(self).sound(),
        ensures
            out.sound(),
            *final(self) == *final(out),
    ;

    /// As `despawn_recursive`, without reports.
    fn try_despawn_recursive(&mut self, entity: Entity)
        requires
            old(self).sound(),
        ensures
            final(self).sound(),
    ;

    /// As `despawn_descendants`, without reports.
    fn try_despawn_descendants(&mut self, entity: Entity) -> (out: &mut Self)
        requires
            old(self).sound(),
        ensures
            out.sound(),
            *final(self) == *final(out),
    ;
}

impl<C: Children, P: Parent> DespawnRecursiveExt for World<C, P> {
    open spec fn sound(&self) -> bool {
        self.wf()
    }

    fn despawn_recursive(&mut self, entity: Entity)
        ensures
            final(self)@ == old(self)@.despawn_recursive(entity),
    {
        let _ = despawn_with_children_recursive(self, entity, true);
    }

    fn despawn_descendants(&mut self, entity: Entity) -> (out: &mut Self)
        ensures
            out@ == old(self)@.despawn_descendants(entity),
    {
        let _ = despawn_children_recursive(self, entity, true);
        self
    }

    fn try_despawn_recursive(&mut self, entity: Entity)
        ensures
            final(self)@ == old(self)@.despawn_recursive(entity),
    {
        let _ = despawn_with_children_recursive(self, entity, false);
    }

    fn try_despawn_descendants(&mut self, entity: Entity) -> (out: &mut Self)
        ensures
            out@ == old(self)@.despawn_descendants(entity),
    {
        let _ = despawn_children_recursive(self, entity, false);
        self
    }
}

/// One step that the traversal still has to take: to go into an entity, or,
/// when everything below it is done, to destroy it.
struct Visit {
    entity: Entity,
    leaving: bool,
}

/// The steps still to take, weighed so that each step taken makes the
/// weight smaller unless it takes a collection out of the store.
spec fn weight(stack: Seq<Visit>) -> nat
    decreases stack.len(),
{
    if stack.len() == 0 {
        0
    } else {
        weight(stack.drop_last()) + if stack.last().leaving {
            1nat
        } else {
            2nat
        }
    }
}

proof fn lemma_weight_push(stack: Seq<Visit>, visit: Visit)
    ensures
        weight(stack.push(visit)) == weight(stack) + if visit.leaving {
            1nat
        } else {
            2nat
        },
{
    assert(stack.push(visit).drop_last() == stack);
}

/// What the traversal knows between two steps: which entities it went into
/// and which of them it destroyed, against the store `g` that it began on.
spec fn frontier(
    g: Hierarchy,
    roots: Seq<Entity>,
    stack: Seq<Visit>,
    entered: Set<Entity>,
    left: Set<Entity>,
) -> bool {
    &&& forall|x: Entity| left.contains(x) ==> entered.contains(x)
    &&& forall|x: Entity| #[trigger]
        entered.contains(x) ==> left.contains(x) || stack.contains(
            Visit { entity: x, leaving: true },
        )
    &&& forall|k: int|
        0 <= k < stack.len() && (#[trigger] stack[k]).leaving ==> entered.contains(stack[k].entity)
    &&& forall|x: Entity, y: Entity|
        entered.contains(x) && #[trigger] g.lists(x, y) ==> entered.contains(y) || stack.contains(
            Visit { entity: y, leaving: false },
        )
    &&& forall|k: int|
        0 <= k < stack.len() ==> g.reached_from(roots).contains((#[trigger] stack[k]).entity)
    &&& forall|x: Entity| #[trigger] entered.contains(x) ==> g.reached_from(roots).contains(x)
    &&& forall|i: int|
        0 <= i < roots.len() ==> entered.contains(#[trigger] roots[i]) || stack.contains(
            Visit { entity: roots[i], leaving: false },
        )
}

/// The store between two steps: destroyed entities are gone, and entities
/// that the traversal went into have given up their collections.
spec fn progress(g: Hierarchy, now: Hierarchy, entered: Set<Entity>, left: Set<Entity>) -> bool {
    &&& now.alive =~= g.alive.difference(left)
    &&& now.parent =~= g.parent.remove_keys(left)
    &&& now.children =~= g.children.remove_keys(entered)
    &&& now.events == g.events
    &&& now.next == g.next
}

proof fn lemma_leave(
    g: Hierarchy,
    roots: Seq<Entity>,
    stack: Seq<Visit>,
    entered: Set<Entity>,
    left: Set<Entity>,
)
    requires
        frontier(g, roots, stack, entered, left),
        stack.len() > 0,
        stack.last().leaving,
    ensures
        frontier(g, roots, stack.drop_last(), entered, left.insert(stack.last().entity)),
{
    let top = stack.last();
    let rest = stack.drop_last();
    let more = left.insert(top.entity);
    assert(entered.contains(stack[stack.len() - 1].entity));
    assert forall|v: Visit| v != top && stack.contains(v) implies rest.contains(v) by {
        let k = choose|k: int| 0 <= k < stack.len() && stack[k] == v;
        assert(rest[k] == v);
    }
    assert forall|x: Entity| #[trigger] entered.contains(x) implies more.contains(x)
        || rest.contains(Visit { entity: x, leaving: true }) by {
        if x != top.entity && !left.contains(x) {
            assert(stack.contains(Visit { entity: x, leaving: true }));
        }
    }
    assert forall|k: int| 0 <= k < rest.len() && (#[trigger] rest[k]).leaving implies entered.contains(
        rest[k].entity,
    ) by {
        assert(rest[k] == stack[k]);
    }
    assert forall|x: Entity, y: Entity| entered.contains(x) && #[trigger] g.lists(x, y) implies entered.contains(
        y,
    ) || rest.contains(Visit { entity: y, leaving: false }) by {
        if !entered.contains(y) {
            assert(stack.contains(Visit { entity: y, leaving: false }));
        }
    }
    assert forall|k: int| 0 <= k < rest.len() implies g.reached_from(roots).contains(
        (#[trigger] rest[k]).entity,
    ) by {
        assert(rest[k] == stack[k]);
    }
    assert forall|i: int| 0 <= i < roots.len() implies entered.contains(#[trigger] roots[i])
        || rest.contains(Visit { entity: roots[i], leaving: false }) by {
        if !entered.contains(roots[i]) {
            assert(stack.contains(Visit { entity: roots[i], leaving: false }));
        }
    }
}

proof fn lemma_enter(
    g: Hierarchy,
    roots: Seq<Entity>,
    stack: Seq<Visit>,
    entered: Set<Entity>,
    left: Set<Entity>,
    grown: Seq<Visit>,
)
    requires
        frontier(g, roots, stack, entered, left),
        stack.len() > 0,
        !stack.last().leaving,
        grown.len() >= stack.len(),
        grown.subrange(0, stack.len() as int) == stack.drop_last().push(
            Visit { entity: stack.last().entity, leaving: true },
        ),
        forall|k: int|
            stack.len() <= k < grown.len() ==> !(#[trigger] grown[k]).leaving && g.lists(
                stack.last().entity,
                grown[k].entity,
            ),
        entered.contains(stack.last().entity) || forall|y: Entity| #[trigger]
            g.lists(stack.last().entity, y) ==> grown.contains(Visit { entity: y, leaving: false }),
    ensures
        frontier(g, roots, grown, entered.insert(stack.last().entity), left),
{
    let top = stack.last();
    let e = top.entity;
    let rest = stack.drop_last();
    let base = rest.push(Visit { entity: e, leaving: true });
    let more = entered.insert(e);
    assert(g.reached_from(roots).contains(stack[stack.len() - 1].entity));
    assert forall|k: int| 0 <= k < stack.len() implies grown[k] == base[k] by {
        assert(grown.subrange(0, stack.len() as int)[k] == grown[k]);
    }
    assert(grown[stack.len() - 1] == Visit { entity: e, leaving: true });
    assert forall|v: Visit| v != top && stack.contains(v) implies grown.contains(v) by {
        let k = choose|k: int| 0 <= k < stack.len() && stack[k] == v;
        assert(grown[k] == v);
    }
    assert forall|x: Entity| #[trigger] more.contains(x) implies left.contains(x) || grown.contains(
        Visit { entity: x, leaving: true },
    ) by {
        if x != e && !left.contains(x) {
            assert(stack.contains(Visit { entity: x, leaving: true }));
        }
    }
    assert forall|k: int| 0 <= k < grown.len() && (#[trigger] grown[k]).leaving implies more.contains(
        grown[k].entity,
    ) by {
        if k < stack.len() - 1 {
            assert(grown[k] == stack[k]);
        }
    }
    assert forall|x: Entity, y: Entity| more.contains(x) && #[trigger] g.lists(x, y) implies more.contains(
        y,
    ) || grown.contains(Visit { entity: y, leaving: false }) by {
        if !more.contains(y) {
            if entered.contains(x) {
                assert(stack.contains(Visit { entity: y, leaving: false }));
            }
        }
    }
    let i = choose|i: int| 0 <= i < roots.len() && g.reaches(#[trigger] roots[i], e);
    assert forall|k: int| 0 <= k < grown.len() implies g.reached_from(roots).contains(
        (#[trigger] grown[k]).entity,
    ) by {
        if k < stack.len() - 1 {
            assert(grown[k] == stack[k]);
        } else if k >= stack.len() {
            g.lemma_reaches_child(roots[i], e, grown[k].entity);
        }
    }
    assert forall|i: int| 0 <= i < roots.len() implies more.contains(#[trigger] roots[i])
        || grown.contains(Visit { entity: roots[i], leaving: false }) by {
        if !more.contains(roots[i]) {
            assert(stack.contains(Visit { entity: roots[i], leaving: false }));
        }
    }
}

proof fn lemma_done(
    g: Hierarchy,
    now: Hierarchy,
    roots: Seq<Entity>,
    entered: Set<Entity>,
    left: Set<Entity>,
)
    requires
        frontier(g, roots, Seq::empty(), entered, left),
        progress(g, now, entered, left),
    ensures
        now == g.without_all(g.reached_from(roots)),
        left == g.reached_from(roots),
{
    let none = Seq::<Visit>::empty();
    assert forall|x: Entity| entered.contains(x) implies left.contains(x) by {
        assert(!none.contains(Visit { entity: x, leaving: true }));
    }
    assert(entered == left);
    assert(g.closed_under_children(entered)) by {
        assert forall|x: Entity, y: Entity| entered.contains(x) && #[trigger] g.lists(
            x,
            y,
        ) implies entered.contains(y) by {
            assert(!none.contains(Visit { entity: y, leaving: false }));
        }
    }
    assert forall|x: Entity| g.reached_from(roots).contains(x) implies entered.contains(x) by {
        let i = choose|i: int| 0 <= i < roots.len() && g.reaches(#[trigger] roots[i], x);
        let path = choose|path: Seq<Entity>|
            #[trigger] g.is_path(path) && path.first() == roots[i] && path.last() == x;
        assert(!none.contains(Visit { entity: roots[i], leaving: false }));
        g.lemma_closed_holds_path(entered, path);
    }
    assert(entered == g.reached_from(roots));
}

/// Whether a step for `y` lies above position `k` of the stack.
spec fn above(stack: Seq<Visit>, k: int, y: Entity) -> bool {
    exists|m: int| k < m < stack.len() && (#[trigger] stack[m]).entity == y
}

/// How the stack is laid out: above the step that destroys an entity lie
/// only steps for entities below it, and, unless the entity is below
/// itself, a step for each of its children that is not done with yet.
spec fn discipline(g: Hierarchy, stack: Seq<Visit>, left: Set<Entity>) -> bool {
    &&& forall|k: int, m: int|
        0 <= k < m < stack.len() && stack[k].leaving ==> #[trigger] g.is_descendant(
            stack[k].entity,
            stack[m].entity,
        )
    &&& forall|k: int, y: Entity|
        0 <= k < stack.len() && stack[k].leaving && #[trigger] g.lists(stack[k].entity, y)
            && !g.is_descendant(stack[k].entity, stack[k].entity) ==> left.contains(y) || above(
            stack,
            k,
            y,
        )
    &&& forall|x: Entity, y: Entity|
        left.contains(x) && #[trigger] g.lists(x, y) && !g.is_descendant(x, x) ==> left.contains(y)
}

/// What the log of destroyed entities holds: each entity that lived and is
/// done with, once, children first.
spec fn logged(g: Hierarchy, log: Seq<Entity>, left: Set<Entity>) -> bool {
    &&& log.no_duplicates()
    &&& forall|x: Entity| #[trigger] log.contains(x) <==> left.contains(x) && g.alive.contains(x)
    &&& g.children_first(log)
}

/// What the report of missing entities holds: where a report was asked
/// for, each entity that is done with and did not live at the beginning,
/// once.
spec fn reported(g: Hierarchy, missing: Seq<Entity>, left: Set<Entity>, warn: bool) -> bool {
    &&& missing.no_duplicates()
    &&& forall|x: Entity| #[trigger]
        missing.contains(x) <==> warn && left.contains(x) && !g.alive.contains(x)
}

/// How a set of identifiers stands for the entities of a list.
spec fn marks(set: Set<u64>, list: Seq<Entity>) -> bool {
    forall|x: Entity| set.contains(x.bits) <==> #[trigger] list.contains(x)
}

proof fn lemma_marks_push(set: Set<u64>, list: Seq<Entity>, e: Entity)
    requires
        marks(set, list),
    ensures
        marks(set.insert(e.bits), list.push(e)),
        !list.contains(e) && list.no_duplicates() ==> list.push(e).no_duplicates(),
{
    let longer = list.push(e);
    assert forall|x: Entity| set.insert(e.bits).contains(x.bits) <==> #[trigger] longer.contains(
        x,
    ) by {
        assert(set.contains(x.bits) <==> list.contains(x));
        if longer.contains(x) {
            let k = choose|k: int| 0 <= k < longer.len() && longer[k] == x;
            if k < list.len() {
                assert(list[k] == x);
            }
        }
        if list.contains(x) {
            let k = choose|k: int| 0 <= k < list.len() && list[k] == x;
            assert(longer[k] == x);
        }
        if x == e {
            assert(longer[list.len() as int] == x);
        }
    }
    if !list.contains(e) && list.no_duplicates() {
        assert forall|i: int, j: int|
            0 <= i < longer.len() && 0 <= j < longer.len() && i != j implies longer[i]
            != longer[j] by {
            if i == list.len() {
                assert(list.contains(list[j]));
            }
            if j == list.len() {
                assert(list.contains(list[i]));
            }
        }
    }
}

proof fn lemma_leave_discipline(g: Hierarchy, stack: Seq<Visit>, left: Set<Entity>)
    requires
        discipline(g, stack, left),
        stack.len() > 0,
        stack.last().leaving,
    ensures
        discipline(g, stack.drop_last(), left.insert(stack.last().entity)),
{
    let top = stack.last();
    let t = stack.len() - 1;
    let rest = stack.drop_last();
    let more = left.insert(top.entity);
    assert forall|k: int, m: int| 0 <= k < m < rest.len() && rest[k].leaving implies #[trigger] g.is_descendant(
        rest[k].entity,
        rest[m].entity,
    ) by {
        assert(g.is_descendant(stack[k].entity, stack[m].entity));
    }
    assert forall|k: int, y: Entity|
        0 <= k < rest.len() && rest[k].leaving && #[trigger] g.lists(rest[k].entity, y)
            && !g.is_descendant(rest[k].entity, rest[k].entity) implies more.contains(y) || above(
        rest,
        k,
        y,
    ) by {
        assert(g.lists(stack[k].entity, y));
        if !left.contains(y) {
            let m = choose|m: int| k < m < stack.len() && (#[trigger] stack[m]).entity == y;
            if m < t {
                assert(rest[m].entity == y);
            }
        }
    }
    assert forall|x: Entity, y: Entity|
        more.contains(x) && #[trigger] g.lists(x, y) && !g.is_descendant(x, x) implies more.contains(
        y,
    ) by {
        if x == top.entity && !left.contains(x) {
            assert(g.lists(stack[t].entity, y));
            if !left.contains(y) {
                assert(above(stack, t, y));
            }
        }
        if x == top.entity && left.contains(x) {
            assert(left.contains(y));
        }
    }
}

proof fn lemma_enter_discipline(
    g: Hierarchy,
    roots: Seq<Entity>,
    stack: Seq<Visit>,
    entered: Set<Entity>,
    left: Set<Entity>,
    grown: Seq<Visit>,
)
    requires
        frontier(g, roots, stack, entered, left),
        discipline(g, stack, left),
        stack.len() > 0,
        !stack.last().leaving,
        grown.len() >= stack.len(),
        grown.subrange(0, stack.len() as int) == stack.drop_last().push(
            Visit { entity: stack.last().entity, leaving: true },
        ),
        forall|k: int|
            stack.len() <= k < grown.len() ==> !(#[trigger] grown[k]).leaving && g.lists(
                stack.last().entity,
                grown[k].entity,
            ),
        entered.contains(stack.last().entity) || pushed_all(g, stack, grown),
    ensures
        discipline(g, grown, left),
{
    let e = stack.last().entity;
    let t = stack.len() - 1;
    let base = stack.drop_last().push(Visit { entity: e, leaving: true });
    assert forall|k: int| 0 <= k < stack.len() implies grown[k] == base[k] by {
        assert(grown.subrange(0, stack.len() as int)[k] == grown[k]);
    }
    assert(grown[t] == Visit { entity: e, leaving: true });
    assert forall|k: int, m: int| 0 <= k < m < grown.len() && grown[k].leaving implies #[trigger] g.is_descendant(
        grown[k].entity,
        grown[m].entity,
    ) by {
        if k < t {
            assert(grown[k] == stack[k]);
            assert(g.is_descendant(stack[k].entity, stack[t].entity));
            if m < t {
                assert(grown[m] == stack[m]);
                assert(g.is_descendant(stack[k].entity, stack[m].entity));
            } else if m > t {
                g.lemma_descendant_child(stack[k].entity, e, grown[m].entity);
            }
        } else {
            assert(k == t);
            g.lemma_descendant_child(e, e, grown[m].entity);
        }
    }
    assert forall|k: int, y: Entity|
        0 <= k < grown.len() && grown[k].leaving && #[trigger] g.lists(grown[k].entity, y)
            && !g.is_descendant(grown[k].entity, grown[k].entity) implies left.contains(y) || above(
        grown,
        k,
        y,
    ) by {
        if k < t {
            assert(grown[k] == stack[k]);
            assert(g.lists(stack[k].entity, y));
            if !left.contains(y) {
                let m = choose|m: int| k < m < stack.len() && (#[trigger] stack[m]).entity == y;
                assert(grown[m].entity == y);
            }
        } else {
            assert(k == t);
            if entered.contains(e) {
                if !left.contains(e) {
                    let v = Visit { entity: e, leaving: true };
                    assert(stack.contains(v));
                    let k0 = choose|k0: int| 0 <= k0 < stack.len() && stack[k0] == v;
                    assert(g.is_descendant(stack[k0].entity, stack[t].entity));
                }
                assert(left.contains(y));
            } else {
                let m = choose|m: int|
                    stack.len() <= m < grown.len() && (#[trigger] grown[m]).entity == y;
                assert(grown[m].entity == y);
            }
        }
    }
}

/// Whether a step for each child of the entity on top of `stack` lies in
/// the part of `grown` that was pushed.
spec fn pushed_all(g: Hierarchy, stack: Seq<Visit>, grown: Seq<Visit>) -> bool {
    forall|y: Entity| #[trigger]
        g.lists(stack.last().entity, y) ==> exists|m: int|
            stack.len() <= m < grown.len() && (#[trigger] grown[m]).entity == y
}

/// Destroys every entity that is one of `roots` or descends from one, each
/// after the entities below it.
#[verifier::rlimit(40)]
fn despawn_all<C: Children, P: Parent>(
    world: &mut World<C, P>,
    roots: &[Entity],
    warn: bool,
) -> (done: Despawned)
    requires
        old(world).wf(),
    ensures
        final(world)@ == old(world)@.without_all(old(world)@.reached_from(roots@)),
        final(world).wf(),
        done.destroyed@.no_duplicates(),
        forall|x: Entity| #[trigger]
            done.destroyed@.contains(x) <==> old(world)@.reached_from(roots@).contains(x) && old(
                world,
            )@.alive.contains(x),
        old(world)@.children_first(done.destroyed@),
        done.missing@.no_duplicates(),
        forall|x: Entity| #[trigger]
            done.missing@.contains(x) <==> warn && old(world)@.reached_from(roots@).contains(x)
                && !old(world)@.alive.contains(x),
{
    let ghost g = world@;
    let mut stack: Vec<Visit> = Vec::new();
    let mut i: usize = roots.len();
    while i > 0
        invariant
            i <= roots.len(),
            forall|k: int|
                0 <= k < stack.len() ==> !(#[trigger] stack@[k]).leaving && roots@.contains(
                    stack@[k].entity,
                ),
            forall|r: int|
                i <= r < roots.len() ==> stack@.contains(
                    Visit { entity: #[trigger] roots@[r], leaving: false },
                ),
        decreases i,
    {
        i -= 1;
        let ghost before = stack@;
        stack.push(Visit { entity: roots[i], leaving: false });
        proof {
            assert(stack@[before.len() as int] == Visit { entity: roots@[i as int], leaving: false });
            assert forall|r: int| i <= r < roots.len() implies stack@.contains(
                Visit { entity: #[trigger] roots@[r], leaving: false },
            ) by {
                if r > i {
                    let v = Visit { entity: roots@[r], leaving: false };
                    let k = choose|k: int| 0 <= k < before.len() && before[k] == v;
                    assert(stack@[k] == v);
                }
            }
        }
    }
    let mut destroyed: Vec<Entity> = Vec::new();
    let mut missing: Vec<Entity> = Vec::new();
    let mut gone: HashSet<u64> = HashSet::new();
    let mut told: HashSet<u64> = HashSet::new();
    let ghost mut entered: Set<Entity> = Set::empty();
    let ghost mut left: Set<Entity> = Set::empty();
    proof {
        assert forall|k: int| 0 <= k < stack.len() implies g.reached_from(roots@).contains(
            (#[trigger] stack@[k]).entity,
        ) by {
            let e = stack@[k].entity;
            let r = choose|r: int| 0 <= r < roots@.len() && roots@[r] == e;
            g.lemma_reaches_self(e);
            assert(g.reaches(roots@[r], e));
        }
        assert(progress(g, world@, entered, left));
    }
    while stack.len() > 0
        invariant
            world.wf(),
            frontier(g, roots@, stack@, entered, left),
            progress(g, world@, entered, left),
            discipline(g, stack@, left),
            logged(g, destroyed@, left),
            reported(g, missing@, left, warn),
            marks(gone@, destroyed@),
            marks(told@, missing@),
        decreases world.collections(), weight(stack@),
    {
        let ghost was = stack@;
        let ghost held = world@;
        let visit = stack.pop().unwrap();
        let entity = visit.entity;
        proof {
            assert(stack@ == was.drop_last());
            assert(was.last() == visit);
        }
        if visit.leaving {
            // Everything below is gone; an entity that is gone already is passed over.
            let lived = world.despawn(entity);
            let ghost log = destroyed@;
            let ghost report = missing@;
            let key = entity.to_bits();
            proof {
                assert(gone@.contains(key) <==> log.contains(entity));
                assert(told@.contains(key) <==> report.contains(entity));
                if !lived && !log.contains(entity) {
                    // what does not live now and was not destroyed here never lived
                    assert(!g.alive.contains(entity));
                }
            }
            if lived {
                proof {
                    lemma_marks_push(gone@, destroyed@, entity);
                }
                destroyed.push(entity);
                gone.insert(key);
            } else if warn && !gone.contains(&key) && !told.contains(&key) {
                proof {
                    lemma_marks_push(told@, missing@, entity);
                }
                missing.push(entity);
                told.insert(key);
            }
            proof {
                let more = left.insert(entity);
                assert forall|x: Entity| #[trigger] missing@.contains(x) <==> warn && more.contains(
                    x,
                ) && !g.alive.contains(x) by {
                    assert(report.contains(x) <==> warn && left.contains(x) && !g.alive.contains(x));
                    if missing@ != report {
                        let longer = report.push(entity);
                        assert(missing@ == longer);
                        if longer.contains(x) {
                            let k = choose|k: int| 0 <= k < longer.len() && longer[k] == x;
                            if k < report.len() {
                                assert(report[k] == x);
                            }
                        }
                        if report.contains(x) {
                            let k = choose|k: int| 0 <= k < report.len() && report[k] == x;
                            assert(longer[k] == x);
                        }
                        assert(longer[report.len() as int] == entity);
                    }
                }
            }
            proof {
                assert(entered.contains(was[was.len() - 1].entity));
                lemma_leave(g, roots@, was, entered, left);
                lemma_leave_discipline(g, was, left);
                let more = left.insert(entity);
                if lived {
                    assert(!left.contains(entity));
                    assert(!log.contains(entity));
                    let longer = log.push(entity);
                    assert forall|i: int, j: int|
                        0 <= i < longer.len() && 0 <= j < longer.len() && i != j implies longer[i]
                        != longer[j] by {
                        if i == log.len() {
                            assert(log.contains(log[j]));
                        }
                        if j == log.len() {
                            assert(log.contains(log[i]));
                        }
                    }
                    assert forall|x: Entity| #[trigger] longer.contains(x) <==> more.contains(x)
                        && g.alive.contains(x) by {
                        if longer.contains(x) {
                            let k = choose|k: int| 0 <= k < longer.len() && longer[k] == x;
                            if k < log.len() {
                                assert(log[k] == x);
                            }
                        }
                        if log.contains(x) {
                            let k = choose|k: int| 0 <= k < log.len() && log[k] == x;
                            assert(longer[k] == x);
                        }
                        if x == entity {
                            assert(longer[log.len() as int] == x);
                        }
                    }
                    assert forall|i: int, j: int|
                        0 <= i < longer.len() && 0 <= j < longer.len() && #[trigger] g.lists(
                            longer[i],
                            longer[j],
                        ) && !g.is_descendant(longer[i], longer[i]) implies j < i by {
                        if i < log.len() && j < log.len() {
                            assert(g.lists(log[i], log[j]));
                        } else if i < log.len() {
                            // a parent that is done with has no child that still lives
                            assert(log.contains(log[i]));
                            assert(left.contains(log[i]));
                            assert(g.lists(log[i], entity));
                            assert(left.contains(entity));
                        }
                    }
                } else {
                    assert forall|x: Entity| #[trigger] log.contains(x) <==> more.contains(x)
                        && g.alive.contains(x) by {}
                }
                left = more;
                assert(world@.alive == g.alive.difference(left));
                assert(world@.parent == g.parent.remove_keys(left));
                assert(world@.children == g.children.remove_keys(entered));
            }
        } else {
            stack.push(Visit { entity, leaving: true });
            let ghost base = stack@;
            proof {
                lemma_weight_push(was.drop_last(), Visit { entity, leaving: true });
            }
            let taken = world.take_children(entity);
            if let Some(children) = taken {
                let list = sv_as_slice(children.get_ref());
                let mut j: usize = list.len();
                while j > 0
                    invariant
                        j <= list.len(),
                        stack@.len() >= base.len(),
                        stack@.subrange(0, base.len() as int) == base,
                        forall|k: int|
                            base.len() <= k < stack@.len() ==> !(#[trigger] stack@[k]).leaving
                                && list@.contains(stack@[k].entity),
                        forall|m: int|
                            j <= m < list.len() ==> stack@.contains(
                                Visit { entity: #[trigger] list@[m], leaving: false },
                            ),
                        forall|m: int|
                            j <= m < list.len() ==> above(
                                stack@,
                                base.len() - 1,
                                #[trigger] list@[m],
                            ),
                    decreases j,
                {
                    j -= 1;
                    let ghost before = stack@;
                    stack.push(Visit { entity: list[j], leaving: false });
                    proof {
                        assert(stack@.subrange(0, base.len() as int) == before.subrange(
                            0,
                            base.len() as int,
                        ));
                        assert(stack@[before.len() as int] == Visit {
                            entity: list@[j as int],
                            leaving: false,
                        });
                        assert forall|m: int| j <= m < list.len() implies stack@.contains(
                            Visit { entity: #[trigger] list@[m], leaving: false },
                        ) by {
                            if m > j {
                                let v = Visit { entity: list@[m], leaving: false };
                                let k = choose|k: int| 0 <= k < before.len() && before[k] == v;
                                assert(stack@[k] == v);
                            }
                        }
                        assert forall|m: int| j <= m < list.len() implies above(
                            stack@,
                            base.len() - 1,
                            #[trigger] list@[m],
                        ) by {
                            if m > j {
                                let k = choose|k: int|
                                    base.len() - 1 < k < before.len() && (#[trigger] before[k]).entity
                                        == list@[m];
                                assert(stack@[k].entity == list@[m]);
                            } else {
                                assert(stack@[before.len() as int].entity == list@[m]);
                            }
                        }
                    }
                }
                proof {
                    assert(held.children.contains_key(entity));
                    assert(g.children.contains_key(entity) && g.children[entity] == list@);
                    assert forall|y: Entity| #[trigger] g.lists(entity, y) implies stack@.contains(
                        Visit { entity: y, leaving: false },
                    ) by {
                        let m = choose|m: int| 0 <= m < list@.len() && list@[m] == y;
                        assert(stack@.contains(Visit { entity: list@[m], leaving: false }));
                    }
                    assert(pushed_all(g, was, stack@)) by {
                        assert forall|y: Entity| #[trigger] g.lists(was.last().entity, y) implies exists|
                            m: int,
                        |
                            was.len() <= m < stack@.len() && (#[trigger] stack@[m]).entity == y by {
                            let i = choose|i: int| 0 <= i < list@.len() && list@[i] == y;
                            assert(above(stack@, base.len() - 1, list@[i]));
                        }
                    }
                }
            } else {
                proof {
                    assert(stack@.subrange(0, base.len() as int) == base);
                    if !entered.contains(entity) {
                        assert(!g.children.contains_key(entity));
                        assert(pushed_all(g, was, stack@));
                    }
                }
            }
            proof {
                lemma_enter_discipline(g, roots@, was, entered, left, stack@);
                lemma_enter(g, roots@, was, entered, left, stack@);
                entered = entered.insert(entity);
                assert(world@.children == g.children.remove_keys(entered));
            }
        }
    }
    proof {
        assert(stack@ == Seq::<Visit>::empty());
        lemma_done(g, world@, roots@, entered, left);
    }
    Despawned { destroyed, missing }
}

/// Destroys `entity` with all its descendants, each after the entities
/// below it, and says what it did.
fn despawn_with_children_recursive_inner<C: Children, P: Parent>(
    world: &mut World<C, P>,
    entity: Entity,
    warn: bool,
) -> (done: Despawned)
    requires
        old(world).wf(),
    ensures
        final(world)@ == old(world)@.without_all(old(world)@.reached_from(seq![entity])),
        final(world).wf(),
        done.destroyed@.no_duplicates(),
        forall|x: Entity| #[trigger]
            done.destroyed@.contains(x) <==> old(world)@.reached_from(seq![entity]).contains(x)
                && old(world)@.alive.contains(x),
        old(world)@.children_first(done.destroyed@),
        done.missing@.no_duplicates(),
        forall|x: Entity| #[trigger]
            done.missing@.contains(x) <==> warn && old(world)@.reached_from(seq![entity]).contains(
                x,
            ) && !old(world)@.alive.contains(x),
{
    let one = [entity];
    assert(one@ == seq![entity]);
    despawn_all(world, &one, warn)
}

/// Destroys `entity` and all its descendants. First the parent of `entity`
/// ceases to list it, so that the parent is in order before anything is
/// destroyed; then the entities go, children before their parents. An
/// entity that does not live is passed over, which fails nothing; where
/// `warn` is set, each such entity is reported.
pub fn despawn_with_children_recursive<C: Children, P: Parent>(
    world: &mut World<C, P>,
    entity: Entity,
    warn: bool,
) -> (done: Despawned)
    requires
        old(world).wf(),
    ensures
        final(world)@ == old(world)@.despawn_recursive(entity),
        final(world).wf(),
        done.destroyed@.no_duplicates(),
        forall|x: Entity| #[trigger]
            done.destroyed@.contains(x) <==> old(world)@.reaches(entity, x) && old(
                world,
            )@.alive.contains(x),
        old(world)@.children_first(done.destroyed@),
        done.missing@.no_duplicates(),
        forall|x: Entity| #[trigger]
            done.missing@.contains(x) <==> warn && old(world)@.reaches(entity, x) && !old(
                world,
            )@.alive.contains(x),
{
    if let Some(parent) = world.parent(entity) {
        if let Some(mut children) = world.take_children(parent) {
            let apart = |c: &Entity| -> (keep: bool)
                ensures
                    keep == (*c != entity),
                { *c != entity };
            let ghost before = children.entities();
            children.retain(apart);
            proof {
                lemma_retained_is_filter(apart, before, children.entities(), other_than(entity));
            }
            let left = sv_as_slice(children.get_ref()).len();
            if left > 0 {
                world.put_children(parent, children);
            }
        }
    }
    let ghost cut = world@;
    proof {
        assert(cut == old(world)@.detached(entity));
        old(world)@.lemma_detached_subtree(entity);
        old(world)@.lemma_detached_lists(entity);
    }
    let done = despawn_with_children_recursive_inner(world, entity, warn);
    proof {
        let g = old(world)@;
        let log = done.destroyed@;
        assert forall|x: Entity| g.subtree(entity).contains(x) <==> g.reaches(entity, x) by {}
        assert forall|x: Entity| #[trigger] log.contains(x) <==> g.reaches(entity, x)
            && g.alive.contains(x) by {
            assert(g.subtree(entity).contains(x) <==> g.reaches(entity, x));
        }
        assert forall|x: Entity| #[trigger] done.missing@.contains(x) <==> warn && g.reaches(
            entity,
            x,
        ) && !g.alive.contains(x) by {
            assert(g.subtree(entity).contains(x) <==> g.reaches(entity, x));
        }
        assert forall|i: int, j: int|
            0 <= i < log.len() && 0 <= j < log.len() && #[trigger] g.lists(log[i], log[j])
                && !g.is_descendant(log[i], log[i]) implies j < i by {
            if cut.is_descendant(log[i], log[i]) {
                g.lemma_descends_in_larger(cut, log[i], log[i]);
            }
            if cut.lists(log[i], log[j]) {
            } else {
                // the one listing that is gone is that of `entity` by its parent
                assert(log[j] == entity);
                assert(log.contains(log[i]));
                assert(g.reaches(entity, log[i]));
                g.lemma_listed_ancestor_is_cyclic(log[i], entity);
            }
        }
    }
    done
}

/// Destroys the descendants of `entity`, children before their parents.
/// The entity itself stays as it is but for its collection of children,
/// which it gives up. An entity that does not live is passed over; where
/// `warn` is set, each such entity is reported.
pub fn despawn_children_recursive<C: Children, P: Parent>(
    world: &mut World<C, P>,
    entity: Entity,
    warn: bool,
) -> (done: Despawned)
    requires
        old(world).wf(),
    ensures
        final(world)@ == old(world)@.despawn_descendants(entity),
        final(world).wf(),
        done.destroyed@.no_duplicates(),
        forall|x: Entity| #[trigger]
            done.destroyed@.contains(x) <==> old(world)@.is_descendant(entity, x) && old(
                world,
            )@.alive.contains(x),
        old(world)@.children_first(done.destroyed@),
        done.missing@.no_duplicates(),
        forall|x: Entity| #[trigger]
            done.missing@.contains(x) <==> warn && old(world)@.is_descendant(entity, x) && !old(
                world,
            )@.alive.contains(x),
{
    proof {
        old(world)@.lemma_children_reach_descendants(entity);
    }
    if let Some(children) = world.take_children(entity) {
        let ghost cut = world@;
        let done = despawn_all(world, sv_as_slice(children.get_ref()), warn);
        proof {
            let g = old(world)@;
            let log = done.destroyed@;
            assert forall|x: Entity| #[trigger] log.contains(x) <==> g.is_descendant(entity, x)
                && g.alive.contains(x) by {
                assert(g.descendants(entity).contains(x) <==> g.is_descendant(entity, x));
            }
            assert forall|x: Entity| #[trigger] done.missing@.contains(x) <==> warn
                && g.is_descendant(entity, x) && !g.alive.contains(x) by {
                assert(g.descendants(entity).contains(x) <==> g.is_descendant(entity, x));
            }
            assert forall|i: int, j: int|
                0 <= i < log.len() && 0 <= j < log.len() && #[trigger] g.lists(log[i], log[j])
                    && !g.is_descendant(log[i], log[i]) implies j < i by {
                if cut.is_descendant(log[i], log[i]) {
                    g.lemma_descends_in_larger(cut, log[i], log[i]);
                }
                assert(log.contains(log[i]));
                assert(g.is_descendant(entity, log[i]));
                assert(log[i] != entity);
                assert(cut.lists(log[i], log[j]));
            }
        }
        done
    } else {
        proof {
            let g = old(world)@;
            assert(g.children_of(entity) == Seq::<Entity>::empty());
            assert(g.without_children(entity).reached_from(Seq::empty()) == Set::<Entity>::empty());
            assert(world@ == g.despawn_descendants(entity));
            assert forall|x: Entity| !g.is_descendant(entity, x) by {
                assert(!g.descendants(entity).contains(x));
            }
        }
        Despawned { destroyed: Vec::new(), missing: Vec::new() }
    }
}

} // verus!
