//! The index of poses and joints, and the propagation of poses through the
//! joints.

use crate::carbon_components::description::{Pose, PoseError};
use crate::entity::Entity;
use crate::joints::Joint;
use crate::sequences::lemma_remove_value_no_duplicates;
use std::collections::HashMap;
use vstd::prelude::*;

verus! {

broadcast use vstd::std_specs::hash::group_hash_axioms;

/// The mathematical model of a pose tree.
#[verifier::ext_equal]
pub struct PoseModel<T> {
    /// The pose of each entity that carries one.
    pub poses: Map<Entity, Pose<T>>,
    /// The joint data of each entity that is a joint.
    pub joints: Map<Entity, Joint<T>>,
    /// The joints in the order in which they were added, which is the order
    /// in which they are propagated.
    pub order: Seq<Entity>,
}

impl<T> PoseModel<T> {
    /// The tree without poses and joints.
    pub open spec fn empty() -> PoseModel<T> {
        PoseModel { poses: Map::empty(), joints: Map::empty(), order: Seq::empty() }
    }

    /// The tree's invariant: the order names each joint once and nothing
    /// else.
    pub open spec fn wf(self) -> bool {
        &&& self.order.no_duplicates()
        &&& forall|e: Entity| #[trigger] self.joints.contains_key(e) <==> self.order.contains(e)
    }

    /// The joint at position `k` of the order.
    pub open spec fn joint_at(self, k: int) -> Joint<T> {
        self.joints[self.order[k]]
    }

    /// The frame that the pose of the joint at position `k` is expressed in.
    pub open spec fn frame_at(self, k: int) -> Option<Entity> {
        self.poses[self.order[k]].reference_frame
    }

    /// Whether the joint at position `k` lacks a pose that it needs: its
    /// own, its frame's, or its child's.
    pub open spec fn missing_at(self, k: int) -> bool {
        ||| !self.poses.contains_key(self.order[k])
        ||| !self.poses.contains_key(self.joint_at(k).child)
        ||| (self.frame_at(k) matches Some(frame) && !self.poses.contains_key(frame))
    }

    /// Whether some joint lacks a pose that it needs.
    pub open spec fn missing(self) -> bool {
        exists|k: int| 0 <= k < self.order.len() && #[trigger] self.missing_at(k)
    }

    /// Whether the joints at positions `k` and `i` cannot both stand: the
    /// one drives the other, or both drive one child.
    pub open spec fn clash_at(self, k: int, i: int) -> bool {
        ||| self.joint_at(i).child == self.order[k]
        ||| (i != k && self.joint_at(i).child == self.joint_at(k).child)
    }

    /// Whether the joints span no tree: a joint is driven by a joint, or
    /// two joints drive one child.
    pub open spec fn tangled(self) -> bool {
        exists|k: int, i: int|
            0 <= k < self.order.len() && 0 <= i < self.order.len() && #[trigger] self.clash_at(
                k,
                i,
            )
    }

    /// Whether the joint at position `k` reads what the joint at position
    /// `i` writes: the frame of its pose is the child that `i` drives.
    pub open spec fn depends(self, k: int, i: int) -> bool {
        self.frame_at(k) == Some(self.joint_at(i).child)
    }

    /// Whether `i` comes in `plan` before position `a`.
    pub open spec fn earlier(plan: Seq<usize>, a: int, i: int) -> bool {
        exists|b: int| 0 <= b < a && #[trigger] plan[b] == i
    }

    /// Whether `plan` names the joints roots first: each joint once, and
    /// none before a joint whose child is the frame of its pose.
    pub open spec fn is_schedule(self, plan: Seq<usize>) -> bool {
        &&& forall|a: int| 0 <= a < plan.len() ==> #[trigger] plan[a] < self.order.len()
        &&& plan.no_duplicates()
        &&& forall|k: usize| k < self.order.len() ==> #[trigger] plan.contains(k)
        &&& forall|a: int, i: int|
            0 <= a < plan.len() && 0 <= i < self.order.len() && #[trigger] self.depends(
                plan[a] as int,
                i,
            ) ==> Self::earlier(plan, a, i)
    }

    /// Whether the joints can be walked from the roots to the leaves.
    pub open spec fn schedulable(self) -> bool {
        exists|plan: Seq<usize>| self.is_schedule(plan)
    }

    /// Why the poses cannot be propagated, if they cannot.
    pub open spec fn fault(self) -> Option<PoseError> {
        if self.missing() {
            Some(PoseError::MissingPose)
        } else if self.tangled() || !self.schedulable() {
            Some(PoseError::NotReady)
        } else {
            None
        }
    }

    /// Whether some joint drives `e`.
    pub open spec fn driven(self, e: Entity) -> bool {
        exists|i: int| 0 <= i < self.order.len() && (#[trigger] self.joint_at(i)).child == e
    }

    /// Whether one of the first `a` joints of `plan` drives `e`.
    pub open spec fn driven_so_far(self, plan: Seq<usize>, e: Entity, a: int) -> bool {
        exists|b: int| 0 <= b < a && self.joint_at((#[trigger] plan[b]) as int).child == e
    }

    /// Whether the pose of the child of the joint at position `i` is what
    /// `compose` makes of the joint: the joint's pose, composed onto the
    /// pose of its frame where it has one, and the joint's motion composed
    /// onto that. The child's pose is then expressed in the frame in which
    /// the joint's frame is, or in the world.
    pub open spec fn resolves<F: Fn(&T, &T) -> T>(self, compose: F, i: int) -> bool {
        let own = self.poses[self.order[i]];
        let joint = self.joint_at(i);
        let out = self.poses[joint.child];
        match own.reference_frame {
            None => {
                &&& call_ensures(compose, (&own.transform, &joint.motion), out.transform)
                &&& out.reference_frame.is_none()
            },
            Some(frame) => {
                &&& exists|placed: T|
                    call_ensures(compose, (&self.poses[frame].transform, &own.transform), placed)
                        && #[trigger] call_ensures(compose, (&placed, &joint.motion), out.transform)
                &&& out.reference_frame == self.poses[frame].reference_frame
            },
        }
    }

    /// Whether `after` is this tree with its poses propagated by `compose`:
    /// the joints are as they were; the poses that no joint drives are
    /// untouched; and the pose of each driven entity is what its joint
    /// makes of the poses as they are in the end.
    pub open spec fn propagated<F: Fn(&T, &T) -> T>(self, compose: F, after: PoseModel<T>) -> bool {
        &&& after.joints == self.joints
        &&& after.order == self.order
        &&& after.poses.dom() == self.poses.dom()
        &&& forall|e: Entity|
            self.poses.contains_key(e) && !self.driven(e) ==> #[trigger] after.poses[e]
                == self.poses[e]
        &&& forall|i: int| 0 <= i < self.order.len() ==> #[trigger] after.resolves(compose, i)
    }

    /// The tree after the joint `e` took the motion `motion`.
    pub open spec fn with_motion(self, e: Entity, motion: T) -> PoseModel<T> {
        PoseModel {
            joints: self.joints.insert(e, Joint { child: self.joints[e].child, motion }),
            ..self
        }
    }

    /// When a joint on a root takes a new motion and the poses are
    /// propagated again, the root's pose is untouched and the pose of the
    /// child that the joint drives is what `compose` makes of the root's
    /// pose, the joint's pose and the new motion, in the root's frame.
    pub proof fn lemma_motion_moves_the_child_only(
        self,
        compose: impl Fn(&T, &T) -> T,
        root: Entity,
        joint: Entity,
        motion: T,
        after: PoseModel<T>,
    )
        requires
            self.wf(),
            self.joints.contains_key(joint),
            self.poses.contains_key(root),
            self.poses.contains_key(joint),
            self.poses[joint].reference_frame == Some(root),
            !self.driven(root),
            self.with_motion(joint, motion).fault().is_none(),
            self.with_motion(joint, motion).propagated(compose, after),
        ensures
            after.poses[root] == self.poses[root],
            after.poses[joint] == self.poses[joint],
            exists|placed: T|
                call_ensures(
                    compose,
                    (&self.poses[root].transform, &self.poses[joint].transform),
                    placed,
                ) && #[trigger] call_ensures(
                    compose,
                    (&placed, &motion),
                    after.poses[self.joints[joint].child].transform,
                ),
            after.poses[self.joints[joint].child].reference_frame
                == self.poses[root].reference_frame,
    {
        let moved = self.with_motion(joint, motion);
        assert(self.order.contains(joint));
        let k = choose|k: int| 0 <= k < self.order.len() && self.order[k] == joint;
        assert forall|i: int| 0 <= i < moved.order.len() implies (#[trigger] moved.joint_at(i)).child
            == self.joint_at(i).child by {}
        assert(!moved.driven(root)) by {
            if moved.driven(root) {
                let i = choose|i: int|
                    0 <= i < moved.order.len() && (#[trigger] moved.joint_at(i)).child == root;
                assert(self.joint_at(i).child == root);
            }
        }
        assert(!moved.driven(joint)) by {
            if moved.driven(joint) {
                let i = choose|i: int|
                    0 <= i < moved.order.len() && (#[trigger] moved.joint_at(i)).child == joint;
                assert(moved.clash_at(k, i));
            }
        }
        assert(after.resolves(compose, k));
        assert(after.poses[root] == moved.poses[root]);
        assert(after.poses[joint] == moved.poses[joint]);
    }

    /// The test of carrying a pose that is expressed in `parent`.
    pub open spec fn expressed_in(self, parent: Entity) -> spec_fn(Entity) -> bool {
        |j: Entity| self.poses.contains_key(j) && self.poses[j].reference_frame == Some(parent)
    }

    /// The child that a joint drives, as a function of the joint.
    pub open spec fn child_of(self) -> spec_fn(Entity) -> Entity {
        |j: Entity| self.joints[j].child
    }

    /// The children of the joints whose poses are expressed in `parent`, in
    /// the order of the joints.
    pub open spec fn children_of(self, parent: Entity) -> Seq<Entity> {
        self.order.filter(self.expressed_in(parent)).map_values(self.child_of())
    }

    /// The tree without the poses and the joint data of the entities of
    /// `gone`.
    pub open spec fn without_all(self, gone: Seq<Entity>) -> PoseModel<T>
        decreases gone.len(),
    {
        if gone.len() == 0 {
            self
        } else {
            self.without_all(gone.drop_last()).without(gone.last())
        }
    }

    /// The tree without the pose and the joint data of `e`.
    pub open spec fn without(self, e: Entity) -> PoseModel<T> {
        PoseModel {
            poses: self.poses.remove(e),
            joints: self.joints.remove(e),
            order: self.order.remove_value(e),
        }
    }
}

/// The index from each entity to its pose and, for a joint, to its joint
/// data.
pub struct PoseTree<T> {
    poses: HashMap<u64, Pose<T>>,
    joints: HashMap<u64, Joint<T>>,
    order: Vec<Entity>,
}

impl<T> View for PoseTree<T> {
    type V = PoseModel<T>;

    closed spec fn view(&self) -> PoseModel<T> {
        PoseModel {
            poses: Map::new(
                |e: Entity| self.poses@.contains_key(e.bits),
                |e: Entity| self.poses@[e.bits],
            ),
            joints: Map::new(
                |e: Entity| self.joints@.contains_key(e.bits),
                |e: Entity| self.joints@[e.bits],
            ),
            order: self.order@,
        }
    }
}

impl<T> PoseTree<T> {
    /// The tree's invariant, which every operation keeps.
    pub open spec fn wf(&self) -> bool {
        self@.wf()
    }

    /// A tree without poses and joints.
    pub fn new() -> (tree: Self)
        ensures
            tree@ == PoseModel::<T>::empty(),
            tree.wf(),
    {
        let tree = PoseTree { poses: HashMap::new(), joints: HashMap::new(), order: Vec::new() };
        assert(tree@.poses == Map::<Entity, Pose<T>>::empty());
        assert(tree@.joints == Map::<Entity, Joint<T>>::empty());
        tree
    }

    /// Gives `e` the pose `pose` and returns the pose that it had.
    pub fn insert_pose(&mut self, e: Entity, pose: Pose<T>) -> (previous: Option<Pose<T>>)
        requires
            old(self).wf(),
        ensures
            final(self).wf(),
            final(self)@ == (PoseModel { poses: old(self)@.poses.insert(e, pose), ..old(self)@ }),
            previous == if old(self)@.poses.contains_key(e) {
                Some(old(self)@.poses[e])
            } else {
                None
            },
    {
        let previous = self.poses.insert(e.to_bits(), pose);
        assert(self@.poses == old(self)@.poses.insert(e, pose));
        assert(self@.joints == old(self)@.joints);
        previous
    }

    /// The pose of `e`, if it carries one.
    pub fn get_pose(&self, e: Entity) -> (pose: Option<&Pose<T>>)
        ensures
            pose == if self@.poses.contains_key(e) {
                Some(&self@.poses[e])
            } else {
                None
            },
    {
        self.poses.get(&e.to_bits())
    }

    /// Makes `e` a joint with the data `joint` and returns the data that it
    /// had. A new joint comes last in the order; a joint that is given new
    /// data keeps its place.
    pub fn insert_joint(&mut self, e: Entity, joint: Joint<T>) -> (previous: Option<Joint<T>>)
        requires
            old(self).wf(),
        ensures
            final(self).wf(),
            final(self)@ == (PoseModel {
                joints: old(self)@.joints.insert(e, joint),
                order: if old(self)@.joints.contains_key(e) {
                    old(self)@.order
                } else {
                    old(self)@.order.push(e)
                },
                ..old(self)@
            }),
            previous == if old(self)@.joints.contains_key(e) {
                Some(old(self)@.joints[e])
            } else {
                None
            },
    {
        let previous = self.joints.insert(e.to_bits(), joint);
        if previous.is_none() {
            self.order.push(e);
            proof {
                let before = old(self)@.order;
                assert(!old(self)@.joints.contains_key(e));
                assert(!before.contains(e));
                assert forall|x: Entity| #[trigger]
                    self@.joints.contains_key(x) <==> self@.order.contains(x) by {
                    if before.push(e).contains(x) {
                        let k = choose|k: int| 0 <= k < before.len() + 1 && before.push(e)[k] == x;
                        if k < before.len() {
                            assert(before[k] == x);
                        }
                    }
                    if before.contains(x) {
                        let k = choose|k: int| 0 <= k < before.len() && before[k] == x;
                        assert(before.push(e)[k] == x);
                    }
                    if x == e {
                        assert(before.push(e)[before.len() as int] == x);
                    }
                    assert(old(self)@.joints.contains_key(x) <==> before.contains(x));
                }
                assert forall|i: int, j: int|
                    0 <= i < before.len() + 1 && 0 <= j < before.len() + 1 && i != j implies before.push(
                    e,
                )[i] != before.push(e)[j] by {
                    if i == before.len() {
                        assert(before.contains(before[j]));
                    }
                    if j == before.len() {
                        assert(before.contains(before[i]));
                    }
                }
            }
        } else {
            proof {
                assert forall|x: Entity| #[trigger]
                    self@.joints.contains_key(x) <==> self@.order.contains(x) by {
                    assert(old(self)@.joints.contains_key(x) <==> old(self)@.order.contains(x));
                }
            }
        }
        assert(self@.joints == old(self)@.joints.insert(e, joint));
        assert(self@.poses == old(self)@.poses);
        previous
    }

    /// The joint data of `e`, if it is a joint.
    pub fn get_joint(&self, e: Entity) -> (joint: Option<&Joint<T>>)
        ensures
            joint == if self@.joints.contains_key(e) {
                Some(&self@.joints[e])
            } else {
                None
            },
    {
        self.joints.get(&e.to_bits())
    }

    /// Gives the joint `e` the motion `motion` and says whether `e` is a
    /// joint. The child that it drives and its place in the order stay.
    pub fn update_joint(&mut self, e: Entity, motion: T) -> (updated: bool)
        requires
            old(self).wf(),
        ensures
            final(self).wf(),
            updated == old(self)@.joints.contains_key(e),
            final(self)@ == if updated {
                PoseModel {
                    joints: old(self)@.joints.insert(
                        e,
                        Joint { child: old(self)@.joints[e].child, motion },
                    ),
                    ..old(self)@
                }
            } else {
                old(self)@
            },
    {
        let child = match self.joints.get(&e.to_bits()) {
            Some(joint) => joint.child,
            None => {
                return false;
            },
        };
        self.insert_joint(e, Joint { child, motion });
        true
    }

    /// The children of the joints whose poses are expressed in `parent`:
    /// what hangs on `parent` in the resolved structure, in the order of
    /// the joints.
    pub fn get_children(&self, parent: Entity) -> (children: Vec<Entity>)
        requires
            self.wf(),
        ensures
            children@ == self@.children_of(parent),
    {
        let mut children: Vec<Entity> = Vec::new();
        let n = self.order.len();
        let mut k: usize = 0;
        while k < n
            invariant
                self.wf(),
                n == self.order.len(),
                k <= n,
                children@ == self@.order.subrange(0, k as int).filter(
                    self@.expressed_in(parent),
                ).map_values(self@.child_of()),
            decreases n - k,
        {
            let j = self.order[k];
            let ghost done = self@.order.subrange(0, k as int);
            proof {
                reveal(Seq::filter);
                assert(self@.order.subrange(0, k + 1).drop_last() == done);
                assert(self@.order.contains(self@.order[k as int]));
                assert(self@.joints.contains_key(j));
            }
            let expressed = match self.poses.get(&j.to_bits()) {
                Some(pose) => match pose.reference_frame {
                    Some(frame) => frame == parent,
                    None => false,
                },
                None => false,
            };
            if expressed {
                let child = self.joints.get(&j.to_bits()).unwrap().child;
                children.push(child);
                proof {
                    let kept = done.filter(self@.expressed_in(parent));
                    assert(self@.order.subrange(0, k + 1).filter(self@.expressed_in(parent))
                        == kept.push(j));
                    assert(kept.push(j).map_values(self@.child_of()) == kept.map_values(
                        self@.child_of(),
                    ).push(child));
                }
            }
            k += 1;
        }
        assert(self@.order.subrange(0, n as int) == self@.order);
        children
    }

    /// Forgets the pose and the joint data of `e`, as when `e` is
    /// destroyed. An entity that carries neither is passed over.
    pub fn remove(&mut self, e: Entity)
        requires
            old(self).wf(),
        ensures
            final(self).wf(),
            final(self)@ == old(self)@.without(e),
    {
        self.poses.remove(&e.to_bits());
        let was_joint = self.joints.remove(&e.to_bits()).is_some();
        proof {
            old(self)@.order.index_of_first_ensures(e);
            lemma_remove_value_no_duplicates(old(self)@.order, e);
        }
        if was_joint {
            assert(old(self)@.joints.contains_key(e));
            assert(old(self)@.order.contains(e));
            let n = self.order.len();
            let mut i: usize = 0;
            while i < n && self.order[i] != e
                invariant
                    n == self.order.len(),
                    i <= n,
                    self.order@ == old(self)@.order,
                    self.order@.contains(e),
                    forall|k: int| 0 <= k < i ==> self.order@[k] != e,
                decreases n - i,
            {
                i += 1;
            }
            proof {
                let at = choose|at: int| 0 <= at < n && self.order@[at] == e;
                assert(i <= at);
                let first = old(self)@.order.index_of_first(e).unwrap();
                if first < i {
                    assert(self.order@[first] != e);
                }
                assert(first == i);
            }
            self.order.remove(i);
        } else {
            assert(!old(self)@.joints.contains_key(e));
            assert(!old(self)@.order.contains(e));
        }
        proof {
            assert(self@.poses == old(self)@.poses.remove(e));
            assert(self@.joints == old(self)@.joints.remove(e));
            assert(self@.order == old(self)@.order.remove_value(e));
            assert forall|x: Entity| #[trigger]
                self@.joints.contains_key(x) <==> self@.order.contains(x) by {
                assert(old(self)@.joints.contains_key(x) <==> old(self)@.order.contains(x));
            }
        }
    }

    /// Forgets the poses and the joint data of the entities of `gone`, as
    /// when a subtree of entities was destroyed.
    pub fn remove_all(&mut self, gone: &[Entity])
        requires
            old(self).wf(),
        ensures
            final(self).wf(),
            final(self)@ == old(self)@.without_all(gone@),
    {
        let mut i: usize = 0;
        while i < gone.len()
            invariant
                i <= gone.len(),
                self.wf(),
                self@ == old(self)@.without_all(gone@.subrange(0, i as int)),
            decreases gone.len() - i,
        {
            proof {
                assert(gone@.subrange(0, i + 1).drop_last() == gone@.subrange(0, i as int));
            }
            self.remove(gone[i]);
            i += 1;
        }
        assert(gone@.subrange(0, gone.len() as int) == gone@);
    }

    /// Says why the poses cannot be propagated, if they cannot.
    pub fn check(&self) -> (verdict: Result<(), PoseError>)
        requires
            self.wf(),
        ensures
            verdict == match self@.fault() {
                Some(error) => Err::<(), PoseError>(error),
                None => Ok(()),
            },
    {
        match self.schedule() {
            Ok(_) => Ok(()),
            Err(error) => Err(error),
        }
    }

    /// The order in which the joints are to be walked, roots first, or why
    /// there is none.
    fn schedule(&self) -> (verdict: Result<Vec<usize>, PoseError>)
        requires
            self.wf(),
        ensures
            match verdict {
                Ok(plan) => self@.fault().is_none() && self@.is_schedule(plan@),
                Err(error) => self@.fault() == Some(error),
            },
    {
        let n = self.order.len();
        let mut k: usize = 0;
        while k < n
            invariant
                self.wf(),
                n == self.order.len(),
                k <= n,
                forall|done: int| 0 <= done < k ==> !#[trigger] self@.missing_at(done),
            decreases n - k,
        {
            let j = self.order[k];
            assert(self@.order.contains(self@.order[k as int]));
            assert(self@.joints.contains_key(j));
            let joint = self.joints.get(&j.to_bits()).unwrap();
            match self.poses.get(&j.to_bits()) {
                None => {
                    assert(self@.missing_at(k as int));
                    return Err(PoseError::MissingPose);
                },
                Some(own) => {
                    if !self.poses.contains_key(&joint.child.to_bits()) {
                        assert(self@.missing_at(k as int));
                        return Err(PoseError::MissingPose);
                    }
                    if let Some(frame) = own.reference_frame {
                        if !self.poses.contains_key(&frame.to_bits()) {
                            assert(self@.missing_at(k as int));
                            return Err(PoseError::MissingPose);
                        }
                    }
                },
            }
            k += 1;
        }
        assert(!self@.missing());
        k = 0;
        while k < n
            invariant
                self.wf(),
                n == self.order.len(),
                k <= n,
                !self@.missing(),
                forall|k2: int, i: int|
                    0 <= k2 < k && 0 <= i < n ==> !#[trigger] self@.clash_at(k2, i),
            decreases n - k,
        {
            let j = self.order[k];
            assert(self@.order.contains(self@.order[k as int]));
            assert(self@.joints.contains_key(j));
            let own_child = self.joints.get(&j.to_bits()).unwrap().child;
            let mut i: usize = 0;
            while i < n
                invariant
                    self.wf(),
                    n == self.order.len(),
                    k < n,
                    i <= n,
                    j == self@.order[k as int],
                    own_child == self@.joint_at(k as int).child,
                    !self@.missing(),
                    forall|k2: int, i2: int|
                        0 <= k2 < k && 0 <= i2 < n ==> !#[trigger] self@.clash_at(k2, i2),
                    forall|i2: int| 0 <= i2 < i ==> !#[trigger] self@.clash_at(k as int, i2),
                decreases n - i,
            {
                let other = self.order[i];
                assert(self@.order.contains(self@.order[i as int]));
                assert(self@.joints.contains_key(other));
                let child = self.joints.get(&other.to_bits()).unwrap().child;
                if child == j || (i != k && child == own_child) {
                    assert(self@.clash_at(k as int, i as int));
                    return Err(PoseError::NotReady);
                }
                i += 1;
            }
            k += 1;
        }
        assert(!self@.tangled());
        let mut placed: Vec<bool> = Vec::new();
        k = 0;
        while k < n
            invariant
                k <= n,
                placed@.len() == k,
                forall|i: int| 0 <= i < k ==> !placed@[i],
                count_set(placed@) == 0,
            decreases n - k,
        {
            proof {
                lemma_count_push(placed@, false);
            }
            placed.push(false);
            k += 1;
        }
        let mut plan: Vec<usize> = Vec::new();
        while plan.len() < n
            invariant
                self.wf(),
                n == self.order.len(),
                !self@.missing(),
                placed@.len() == n,
                plan@.len() == count_set(placed@),
                plan@.len() <= n,
                plan@.no_duplicates(),
                forall|a: int| 0 <= a < plan@.len() ==> #[trigger] plan@[a] < n,
                forall|x: usize| x < n ==> (placed@[x as int] <==> #[trigger] plan@.contains(x)),
                forall|a: int, i: int|
                    0 <= a < plan@.len() && 0 <= i < n && #[trigger] self@.depends(
                        plan@[a] as int,
                        i,
                    ) ==> PoseModel::<T>::earlier(plan@, a, i),
            decreases n - plan@.len(),
        {
            let mut pick: Option<usize> = None;
            k = 0;
            while k < n && pick.is_none()
                invariant
                    self.wf(),
                    n == self.order.len(),
                    !self@.missing(),
                    placed@.len() == n,
                    k <= n,
                    pick.is_none() ==> forall|k2: int|
                        0 <= k2 < k && !placed@[k2] ==> waits(self@, placed@, k2),
                    pick matches Some(p) ==> p < n && !placed@[p as int] && forall|i: int|
                        0 <= i < n && !placed@[i] ==> !#[trigger] self@.depends(p as int, i),
                decreases n - k + if pick.is_none() { 1int } else { 0int },
            {
                if !placed[k] {
                    let j = self.order[k];
                    assert(!self@.missing_at(k as int));
                    let frame = self.poses.get(&j.to_bits()).unwrap().reference_frame;
                    let mut ready = true;
                    let mut i: usize = 0;
                    while i < n
                        invariant
                            self.wf(),
                            n == self.order.len(),
                            placed@.len() == n,
                            k < n,
                            i <= n,
                            frame == self@.frame_at(k as int),
                            ready ==> forall|i2: int|
                                0 <= i2 < i && !placed@[i2] ==> !#[trigger] self@.depends(
                                    k as int,
                                    i2,
                                ),
                            !ready ==> waits(self@, placed@, k as int),
                        decreases n - i,
                    {
                        if !placed[i] {
                            let other = self.order[i];
                            assert(self@.order.contains(self@.order[i as int]));
                            assert(self@.joints.contains_key(other));
                            let child = self.joints.get(&other.to_bits()).unwrap().child;
                            if let Some(f) = frame {
                                if f == child {
                                    assert(self@.depends(k as int, i as int));
                                    ready = false;
                                }
                            }
                        }
                        i += 1;
                    }
                    if ready {
                        pick = Some(k);
                    }
                }
                if pick.is_none() {
                    k += 1;
                }
            }
            match pick {
                None => {
                    proof {
                        lemma_count_full(placed@);
                        assert forall|plan2: Seq<usize>| !self@.is_schedule(plan2) by {
                            if self@.is_schedule(plan2) {
                                lemma_stuck(self@, placed@, plan2, plan2.len() as int);
                                let u = choose|u: int| 0 <= u < placed@.len() && !placed@[u];
                                assert(plan2.contains(u as usize));
                                let b = choose|b: int| 0 <= b < plan2.len() && plan2[b] == u as usize;
                                assert(placed@[plan2[b] as int]);
                            }
                        }
                    }
                    return Err(PoseError::NotReady);
                },
                Some(p) => {
                    proof {
                        lemma_count_update(placed@, p as int);
                    }
                    let ghost before = plan@;
                    let ghost flags = placed@;
                    placed.set(p, true);
                    plan.push(p);
                    proof {
                        assert(!before.contains(p));
                        assert forall|i: int, j: int|
                            0 <= i < plan@.len() && 0 <= j < plan@.len() && i != j implies plan@[i]
                            != plan@[j] by {
                            if i == before.len() {
                                assert(before.contains(before[j]));
                            }
                            if j == before.len() {
                                assert(before.contains(before[i]));
                            }
                        }
                        assert forall|x: usize| x < n implies (placed@[x as int] <==> #[trigger] plan@.contains(
                            x,
                        )) by {
                            assert(flags[x as int] <==> before.contains(x));
                            if plan@.contains(x) {
                                let c = choose|c: int| 0 <= c < plan@.len() && plan@[c] == x;
                                if c < before.len() {
                                    assert(before[c] == x);
                                }
                            }
                            if before.contains(x) {
                                let c = choose|c: int| 0 <= c < before.len() && before[c] == x;
                                assert(plan@[c] == x);
                            }
                            if x == p {
                                assert(plan@[before.len() as int] == x);
                            }
                        }
                        assert forall|a: int, i: int|
                            0 <= a < plan@.len() && 0 <= i < n && #[trigger] self@.depends(
                                plan@[a] as int,
                                i,
                            ) implies PoseModel::<T>::earlier(plan@, a, i) by {
                            if a < before.len() {
                                assert(self@.depends(before[a] as int, i));
                                let b = choose|b: int| 0 <= b < a && #[trigger] before[b] == i;
                                assert(plan@[b] == i);
                            } else {
                                assert(flags[i]);
                                assert(before.contains(i as usize));
                                let b = choose|b: int|
                                    0 <= b < before.len() && before[b] == i as usize;
                                assert(plan@[b] == i);
                            }
                        }
                    }
                },
            }
        }
        proof {
            lemma_count_full(placed@);
            assert forall|x: usize| x < n implies #[trigger] plan@.contains(x) by {
                assert(placed@[x as int]);
            }
            assert(self@.is_schedule(plan@));
        }
        Ok(plan)
    }

    /// Recomputes the pose of every entity that a joint drives, walking the
    /// joints from the roots to the leaves, whatever the order in which
    /// they were added, so that each pose is final before it is read.
    /// Poses that no joint drives stay untouched. Where a pose is missing,
    /// or the joints span no tree that can be walked, nothing is changed.
    pub fn propagate<F: Fn(&T, &T) -> T>(&mut self, compose: F) -> (done: Result<(), PoseError>)
        requires
            old(self).wf(),
            forall|a: T, b: T| call_requires(compose, (&a, &b)),
        ensures
            final(self).wf(),
            match old(self)@.fault() {
                Some(error) => done == Err::<(), PoseError>(error) && final(self)@ == old(self)@,
                None => done == Ok::<(), PoseError>(()) && old(self)@.propagated(
                    compose,
                    final(self)@,
                ),
            },
    {
        let plan = match self.schedule() {
            Ok(plan) => plan,
            Err(error) => {
                return Err(error);
            },
        };
        let ghost start = self@;
        let n = self.order.len();
        let mut a: usize = 0;
        while a < plan.len()
            invariant
                self.wf(),
                n == self.order.len(),
                a <= plan@.len(),
                forall|x: T, y: T| call_requires(compose, (&x, &y)),
                start.wf(),
                !start.missing(),
                !start.tangled(),
                start.is_schedule(plan@),
                self@.joints == start.joints,
                self@.order == start.order,
                self@.poses.dom() == start.poses.dom(),
                forall|e: Entity|
                    start.poses.contains_key(e) && !start.driven_so_far(plan@, e, a as int)
                        ==> #[trigger] self@.poses[e] == start.poses[e],
                forall|b: int|
                    0 <= b < a ==> self@.resolves(compose, (#[trigger] plan@[b]) as int),
            decreases plan@.len() - a,
        {
            let ghost before = self@;
            let k = plan[a];
            let j = self.order[k];
            proof {
                assert(start.order.contains(start.order[k as int]));
                assert(start.joints.contains_key(j));
                assert(self@.joints.contains_key(j));
                assert(!start.missing_at(k as int));
                assert forall|i: int| 0 <= i < n implies !start.clash_at(k as int, i) by {}
                assert(!start.driven_so_far(plan@, j, a as int)) by {
                    if start.driven_so_far(plan@, j, a as int) {
                        let b = choose|b: int|
                            0 <= b < a && start.joint_at((#[trigger] plan@[b]) as int).child == j;
                        assert(start.clash_at(k as int, plan@[b] as int));
                    }
                }
                assert(self@.poses.dom().contains(j));
            }
            let joint = self.joints.get(&j.to_bits()).unwrap();
            let child = joint.child;
            let own = self.poses.get(&j.to_bits()).unwrap();
            let ghost placed_at: T;
            let (transform, frame) = match own.reference_frame {
                None => {
                    let transform = compose(&own.transform, &joint.motion);
                    proof {
                        placed_at = transform;
                    }
                    (transform, None)
                },
                Some(parent) => {
                    let held = self.poses.get(&parent.to_bits()).unwrap();
                    let placed = compose(&held.transform, &own.transform);
                    proof {
                        placed_at = placed;
                    }
                    (compose(&placed, &joint.motion), held.reference_frame)
                },
            };
            let ghost written = Pose { transform, reference_frame: frame };
            self.poses.insert(child.to_bits(), Pose { transform, reference_frame: frame });
            proof {
                let now = self@;
                assert(now.poses == before.poses.insert(child, written));
                assert(now.joints == start.joints);
                assert(child != j) by {
                    if child == j {
                        assert(start.clash_at(k as int, k as int));
                    }
                }
                assert(now.resolves(compose, k as int)) by {
                    match before.poses[j].reference_frame {
                        None => {},
                        Some(parent) => {
                            assert(parent != child) by {
                                if parent == child {
                                    assert(start.depends(plan@[a as int] as int, k as int));
                                    let b = choose|b: int| 0 <= b < a && #[trigger] plan@[b] == k;
                                }
                            }
                            assert(call_ensures(
                                compose,
                                (&now.poses[parent].transform, &now.poses[j].transform),
                                placed_at,
                            ));
                            assert(call_ensures(
                                compose,
                                (&placed_at, &now.joint_at(k as int).motion),
                                now.poses[child].transform,
                            ));
                        },
                    }
                }
                assert forall|e: Entity|
                    start.poses.contains_key(e) && !start.driven_so_far(plan@, e, a + 1) implies #[trigger] now.poses[e]
                    == start.poses[e] by {
                    if e == child {
                        assert(start.joint_at(plan@[a as int] as int).child == e);
                    }
                    if start.driven_so_far(plan@, e, a as int) {
                        let b = choose|b: int|
                            0 <= b < a && start.joint_at((#[trigger] plan@[b]) as int).child == e;
                        assert(start.joint_at(plan@[b] as int).child == e);
                    }
                }
                assert forall|b: int| 0 <= b < a + 1 implies now.resolves(
                    compose,
                    (#[trigger] plan@[b]) as int,
                ) by {
                    if b < a {
                        let i = plan@[b] as int;
                        assert(i != k);
                        assert(before.resolves(compose, i));
                        let ji = start.order[i];
                        assert(start.order.contains(start.order[i]));
                        assert(!start.missing_at(i));
                        assert(!start.clash_at(i, k as int));
                        assert(!start.clash_at(k as int, i));
                        assert(ji != child);
                        assert(start.joint_at(i).child != child);
                        assert(!start.driven_so_far(plan@, ji, a as int)) by {
                            if start.driven_so_far(plan@, ji, a as int) {
                                let w = choose|w: int|
                                    0 <= w < a && start.joint_at((#[trigger] plan@[w]) as int).child
                                        == ji;
                                assert(start.clash_at(i, plan@[w] as int));
                            }
                        }
                        assert(before.poses[ji] == start.poses[ji]);
                        assert(now.poses[ji] == before.poses[ji]);
                        match before.poses[ji].reference_frame {
                            None => {},
                            Some(parent) => {
                                assert(parent != child) by {
                                    if parent == child {
                                        assert(start.depends(plan@[b] as int, k as int));
                                        let c = choose|c: int| 0 <= c < b && #[trigger] plan@[c] == k;
                                    }
                                }
                                assert(now.poses[parent] == before.poses[parent]);
                                let placed = choose|placed: T|
                                    call_ensures(
                                        compose,
                                        (&before.poses[parent].transform, &before.poses[ji].transform),
                                        placed,
                                    ) && #[trigger] call_ensures(
                                        compose,
                                        (&placed, &before.joint_at(i).motion),
                                        before.poses[before.joint_at(i).child].transform,
                                    );
                                assert(call_ensures(
                                    compose,
                                    (&placed, &now.joint_at(i).motion),
                                    now.poses[now.joint_at(i).child].transform,
                                ));
                            },
                        }
                    }
                }
                assert forall|x: Entity| #[trigger]
                    now.joints.contains_key(x) <==> now.order.contains(x) by {
                    assert(start.joints.contains_key(x) <==> start.order.contains(x));
                }
            }
            a += 1;
        }
        proof {
            assert forall|e: Entity|
                start.poses.contains_key(e) && !start.driven(e) implies #[trigger] self@.poses[e]
                == start.poses[e] by {
                if start.driven_so_far(plan@, e, plan@.len() as int) {
                    let b = choose|b: int|
                        0 <= b < plan@.len() && start.joint_at((#[trigger] plan@[b]) as int).child
                            == e;
                    assert(start.joint_at(plan@[b] as int).child == e);
                }
            }
            assert forall|i: int| 0 <= i < start.order.len() implies #[trigger] self@.resolves(
                compose,
                i,
            ) by {
                assert(plan@.contains(i as usize));
                let b = choose|b: int| 0 <= b < plan@.len() && plan@[b] == i as usize;
                assert(self@.resolves(compose, plan@[b] as int));
            }
        }
        Ok(())
    }
}

/// How many of the flags are set.
spec fn count_set(flags: Seq<bool>) -> nat
    decreases flags.len(),
{
    if flags.len() == 0 {
        0
    } else {
        count_set(flags.drop_last()) + if flags.last() {
            1nat
        } else {
            0nat
        }
    }
}

proof fn lemma_count_push(flags: Seq<bool>, flag: bool)
    ensures
        count_set(flags.push(flag)) == count_set(flags) + if flag {
            1nat
        } else {
            0nat
        },
{
    assert(flags.push(flag).drop_last() == flags);
}

proof fn lemma_count_update(flags: Seq<bool>, k: int)
    requires
        0 <= k < flags.len(),
        !flags[k],
    ensures
        count_set(flags.update(k, true)) == count_set(flags) + 1,
    decreases flags.len(),
{
    let set = flags.update(k, true);
    if k == flags.len() - 1 {
        assert(set.drop_last() == flags.drop_last());
    } else {
        lemma_count_update(flags.drop_last(), k);
        assert(set.drop_last() == flags.drop_last().update(k, true));
    }
}

proof fn lemma_count_full(flags: Seq<bool>)
    ensures
        count_set(flags) <= flags.len(),
        count_set(flags) == flags.len() ==> forall|k: int| 0 <= k < flags.len() ==> flags[k],
        count_set(flags) < flags.len() ==> exists|k: int| 0 <= k < flags.len() && !flags[k],
    decreases flags.len(),
{
    if flags.len() > 0 {
        let front = flags.drop_last();
        lemma_count_full(front);
        if count_set(flags) == flags.len() {
            assert forall|k: int| 0 <= k < flags.len() implies flags[k] by {
                if k < front.len() {
                    assert(front[k] == flags[k]);
                }
            }
        }
        if count_set(flags) < flags.len() {
            if !flags.last() {
                assert(!flags[flags.len() - 1]);
            } else {
                let k = choose|k: int| 0 <= k < front.len() && !front[k];
                assert(!flags[k]);
            }
        }
    }
}

/// Whether the joint at position `k` waits for a joint that is not placed.
spec fn waits<T>(m: PoseModel<T>, placed: Seq<bool>, k: int) -> bool {
    exists|i: int| 0 <= i < placed.len() && !placed[i] && #[trigger] m.depends(k, i)
}

/// Where every joint that is not placed waits for one that is not placed
/// either, a schedule names placed joints only.
proof fn lemma_stuck<T>(m: PoseModel<T>, placed: Seq<bool>, plan: Seq<usize>, a: int)
    requires
        m.is_schedule(plan),
        placed.len() == m.order.len(),
        forall|k: int| 0 <= k < placed.len() && !placed[k] ==> waits(m, placed, k),
        0 <= a <= plan.len(),
    ensures
        forall|b: int| 0 <= b < a ==> placed[(#[trigger] plan[b]) as int],
    decreases a,
{
    if a > 0 {
        lemma_stuck(m, placed, plan, a - 1);
        let k = plan[a - 1] as int;
        if !placed[k] {
            assert(waits(m, placed, k));
            let i = choose|i: int| 0 <= i < placed.len() && !placed[i] && #[trigger] m.depends(k, i);
            assert(m.depends(plan[a - 1] as int, i));
            let b = choose|b: int| 0 <= b < a - 1 && #[trigger] plan[b] == i;
            assert(placed[plan[b] as int]);
        }
    }
}

} // verus!
