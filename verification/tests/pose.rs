use carbon_rs::carbon_components::description::{Pose, PoseError};
use carbon_rs::carbon_components::pose_tree::PoseTree;
use carbon_rs::entity::Entity;
use carbon_rs::joints::Joint;
use glam::{Affine3A, Quat, Vec3};

fn e(bits: u64) -> Entity {
    Entity::from_bits(bits)
}

fn sum(a: &i64, b: &i64) -> i64 {
    *a + *b
}

fn product(a: &Affine3A, b: &Affine3A) -> Affine3A {
    *a * *b
}

fn at(tree: &PoseTree<i64>, entity: Entity) -> (i64, Option<Entity>) {
    let pose = tree.get_pose(entity).unwrap();
    (pose.transform, pose.reference_frame)
}

/// Rotates `v` by the quaternion, by its three-by-three matrix, and then
/// adds the translation.
fn rotate_then_translate(q: [f32; 4], t: [f32; 3], v: [f32; 3]) -> [f32; 3] {
    let [x, y, z, w] = q;
    let (x2, y2, z2) = (x + x, y + y, z + z);
    let (xx, xy, xz) = (x * x2, x * y2, x * z2);
    let (yy, yz, zz) = (y * y2, y * z2, z * z2);
    let (wx, wy, wz) = (w * x2, w * y2, w * z2);
    let m = [
        [1.0 - (yy + zz), xy + wz, xz - wy],
        [xy - wz, 1.0 - (xx + zz), yz + wx],
        [xz + wy, yz - wx, 1.0 - (xx + yy)],
    ];
    [
        v[0] * m[0][0] + v[1] * m[1][0] + v[2] * m[2][0] + t[0],
        v[0] * m[0][1] + v[1] * m[1][1] + v[2] * m[2][1] + t[1],
        v[0] * m[0][2] + v[1] * m[1][2] + v[2] * m[2][2] + t[2],
    ]
}

#[test]
fn pose_tree_keeps_poses_and_joints() {
    let mut tree: PoseTree<i64> = PoseTree::new();
    assert!(tree.get_pose(e(1)).is_none());
    assert!(tree.get_joint(e(1)).is_none());
    assert!(tree.insert_pose(e(1), Pose { transform: 5, reference_frame: None }).is_none());
    let previous = tree.insert_pose(e(1), Pose { transform: 6, reference_frame: Some(e(0)) });
    assert_eq!(previous.unwrap().transform, 5);
    assert_eq!(at(&tree, e(1)), (6, Some(e(0))));
    assert!(tree.insert_joint(e(2), Joint { child: e(1), motion: 3 }).is_none());
    let joint = tree.get_joint(e(2)).unwrap();
    assert_eq!((joint.child, joint.motion), (e(1), 3));
    let old = tree.insert_joint(e(2), Joint { child: e(4), motion: 8 }).unwrap();
    assert_eq!((old.child, old.motion), (e(1), 3));
    assert_eq!(tree.get_joint(e(2)).unwrap().child, e(4));
    assert!(tree.update_joint(e(2), 9));
    let joint = tree.get_joint(e(2)).unwrap();
    assert_eq!((joint.child, joint.motion), (e(4), 9));
    assert!(!tree.update_joint(e(3), 9));
    assert!(tree.get_joint(e(3)).is_none());
}

#[test]
fn propagation_updates_the_driven_link_and_leaves_the_root() {
    // root 0 (world), joint 1 on the root, link 2 driven by the joint
    let mut tree: PoseTree<i64> = PoseTree::new();
    tree.insert_pose(e(0), Pose { transform: 100, reference_frame: None });
    tree.insert_pose(e(1), Pose { transform: 10, reference_frame: Some(e(0)) });
    tree.insert_pose(e(2), Pose { transform: -1, reference_frame: Some(e(1)) });
    tree.insert_joint(e(1), Joint { child: e(2), motion: 1 });
    assert_eq!(tree.check(), Ok(()));
    assert_eq!(tree.propagate(sum), Ok(()));
    assert_eq!(at(&tree, e(2)), (111, None));
    assert_eq!(at(&tree, e(0)), (100, None));
    assert_eq!(at(&tree, e(1)), (10, Some(e(0))));
    // the joint moves: the link follows, the root stays
    assert!(tree.update_joint(e(1), 7));
    assert_eq!(tree.propagate(sum), Ok(()));
    assert_eq!(at(&tree, e(2)), (117, None));
    assert_eq!(at(&tree, e(0)), (100, None));
    assert_eq!(at(&tree, e(1)), (10, Some(e(0))));
    // propagating again changes nothing
    assert_eq!(tree.propagate(sum), Ok(()));
    assert_eq!(at(&tree, e(2)), (117, None));
}

#[test]
fn propagation_goes_from_the_root_to_the_leaves() {
    // 0 -(joint 1)-> 2 -(joint 3)-> 4 -(joint 5)-> 6
    let mut tree: PoseTree<i64> = PoseTree::new();
    tree.insert_pose(e(0), Pose { transform: 1000, reference_frame: None });
    for link in [2, 4, 6] {
        tree.insert_pose(e(link), Pose { transform: 0, reference_frame: None });
    }
    tree.insert_pose(e(1), Pose { transform: 100, reference_frame: Some(e(0)) });
    tree.insert_pose(e(3), Pose { transform: 10, reference_frame: Some(e(2)) });
    tree.insert_pose(e(5), Pose { transform: 1, reference_frame: Some(e(4)) });
    tree.insert_joint(e(1), Joint { child: e(2), motion: 200 });
    tree.insert_joint(e(3), Joint { child: e(4), motion: 20 });
    tree.insert_joint(e(5), Joint { child: e(6), motion: 2 });
    assert_eq!(tree.propagate(sum), Ok(()));
    assert_eq!(at(&tree, e(2)), (1300, None));
    assert_eq!(at(&tree, e(4)), (1330, None));
    assert_eq!(at(&tree, e(6)), (1333, None));
    assert_eq!(tree.get_children(e(0)), vec![e(2)]);
    assert_eq!(tree.get_children(e(2)), vec![e(4)]);
    assert_eq!(tree.get_children(e(6)), vec![]);
    // the first joint moves: everything below follows in one pass
    assert!(tree.update_joint(e(1), 300));
    assert_eq!(tree.propagate(sum), Ok(()));
    assert_eq!(at(&tree, e(6)), (1433, None));
}

#[test]
fn joint_in_the_world_frame_composes_its_own_pose() {
    let mut tree: PoseTree<i64> = PoseTree::new();
    tree.insert_pose(e(1), Pose { transform: 10, reference_frame: None });
    tree.insert_pose(e(2), Pose { transform: 0, reference_frame: Some(e(9)) });
    tree.insert_joint(e(1), Joint { child: e(2), motion: 5 });
    assert_eq!(tree.propagate(sum), Ok(()));
    assert_eq!(at(&tree, e(2)), (15, None));
}

#[test]
fn driven_pose_takes_the_frame_of_the_parent() {
    let mut tree: PoseTree<i64> = PoseTree::new();
    tree.insert_pose(e(0), Pose { transform: 100, reference_frame: Some(e(8)) });
    tree.insert_pose(e(8), Pose { transform: 0, reference_frame: None });
    tree.insert_pose(e(1), Pose { transform: 10, reference_frame: Some(e(0)) });
    tree.insert_pose(e(2), Pose { transform: 0, reference_frame: None });
    tree.insert_joint(e(1), Joint { child: e(2), motion: 1 });
    assert_eq!(tree.propagate(sum), Ok(()));
    assert_eq!(at(&tree, e(2)), (111, Some(e(8))));
}

#[test]
fn two_joints_on_one_parent_are_listed_in_order() {
    let mut tree: PoseTree<i64> = PoseTree::new();
    tree.insert_pose(e(0), Pose { transform: 0, reference_frame: None });
    for id in 1..=4 {
        tree.insert_pose(e(id), Pose { transform: 0, reference_frame: Some(e(0)) });
    }
    tree.insert_joint(e(3), Joint { child: e(4), motion: 1 });
    tree.insert_joint(e(1), Joint { child: e(2), motion: 1 });
    assert_eq!(tree.get_children(e(0)), vec![e(4), e(2)]);
    tree.remove(e(3));
    assert_eq!(tree.get_children(e(0)), vec![e(2)]);
    assert!(tree.get_joint(e(3)).is_none());
    assert!(tree.get_pose(e(3)).is_none());
    assert!(tree.get_pose(e(4)).is_some());
    tree.remove(e(9));
    assert_eq!(tree.get_children(e(0)), vec![e(2)]);
}

#[test]
fn joint_without_a_pose_for_its_child_is_a_fault() {
    let mut tree: PoseTree<i64> = PoseTree::new();
    tree.insert_pose(e(0), Pose { transform: 100, reference_frame: None });
    tree.insert_pose(e(1), Pose { transform: 10, reference_frame: Some(e(0)) });
    tree.insert_joint(e(1), Joint { child: e(2), motion: 1 });
    assert_eq!(tree.check(), Err(PoseError::MissingPose));
    assert_eq!(tree.propagate(sum), Err(PoseError::MissingPose));
    assert_eq!(at(&tree, e(0)), (100, None));
    // the joint itself without a pose
    let mut tree: PoseTree<i64> = PoseTree::new();
    tree.insert_pose(e(2), Pose { transform: 0, reference_frame: None });
    tree.insert_joint(e(1), Joint { child: e(2), motion: 1 });
    assert_eq!(tree.propagate(sum), Err(PoseError::MissingPose));
    // the joint's frame without a pose
    tree.insert_pose(e(1), Pose { transform: 10, reference_frame: Some(e(0)) });
    assert_eq!(tree.propagate(sum), Err(PoseError::MissingPose));
    assert_eq!(at(&tree, e(2)), (0, None));
    tree.insert_pose(e(0), Pose { transform: 100, reference_frame: None });
    assert_eq!(tree.propagate(sum), Ok(()));
    assert_eq!(at(&tree, e(2)), (111, None));
    // a link that is destroyed takes its pose along
    tree.remove(e(2));
    assert_eq!(tree.propagate(sum), Err(PoseError::MissingPose));
}

#[test]
fn joints_added_leaf_first_are_walked_roots_first() {
    // 0 -(joint 1)-> 2 -(joint 3)-> 4 -(joint 5)-> 6, with the lowest joint added first
    let mut tree: PoseTree<i64> = PoseTree::new();
    tree.insert_pose(e(0), Pose { transform: 1000, reference_frame: None });
    for link in [2, 4, 6] {
        tree.insert_pose(e(link), Pose { transform: 0, reference_frame: None });
    }
    tree.insert_pose(e(1), Pose { transform: 100, reference_frame: Some(e(0)) });
    tree.insert_pose(e(3), Pose { transform: 10, reference_frame: Some(e(2)) });
    tree.insert_pose(e(5), Pose { transform: 1, reference_frame: Some(e(4)) });
    tree.insert_joint(e(5), Joint { child: e(6), motion: 2 });
    tree.insert_joint(e(3), Joint { child: e(4), motion: 20 });
    tree.insert_joint(e(1), Joint { child: e(2), motion: 200 });
    assert_eq!(tree.check(), Ok(()));
    assert_eq!(tree.propagate(sum), Ok(()));
    assert_eq!(at(&tree, e(2)), (1300, None));
    assert_eq!(at(&tree, e(4)), (1330, None));
    assert_eq!(at(&tree, e(6)), (1333, None));
    // and again, from poses that are resolved already
    assert!(tree.update_joint(e(1), 300));
    assert_eq!(tree.propagate(sum), Ok(()));
    assert_eq!(at(&tree, e(2)), (1400, None));
    assert_eq!(at(&tree, e(4)), (1430, None));
    assert_eq!(at(&tree, e(6)), (1433, None));
}

#[test]
fn two_branches_are_walked_each_from_its_root() {
    // 0 -(1)-> 2 -(3)-> 4 and 10 -(11)-> 12, added in a mixed order
    let mut tree: PoseTree<i64> = PoseTree::new();
    tree.insert_pose(e(0), Pose { transform: 1000, reference_frame: None });
    tree.insert_pose(e(10), Pose { transform: 5000, reference_frame: None });
    for link in [2, 4, 12] {
        tree.insert_pose(e(link), Pose { transform: 0, reference_frame: None });
    }
    tree.insert_pose(e(1), Pose { transform: 100, reference_frame: Some(e(0)) });
    tree.insert_pose(e(3), Pose { transform: 10, reference_frame: Some(e(2)) });
    tree.insert_pose(e(11), Pose { transform: 500, reference_frame: Some(e(10)) });
    tree.insert_joint(e(3), Joint { child: e(4), motion: 1 });
    tree.insert_joint(e(11), Joint { child: e(12), motion: 50 });
    tree.insert_joint(e(1), Joint { child: e(2), motion: 2 });
    assert_eq!(tree.propagate(sum), Ok(()));
    assert_eq!(at(&tree, e(2)), (1102, None));
    assert_eq!(at(&tree, e(4)), (1113, None));
    assert_eq!(at(&tree, e(12)), (5550, None));
    assert_eq!(at(&tree, e(0)), (1000, None));
    assert_eq!(at(&tree, e(10)), (5000, None));
}

#[test]
fn joints_that_span_no_tree_are_a_fault_and_nothing_is_written() {
    // a joint that is driven by a joint
    let mut tree: PoseTree<i64> = PoseTree::new();
    tree.insert_pose(e(0), Pose { transform: 0, reference_frame: None });
    tree.insert_pose(e(1), Pose { transform: 0, reference_frame: Some(e(0)) });
    tree.insert_pose(e(2), Pose { transform: 0, reference_frame: Some(e(0)) });
    tree.insert_joint(e(1), Joint { child: e(2), motion: 1 });
    tree.insert_joint(e(2), Joint { child: e(0), motion: 1 });
    assert_eq!(tree.propagate(sum), Err(PoseError::NotReady));
    // a joint that drives the frame of its own pose
    let mut tree: PoseTree<i64> = PoseTree::new();
    tree.insert_pose(e(0), Pose { transform: 0, reference_frame: None });
    tree.insert_pose(e(1), Pose { transform: 0, reference_frame: Some(e(0)) });
    tree.insert_joint(e(1), Joint { child: e(0), motion: 1 });
    assert_eq!(tree.propagate(sum), Err(PoseError::NotReady));
    // a joint that drives itself
    let mut tree: PoseTree<i64> = PoseTree::new();
    tree.insert_pose(e(1), Pose { transform: 0, reference_frame: None });
    tree.insert_joint(e(1), Joint { child: e(1), motion: 1 });
    assert_eq!(tree.propagate(sum), Err(PoseError::NotReady));
    // two joints that drive one child
    let mut tree: PoseTree<i64> = PoseTree::new();
    tree.insert_pose(e(0), Pose { transform: 7, reference_frame: None });
    tree.insert_pose(e(1), Pose { transform: 0, reference_frame: Some(e(0)) });
    tree.insert_pose(e(2), Pose { transform: 0, reference_frame: Some(e(0)) });
    tree.insert_pose(e(3), Pose { transform: 9, reference_frame: None });
    tree.insert_joint(e(1), Joint { child: e(3), motion: 1 });
    tree.insert_joint(e(2), Joint { child: e(3), motion: 1 });
    assert_eq!(tree.check(), Err(PoseError::NotReady));
    assert_eq!(tree.propagate(sum), Err(PoseError::NotReady));
    assert_eq!(at(&tree, e(3)), (9, None));
    // two joints of which each waits for the other
    let mut tree: PoseTree<i64> = PoseTree::new();
    tree.insert_pose(e(1), Pose { transform: 1, reference_frame: Some(e(4)) });
    tree.insert_pose(e(2), Pose { transform: 2, reference_frame: None });
    tree.insert_pose(e(3), Pose { transform: 3, reference_frame: Some(e(2)) });
    tree.insert_pose(e(4), Pose { transform: 4, reference_frame: None });
    tree.insert_joint(e(1), Joint { child: e(2), motion: 1 });
    tree.insert_joint(e(3), Joint { child: e(4), motion: 1 });
    assert_eq!(tree.propagate(sum), Err(PoseError::NotReady));
    assert_eq!(at(&tree, e(2)), (2, None));
    assert_eq!(at(&tree, e(4)), (4, None));
    // a missing pose is reported before the shape is looked at
    let mut tree: PoseTree<i64> = PoseTree::new();
    tree.insert_joint(e(1), Joint { child: e(1), motion: 1 });
    assert_eq!(tree.propagate(sum), Err(PoseError::MissingPose));
}

#[test]
fn destroyed_entities_leave_the_tree() {
    let mut tree: PoseTree<i64> = PoseTree::new();
    for id in 0..5 {
        tree.insert_pose(e(id), Pose { transform: id as i64, reference_frame: None });
    }
    tree.insert_joint(e(1), Joint { child: e(2), motion: 1 });
    tree.insert_joint(e(3), Joint { child: e(4), motion: 1 });
    tree.remove_all(&[e(4), e(3), e(9), e(3)]);
    assert!(tree.get_pose(e(3)).is_none());
    assert!(tree.get_pose(e(4)).is_none());
    assert!(tree.get_joint(e(3)).is_none());
    assert!(tree.get_joint(e(1)).is_some());
    assert_eq!(tree.propagate(sum), Ok(()));
    assert_eq!(at(&tree, e(2)), (2, None));
    tree.remove_all(&[]);
    assert_eq!(at(&tree, e(0)), (0, None));
}

#[test]
fn empty_tree_propagates_to_nothing() {
    let mut tree: PoseTree<i64> = PoseTree::new();
    assert_eq!(tree.check(), Ok(()));
    assert_eq!(tree.propagate(sum), Ok(()));
    assert_eq!(tree.get_children(e(0)), vec![]);
}

#[test]
fn link_on_an_unmoved_joint_has_the_pose_of_the_base() {
    let base = e(0);
    let joint = e(1);
    let link = e(2);
    let mut tree: PoseTree<Affine3A> = PoseTree::new();
    tree.insert_pose(base, Pose { transform: Affine3A::IDENTITY, reference_frame: None });
    tree.insert_pose(joint, Pose { transform: Affine3A::IDENTITY, reference_frame: Some(base) });
    tree.insert_pose(
        link,
        Pose { transform: Affine3A::from_translation(Vec3::new(9.0, 9.0, 9.0)), reference_frame: Some(joint) },
    );
    tree.insert_joint(
        joint,
        Joint { child: link, motion: Affine3A::from_rotation_z(0.0) },
    );
    assert_eq!(tree.propagate(product), Ok(()));
    let resolved = tree.get_pose(link).unwrap();
    assert_eq!(resolved.transform, tree.get_pose(base).unwrap().transform);
    assert_eq!(resolved.transform, Affine3A::IDENTITY);
    assert_eq!(resolved.reference_frame, None);
}

#[test]
fn link_on_a_joint_turned_a_quarter_moves_as_rotate_then_translate_says() {
    let base = e(0);
    let joint = e(1);
    let link = e(2);
    let arm = Vec3::new(1.0, 0.0, 0.0);
    let mount = Vec3::new(0.0, 0.0, 2.0);
    let mut tree: PoseTree<Affine3A> = PoseTree::new();
    tree.insert_pose(base, Pose { transform: Affine3A::IDENTITY, reference_frame: None });
    tree.insert_pose(
        joint,
        Pose { transform: Affine3A::from_translation(mount), reference_frame: Some(base) },
    );
    tree.insert_pose(link, Pose { transform: Affine3A::IDENTITY, reference_frame: None });
    // the link sits at the end of an arm that the joint turns about z
    tree.insert_joint(
        joint,
        Joint { child: link, motion: Affine3A::from_rotation_z(0.0) * Affine3A::from_translation(arm) },
    );
    assert_eq!(tree.propagate(product), Ok(()));
    let before = tree.get_pose(link).unwrap().transform.translation;
    assert!((Vec3::from(before) - Vec3::new(1.0, 0.0, 2.0)).length() < 1e-6);

    let quarter = std::f32::consts::FRAC_PI_2;
    assert!(tree.update_joint(
        joint,
        Affine3A::from_rotation_z(quarter) * Affine3A::from_translation(arm),
    ));
    assert_eq!(tree.propagate(product), Ok(()));
    let after = Vec3::from(tree.get_pose(link).unwrap().transform.translation);
    let q = Quat::from_rotation_z(quarter);
    let expected = rotate_then_translate([q.x, q.y, q.z, q.w], [0.0, 0.0, 2.0], [1.0, 0.0, 0.0]);
    assert!((after - Vec3::from(expected)).length() < 1e-6);
    assert!((after - Vec3::new(0.0, 1.0, 2.0)).length() < 1e-6);
    // the base is where it was
    assert_eq!(tree.get_pose(base).unwrap().transform, Affine3A::IDENTITY);
}
