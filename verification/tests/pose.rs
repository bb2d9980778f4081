use melee_anim_rs::animation::{Animation, Axis, InterpolationType, Key, Sample, Track, TrackType};
use melee_anim_rs::figatree::figatree_numbers;
use melee_anim_rs::bone::{Joint, Model, Transform};
use melee_anim_rs::smd::smd_numbers;
use melee_anim_rs::hurtbox::{hurtbox_numbers, parse_hurtboxes};
use melee_anim_rs::pose::Link;
use melee_anim_rs::scalar::Scalar;
use nalgebra::{Isometry3, Point3, Quaternion, Translation3, UnitQuaternion};
use std::cell::RefCell;
use std::f32::consts::FRAC_PI_2;

fn scalar(value: f32) -> Scalar {
    Scalar::from_bits(value.to_bits())
}

fn number(value: Scalar) -> f32 {
    f32::from_bits(value.to_bits())
}

fn decode(text: &str) -> Option<Scalar> {
    text.parse::<f32>().ok().map(scalar)
}

fn lines(text: &str) -> Vec<String> {
    text.lines().map(|l| l.to_string()).collect()
}

fn skeleton(text: &str) -> Model {
    let lines = lines(text);
    Model::from_smd(&lines, &smd_numbers(&lines, &decode)).unwrap()
}

fn animation(skeleton_text: &str, keyframes: &str, hurtboxes: &str) -> Animation {
    let mut animation = Animation::from_model(skeleton(skeleton_text));
    let l = lines(keyframes);
    animation.load_figatree(&l, &figatree_numbers(&l, &decode)).unwrap();
    let l = lines(hurtboxes);
    animation.attach_hurtboxes(parse_hurtboxes(&l, &hurtbox_numbers(&l, &decode)));
    animation
}

fn isometry(t: &Transform) -> Isometry3<f32> {
    Isometry3::from_parts(
        Translation3::new(number(t.x), number(t.y), number(t.z)),
        UnitQuaternion::new_unchecked(Quaternion::new(
            number(t.w),
            number(t.i),
            number(t.j),
            number(t.k),
        )),
    )
}

fn transform(m: &Isometry3<f32>) -> Transform {
    Transform {
        x: scalar(m.translation.vector.x),
        y: scalar(m.translation.vector.y),
        z: scalar(m.translation.vector.z),
        i: scalar(m.rotation.coords.x),
        j: scalar(m.rotation.coords.y),
        k: scalar(m.rotation.coords.z),
        w: scalar(m.rotation.coords.w),
    }
}

fn local(joint: &Joint) -> Isometry3<f32> {
    Isometry3::from_parts(
        Translation3::new(number(joint.tx), number(joint.ty), number(joint.tz)),
        UnitQuaternion::from_euler_angles(number(joint.rx), number(joint.ry), number(joint.rz)),
    )
}

fn pose(parent: Option<Transform>, joint: Joint) -> Transform {
    match parent {
        Some(parent) => transform(&(isometry(&parent) * local(&joint))),
        None => transform(&local(&joint)),
    }
}

fn place(t: Transform, x: Scalar, y: Scalar, z: Scalar) -> (Scalar, Scalar, Scalar) {
    let point =
        isometry(&t) * Translation3::new(number(x), number(y), number(z)) * Point3::origin();
    (scalar(point.x), scalar(point.y), scalar(point.z))
}

fn blend(sample: Sample) -> Scalar {
    match sample {
        Sample::Exact(value) => value,
        Sample::Linear { p0, p1, t0, t1, frame } => {
            let weight = (number(frame) - number(t0)) / (number(t1) - number(t0));
            scalar(number(p0) * (1. - weight) + number(p1) * weight)
        }
        Sample::Hermite { .. } => scalar(f32::NAN),
    }
}

fn links(order: &Vec<Link>) -> Vec<(usize, Option<usize>)> {
    order.iter().map(|l| (l.bone, l.parent)).collect()
}

fn origin(model: &Model, place: usize) -> Option<[f32; 3]> {
    model.bones[place].transform.map(|t| [number(t.x), number(t.y), number(t.z)])
}

fn near(a: [f32; 3], b: [f32; 3]) -> bool {
    a.iter().zip(b.iter()).all(|(x, y)| (x - y).abs() < 1.0e-5)
}

fn joint_bits(j: &Joint) -> [u32; 6] {
    [j.tx, j.ty, j.tz, j.rx, j.ry, j.rz].map(|s| s.to_bits())
}

fn key(frame: f32, value: f32) -> Key {
    Key::new(scalar(frame), scalar(value), scalar(0.), InterpolationType::HSD_A_OP_LIN)
}

const TREE: &str = "nodes
0 \"root\" -1
1 \"a\" 0
2 \"b\" 0
3 \"c\" 1
4 \"d\" 2
5 \"e\" 1
skeleton
0 1 0 0 0 0 0
1 0 2 0 0 0 0
2 0 0 3 0 0 0
3 1 1 1 0 0 0
4 0 0 -3 0 0 0
5 -1 -2 0 0 0 0
";

#[test]
fn the_walk_is_depth_first_in_child_order() {
    let model = skeleton(TREE);
    assert_eq!(links(&model.pose_order()), vec![
        (0, None),
        (1, Some(0)),
        (3, Some(1)),
        (5, Some(1)),
        (2, Some(0)),
        (4, Some(2))
    ]);
}

#[test]
fn the_walk_goes_by_index_and_not_by_place() {
    let model = skeleton("nodes\n7 \"c\" 9\n9 \"b\" 4\n4 \"root\" -1\n8 \"d\" 4\n");
    assert_eq!(links(&model.pose_order()), vec![
        (2, None),
        (1, Some(2)),
        (0, Some(1)),
        (3, Some(2))
    ]);
}

#[test]
fn bones_without_a_present_parent_begin_walks_of_their_own() {
    let model = skeleton("nodes\n0 \"root\" -1\n1 \"x\" 9\n2 \"y\" 1\n3 \"z\" 0\n4 \"w\" 8\n");
    assert_eq!(links(&model.pose_order()), vec![
        (0, None),
        (3, Some(0)),
        (1, None),
        (2, Some(1)),
        (4, None)
    ]);
}

#[test]
fn the_root_comes_first_among_several_bones_without_parent() {
    let model = skeleton("nodes\n0 \"a\" -1\n1 \"b\" -1\n2 \"c\" 0\n3 \"d\" 1\n");
    assert_eq!(model.root_bone_index, 1);
    assert_eq!(links(&model.pose_order()), vec![
        (1, None),
        (3, Some(1)),
        (0, None),
        (2, Some(0))
    ]);
}

#[test]
fn bones_on_a_ring_are_not_reached() {
    let mut model = skeleton("nodes\n0 \"root\" -1\n1 \"x\" 2\n2 \"y\" 1\n3 \"z\" 2\n");
    assert_eq!(links(&model.pose_order()), vec![(0, None)]);
    model.compute_t_pose_transform(&pose);
    assert!(model.bones[0].transform.is_some());
    assert!(model.bones[1].transform.is_none());
    assert!(model.bones[2].transform.is_none());
    assert!(model.bones[3].transform.is_none());
}

#[test]
fn a_ring_through_the_root_is_walked_once() {
    let model = skeleton("nodes\n0 \"x\" 1\n1 \"y\" 0\n2 \"z\" 1\n");
    assert_eq!(model.root_bone_index, 0);
    assert_eq!(links(&model.pose_order()), vec![(0, None), (1, Some(0)), (2, Some(1))]);
    let model = skeleton("nodes\n0 \"x\" 0\n");
    assert_eq!(links(&model.pose_order()), vec![(0, None)]);
}

#[test]
fn a_skeleton_without_its_root_bone_is_walked_from_the_orphans() {
    let model = skeleton("nodes\n3 \"x\" 7\n4 \"y\" 3\n");
    assert_eq!(model.root_bone_index, 0);
    assert_eq!(links(&model.pose_order()), vec![(0, None), (1, Some(0))]);
    assert!(skeleton("").pose_order().is_empty());
}

#[test]
fn a_branch_is_walked_from_its_bone() {
    let model = skeleton(TREE);
    assert_eq!(links(&model.branch_order(1, Some(0))), vec![
        (1, Some(0)),
        (3, Some(1)),
        (5, Some(1))
    ]);
    assert_eq!(links(&model.branch_order(1, None)), vec![
        (1, None),
        (3, Some(1)),
        (5, Some(1))
    ]);
    assert_eq!(links(&model.branch_order(2, Some(42))), vec![(2, None), (4, Some(2))]);
    assert_eq!(links(&model.branch_order(4, Some(5))), vec![(4, Some(5))]);
    assert!(model.branch_order(42, None).is_empty());
    assert_eq!(links(&model.branch_order(0, None)), links(&model.pose_order()));
}

#[test]
fn the_rest_pose_adds_up_the_translations() {
    let mut model = skeleton(TREE);
    model.compute_t_pose_transform(&pose);
    assert_eq!(origin(&model, 0), Some([1., 0., 0.]));
    assert_eq!(origin(&model, 1), Some([1., 2., 0.]));
    assert_eq!(origin(&model, 2), Some([1., 0., 3.]));
    assert_eq!(origin(&model, 3), Some([2., 3., 1.]));
    assert_eq!(origin(&model, 4), Some([1., 0., 0.]));
    assert_eq!(origin(&model, 5), Some([0., 0., 0.]));
}

#[test]
fn the_rest_pose_gives_every_bone_of_a_tree_a_transform() {
    let mut model = skeleton(TREE);
    assert!(model.bones.iter().all(|b| b.transform.is_none()));
    model.compute_t_pose_transform(&pose);
    assert!(model.bones.iter().all(|b| b.transform.is_some()));
}

#[test]
fn the_parent_is_composed_before_the_bone() {
    let mut model = skeleton(
        "nodes\n0 \"root\" -1\n1 \"a\" 0\n2 \"b\" 1\nskeleton\n0 1 0 0 0 0 1.5707964\n1 1 0 0 0 0 1.5707964\n2 1 0 0 0 0 0\n",
    );
    model.compute_t_pose_transform(&pose);
    assert!(near(origin(&model, 0).unwrap(), [1., 0., 0.]));
    assert!(near(origin(&model, 1).unwrap(), [1., 1., 0.]));
    assert!(near(origin(&model, 2).unwrap(), [0., 1., 0.]));
    let turned = isometry(&model.bones[2].transform.unwrap());
    let ahead = turned.rotation * nalgebra::Vector3::new(1., 0., 0.);
    assert!(near([ahead.x, ahead.y, ahead.z], [-1., 0., 0.]));
    let _ = FRAC_PI_2;
}

#[test]
fn the_kernel_is_given_the_parent_transform_and_the_joint() {
    let calls = RefCell::new(vec![]);
    let recording = |parent: Option<Transform>, joint: Joint| {
        calls.borrow_mut().push((parent.map(|t| number(t.x)), number(joint.tx)));
        let mut t = transform(&Isometry3::identity());
        t.x = scalar(10. * number(joint.tx) + parent.map(|p| number(p.x)).unwrap_or(0.));
        t
    };
    let mut model = skeleton(
        "nodes\n0 \"root\" -1\n1 \"a\" 0\n2 \"b\" 1\n3 \"o\" 7\nskeleton\n0 1 0 0 0 0 0\n1 2 0 0 0 0 0\n2 3 0 0 0 0 0\n3 4 0 0 0 0 0\n",
    );
    model.compute_t_pose_transform(&recording);
    assert_eq!(*calls.borrow(), vec![
        (None, 1.),
        (Some(10.), 2.),
        (Some(30.), 3.),
        (None, 4.)
    ]);
    let xs: Vec<f32> = model.bones.iter().map(|b| number(b.transform.unwrap().x)).collect();
    assert_eq!(xs, vec![10., 30., 60., 40.]);
}

#[test]
fn posing_changes_transforms_only() {
    let mut model = skeleton(TREE);
    let before = model.duplicate();
    model.compute_t_pose_transform(&pose);
    for (a, b) in model.bones.iter().zip(before.bones.iter()) {
        assert_eq!((a.index, a.parent, &a.name, &a.childs), (b.index, b.parent, &b.name, &b.childs));
        assert_eq!(joint_bits(&a.joint), joint_bits(&b.joint));
    }
    assert_eq!(model.indexes, before.indexes);
    assert_eq!(model.root_bone_index, before.root_bone_index);
}

#[test]
fn a_branch_is_posed_on_the_transform_its_parent_has() {
    let mut model = skeleton(TREE);
    model.update_transforms(1, Some(0), &pose);
    assert_eq!(origin(&model, 0), None);
    assert_eq!(origin(&model, 1), Some([0., 2., 0.]));
    assert_eq!(origin(&model, 3), Some([1., 3., 1.]));
    assert_eq!(origin(&model, 5), Some([-1., 0., 0.]));
    assert_eq!(origin(&model, 2), None);
    assert_eq!(origin(&model, 4), None);
    model.update_transforms(0, None, &pose);
    assert_eq!(origin(&model, 3), Some([2., 3., 1.]));
    model.bones[0].joint.tx = scalar(5.);
    model.update_transforms(2, Some(0), &pose);
    assert_eq!(origin(&model, 0), Some([1., 0., 0.]));
    assert_eq!(origin(&model, 2), Some([1., 0., 3.]));
    model.update_transforms(2, None, &pose);
    assert_eq!(origin(&model, 2), Some([0., 0., 3.]));
    assert_eq!(origin(&model, 4), Some([0., 0., 0.]));
}

#[test]
fn posing_a_bone_that_is_not_there_does_nothing() {
    let mut model = skeleton(TREE);
    model.update_transforms(42, None, &pose);
    assert!(model.bones.iter().all(|b| b.transform.is_none()));
}

#[test]
fn tracks_drive_their_joint_components() {
    let mut model = skeleton(TREE);
    let kinds = [
        TrackType::HSD_A_J_ROTX,
        TrackType::HSD_A_J_ROTY,
        TrackType::HSD_A_J_ROTZ,
        TrackType::HSD_A_J_TRAX,
        TrackType::HSD_A_J_TRAY,
        TrackType::HSD_A_J_TRAZ,
    ];
    for (n, kind) in kinds.iter().enumerate() {
        model.bones[3].tracks.push(Track {
            kind: *kind,
            keys: vec![key(0., n as f32), key(10., 10. + n as f32)],
        });
    }
    model.update_joints(scalar(5.), &blend);
    let j = model.bones[3].joint;
    assert_eq!([j.rx, j.ry, j.rz, j.tx, j.ty, j.tz].map(number), [5., 6., 7., 8., 9., 10.]);
    model.update_joints(scalar(0.), &blend);
    let j = model.bones[3].joint;
    assert_eq!([j.rx, j.ry, j.rz, j.tx, j.ty, j.tz].map(number), [0., 1., 2., 3., 4., 5.]);
}

#[test]
fn the_last_track_of_a_channel_wins() {
    let mut model = skeleton(TREE);
    for value in [1., 2., 3.] {
        model.bones[1].tracks.push(Track {
            kind: TrackType::HSD_A_J_TRAY,
            keys: vec![key(0., value), key(10., value)],
        });
    }
    model.bones[1].tracks.push(Track { kind: TrackType::HSD_A_J_TRAX, keys: vec![] });
    model.update_joints(scalar(4.), &blend);
    assert_eq!(number(model.bones[1].joint.ty), 3.);
    assert_eq!(model.bones[1].joint.tx.to_bits(), 0);
}

#[test]
fn tracks_of_other_kinds_leave_the_joint_alone() {
    let mut model = skeleton(TREE);
    let before = joint_bits(&model.bones[3].joint);
    for kind in [
        TrackType::HSD_A_J_NONE,
        TrackType::HSD_A_J_PATH,
        TrackType::HSD_A_J_SCAX,
        TrackType::HSD_A_J_SCAY,
        TrackType::HSD_A_J_SCAZ,
        TrackType::HSD_A_J_NODE,
    ] {
        model.bones[3].tracks.push(Track { kind, keys: vec![key(0., 9.), key(10., 19.)] });
    }
    model.update_joints(scalar(5.), &blend);
    assert_eq!(joint_bits(&model.bones[3].joint), before);
}

#[test]
fn a_bone_without_tracks_keeps_its_joint_bit_for_bit() {
    let mut model = skeleton(
        "nodes\n0 \"root\" -1\n1 \"a\" 0\nskeleton\n0 0.1 -0 1e-40 nan inf -inf\n1 0.3 0.7 1.1 0 0 0\n",
    );
    model.bones[1].tracks.push(Track {
        kind: TrackType::HSD_A_J_TRAX,
        keys: vec![key(0., 4.), key(10., 5.)],
    });
    let before = joint_bits(&model.bones[0].joint);
    model.compute_frame_transform(scalar(0.), &blend, &pose);
    assert_eq!(joint_bits(&model.bones[0].joint), before);
    assert_eq!(number(model.bones[1].joint.tx), 4.);
    assert_eq!(model.bones[1].joint.ty.to_bits(), 0.7f32.to_bits());
}

const KEYFRAMES: &str = "FrameCount: 10
Node 1:
HSD_A_J_TRAY
{
0 2 0 HSD_A_OP_LIN
10 12 0 HSD_A_OP_LIN
}
Node 3:
HSD_A_J_TRAX
{
0 1 0 HSD_A_OP_CON
10 5 0 HSD_A_OP_CON
}
Node 9:
";

const HURTBOXES: &str = "3,0,0,0,0,1,0,0.5,Mid,1
9,0,0,0,0,1,0,0.5,Mid,1
0,1,2,3,-1,-2,-3,1.5,Low,0
";

#[test]
fn the_skeleton_at_a_frame_is_driven_and_posed() {
    let animation = animation(TREE, KEYFRAMES, HURTBOXES);
    let model = animation.get_frame_model(scalar(5.), &blend, &pose);
    assert_eq!(number(model.bones[1].joint.ty), 7.);
    assert_eq!(origin(&model, 1), Some([1., 7., 0.]));
    assert_eq!(origin(&model, 3), Some([2., 8., 1.]));
    assert_eq!(origin(&model, 5), Some([0., 5., 0.]));
    assert_eq!(origin(&model, 2), Some([1., 0., 3.]));
    let model = animation.get_frame_model(scalar(10.), &blend, &pose);
    assert_eq!(origin(&model, 3), Some([6., 13., 1.]));
}

#[test]
fn the_skeleton_at_frame_zero_keeps_the_joints_without_tracks() {
    let animation = animation(TREE, KEYFRAMES, HURTBOXES);
    let model = animation.get_frame_model(scalar(0.), &blend, &pose);
    for place in [0, 2, 4, 5] {
        assert!(animation.model.bones[place].tracks.is_empty());
        assert_eq!(
            joint_bits(&model.bones[place].joint),
            joint_bits(&animation.model.bones[place].joint)
        );
    }
    assert_eq!(origin(&model, 0), Some([1., 0., 0.]));
    assert_eq!(number(model.bones[0].joint.tx), 1.);
}

#[test]
fn asking_for_a_frame_leaves_the_animation_alone() {
    let animation = animation(TREE, KEYFRAMES, HURTBOXES);
    let before = format!("{animation:?}");
    let first = animation.get_frame_model(scalar(5.), &blend, &pose);
    animation.get_frame_model(scalar(9.), &blend, &pose);
    animation.get_frame_hurtboxes_2d(scalar(3.), &blend, &pose, &place);
    assert_eq!(format!("{animation:?}"), before);
    let second = animation.get_frame_model(scalar(5.), &blend, &pose);
    assert_eq!(format!("{first:?}"), format!("{second:?}"));
    assert!(animation.model.bones.iter().all(|b| b.transform.is_none()));
}

#[test]
fn hurtboxes_are_placed_with_their_bones_and_seen_from_the_side() {
    let animation = animation(TREE, KEYFRAMES, HURTBOXES);
    let flat = animation.get_frame_hurtboxes_2d(scalar(5.), &blend, &pose, &place);
    let seen: Vec<([f32; 2], [f32; 2], f32)> = flat
        .iter()
        .map(|(a, b, size)| ([number(a.x), number(a.y)], [number(b.x), number(b.y)], number(*size)))
        .collect();
    assert_eq!(seen, vec![([1., 8.], [1., 9.], 0.5), ([3., 2.], [-3., -2.], 1.5)]);
}

#[test]
fn hurtboxes_can_be_seen_in_any_plane() {
    let animation = animation(TREE, KEYFRAMES, HURTBOXES);
    let flat =
        animation.project_hurtboxes(scalar(5.), Axis::X, Axis::Z, &blend, &pose, &place);
    let seen: Vec<([f32; 2], [f32; 2])> = flat
        .iter()
        .map(|(a, b, _)| ([number(a.x), number(a.y)], [number(b.x), number(b.y)]))
        .collect();
    assert_eq!(seen, vec![([2., 1.], [2., 1.]), ([2., 3.], [0., -3.])]);
    let flat =
        animation.project_hurtboxes(scalar(5.), Axis::Y, Axis::Y, &blend, &pose, &place);
    assert_eq!(number(flat[0].0.x), 8.);
    assert_eq!(number(flat[0].0.y), 8.);
}

#[test]
fn a_hurtbox_turns_with_its_bone() {
    let animation = animation(
        "nodes\n0 \"root\" -1\nskeleton\n0 0 1 0 0 0 1.5707964\n",
        "",
        "0,1,0,0,2,0,0,0.25,High,0",
    );
    let flat = animation.project_hurtboxes(scalar(0.), Axis::X, Axis::Y, &blend, &pose, &place);
    assert!(near([number(flat[0].0.x), number(flat[0].0.y), 0.], [0., 2., 0.]));
    assert!(near([number(flat[0].1.x), number(flat[0].1.y), 0.], [0., 3., 0.]));
}

#[test]
fn a_hurtbox_on_a_bone_without_transform_is_placed_under_the_identity() {
    let model = skeleton(TREE);
    let l = lines(HURTBOXES);
    let boxes = parse_hurtboxes(&l, &hurtbox_numbers(&l, &decode));
    let seen = RefCell::new(vec![]);
    let recording = |t: Transform, x: Scalar, y: Scalar, z: Scalar| {
        let t = [t.x, t.y, t.z, t.i, t.j, t.k, t.w].map(number);
        seen.borrow_mut().push((t, number(x), number(y), number(z)));
        (x, y, z)
    };
    let flat = model.project_hurtboxes(&boxes, Axis::Z, Axis::Y, &recording);
    let identity = [0., 0., 0., 0., 0., 0., 1.];
    assert_eq!(*seen.borrow(), vec![
        (identity, 0., 0., 0.),
        (identity, 0., 1., 0.),
        (identity, 1., 2., 3.),
        (identity, -1., -2., -3.)
    ]);
    assert_eq!(flat.len(), 2);
    assert_eq!([number(flat[1].0.x), number(flat[1].0.y)], [3., 2.]);
}

#[test]
fn the_identity_moves_nothing() {
    let t = Transform::identity();
    assert_eq!([t.x, t.y, t.z, t.i, t.j, t.k].map(|s| s.to_bits()), [0; 6]);
    assert_eq!(number(t.w), 1.);
    assert_eq!(Scalar::one().to_bits(), 1.0f32.to_bits());
    assert_eq!(isometry(&t), Isometry3::identity());
    let p = place(t, scalar(0.1), scalar(-0.7), scalar(3.));
    assert_eq!([p.0, p.1, p.2].map(number), [0.1, -0.7, 3.]);
}

#[test]
fn a_bone_counts_as_having_the_identity_until_it_is_posed() {
    let mut model = skeleton(TREE);
    let bone = &model.bones[3];
    assert_eq!(number(bone.transform().w), 1.);
    let t = bone.translation();
    assert_eq!([t.0, t.1, t.2].map(|s| s.to_bits()), [0; 3]);
    let r = bone.rotation();
    assert_eq!([r.0, r.1, r.2, r.3].map(number), [0., 0., 0., 1.]);
    let l = bone.local_translation();
    assert_eq!([l.0, l.1, l.2].map(number), [1., 1., 1.]);
    model.compute_t_pose_transform(&pose);
    let bone = &model.bones[3];
    let t = bone.translation();
    assert_eq!([t.0, t.1, t.2].map(number), [2., 3., 1.]);
    let whole = bone.transform();
    assert_eq!([whole.x, whole.y, whole.z].map(number), [2., 3., 1.]);
    let r = bone.rotation();
    assert_eq!([r.0, r.1, r.2, r.3].map(number), [0., 0., 0., 1.]);
    let l = bone.local_translation();
    assert_eq!([l.0, l.1, l.2].map(number), [1., 1., 1.]);
}

#[test]
fn a_joint_is_driven_channel_by_channel() {
    let j = Joint::new().drive(TrackType::HSD_A_J_ROTY, scalar(2.));
    assert_eq!(joint_bits(&j), [0, 0, 0, 0, 2.0f32.to_bits(), 0]);
    let j = j.drive(TrackType::HSD_A_J_TRAZ, scalar(3.)).drive(TrackType::HSD_A_J_SCAX, scalar(9.));
    assert_eq!(joint_bits(&j), [0, 0, 3.0f32.to_bits(), 0, 2.0f32.to_bits(), 0]);
}
