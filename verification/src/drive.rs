//! Driving the joints of the skeleton to a frame.
//!
//! Every track of a bone is evaluated at the frame, and its value is written to
//! the joint component that the track drives: one of the three rotations or of
//! the three translations. A track of another kind is stored with the bone and
//! leaves the joint alone.

use crate::animation::{track_views, worth, Sample, TrackType, TrackView};
use crate::bone::{bone_views, BoneView, Joint, Model, Transform};
use crate::pose::{pose_order, posed_by};
use crate::scalar::Scalar;
use vstd::prelude::*;

verus! {

/// Whether tracks of this kind drive a component of the joint. Those of the
/// other kinds are stored and leave the joint alone.
pub open spec fn drives(kind: TrackType) -> bool {
    kind == TrackType::HSD_A_J_ROTX || kind == TrackType::HSD_A_J_ROTY || kind
        == TrackType::HSD_A_J_ROTZ || kind == TrackType::HSD_A_J_TRAX || kind
        == TrackType::HSD_A_J_TRAY || kind == TrackType::HSD_A_J_TRAZ
}

/// The component of the joint that tracks of the given kind drive.
pub open spec fn component(joint: Joint, kind: TrackType) -> Scalar {
    match kind {
        TrackType::HSD_A_J_ROTX => joint.rx,
        TrackType::HSD_A_J_ROTY => joint.ry,
        TrackType::HSD_A_J_ROTZ => joint.rz,
        TrackType::HSD_A_J_TRAX => joint.tx,
        TrackType::HSD_A_J_TRAY => joint.ty,
        TrackType::HSD_A_J_TRAZ => joint.tz,
        _ => Scalar::zero(),
    }
}

/// The joint with the component that tracks of the given kind drive set to
/// `value`; the joint itself for a kind that drives none.
pub open spec fn with_component(joint: Joint, kind: TrackType, value: Scalar) -> Joint {
    match kind {
        TrackType::HSD_A_J_ROTX => Joint { rx: value, ..joint },
        TrackType::HSD_A_J_ROTY => Joint { ry: value, ..joint },
        TrackType::HSD_A_J_ROTZ => Joint { rz: value, ..joint },
        TrackType::HSD_A_J_TRAX => Joint { tx: value, ..joint },
        TrackType::HSD_A_J_TRAY => Joint { ty: value, ..joint },
        TrackType::HSD_A_J_TRAZ => Joint { tz: value, ..joint },
        _ => joint,
    }
}

/// The place of the last of the first `n` tracks that has the given kind, or
/// -1 where none of them has it.
pub open spec fn last_driver(tracks: Seq<TrackView>, kind: TrackType, n: int) -> int
    decreases n,
{
    if n <= 0 {
        -1
    } else if tracks[n - 1].kind == kind {
        n - 1
    } else {
        last_driver(tracks, kind, n - 1)
    }
}

/// Whether one component of the joint is as [`joint_driven`] asks.
pub open spec fn component_driven<F: Fn(Sample) -> Scalar>(
    before: Joint,
    after: Joint,
    tracks: Seq<TrackView>,
    n: int,
    frame: Scalar,
    blend: F,
    kind: TrackType,
) -> bool {
    let last = last_driver(tracks, kind, n);
    if last < 0 {
        component(after, kind) == component(before, kind)
    } else {
        worth(tracks[last].keys, frame, component(after, kind), blend)
    }
}

/// Whether the joint `after` is the joint `before` driven to `frame` by the
/// first `n` of the tracks: each component is what the last track that drives
/// it is worth at the frame, and is untouched where no track drives it.
pub open spec fn joint_driven<F: Fn(Sample) -> Scalar>(
    before: Joint,
    after: Joint,
    tracks: Seq<TrackView>,
    n: int,
    frame: Scalar,
    blend: F,
) -> bool {
    forall|kind: TrackType| #[trigger]
        drives(kind) ==> component_driven(before, after, tracks, n, frame, blend, kind)
}

/// Whether the bones `after` are the bones `before` with their joints driven
/// to `frame`. Nothing but joints has changed.
pub open spec fn joints_driven<F: Fn(Sample) -> Scalar>(
    before: Seq<BoneView>,
    after: Seq<BoneView>,
    frame: Scalar,
    blend: F,
) -> bool {
    &&& after.len() == before.len()
    &&& forall|p: int|
        0 <= p < before.len() ==> {
            &&& #[trigger] after[p] == (BoneView { joint: after[p].joint, ..before[p] })
            &&& joint_driven(
                before[p].joint,
                after[p].joint,
                before[p].tracks,
                before[p].tracks.len() as int,
                frame,
                blend,
            )
        }
}

/// The bones `before` with the joints of the bones `after`.
pub open spec fn with_joints_of(before: Seq<BoneView>, after: Seq<BoneView>) -> Seq<BoneView> {
    Seq::new(before.len(), |p: int| BoneView { joint: after[p].joint, ..before[p] })
}

/// Whether the bones `after` are the bones `before` at `frame`: their joints
/// are driven to the frame, and from these joints the whole skeleton is
/// posed.
pub open spec fn frame_posed<B: Fn(Sample) -> Scalar, P: Fn(Option<Transform>, Joint) -> Transform>(
    before: Seq<BoneView>,
    after: Seq<BoneView>,
    indexes: Map<i32, usize>,
    root: i32,
    frame: Scalar,
    blend: B,
    pose: P,
) -> bool {
    let driven = with_joints_of(before, after);
    &&& joints_driven(before, driven, frame, blend)
    &&& posed_by(driven, after, pose_order(driven, indexes, root), pose)
}

impl Joint {
    /// The joint with the component that tracks of the given kind drive set
    /// to `value`.
    pub fn drive(self, kind: TrackType, value: Scalar) -> (r: Joint)
        ensures
            r == with_component(self, kind, value),
    {
        let mut joint = self;
        match kind {
            TrackType::HSD_A_J_ROTX => {
                joint.rx = value;
            },
            TrackType::HSD_A_J_ROTY => {
                joint.ry = value;
            },
            TrackType::HSD_A_J_ROTZ => {
                joint.rz = value;
            },
            TrackType::HSD_A_J_TRAX => {
                joint.tx = value;
            },
            TrackType::HSD_A_J_TRAY => {
                joint.ty = value;
            },
            TrackType::HSD_A_J_TRAZ => {
                joint.tz = value;
            },
            _ => {},
        }
        joint
    }
}

impl Model {
    /// Drives the joints of all bones to `frame`: every track of a bone is
    /// evaluated in turn and its value written to the joint component that it
    /// drives. A bone without tracks keeps its joint.
    pub fn update_joints<F: Fn(Sample) -> Scalar>(&mut self, frame: Scalar, blend: &F)
        requires
            forall|s: Sample| !(s is Exact) ==> blend.requires((s,)),
        ensures
            joints_driven(
                bone_views(old(self).bones@),
                bone_views(final(self).bones@),
                frame,
                *blend,
            ),
            final(self).indexes == old(self).indexes,
            final(self).root_bone_index == old(self).root_bone_index,
            old(self).indexes_fit() ==> final(self).indexes_fit(),
    {
        let ghost before = bone_views(self.bones@);
        let n = self.bones.len();
        let mut i: usize = 0;
        while i < n
            invariant
                0 <= i <= n,
                n == self.bones.len(),
                before == bone_views(old(self).bones@),
                forall|s: Sample| !(s is Exact) ==> blend.requires((s,)),
                self.indexes == old(self).indexes,
                self.root_bone_index == old(self).root_bone_index,
                forall|p: int|
                    0 <= p < i ==> {
                        &&& #[trigger] bone_views(self.bones@)[p] == (BoneView {
                            joint: bone_views(self.bones@)[p].joint,
                            ..before[p]
                        })
                        &&& joint_driven(
                            before[p].joint,
                            bone_views(self.bones@)[p].joint,
                            before[p].tracks,
                            before[p].tracks.len() as int,
                            frame,
                            *blend,
                        )
                    },
                forall|p: int| i <= p < n ==> #[trigger] bone_views(self.bones@)[p] == before[p],
            decreases n - i,
        {
            let ghost current = bone_views(self.bones@);
            let ghost tracks = before[i as int].tracks;
            let ghost start = before[i as int].joint;
            assert(current[i as int] == self.bones@[i as int]@);
            assert(current[i as int] == before[i as int]);
            let count = self.bones[i].tracks.len();
            assert(track_views(self.bones@[i as int].tracks@).len() == count);
            let mut joint = self.bones[i].joint;
            let mut j: usize = 0;
            while j < count
                invariant
                    0 <= j <= count,
                    i < n,
                    n == self.bones.len(),
                    forall|s: Sample| !(s is Exact) ==> blend.requires((s,)),
                    count == self.bones@[i as int].tracks@.len(),
                    tracks == track_views(self.bones@[i as int].tracks@),
                    joint_driven(start, joint, tracks, j as int, frame, *blend),
                decreases count - j,
            {
                let value = self.bones[i].tracks[j].get_value(frame, blend);
                let kind = self.bones[i].tracks[j].kind;
                let ghost was = joint;
                joint = joint.drive(kind, value);
                proof {
                    assert(tracks[j as int] == self.bones@[i as int].tracks@[j as int]@);
                    assert forall|other: TrackType| #[trigger] drives(other) implies component_driven(
                        start,
                        joint,
                        tracks,
                        j + 1,
                        frame,
                        *blend,
                        other,
                    ) by {
                        assert(component_driven(start, was, tracks, j as int, frame, *blend, other));
                    }
                }
                j += 1;
            }
            self.bones[i].joint = joint;
            proof {
                let after = bone_views(self.bones@);
                assert forall|p: int| 0 <= p < n implies after[p] == self.bones@[p]@ by {}
                assert forall|p: int| 0 <= p < i + 1 implies {
                    &&& #[trigger] after[p] == (BoneView { joint: after[p].joint, ..before[p] })
                    &&& joint_driven(
                        before[p].joint,
                        after[p].joint,
                        before[p].tracks,
                        before[p].tracks.len() as int,
                        frame,
                        *blend,
                    )
                } by {
                    assert(after[p] == self.bones@[p]@);
                    if p < i {
                        assert(current[p] == (BoneView { joint: current[p].joint, ..before[p] }));
                        assert(after[p] == current[p]);
                    }
                }
                assert forall|p: int| i + 1 <= p < n implies #[trigger] after[p] == before[p] by {
                    assert(after[p] == self.bones@[p]@);
                    assert(current[p] == before[p]);
                }
            }
            i += 1;
        }
    }

    /// Drives the joints to `frame` and poses the whole skeleton from them.
    pub fn compute_frame_transform<
        B: Fn(Sample) -> Scalar,
        P: Fn(Option<Transform>, Joint) -> Transform,
    >(
        &mut self,
        frame: Scalar,
        blend: &B,
        pose: &P,
    )
        requires
            old(self).indexes_fit(),
            forall|s: Sample| !(s is Exact) ==> blend.requires((s,)),
            forall|t: Option<Transform>, j: Joint| pose.requires((t, j)),
        ensures
            frame_posed(
                bone_views(old(self).bones@),
                bone_views(final(self).bones@),
                old(self).indexes@,
                old(self).root_bone_index,
                frame,
                *blend,
                *pose,
            ),
            final(self).indexes == old(self).indexes,
            final(self).root_bone_index == old(self).root_bone_index,
            final(self).indexes_fit(),
    {
        self.update_joints(frame, blend);
        let ghost driven = bone_views(self.bones@);
        self.compute_t_pose_transform(pose);
        proof {
            let before = bone_views(old(self).bones@);
            let after = bone_views(self.bones@);
            assert(driven =~= with_joints_of(before, after));
        }
    }
}

proof fn lemma_no_driver(tracks: Seq<TrackView>, kind: TrackType, n: int)
    requires
        0 <= n <= tracks.len(),
        drives(kind),
        forall|k: int| 0 <= k < tracks.len() ==> !drives((#[trigger] tracks[k]).kind),
    ensures
        last_driver(tracks, kind, n) < 0,
    decreases n,
{
    if n > 0 {
        assert(!drives(tracks[n - 1].kind));
        lemma_no_driver(tracks, kind, n - 1);
    }
}

/// A joint that no track drives stays as it is.
pub proof fn lemma_undriven_joint<F: Fn(Sample) -> Scalar>(
    before: Joint,
    after: Joint,
    tracks: Seq<TrackView>,
    frame: Scalar,
    blend: F,
)
    requires
        joint_driven(before, after, tracks, tracks.len() as int, frame, blend),
        forall|k: int| 0 <= k < tracks.len() ==> !drives((#[trigger] tracks[k]).kind),
    ensures
        after == before,
{
    assert forall|kind: TrackType| drives(kind) implies last_driver(
        tracks,
        kind,
        tracks.len() as int,
    ) < 0 by {
        lemma_no_driver(tracks, kind, tracks.len() as int);
    }
    let n = tracks.len() as int;
    assert(drives(TrackType::HSD_A_J_ROTX));
    assert(drives(TrackType::HSD_A_J_ROTY));
    assert(drives(TrackType::HSD_A_J_ROTZ));
    assert(drives(TrackType::HSD_A_J_TRAX));
    assert(drives(TrackType::HSD_A_J_TRAY));
    assert(drives(TrackType::HSD_A_J_TRAZ));
    assert(component_driven(before, after, tracks, n, frame, blend, TrackType::HSD_A_J_ROTX));
    assert(component_driven(before, after, tracks, n, frame, blend, TrackType::HSD_A_J_ROTY));
    assert(component_driven(before, after, tracks, n, frame, blend, TrackType::HSD_A_J_ROTZ));
    assert(component_driven(before, after, tracks, n, frame, blend, TrackType::HSD_A_J_TRAX));
    assert(component_driven(before, after, tracks, n, frame, blend, TrackType::HSD_A_J_TRAY));
    assert(component_driven(before, after, tracks, n, frame, blend, TrackType::HSD_A_J_TRAZ));
}

/// At every frame, a bone that has no track for a joint component keeps the
/// joint it had.
pub proof fn lemma_frame_keeps_undriven_joints<
    B: Fn(Sample) -> Scalar,
    P: Fn(Option<Transform>, Joint) -> Transform,
>(
    before: Seq<BoneView>,
    after: Seq<BoneView>,
    indexes: Map<i32, usize>,
    root: i32,
    frame: Scalar,
    blend: B,
    pose: P,
    at: int,
)
    requires
        frame_posed(before, after, indexes, root, frame, blend, pose),
        0 <= at < before.len(),
        forall|k: int|
            0 <= k < before[at].tracks.len() ==> !drives((#[trigger] before[at].tracks[k]).kind),
    ensures
        after[at].joint == before[at].joint,
{
    let driven = with_joints_of(before, after);
    assert(driven[at] == (BoneView { joint: driven[at].joint, ..before[at] }));
    lemma_undriven_joint(
        before[at].joint,
        driven[at].joint,
        before[at].tracks,
        frame,
        blend,
    );
}

} // verus!
