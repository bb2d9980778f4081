//! The skeleton: bones held in a flat list and linked by index, and the map
//! from index to place in the list.

use crate::animation::{copy_tracks, track_views, Track, TrackView};
use crate::scalar::Scalar;
use std::collections::BTreeMap;
use vstd::prelude::*;

verus! {

/// The parent index of a bone that has no parent.
pub const NO_PARENT: i32 = -1;

/// The local pose of a bone: a translation and three Euler angles in radians.
#[derive(Debug, Clone, Copy)]
pub struct Joint {
    pub tx: Scalar,
    pub ty: Scalar,
    pub tz: Scalar,
    pub rx: Scalar,
    pub ry: Scalar,
    pub rz: Scalar,
}

/// A rigid motion as stored numbers: a translation `(x, y, z)` and the unit
/// quaternion `(i, j, k, w)` of a rotation.
#[derive(Debug, Clone, Copy)]
pub struct Transform {
    pub x: Scalar,
    pub y: Scalar,
    pub z: Scalar,
    pub i: Scalar,
    pub j: Scalar,
    pub k: Scalar,
    pub w: Scalar,
}

/// A node of the skeleton.
#[derive(Debug, Clone)]
pub struct Bone {
    pub index: i32,
    pub parent: i32,
    pub childs: Vec<i32>,
    pub name: String,
    pub joint: Joint,
    pub transform: Option<Transform>,
    pub tracks: Vec<Track>,
}

/// The skeleton: its bones in file order, the place of each index in that
/// list, and the index of the root.
#[derive(Debug, Clone)]
pub struct Model {
    pub bones: Vec<Bone>,
    pub indexes: BTreeMap<i32, usize>,
    pub root_bone_index: i32,
}

/// A line that should describe a bone does not.
#[derive(Debug, Clone, Copy)]
pub struct ParseBoneError;

/// A line that should describe a joint does not.
#[derive(Debug, Clone, Copy)]
pub struct ParseJointError;

/// A skeleton file could not be read as one.
#[derive(Debug, Clone, Copy)]
pub struct ParseSMDError;

impl From<ParseBoneError> for ParseSMDError {
    fn from(_error: ParseBoneError) -> (r: ParseSMDError) {
        ParseSMDError
    }
}

impl vstd::std_specs::convert::FromSpecImpl<ParseBoneError> for ParseSMDError {
    open spec fn obeys_from_spec() -> bool {
        true
    }

    open spec fn from_spec(_error: ParseBoneError) -> ParseSMDError {
        ParseSMDError
    }
}

impl From<ParseJointError> for ParseSMDError {
    fn from(_error: ParseJointError) -> (r: ParseSMDError) {
        ParseSMDError
    }
}

impl vstd::std_specs::convert::FromSpecImpl<ParseJointError> for ParseSMDError {
    open spec fn obeys_from_spec() -> bool {
        true
    }

    open spec fn from_spec(_error: ParseJointError) -> ParseSMDError {
        ParseSMDError
    }
}

/// A bone as a value.
pub struct BoneView {
    pub index: i32,
    pub parent: i32,
    pub childs: Seq<i32>,
    pub name: Seq<char>,
    pub joint: Joint,
    pub transform: Option<Transform>,
    pub tracks: Seq<TrackView>,
}

/// A skeleton as a value.
pub struct ModelView {
    pub bones: Seq<BoneView>,
    pub indexes: Map<i32, usize>,
    pub root_bone_index: i32,
}

impl View for Bone {
    type V = BoneView;

    open spec fn view(&self) -> BoneView {
        BoneView {
            index: self.index,
            parent: self.parent,
            childs: self.childs@,
            name: self.name@,
            joint: self.joint,
            transform: self.transform,
            tracks: track_views(self.tracks@),
        }
    }
}

/// The bones of a list as values.
pub open spec fn bone_views(bones: Seq<Bone>) -> Seq<BoneView> {
    bones.map_values(|b: Bone| b@)
}

impl View for Model {
    type V = ModelView;

    open spec fn view(&self) -> ModelView {
        ModelView {
            bones: bone_views(self.bones@),
            indexes: self.indexes@,
            root_bone_index: self.root_bone_index,
        }
    }
}

impl Joint {
    /// The joint whose six numbers are zero.
    pub open spec fn origin() -> Joint {
        Joint {
            tx: Scalar::zero(),
            ty: Scalar::zero(),
            tz: Scalar::zero(),
            rx: Scalar::zero(),
            ry: Scalar::zero(),
            rz: Scalar::zero(),
        }
    }
}

impl Transform {
    /// The motion that moves nothing: no translation, and the rotation by no
    /// angle.
    pub open spec fn spec_identity() -> Transform {
        Transform {
            x: Scalar::zero(),
            y: Scalar::zero(),
            z: Scalar::zero(),
            i: Scalar::zero(),
            j: Scalar::zero(),
            k: Scalar::zero(),
            w: Scalar::one(),
        }
    }

    /// The motion that moves nothing.
    #[verifier::when_used_as_spec(spec_identity)]
    pub fn identity() -> (r: Transform)
        ensures
            r == Transform::spec_identity(),
    {
        Transform {
            x: Scalar::zero(),
            y: Scalar::zero(),
            z: Scalar::zero(),
            i: Scalar::zero(),
            j: Scalar::zero(),
            k: Scalar::zero(),
            w: Scalar::one(),
        }
    }
}

/// The world transform that a bone counts as having: its own, or the identity
/// as long as it has none.
pub open spec fn transform_of(bone: BoneView) -> Transform {
    match bone.transform {
        Some(transform) => transform,
        None => Transform::identity(),
    }
}

impl BoneView {
    /// A bone as a bone line gives it: no children yet, the joint at the
    /// origin, no transform and no tracks.
    pub open spec fn fresh(index: i32, parent: i32, name: Seq<char>) -> BoneView {
        BoneView {
            index,
            parent,
            childs: Seq::empty(),
            name,
            joint: Joint::origin(),
            transform: None,
            tracks: Seq::empty(),
        }
    }
}

/// The map from each index to its place in the list. Of two bones with one
/// index the later one is found.
pub open spec fn index_map(bones: Seq<BoneView>) -> Map<i32, usize>
    decreases bones.len(),
{
    if bones.len() == 0 {
        Map::empty()
    } else {
        index_map(bones.drop_last()).insert(bones.last().index, (bones.len() - 1) as usize)
    }
}

/// The index of the last bone that names no parent, or 0 where every bone
/// names one.
pub open spec fn root_of(bones: Seq<BoneView>) -> i32
    decreases bones.len(),
{
    if bones.len() == 0 {
        0
    } else if bones.last().parent == NO_PARENT {
        bones.last().index
    } else {
        root_of(bones.drop_last())
    }
}

/// Whether no two bones share an index.
pub open spec fn distinct_indices(bones: Seq<BoneView>) -> bool {
    forall|a: int, b: int|
        0 <= a < b < bones.len() ==> (#[trigger] bones[a]).index != (#[trigger] bones[b]).index
}

/// Whether the bone at place `child` hangs below the bone at place `parent`:
/// the index map finds its parent index there.
pub open spec fn hangs_below(
    bones: Seq<BoneView>,
    indexes: Map<i32, usize>,
    child: int,
    parent: int,
) -> bool {
    indexes.contains_key(bones[child].parent) && indexes[bones[child].parent] == parent
}

/// The indices of those among the first `n` bones that hang below the bone at
/// place `parent`, in list order.
pub open spec fn children_upto(
    bones: Seq<BoneView>,
    indexes: Map<i32, usize>,
    parent: int,
    n: int,
) -> Seq<i32>
    decreases n,
{
    if n <= 0 {
        Seq::empty()
    } else if hangs_below(bones, indexes, n - 1, parent) {
        children_upto(bones, indexes, parent, n - 1).push(bones[n - 1].index)
    } else {
        children_upto(bones, indexes, parent, n - 1)
    }
}

/// The bones with the children of the first `n` bones entered: each child
/// list grows by the indices of the bones that hang below it.
pub open spec fn with_children(bones: Seq<BoneView>, indexes: Map<i32, usize>, n: int) -> Seq<
    BoneView,
> {
    Seq::new(
        bones.len(),
        |p: int|
            BoneView { childs: bones[p].childs + children_upto(bones, indexes, p, n), ..bones[p] },
    )
}

/// The skeleton made of the given bones: the index map, the root and the child
/// lists are worked out from them.
pub open spec fn assembled(bones: Seq<BoneView>) -> ModelView {
    ModelView {
        bones: with_children(bones, index_map(bones), bones.len() as int),
        indexes: index_map(bones),
        root_bone_index: root_of(bones),
    }
}

impl Joint {
    /// The joint at the origin.
    pub fn new() -> (r: Joint)
        ensures
            r == Joint::origin(),
    {
        Joint {
            tx: Scalar::zero(),
            ty: Scalar::zero(),
            tz: Scalar::zero(),
            rx: Scalar::zero(),
            ry: Scalar::zero(),
            rz: Scalar::zero(),
        }
    }
}

impl Bone {
    /// A bone without children, with its joint at the origin, no transform
    /// and no tracks.
    pub fn new(index: i32, parent: i32, name: String) -> (r: Bone)
        ensures
            r@ == BoneView::fresh(index, parent, name@),
    {
        let bone = Bone {
            index,
            parent,
            name,
            childs: Vec::new(),
            joint: Joint::new(),
            transform: None,
            tracks: Vec::new(),
        };
        assert(bone@.tracks =~= Seq::empty());
        bone
    }

    /// The translation of the joint.
    pub fn local_translation(&self) -> (r: (Scalar, Scalar, Scalar))
        ensures
            r == (self.joint.tx, self.joint.ty, self.joint.tz),
    {
        (self.joint.tx, self.joint.ty, self.joint.tz)
    }

    /// The world transform of the bone; the identity as long as it has none.
    pub fn transform(&self) -> (r: Transform)
        ensures
            r == transform_of(self@),
    {
        match self.transform {
            Some(transform) => transform,
            None => Transform::identity(),
        }
    }

    /// The translation `(x, y, z)` of the world transform.
    pub fn translation(&self) -> (r: (Scalar, Scalar, Scalar))
        ensures
            r == (transform_of(self@).x, transform_of(self@).y, transform_of(self@).z),
    {
        let t = self.transform();
        (t.x, t.y, t.z)
    }

    /// The rotation of the world transform as a unit quaternion `(i, j, k, w)`.
    pub fn rotation(&self) -> (r: (Scalar, Scalar, Scalar, Scalar))
        ensures
            r == (
                transform_of(self@).i,
                transform_of(self@).j,
                transform_of(self@).k,
                transform_of(self@).w,
            ),
    {
        let t = self.transform();
        (t.i, t.j, t.k, t.w)
    }

    /// A copy of the bone.
    pub fn duplicate(&self) -> (r: Bone)
        ensures
            r@ == self@,
    {
        let mut childs: Vec<i32> = Vec::new();
        let mut i: usize = 0;
        while i < self.childs.len()
            invariant
                0 <= i <= self.childs.len(),
                childs@ == self.childs@.subrange(0, i as int),
            decreases self.childs.len() - i,
        {
            childs.push(self.childs[i]);
            assert(self.childs@.subrange(0, i + 1) =~= self.childs@.subrange(0, i as int).push(
                self.childs@[i as int],
            ));
            i += 1;
        }
        assert(self.childs@.subrange(0, self.childs.len() as int) =~= self.childs@);
        Bone {
            index: self.index,
            parent: self.parent,
            childs,
            name: self.name.clone(),
            joint: self.joint,
            transform: self.transform,
            tracks: copy_tracks(&self.tracks),
        }
    }
}

/// The place under which the map holds `index`.
fn place_of(indexes: &BTreeMap<i32, usize>, index: i32) -> (r: Option<usize>)
    ensures
        r == if indexes@.contains_key(index) {
            Some(indexes@[index])
        } else {
            None
        },
{
    broadcast use vstd::std_specs::btree::group_btree_axioms;
    broadcast use vstd::laws_cmp::group_laws_cmp;

    match indexes.get(&index) {
        Some(place) => Some(*place),
        None => None,
    }
}

/// Enters `index` under `place`.
fn enter_place(indexes: &mut BTreeMap<i32, usize>, index: i32, place: usize)
    ensures
        final(indexes)@ == old(indexes)@.insert(index, place),
{
    broadcast use vstd::std_specs::btree::group_btree_axioms;
    broadcast use vstd::laws_cmp::group_laws_cmp;

    indexes.insert(index, place);
}

/// The number of indices that the map holds.
pub(crate) fn count_places(indexes: &BTreeMap<i32, usize>) -> (r: usize)
    ensures
        r == indexes@.len(),
{
    broadcast use vstd::std_specs::btree::group_btree_axioms;
    broadcast use vstd::laws_cmp::group_laws_cmp;

    indexes.len()
}

/// A copy of the map.
fn copy_places(indexes: &BTreeMap<i32, usize>) -> (r: BTreeMap<i32, usize>)
    ensures
        r@ == indexes@,
{
    indexes.clone()
}

impl Model {
    /// Whether every place that the index map holds is a place of the bone
    /// list.
    pub open spec fn indexes_fit(&self) -> bool {
        forall|k: i32| #[trigger]
            self.indexes@.contains_key(k) ==> self.indexes@[k] < self.bones.len()
    }

    /// The place of the bone with the given index, as the index map has it.
    pub fn position(&self, index: i32) -> (r: Option<usize>)
        ensures
            r == if self.indexes@.contains_key(index) {
                Some(self.indexes@[index])
            } else {
                None
            },
    {
        place_of(&self.indexes, index)
    }

    /// The map from the index of each bone to its place in the list.
    pub fn make_index(bones: &Vec<Bone>) -> (r: BTreeMap<i32, usize>)
        ensures
            r@ == index_map(bone_views(bones@)),
    {
        let mut indexes: BTreeMap<i32, usize> = BTreeMap::new();
        let mut i: usize = 0;
        while i < bones.len()
            invariant
                0 <= i <= bones.len(),
                indexes@ == index_map(bone_views(bones@).subrange(0, i as int)),
            decreases bones.len() - i,
        {
            proof {
                let next = bone_views(bones@).subrange(0, i + 1);
                assert(next.drop_last() =~= bone_views(bones@).subrange(0, i as int));
                assert(next.last() == bones@[i as int]@);
            }
            enter_place(&mut indexes, bones[i].index, i);
            i += 1;
        }
        assert(bone_views(bones@).subrange(0, bones.len() as int) =~= bone_views(bones@));
        indexes
    }

    /// Enters every bone in the child list of the bone that its parent index
    /// leads to. A bone whose parent index the map does not hold is entered
    /// nowhere.
    pub fn compute_childs(&mut self)
        requires
            old(self).indexes_fit(),
            old(self).bones.len() == old(self).indexes@.len(),
        ensures
            final(self).indexes == old(self).indexes,
            final(self).root_bone_index == old(self).root_bone_index,
            bone_views(final(self).bones@) == with_children(
                bone_views(old(self).bones@),
                old(self).indexes@,
                old(self).bones.len() as int,
            ),
    {
        let ghost before = bone_views(self.bones@);
        let ghost indexes = self.indexes@;
        let n = self.bones.len();
        let mut i: usize = 0;
        assert(bone_views(self.bones@) =~= with_children(before, indexes, 0)) by {
            assert forall|p: int| 0 <= p < before.len() implies before[p] == with_children(
                before,
                indexes,
                0,
            )[p] by {
                assert(before[p].childs + Seq::<i32>::empty() =~= before[p].childs);
            }
        }
        while i < n
            invariant
                0 <= i <= n,
                n == self.bones.len(),
                n == before.len(),
                self.indexes@ == indexes,
                self.indexes == old(self).indexes,
                self.root_bone_index == old(self).root_bone_index,
                self.indexes_fit(),
                bone_views(self.bones@) == with_children(before, indexes, i as int),
            decreases n - i,
        {
            let index = self.bones[i].index;
            let parent = self.bones[i].parent;
            let ghost current = bone_views(self.bones@);
            assert(current[i as int] == self.bones@[i as int]@);
            assert(before[i as int].index == index && before[i as int].parent == parent);
            match place_of(&self.indexes, parent) {
                Some(place) => {
                    self.bones[place].childs.push(index);
                    proof {
                        let after = bone_views(self.bones@);
                        let wanted = with_children(before, indexes, i + 1);
                        assert forall|p: int| 0 <= p < n implies after[p] == wanted[p] by {
                            assert(after[p] == self.bones@[p]@);
                            assert(current[p] == with_children(before, indexes, i as int)[p]);
                            if p == place {
                                assert(hangs_below(before, indexes, i as int, p));
                                assert(before[p].childs + children_upto(
                                    before,
                                    indexes,
                                    p,
                                    i as int,
                                ).push(index) =~= (before[p].childs + children_upto(
                                    before,
                                    indexes,
                                    p,
                                    i as int,
                                )).push(index));
                            } else {
                                assert(!hangs_below(before, indexes, i as int, p));
                            }
                        }
                        assert(after =~= wanted);
                    }
                },
                None => {
                    proof {
                        let wanted = with_children(before, indexes, i + 1);
                        assert forall|p: int| 0 <= p < n implies current[p] == wanted[p] by {
                            assert(!hangs_below(before, indexes, i as int, p));
                            assert(current[p] == with_children(before, indexes, i as int)[p]);
                        }
                        assert(current =~= wanted);
                    }
                },
            }
            i += 1;
        }
    }

    /// A copy of the skeleton.
    pub fn duplicate(&self) -> (r: Model)
        ensures
            r@ == self@,
            bone_views(r.bones@) == bone_views(self.bones@),
            r.indexes@ == self.indexes@,
            r.root_bone_index == self.root_bone_index,
            self.indexes_fit() ==> r.indexes_fit(),
    {
        let mut bones: Vec<Bone> = Vec::new();
        let mut i: usize = 0;
        while i < self.bones.len()
            invariant
                0 <= i <= self.bones.len(),
                bones.len() == i,
                forall|k: int| 0 <= k < i ==> (#[trigger] bones@[k])@ == self.bones@[k]@,
            decreases self.bones.len() - i,
        {
            bones.push(self.bones[i].duplicate());
            i += 1;
        }
        assert(bone_views(bones@) =~= bone_views(self.bones@));
        Model {
            bones,
            indexes: copy_places(&self.indexes),
            root_bone_index: self.root_bone_index,
        }
    }
}

/// What the index map of a list of bones holds: places of the list, each under
/// the index of the bone that stands there; every index of the list; and as
/// many entries as there are bones exactly when no two bones share an index.
pub proof fn lemma_index_map(bones: Seq<BoneView>)
    requires
        bones.len() <= usize::MAX,
    ensures
        index_map(bones).dom().finite(),
        index_map(bones).len() <= bones.len(),
        forall|k: i32| #[trigger]
            index_map(bones).contains_key(k) ==> 0 <= index_map(bones)[k] < bones.len()
                && bones[index_map(bones)[k] as int].index == k,
        forall|p: int|
            0 <= p < bones.len() ==> index_map(bones).contains_key((#[trigger] bones[p]).index),
        distinct_indices(bones) <==> index_map(bones).len() == bones.len(),
        distinct_indices(bones) ==> forall|p: int|
            0 <= p < bones.len() ==> index_map(bones)[(#[trigger] bones[p]).index] == p,
    decreases bones.len(),
{
    if bones.len() > 0 {
        let front = bones.drop_last();
        let last = bones.last();
        lemma_index_map(front);
        let before = index_map(front);
        let after = index_map(bones);
        assert(after == before.insert(last.index, (bones.len() - 1) as usize));
        assert(after.dom() =~= before.dom().insert(last.index));
        assert forall|p: int| 0 <= p < bones.len() implies after.contains_key(
            (#[trigger] bones[p]).index,
        ) by {
            if p < bones.len() - 1 {
                assert(bones[p] == front[p]);
            }
        }
        assert forall|k: i32| #[trigger] after.contains_key(k) implies 0 <= after[k] < bones.len()
            && bones[after[k] as int].index == k by {
            if k != last.index {
                assert(before.contains_key(k));
                assert(bones[before[k] as int] == front[before[k] as int]);
            }
        }
        if distinct_indices(bones) {
            assert forall|a: int, b: int| 0 <= a < b < front.len() implies (#[trigger] front[a]).index
                != (#[trigger] front[b]).index by {
                assert(front[a] == bones[a] && front[b] == bones[b]);
            }
            if before.contains_key(last.index) {
                let at = before[last.index] as int;
                assert(bones[at] == front[at]);
                assert(bones[at].index == bones[bones.len() - 1].index);
            }
            assert forall|p: int| 0 <= p < bones.len() implies after[(#[trigger] bones[p]).index]
                == p by {
                if p < bones.len() - 1 {
                    assert(bones[p] == front[p]);
                    assert(bones[p].index != bones[bones.len() - 1].index);
                }
            }
        }
        if after.len() == bones.len() {
            assert(!before.contains_key(last.index));
            assert(distinct_indices(front));
            assert forall|a: int, b: int| 0 <= a < b < bones.len() implies (#[trigger] bones[a]).index
                != (#[trigger] bones[b]).index by {
                assert(bones[a] == front[a]);
                if b < bones.len() - 1 {
                    assert(bones[b] == front[b]);
                } else {
                    assert(before.contains_key(front[a].index));
                }
            }
        }
    }
}

/// What the child list worked out for place `parent` holds: the index of each
/// of the first `n` bones that hangs below that place, and nothing else; and
/// no index twice where no two bones share an index.
pub proof fn lemma_children(bones: Seq<BoneView>, indexes: Map<i32, usize>, parent: int, n: int)
    requires
        0 <= n <= bones.len(),
    ensures
        forall|index: i32|
            children_upto(bones, indexes, parent, n).contains(index) <==> exists|c: int|
                0 <= c < n && hangs_below(bones, indexes, c, parent) && (#[trigger] bones[c]).index
                    == index,
        distinct_indices(bones) ==> children_upto(bones, indexes, parent, n).no_duplicates(),
    decreases n,
{
    let list = children_upto(bones, indexes, parent, n);
    if n > 0 {
        let rest = children_upto(bones, indexes, parent, n - 1);
        lemma_children(bones, indexes, parent, n - 1);
        let hangs = hangs_below(bones, indexes, n - 1, parent);
        assert forall|index: i32| list.contains(index) <==> exists|c: int|
            0 <= c < n && hangs_below(bones, indexes, c, parent) && (#[trigger] bones[c]).index
                == index by {
            if list.contains(index) {
                let k = choose|k: int| 0 <= k < list.len() && list[k] == index;
                if hangs && k == list.len() - 1 {
                    assert(bones[n - 1].index == index);
                } else {
                    assert(rest[k] == index);
                    assert(rest.contains(index));
                }
            }
            if exists|c: int|
                0 <= c < n && hangs_below(bones, indexes, c, parent) && (#[trigger] bones[c]).index
                    == index {
                let c = choose|c: int|
                    0 <= c < n && hangs_below(bones, indexes, c, parent) && (#[trigger] bones[c]).index
                        == index;
                if c == n - 1 {
                    assert(list[list.len() - 1] == index);
                } else {
                    assert(rest.contains(index));
                    let k = choose|k: int| 0 <= k < rest.len() && rest[k] == index;
                    assert(list[k] == index);
                }
            }
        }
        if distinct_indices(bones) && hangs {
            assert forall|i: int, j: int| 0 <= i < j < list.len() implies list[i] != list[j] by {
                if j == list.len() - 1 {
                    assert(rest[i] == list[i]);
                    assert(rest.contains(list[i]));
                    let c = choose|c: int|
                        0 <= c < n - 1 && hangs_below(bones, indexes, c, parent) && (
                        #[trigger] bones[c]).index == list[i];
                    assert(bones[c].index != bones[n - 1].index);
                } else {
                    assert(rest[i] == list[i] && rest[j] == list[j]);
                }
            }
        }
    }
}

/// In a skeleton made of bones with distinct indices and empty child lists,
/// the index of a bone stands in the child list of the bone that its parent
/// index leads to and in no other, no child list holds an index twice, and the
/// index map leads from the index of each bone to the bone.
pub proof fn lemma_assembled_children(bones: Seq<BoneView>)
    requires
        bones.len() <= usize::MAX,
        distinct_indices(bones),
        forall|p: int| 0 <= p < bones.len() ==> (#[trigger] bones[p]).childs.len() == 0,
    ensures
        forall|c: int, p: int|
            0 <= c < bones.len() && 0 <= p < bones.len() ==> (#[trigger] assembled(
                bones,
            ).bones[p].childs.contains(bones[c].index) <==> hangs_below(
                bones,
                index_map(bones),
                c,
                p,
            )),
        forall|p: int|
            0 <= p < bones.len() ==> (#[trigger] assembled(bones).bones[p]).childs.no_duplicates(),
        forall|c: int|
            0 <= c < bones.len() ==> index_map(bones).contains_key((#[trigger] bones[c]).index)
                && index_map(bones)[bones[c].index] == c,
{
    let indexes = index_map(bones);
    let n = bones.len() as int;
    lemma_index_map(bones);
    assert forall|p: int| 0 <= p < n implies (#[trigger] assembled(bones).bones[p]).childs
        == children_upto(bones, indexes, p, n) by {
        assert(bones[p].childs + children_upto(bones, indexes, p, n) =~= children_upto(
            bones,
            indexes,
            p,
            n,
        ));
    }
    assert forall|p: int| 0 <= p < n implies (#[trigger] assembled(
        bones,
    ).bones[p]).childs.no_duplicates() by {
        lemma_children(bones, indexes, p, n);
    }
    assert forall|c: int, p: int| 0 <= c < n && 0 <= p < n implies (#[trigger] assembled(
        bones,
    ).bones[p].childs.contains(bones[c].index) <==> hangs_below(bones, indexes, c, p)) by {
        lemma_children(bones, indexes, p, n);
        let list = children_upto(bones, indexes, p, n);
        assert(assembled(bones).bones[p].childs == list);
        if list.contains(bones[c].index) {
            let d = choose|d: int|
                0 <= d < n && hangs_below(bones, indexes, d, p) && (#[trigger] bones[d]).index
                    == bones[c].index;
            if d < c {
                assert(bones[d].index != bones[c].index);
            } else if c < d {
                assert(bones[c].index != bones[d].index);
            }
        }
    }
}

} // verus!
