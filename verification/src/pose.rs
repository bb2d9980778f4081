//! World transforms of the skeleton.
//!
//! A bone's world transform is its parent's world transform composed with its
//! own local pose, so the bones are walked from the top down, each after its
//! parent. The walk is depth first and takes the children of a bone in the
//! order of its child list. It begins at the root and then at every bone whose
//! parent index no bone carries; such a bone is posed as if it had no parent.
//! No bone is posed twice.
//!
//! The arithmetic of a transform is not done here. The caller supplies it as a
//! kernel that receives the world transform of the parent, if there is one,
//! and the joint of the bone, and returns the world transform of the bone.

use crate::bone::{
    assembled, bone_views, distinct_indices, hangs_below, index_map, lemma_assembled_children,
    lemma_index_map, BoneView, Joint, Model, Transform,
};
use crate::scalar::Scalar;
use crate::smd::{lemma_smd_scan_bare, smd_model, smd_scan};
use vstd::prelude::*;

verus! {

/// One step of the walk: the bone at place `bone` is posed on the bone at
/// place `parent`, or on nothing.
#[derive(Debug, Clone, Copy)]
pub struct Link {
    pub bone: usize,
    pub parent: Option<usize>,
}

/// The links from the bone at place `at` to the children that its child list
/// names, the first child last. A child index that the map does not hold gives
/// no link.
pub open spec fn child_links(childs: Seq<i32>, indexes: Map<i32, usize>, at: usize) -> Seq<Link>
    decreases childs.len(),
{
    if childs.len() == 0 {
        Seq::empty()
    } else {
        let rest = child_links(childs.drop_first(), indexes, at);
        if indexes.contains_key(childs[0]) {
            rest.push(Link { bone: indexes[childs[0]], parent: Some(at) })
        } else {
            rest
        }
    }
}

/// How many places are not marked.
pub open spec fn unmarked(marks: Seq<bool>) -> nat
    decreases marks.len(),
{
    if marks.len() == 0 {
        0
    } else if marks.last() {
        unmarked(marks.drop_last())
    } else {
        unmarked(marks.drop_last()) + 1
    }
}

/// Marking a place that was not marked leaves one fewer unmarked.
pub proof fn lemma_marking(marks: Seq<bool>, at: int)
    requires
        0 <= at < marks.len(),
        !marks[at],
    ensures
        unmarked(marks.update(at, true)) + 1 == unmarked(marks),
    decreases marks.len(),
{
    let after = marks.update(at, true);
    if at == marks.len() - 1 {
        assert(after.drop_last() =~= marks.drop_last());
    } else {
        lemma_marking(marks.drop_last(), at);
        assert(after.drop_last() =~= marks.drop_last().update(at, true));
    }
}

/// The walk that is still to be done when `stack` holds the links waiting to
/// be followed, its top at the end, and `marks` tells the places that were
/// posed. The link on top is taken off. Where it leads to a place of the list
/// that is not marked, the place is marked, the link joins the walk, and the
/// links to the children of the bone go on the stack. Otherwise the link is
/// dropped.
pub open spec fn walk(
    bones: Seq<BoneView>,
    indexes: Map<i32, usize>,
    stack: Seq<Link>,
    marks: Seq<bool>,
) -> Seq<Link>
    decreases unmarked(marks), stack.len(),
{
    if stack.len() == 0 {
        Seq::empty()
    } else {
        let link = stack.last();
        let at = link.bone as int;
        if at < marks.len() && at < bones.len() && !marks[at] {
            proof {
                lemma_marking(marks, at);
            }
            seq![link] + walk(
                bones,
                indexes,
                stack.drop_last() + child_links(bones[at].childs, indexes, link.bone),
                marks.update(at, true),
            )
        } else {
            walk(bones, indexes, stack.drop_last(), marks)
        }
    }
}

/// No place marked, for a list of `n` bones.
pub open spec fn no_marks(n: nat) -> Seq<bool> {
    Seq::new(n, |p: int| false)
}

/// Whether the walk begins at the bone at place `at`: it is the root, or its
/// parent index is carried by no bone.
pub open spec fn is_top(bones: Seq<BoneView>, indexes: Map<i32, usize>, root: i32, at: int) -> bool {
    (indexes.contains_key(root) && indexes[root] == at) || !indexes.contains_key(bones[at].parent)
}

/// The links to the bones from place `from` on whose parent index no bone
/// carries, the first of them last.
pub open spec fn orphan_links(bones: Seq<BoneView>, indexes: Map<i32, usize>, from: int) -> Seq<Link>
    decreases bones.len() - from,
{
    if from < 0 || from >= bones.len() {
        Seq::empty()
    } else if !indexes.contains_key(bones[from].parent) {
        orphan_links(bones, indexes, from + 1).push(Link { bone: from as usize, parent: None })
    } else {
        orphan_links(bones, indexes, from + 1)
    }
}

/// The links at which the walk over the whole skeleton begins: the root on
/// top, under it the bones without a parent in list order.
pub open spec fn top_links(bones: Seq<BoneView>, indexes: Map<i32, usize>, root: i32) -> Seq<Link> {
    if indexes.contains_key(root) {
        orphan_links(bones, indexes, 0).push(Link { bone: indexes[root], parent: None })
    } else {
        orphan_links(bones, indexes, 0)
    }
}

/// The walk over the whole skeleton.
pub open spec fn pose_order(bones: Seq<BoneView>, indexes: Map<i32, usize>, root: i32) -> Seq<Link> {
    walk(bones, indexes, top_links(bones, indexes, root), no_marks(bones.len()))
}

/// The link at which the walk below one bone begins. The bone is named by its
/// index, and so is the bone it is posed on; an index that the map does not
/// hold gives no walk, or no parent.
pub open spec fn branch_links(
    indexes: Map<i32, usize>,
    bone_index: i32,
    parent_index: Option<i32>,
) -> Seq<Link> {
    if indexes.contains_key(bone_index) {
        seq![
            Link {
                bone: indexes[bone_index],
                parent: match parent_index {
                    Some(index) => if indexes.contains_key(index) {
                        Some(indexes[index])
                    } else {
                        None
                    },
                    None => None,
                },
            },
        ]
    } else {
        Seq::empty()
    }
}

/// The walk below one bone.
pub open spec fn branch_order(
    bones: Seq<BoneView>,
    indexes: Map<i32, usize>,
    bone_index: i32,
    parent_index: Option<i32>,
) -> Seq<Link> {
    walk(bones, indexes, branch_links(indexes, bone_index, parent_index), no_marks(bones.len()))
}

/// Whether one of the first `n` links of the walk leads to place `at`.
pub open spec fn posed_before(order: Seq<Link>, n: int, at: int) -> bool {
    exists|k: int| 0 <= k < n && k < order.len() && (#[trigger] order[k]).bone == at
}

/// Whether the walk leads to place `at`.
pub open spec fn posed(order: Seq<Link>, at: int) -> bool {
    posed_before(order, order.len() as int, at)
}

/// The transform that the kernel is given for link `k` of a walk: none for a
/// link without a parent; else the transform of the parent, which is its new
/// one where the walk has posed the parent before and its old one where not.
pub open spec fn parent_transform(
    before: Seq<BoneView>,
    after: Seq<BoneView>,
    order: Seq<Link>,
    k: int,
) -> Option<Transform> {
    match order[k].parent {
        Some(parent) => if posed_before(order, k, parent as int) {
            after[parent as int].transform
        } else {
            before[parent as int].transform
        },
        None => None,
    }
}

/// Whether the bone of link `k` has the transform that the kernel returned for
/// it.
pub open spec fn link_posed<F: Fn(Option<Transform>, Joint) -> Transform>(
    before: Seq<BoneView>,
    after: Seq<BoneView>,
    order: Seq<Link>,
    k: int,
    pose: F,
) -> bool {
    let at = order[k].bone as int;
    &&& after[at].transform is Some
    &&& pose.ensures(
        (parent_transform(before, after, order, k), before[at].joint),
        after[at].transform->0,
    )
}

/// Whether the bones `after` are the bones `before` posed along the walk
/// `order` by the kernel `pose`. Nothing but transforms has changed, and those
/// only of the bones that the walk leads to. Each of these has the transform
/// that the kernel returned for the transform of its parent and its own
/// joint.
pub open spec fn posed_by<F: Fn(Option<Transform>, Joint) -> Transform>(
    before: Seq<BoneView>,
    after: Seq<BoneView>,
    order: Seq<Link>,
    pose: F,
) -> bool {
    &&& after.len() == before.len()
    &&& forall|p: int|
        0 <= p < before.len() ==> #[trigger] after[p] == (BoneView {
            transform: after[p].transform,
            ..before[p]
        })
    &&& forall|p: int|
        0 <= p < before.len() && !posed(order, p) ==> (#[trigger] after[p]).transform
            == before[p].transform
    &&& forall|k: int|
        0 <= k < order.len() ==> #[trigger] link_posed(before, after, order, k, pose)
}

/// Whether a list of links can be posed on a list of `n` bones: every place it
/// names is a place of the list, and no bone is posed twice.
pub open spec fn fits(order: Seq<Link>, n: nat) -> bool {
    &&& forall|k: int| 0 <= k < order.len() ==> (#[trigger] order[k]).bone < n
    &&& forall|k: int|
        0 <= k < order.len() ==> ((#[trigger] order[k]).parent matches Some(parent) ==> parent < n)
    &&& forall|j: int, k: int|
        0 <= j < k < order.len() ==> (#[trigger] order[j]).bone != (#[trigger] order[k]).bone
}

impl Model {
    /// Puts the links to the children of the bone at place `at` on the stack.
    fn push_children(&self, at: usize, stack: &mut Vec<Link>)
        requires
            at < self.bones.len(),
        ensures
            final(stack)@ == old(stack)@ + child_links(
                bone_views(self.bones@)[at as int].childs,
                self.indexes@,
                at,
            ),
    {
        let childs = &self.bones[at].childs;
        let ghost below = stack@;
        let mut k: usize = childs.len();
        assert(bone_views(self.bones@)[at as int] == self.bones@[at as int]@);
        assert(childs@.subrange(k as int, childs.len() as int) =~= Seq::<i32>::empty());
        assert(below + Seq::<Link>::empty() =~= below);
        while k > 0
            invariant
                0 <= k <= childs.len(),
                stack@ == below + child_links(
                    childs@.subrange(k as int, childs.len() as int),
                    self.indexes@,
                    at,
                ),
            decreases k,
        {
            k -= 1;
            let ghost tail = childs@.subrange(k as int, childs.len() as int);
            proof {
                assert(tail.drop_first() =~= childs@.subrange(k + 1, childs.len() as int));
                assert(tail[0] == childs@[k as int]);
            }
            match self.position(childs[k]) {
                Some(place) => {
                    let ghost rest = child_links(tail.drop_first(), self.indexes@, at);
                    let link = Link { bone: place, parent: Some(at) };
                    assert((below + rest).push(link) =~= below + rest.push(link));
                    stack.push(link);
                },
                None => {},
            }
        }
        assert(childs@.subrange(0, childs.len() as int) =~= childs@);
    }

    /// Follows the links on the stack until none is left.
    fn walk_from(&self, stack: Vec<Link>) -> (r: Vec<Link>)
        ensures
            r@ == walk(
                bone_views(self.bones@),
                self.indexes@,
                stack@,
                no_marks(self.bones@.len()),
            ),
    {
        let ghost bones = bone_views(self.bones@);
        let ghost indexes = self.indexes@;
        let ghost whole = walk(bones, indexes, stack@, no_marks(self.bones@.len()));
        let mut stack = stack;
        let mut marks: Vec<bool> = Vec::new();
        let mut i: usize = 0;
        while i < self.bones.len()
            invariant
                0 <= i <= self.bones.len(),
                marks@ == no_marks(i as nat),
            decreases self.bones.len() - i,
        {
            marks.push(false);
            assert(marks@ =~= no_marks((i + 1) as nat));
            i += 1;
        }
        let mut order: Vec<Link> = Vec::new();
        assert(order@ + whole =~= whole);
        while stack.len() > 0
            invariant
                bones == bone_views(self.bones@),
                indexes == self.indexes@,
                marks.len() == self.bones.len(),
                whole == order@ + walk(bones, indexes, stack@, marks@),
            decreases unmarked(marks@), stack.len(),
        {
            let ghost before = stack@;
            let ghost rest = walk(bones, indexes, stack@, marks@);
            let link = stack.pop().unwrap();
            assert(link == before.last());
            assert(stack@ =~= before.drop_last());
            if link.bone < marks.len() && !marks[link.bone] {
                proof {
                    lemma_marking(marks@, link.bone as int);
                }
                marks[link.bone] = true;
                assert(order@.push(link) + walk(
                    bones,
                    indexes,
                    before.drop_last() + child_links(
                        bones[link.bone as int].childs,
                        indexes,
                        link.bone,
                    ),
                    marks@,
                ) =~= order@ + rest);
                order.push(link);
                self.push_children(link.bone, &mut stack);
            }
        }
        assert(order@ + Seq::<Link>::empty() =~= order@);
        order
    }

    /// The order in which the bones of the whole skeleton are posed, each with
    /// the bone it is posed on.
    pub fn pose_order(&self) -> (r: Vec<Link>)
        ensures
            r@ == pose_order(bone_views(self.bones@), self.indexes@, self.root_bone_index),
    {
        let ghost bones = bone_views(self.bones@);
        let mut stack: Vec<Link> = Vec::new();
        let mut k: usize = self.bones.len();
        while k > 0
            invariant
                0 <= k <= self.bones.len(),
                bones == bone_views(self.bones@),
                stack@ == orphan_links(bones, self.indexes@, k as int),
            decreases k,
        {
            k -= 1;
            assert(bones[k as int] == self.bones@[k as int]@);
            if self.position(self.bones[k].parent).is_none() {
                stack.push(Link { bone: k, parent: None });
            }
        }
        match self.position(self.root_bone_index) {
            Some(place) => {
                stack.push(Link { bone: place, parent: None });
            },
            None => {},
        }
        self.walk_from(stack)
    }

    /// The order in which the bones below one bone are posed, beginning with
    /// that bone, which is posed on the bone with the index `parent_index`.
    pub fn branch_order(&self, bone_index: i32, parent_index: Option<i32>) -> (r: Vec<Link>)
        ensures
            r@ == branch_order(bone_views(self.bones@), self.indexes@, bone_index, parent_index),
    {
        let mut stack: Vec<Link> = Vec::new();
        match self.position(bone_index) {
            Some(place) => {
                let parent = match parent_index {
                    Some(index) => self.position(index),
                    None => None,
                };
                stack.push(Link { bone: place, parent });
                assert(stack@ =~= branch_links(self.indexes@, bone_index, parent_index));
            },
            None => {},
        }
        self.walk_from(stack)
    }

    /// Poses the bones along the given links, one after the other.
    fn pose_links<F: Fn(Option<Transform>, Joint) -> Transform>(
        &mut self,
        order: &Vec<Link>,
        pose: &F,
    )
        requires
            forall|t: Option<Transform>, j: Joint| pose.requires((t, j)),
            fits(order@, old(self).bones@.len()),
        ensures
            posed_by(bone_views(old(self).bones@), bone_views(final(self).bones@), order@, *pose),
            final(self).indexes == old(self).indexes,
            final(self).root_bone_index == old(self).root_bone_index,
    {
        let ghost before = bone_views(self.bones@);
        let ghost n = self.bones@.len();
        let mut i: usize = 0;
        while i < order.len()
            invariant
                0 <= i <= order.len(),
                forall|t: Option<Transform>, j: Joint| pose.requires((t, j)),
                fits(order@, n),
                n == self.bones@.len(),
                before == bone_views(old(self).bones@),
                self.indexes == old(self).indexes,
                self.root_bone_index == old(self).root_bone_index,
                forall|p: int|
                    0 <= p < n ==> #[trigger] bone_views(self.bones@)[p] == (BoneView {
                        transform: bone_views(self.bones@)[p].transform,
                        ..before[p]
                    }),
                forall|p: int|
                    0 <= p < n && !posed_before(order@, i as int, p) ==> (#[trigger] bone_views(
                        self.bones@,
                    )[p]).transform == before[p].transform,
                forall|k: int|
                    0 <= k < i ==> #[trigger] link_posed(
                        before,
                        bone_views(self.bones@),
                        order@,
                        k,
                        *pose,
                    ),
            decreases order.len() - i,
        {
            let link = order[i];
            let ghost current = bone_views(self.bones@);
            assert(order@[i as int].bone < n);
            assert(current[link.bone as int] == self.bones@[link.bone as int]@);
            let given = match link.parent {
                Some(parent) => {
                    assert(order@[i as int].parent == Some(parent));
                    assert(current[parent as int] == self.bones@[parent as int]@);
                    self.bones[parent].transform
                },
                None => None,
            };
            let world = pose(given, self.bones[link.bone].joint);
            self.bones[link.bone].transform = Some(world);
            proof {
                let after = bone_views(self.bones@);
                assert forall|p: int| 0 <= p < n implies after[p] == self.bones@[p]@ by {}
                assert forall|p: int| 0 <= p < n implies #[trigger] after[p] == (BoneView {
                    transform: after[p].transform,
                    ..before[p]
                }) by {
                    assert(after[p] == self.bones@[p]@);
                    assert(current[p] == (BoneView { transform: current[p].transform, ..before[p] }));
                }
                assert forall|p: int| 0 <= p < n && !posed_before(order@, i + 1, p) implies (
                #[trigger] after[p]).transform == before[p].transform by {
                    assert(after[p] == self.bones@[p]@);
                    if p == link.bone {
                        assert(order@[i as int].bone == p);
                    } else {
                        if posed_before(order@, i as int, p) {
                            let k = choose|k: int|
                                0 <= k < i && k < order@.len() && (#[trigger] order@[k]).bone == p;
                            assert(posed_before(order@, i + 1, p));
                        }
                        assert(current[p].transform == before[p].transform);
                    }
                }
                assert forall|k: int| 0 <= k < i + 1 implies #[trigger] link_posed(
                    before,
                    after,
                    order@,
                    k,
                    *pose,
                ) by {
                    let at = order@[k].bone as int;
                    assert(after[at] == self.bones@[at]@);
                    if k < i {
                        assert(link_posed(before, current, order@, k, *pose));
                        assert(order@[k].bone != order@[i as int].bone);
                        assert(after[at].transform == current[at].transform);
                        match order@[k].parent {
                            Some(parent) => {
                                if posed_before(order@, k, parent as int) {
                                    let j = choose|j: int|
                                        0 <= j < k && j < order@.len() && (#[trigger] order@[j]).bone
                                            == parent;
                                    assert(order@[j].bone != order@[i as int].bone);
                                    assert(after[parent as int] == self.bones@[parent as int]@);
                                    assert(after[parent as int].transform
                                        == current[parent as int].transform);
                                }
                            },
                            None => {},
                        }
                        assert(parent_transform(before, after, order@, k) == parent_transform(
                            before,
                            current,
                            order@,
                            k,
                        ));
                    } else {
                        assert(current[at].joint == before[at].joint);
                        match link.parent {
                            Some(parent) => {
                                assert(after[parent as int] == self.bones@[parent as int]@);
                                if posed_before(order@, i as int, parent as int) {
                                    let j = choose|j: int|
                                        0 <= j < i && j < order@.len() && (#[trigger] order@[j]).bone
                                            == parent;
                                    assert(order@[j].bone != order@[i as int].bone);
                                    assert(after[parent as int].transform
                                        == current[parent as int].transform);
                                } else {
                                    assert(current[parent as int].transform
                                        == before[parent as int].transform);
                                }
                            },
                            None => {},
                        }
                        assert(parent_transform(before, after, order@, k) == given);
                    }
                }
            }
            i += 1;
        }
        proof {
            let after = bone_views(self.bones@);
            assert(after.len() == before.len());
            assert forall|p: int| 0 <= p < before.len() && !posed(order@, p) implies (
            #[trigger] after[p]).transform == before[p].transform by {
                assert(!posed_before(order@, order@.len() as int, p));
            }
        }
    }

    /// Poses the bone with the index `bone_index` and, depth first, the bones
    /// below it. The bone itself is posed on the bone with the index
    /// `parent_index`, and on nothing where that is `None` or the index of no
    /// bone. Nothing happens where `bone_index` is the index of no bone.
    pub fn update_transforms<F: Fn(Option<Transform>, Joint) -> Transform>(
        &mut self,
        bone_index: i32,
        parent_index: Option<i32>,
        pose: &F,
    )
        requires
            old(self).indexes_fit(),
            forall|t: Option<Transform>, j: Joint| pose.requires((t, j)),
        ensures
            posed_by(
                bone_views(old(self).bones@),
                bone_views(final(self).bones@),
                branch_order(
                    bone_views(old(self).bones@),
                    old(self).indexes@,
                    bone_index,
                    parent_index,
                ),
                *pose,
            ),
            final(self).indexes == old(self).indexes,
            final(self).root_bone_index == old(self).root_bone_index,
            final(self).indexes_fit(),
    {
        let order = self.branch_order(bone_index, parent_index);
        proof {
            lemma_walk_fits(
                bone_views(self.bones@),
                self.indexes@,
                branch_links(self.indexes@, bone_index, parent_index),
            );
        }
        self.pose_links(&order, pose);
    }

    /// Poses the whole skeleton from its joints: the root, then every bone
    /// whose parent index no bone carries, each with the bones below it.
    pub fn compute_t_pose_transform<F: Fn(Option<Transform>, Joint) -> Transform>(
        &mut self,
        pose: &F,
    )
        requires
            old(self).indexes_fit(),
            forall|t: Option<Transform>, j: Joint| pose.requires((t, j)),
        ensures
            posed_by(
                bone_views(old(self).bones@),
                bone_views(final(self).bones@),
                pose_order(
                    bone_views(old(self).bones@),
                    old(self).indexes@,
                    old(self).root_bone_index,
                ),
                *pose,
            ),
            final(self).indexes == old(self).indexes,
            final(self).root_bone_index == old(self).root_bone_index,
            final(self).indexes_fit(),
    {
        let order = self.pose_order();
        proof {
            let bones = bone_views(self.bones@);
            let stack = top_links(bones, self.indexes@, self.root_bone_index);
            lemma_top_links(bones, self.indexes@, self.root_bone_index);
            lemma_walk_fits(bones, self.indexes@, stack);
        }
        self.pose_links(&order, pose);
    }
}

/// Whether the link leads from the bone at place `at` to one of the children
/// that its child list names.
pub open spec fn is_child_link(
    bones: Seq<BoneView>,
    indexes: Map<i32, usize>,
    at: int,
    link: Link,
) -> bool {
    0 <= at < bones.len() && child_links(bones[at].childs, indexes, at as usize).contains(link)
}

/// Whether link `k` of a walk has a cause: it waited on the stack, or it leads
/// from a bone that the walk has reached before to one of its children.
pub open spec fn has_cause(
    bones: Seq<BoneView>,
    indexes: Map<i32, usize>,
    stack: Seq<Link>,
    order: Seq<Link>,
    k: int,
) -> bool {
    stack.contains(order[k]) || exists|j: int|
        0 <= j < k && is_child_link(bones, indexes, order[j].bone as int, order[k])
}

/// Every link to a child leads from the bone to the place of an index in its
/// child list.
pub proof fn lemma_child_links(childs: Seq<i32>, indexes: Map<i32, usize>, at: usize)
    ensures
        forall|k: int|
            0 <= k < child_links(childs, indexes, at).len() ==> {
                let link = #[trigger] child_links(childs, indexes, at)[k];
                &&& link.parent == Some(at)
                &&& exists|c: int|
                    0 <= c < childs.len() && indexes.contains_key(childs[c]) && indexes[childs[c]]
                        == link.bone
            },
        forall|c: int|
            0 <= c < childs.len() && indexes.contains_key(#[trigger] childs[c]) ==> child_links(
                childs,
                indexes,
                at,
            ).contains(Link { bone: indexes[childs[c]], parent: Some(at) }),
    decreases childs.len(),
{
    let links = child_links(childs, indexes, at);
    if childs.len() > 0 {
        let tail = childs.drop_first();
        let rest = child_links(tail, indexes, at);
        lemma_child_links(tail, indexes, at);
        assert forall|k: int| 0 <= k < links.len() implies {
            let link = #[trigger] links[k];
            &&& link.parent == Some(at)
            &&& exists|c: int|
                0 <= c < childs.len() && indexes.contains_key(childs[c]) && indexes[childs[c]]
                    == link.bone
        } by {
            if k < rest.len() {
                assert(links[k] == rest[k]);
                let c = choose|c: int|
                    0 <= c < tail.len() && indexes.contains_key(tail[c]) && indexes[tail[c]]
                        == rest[k].bone;
                assert(childs[c + 1] == tail[c]);
            } else {
                assert(indexes[childs[0]] == links[k].bone);
            }
        }
        assert forall|c: int|
            0 <= c < childs.len() && indexes.contains_key(#[trigger] childs[c]) implies links.contains(
            Link { bone: indexes[childs[c]], parent: Some(at) },
        ) by {
            let wanted = Link { bone: indexes[childs[c]], parent: Some(at) };
            if c == 0 {
                assert(links[links.len() - 1] == wanted);
            } else {
                assert(tail[c - 1] == childs[c]);
                let k = choose|k: int| 0 <= k < rest.len() && rest[k] == wanted;
                assert(links[k] == wanted);
            }
        }
    }
}

/// What holds of every walk: it leads to unmarked places of the list only and
/// to none of them twice, and each of its links either waited on the stack or
/// leads from a bone that the walk has reached before to one of its children.
pub proof fn lemma_walk(
    bones: Seq<BoneView>,
    indexes: Map<i32, usize>,
    stack: Seq<Link>,
    marks: Seq<bool>,
)
    requires
        marks.len() == bones.len(),
    ensures
        forall|k: int|
            0 <= k < walk(bones, indexes, stack, marks).len() ==> {
                let link = #[trigger] walk(bones, indexes, stack, marks)[k];
                link.bone < bones.len() && !marks[link.bone as int]
            },
        forall|j: int, k: int|
            0 <= j < k < walk(bones, indexes, stack, marks).len() ==> (#[trigger] walk(
                bones,
                indexes,
                stack,
                marks,
            )[j]).bone != (#[trigger] walk(bones, indexes, stack, marks)[k]).bone,
        forall|k: int|
            0 <= k < walk(bones, indexes, stack, marks).len() ==> #[trigger] has_cause(
                bones,
                indexes,
                stack,
                walk(bones, indexes, stack, marks),
                k,
            ),
    decreases unmarked(marks), stack.len(),
{
    let order = walk(bones, indexes, stack, marks);
    if stack.len() > 0 {
        let link = stack.last();
        let at = link.bone as int;
        if at < marks.len() && at < bones.len() && !marks[at] {
            lemma_marking(marks, at);
            let links = child_links(bones[at].childs, indexes, link.bone);
            let next_stack = stack.drop_last() + links;
            let next_marks = marks.update(at, true);
            let rest = walk(bones, indexes, next_stack, next_marks);
            lemma_walk(bones, indexes, next_stack, next_marks);
            assert(order == seq![link] + rest);
            assert(order[0] == link);
            assert forall|k: int| 0 <= k < order.len() implies {
                let found = #[trigger] order[k];
                found.bone < bones.len() && !marks[found.bone as int]
            } by {
                if k > 0 {
                    assert(order[k] == rest[k - 1]);
                }
            }
            assert forall|j: int, k: int| 0 <= j < k < order.len() implies (#[trigger] order[j]).bone
                != (#[trigger] order[k]).bone by {
                assert(order[k] == rest[k - 1]);
                if j > 0 {
                    assert(order[j] == rest[j - 1]);
                }
            }
            assert forall|k: int| 0 <= k < order.len() implies #[trigger] has_cause(
                bones,
                indexes,
                stack,
                order,
                k,
            ) by {
                if k == 0 {
                    assert(stack[stack.len() - 1] == order[0]);
                } else {
                    let found = rest[k - 1];
                    assert(order[k] == found);
                    assert(has_cause(bones, indexes, next_stack, rest, k - 1));
                    if next_stack.contains(found) {
                        let i = choose|i: int| 0 <= i < next_stack.len() && next_stack[i] == found;
                        if i < stack.len() - 1 {
                            assert(stack[i] == found);
                        } else {
                            assert(links[i - (stack.len() - 1)] == found);
                            assert(is_child_link(bones, indexes, order[0].bone as int, order[k]));
                        }
                    } else {
                        let j = choose|j: int|
                            0 <= j < k - 1 && is_child_link(
                                bones,
                                indexes,
                                rest[j].bone as int,
                                rest[k - 1],
                            );
                        assert(order[j + 1] == rest[j]);
                        assert(is_child_link(bones, indexes, order[j + 1].bone as int, order[k]));
                    }
                }
            }
        } else {
            let next_stack = stack.drop_last();
            lemma_walk(bones, indexes, next_stack, marks);
            assert forall|k: int| 0 <= k < order.len() implies #[trigger] has_cause(
                bones,
                indexes,
                stack,
                order,
                k,
            ) by {
                assert(has_cause(bones, indexes, next_stack, order, k));
                if next_stack.contains(order[k]) {
                    let i = choose|i: int| 0 <= i < next_stack.len() && next_stack[i] == order[k];
                    assert(stack[i] == order[k]);
                }
            }
        }
    }
}

/// A walk fits the bones it was made for, where the stack it began with names
/// places of the list as parents only.
pub proof fn lemma_walk_fits(bones: Seq<BoneView>, indexes: Map<i32, usize>, stack: Seq<Link>)
    requires
        forall|i: int|
            0 <= i < stack.len() ==> ((#[trigger] stack[i]).parent matches Some(parent) ==> parent
                < bones.len()),
    ensures
        fits(walk(bones, indexes, stack, no_marks(bones.len())), bones.len()),
{
    let order = walk(bones, indexes, stack, no_marks(bones.len()));
    lemma_walk(bones, indexes, stack, no_marks(bones.len()));
    assert forall|k: int| 0 <= k < order.len() implies ((#[trigger] order[k]).parent matches Some(
        parent,
    ) ==> parent < bones.len()) by {
        assert(has_cause(bones, indexes, stack, order, k));
        if stack.contains(order[k]) {
            let i = choose|i: int| 0 <= i < stack.len() && stack[i] == order[k];
            assert(stack[i].parent == order[k].parent);
        } else {
            let j = choose|j: int|
                0 <= j < k && is_child_link(bones, indexes, order[j].bone as int, order[k]);
            let links = child_links(bones[order[j].bone as int].childs, indexes, order[j].bone);
            lemma_child_links(bones[order[j].bone as int].childs, indexes, order[j].bone);
            let i = choose|i: int| 0 <= i < links.len() && links[i] == order[k];
            assert(links[i].parent == Some(order[j].bone));
        }
    }
}

/// The walk over the whole skeleton begins at links without a parent, one for
/// each top bone.
pub proof fn lemma_top_links(bones: Seq<BoneView>, indexes: Map<i32, usize>, root: i32)
    ensures
        forall|i: int|
            0 <= i < top_links(bones, indexes, root).len() ==> (#[trigger] top_links(
                bones,
                indexes,
                root,
            )[i]).parent is None,
        forall|p: int|
            0 <= p < bones.len() && is_top(bones, indexes, root, p) ==> top_links(
                bones,
                indexes,
                root,
            ).contains(Link { bone: p as usize, parent: None }),
{
    lemma_orphan_links(bones, indexes, 0);
    let orphans = orphan_links(bones, indexes, 0);
    let tops = top_links(bones, indexes, root);
    assert forall|i: int| 0 <= i < tops.len() implies (#[trigger] tops[i]).parent is None by {
        if i < orphans.len() {
            assert(tops[i] == orphans[i]);
        }
    }
    assert forall|p: int| 0 <= p < bones.len() && is_top(bones, indexes, root, p) implies tops.contains(
        Link { bone: p as usize, parent: None },
    ) by {
        let wanted = Link { bone: p as usize, parent: None };
        if !indexes.contains_key(bones[p].parent) {
            assert(orphans.contains(wanted));
            let i = choose|i: int| 0 <= i < orphans.len() && orphans[i] == wanted;
            assert(tops[i] == wanted);
        } else {
            assert(tops[tops.len() - 1] == wanted);
        }
    }
}

proof fn lemma_orphan_links(bones: Seq<BoneView>, indexes: Map<i32, usize>, from: int)
    requires
        0 <= from,
    ensures
        forall|i: int|
            0 <= i < orphan_links(bones, indexes, from).len() ==> (#[trigger] orphan_links(
                bones,
                indexes,
                from,
            )[i]).parent is None,
        forall|p: int|
            from <= p < bones.len() && !indexes.contains_key(bones[p].parent) ==> orphan_links(
                bones,
                indexes,
                from,
            ).contains(Link { bone: p as usize, parent: None }),
    decreases bones.len() - from,
{
    if from < bones.len() {
        lemma_orphan_links(bones, indexes, from + 1);
        let rest = orphan_links(bones, indexes, from + 1);
        let links = orphan_links(bones, indexes, from);
        assert forall|i: int| 0 <= i < links.len() implies (#[trigger] links[i]).parent is None by {
            if i < rest.len() {
                assert(links[i] == rest[i]);
            }
        }
        assert forall|p: int|
            from <= p < bones.len() && !indexes.contains_key(bones[p].parent) implies links.contains(
            Link { bone: p as usize, parent: None },
        ) by {
            let wanted = Link { bone: p as usize, parent: None };
            if p == from {
                assert(links[links.len() - 1] == wanted);
            } else {
                assert(rest.contains(wanted));
                let i = choose|i: int| 0 <= i < rest.len() && rest[i] == wanted;
                assert(links[i] == wanted);
            }
        }
    }
}

/// Whether place `at` is marked once the walk `order` is done.
pub open spec fn marked_after(marks: Seq<bool>, order: Seq<Link>, at: int) -> bool {
    marks[at] || posed(order, at)
}

/// Whether a link to the place waits on the stack.
pub open spec fn waits(stack: Seq<Link>, at: usize) -> bool {
    exists|i: int| 0 <= i < stack.len() && (#[trigger] stack[i]).bone == at
}

/// Whether nothing below a marked bone has been forgotten: each child of a
/// marked bone is marked itself or waits on the stack.
pub open spec fn nothing_forgotten(
    bones: Seq<BoneView>,
    indexes: Map<i32, usize>,
    stack: Seq<Link>,
    marks: Seq<bool>,
) -> bool {
    forall|q: int, link: Link|
        0 <= q < bones.len() && marks[q] && #[trigger] is_child_link(bones, indexes, q, link)
            && link.bone < bones.len() ==> marks[link.bone as int] || waits(stack, link.bone)
}

/// Where nothing was forgotten before a walk, the walk leaves nothing out:
/// afterwards every place that waited on the stack is marked, and so is every
/// child of a marked bone.
pub proof fn lemma_walk_closed(
    bones: Seq<BoneView>,
    indexes: Map<i32, usize>,
    stack: Seq<Link>,
    marks: Seq<bool>,
)
    requires
        marks.len() == bones.len(),
        nothing_forgotten(bones, indexes, stack, marks),
    ensures
        forall|i: int|
            0 <= i < stack.len() && (#[trigger] stack[i]).bone < bones.len() ==> marked_after(
                marks,
                walk(bones, indexes, stack, marks),
                stack[i].bone as int,
            ),
        forall|q: int, link: Link|
            0 <= q < bones.len() && marked_after(marks, walk(bones, indexes, stack, marks), q)
                && #[trigger] is_child_link(bones, indexes, q, link) && link.bone < bones.len()
                ==> marked_after(marks, walk(bones, indexes, stack, marks), link.bone as int),
    decreases unmarked(marks), stack.len(),
{
    let order = walk(bones, indexes, stack, marks);
    let n = bones.len() as int;
    if stack.len() == 0 {
        assert forall|q: int, link: Link|
            0 <= q < n && marked_after(marks, order, q) && #[trigger] is_child_link(
                bones,
                indexes,
                q,
                link,
            ) && link.bone < n implies marked_after(marks, order, link.bone as int) by {
            assert(!waits(stack, link.bone));
        }
    } else {
        let top = stack.last();
        let at = top.bone as int;
        let below = stack.drop_last();
        if at < marks.len() && at < bones.len() && !marks[at] {
            lemma_marking(marks, at);
            let links = child_links(bones[at].childs, indexes, top.bone);
            let next_stack = below + links;
            let next_marks = marks.update(at, true);
            let rest = walk(bones, indexes, next_stack, next_marks);
            assert(order == seq![top] + rest);
            assert(order[0] == top);
            assert forall|q: int, link: Link|
                0 <= q < n && next_marks[q] && #[trigger] is_child_link(bones, indexes, q, link)
                    && link.bone < n implies next_marks[link.bone as int] || waits(
                next_stack,
                link.bone,
            ) by {
                if q == at {
                    let k = choose|k: int| 0 <= k < links.len() && links[k] == link;
                    assert(next_stack[below.len() + k] == link);
                } else if !marks[link.bone as int] {
                    assert(waits(stack, link.bone));
                    let i = choose|i: int| 0 <= i < stack.len() && (#[trigger] stack[i]).bone
                        == link.bone;
                    if i < below.len() {
                        assert(next_stack[i] == stack[i]);
                    }
                }
            }
            lemma_walk_closed(bones, indexes, next_stack, next_marks);
            assert forall|p: int| 0 <= p < n implies (marked_after(next_marks, rest, p)
                <==> marked_after(marks, order, p)) by {
                if posed(rest, p) {
                    let k = choose|k: int|
                        0 <= k < rest.len() && k < rest.len() && (#[trigger] rest[k]).bone == p;
                    assert(order[k + 1] == rest[k]);
                }
                if posed(order, p) {
                    let k = choose|k: int|
                        0 <= k < order.len() && k < order.len() && (#[trigger] order[k]).bone == p;
                    if k > 0 {
                        assert(rest[k - 1] == order[k]);
                    }
                }
            }
            assert forall|i: int|
                0 <= i < stack.len() && (#[trigger] stack[i]).bone < n implies marked_after(
                marks,
                order,
                stack[i].bone as int,
            ) by {
                if i < below.len() {
                    assert(next_stack[i] == stack[i]);
                    assert(marked_after(next_marks, rest, next_stack[i].bone as int));
                }
            }
            assert forall|q: int, link: Link|
                0 <= q < n && marked_after(marks, order, q) && #[trigger] is_child_link(
                    bones,
                    indexes,
                    q,
                    link,
                ) && link.bone < n implies marked_after(marks, order, link.bone as int) by {
                assert(marked_after(next_marks, rest, q));
                assert(marked_after(next_marks, rest, link.bone as int));
            }
        } else {
            assert forall|q: int, link: Link|
                0 <= q < n && marks[q] && #[trigger] is_child_link(bones, indexes, q, link)
                    && link.bone < n implies marks[link.bone as int] || waits(below, link.bone) by {
                if !marks[link.bone as int] {
                    assert(waits(stack, link.bone));
                    let i = choose|i: int| 0 <= i < stack.len() && (#[trigger] stack[i]).bone
                        == link.bone;
                    assert(below[i] == stack[i]);
                }
            }
            lemma_walk_closed(bones, indexes, below, marks);
            assert forall|i: int|
                0 <= i < stack.len() && (#[trigger] stack[i]).bone < n implies marked_after(
                marks,
                order,
                stack[i].bone as int,
            ) by {
                if i < below.len() {
                    assert(below[i] == stack[i]);
                }
            }
        }
    }
}

/// Whether the bone at place `at` hangs, at most `fuel` parents up, on a bone
/// at which the walk over the whole skeleton begins.
pub open spec fn reaches_top(
    bones: Seq<BoneView>,
    indexes: Map<i32, usize>,
    root: i32,
    at: int,
    fuel: nat,
) -> bool
    decreases fuel,
{
    0 <= at < bones.len() && (is_top(bones, indexes, root, at) || (fuel > 0 && reaches_top(
        bones,
        indexes,
        root,
        indexes[bones[at].parent] as int,
        (fuel - 1) as nat,
    )))
}

/// Whether the child lists agree with the parent indices: every bone whose
/// parent index the map holds is a child of the bone that the index leads to.
pub open spec fn children_listed(bones: Seq<BoneView>, indexes: Map<i32, usize>) -> bool {
    forall|c: int|
        0 <= c < bones.len() && indexes.contains_key((#[trigger] bones[c]).parent) ==> is_child_link(
            bones,
            indexes,
            indexes[bones[c].parent] as int,
            Link { bone: c as usize, parent: Some(indexes[bones[c].parent]) },
        )
}

/// The walk over the whole skeleton leads to every bone that hangs on a top
/// bone, where the child lists agree with the parent indices.
pub proof fn lemma_pose_order_reaches(
    bones: Seq<BoneView>,
    indexes: Map<i32, usize>,
    root: i32,
    at: int,
    fuel: nat,
)
    requires
        bones.len() <= usize::MAX,
        children_listed(bones, indexes),
        reaches_top(bones, indexes, root, at, fuel),
    ensures
        posed(pose_order(bones, indexes, root), at),
    decreases fuel,
{
    let marks = no_marks(bones.len());
    let stack = top_links(bones, indexes, root);
    let order = pose_order(bones, indexes, root);
    lemma_top_links(bones, indexes, root);
    lemma_walk_closed(bones, indexes, stack, marks);
    if is_top(bones, indexes, root, at) {
        let wanted = Link { bone: at as usize, parent: None };
        let i = choose|i: int| 0 <= i < stack.len() && stack[i] == wanted;
        assert(stack[i].bone == at);
        assert(marked_after(marks, order, stack[i].bone as int));
    } else {
        let above = indexes[bones[at].parent] as int;
        lemma_pose_order_reaches(bones, indexes, root, above, (fuel - 1) as nat);
        let link = Link { bone: at as usize, parent: Some(indexes[bones[at].parent]) };
        assert(is_child_link(bones, indexes, above, link));
        assert(marked_after(marks, order, above));
        assert(marked_after(marks, order, link.bone as int));
    }
}

/// A skeleton made of bones with distinct indices and empty child lists has
/// child lists that agree with the parent indices.
pub proof fn lemma_assembled_children_listed(bones: Seq<BoneView>)
    requires
        bones.len() <= usize::MAX,
        distinct_indices(bones),
        forall|p: int| 0 <= p < bones.len() ==> (#[trigger] bones[p]).childs.len() == 0,
    ensures
        children_listed(assembled(bones).bones, index_map(bones)),
{
    let made = assembled(bones).bones;
    let indexes = index_map(bones);
    lemma_assembled_children(bones);
    lemma_index_map(bones);
    assert forall|c: int|
        0 <= c < made.len() && indexes.contains_key((#[trigger] made[c]).parent) implies is_child_link(
        made,
        indexes,
        indexes[made[c].parent] as int,
        Link { bone: c as usize, parent: Some(indexes[made[c].parent]) },
    ) by {
        let above = indexes[made[c].parent];
        assert(made[c].parent == bones[c].parent);
        assert(hangs_below(bones, indexes, c, above as int));
        assert(assembled(bones).bones[above as int].childs.contains(bones[c].index));
        let childs = made[above as int].childs;
        let k = choose|k: int| 0 <= k < childs.len() && childs[k] == bones[c].index;
        lemma_child_links(childs, indexes, above);
        assert(indexes.contains_key(childs[k]));
        assert(indexes[childs[k]] == c);
    }
}

/// In a skeleton made of bones with distinct indices, posing the whole
/// skeleton gives a transform to every bone that hangs on a top bone: on the
/// root, or on a bone whose parent index no bone carries.
pub proof fn lemma_rest_pose_reaches<F: Fn(Option<Transform>, Joint) -> Transform>(
    bones: Seq<BoneView>,
    after: Seq<BoneView>,
    at: int,
    pose: F,
)
    requires
        bones.len() <= usize::MAX,
        distinct_indices(bones),
        forall|p: int| 0 <= p < bones.len() ==> (#[trigger] bones[p]).childs.len() == 0,
        reaches_top(
            assembled(bones).bones,
            index_map(bones),
            assembled(bones).root_bone_index,
            at,
            bones.len(),
        ),
        posed_by(
            assembled(bones).bones,
            after,
            pose_order(
                assembled(bones).bones,
                index_map(bones),
                assembled(bones).root_bone_index,
            ),
            pose,
        ),
    ensures
        after[at].transform is Some,
{
    let made = assembled(bones);
    let order = pose_order(made.bones, index_map(bones), made.root_bone_index);
    lemma_assembled_children_listed(bones);
    lemma_pose_order_reaches(made.bones, index_map(bones), made.root_bone_index, at, bones.len());
    let k = choose|k: int| 0 <= k < order.len() && k < order.len() && (#[trigger] order[k]).bone
        == at;
    assert(link_posed(made.bones, after, order, k, pose));
}

/// In the skeleton that a file describes, posing the whole skeleton gives a
/// transform to every bone that hangs on a top bone: on the root, or on a bone
/// whose parent index no bone carries. Only a bone that hangs on a ring of
/// bones is left without.
pub proof fn lemma_parsed_rest_pose<F: Fn(Option<Transform>, Joint) -> Transform>(
    lines: Seq<Seq<char>>,
    numbers: Seq<Seq<Option<Scalar>>>,
    after: Seq<BoneView>,
    at: int,
    pose: F,
)
    requires
        lines.len() <= usize::MAX,
        smd_model(lines, numbers) is Some,
        ({
            let model = smd_model(lines, numbers)->0;
            &&& reaches_top(
                model.bones,
                model.indexes,
                model.root_bone_index,
                at,
                model.bones.len(),
            )
            &&& posed_by(
                model.bones,
                after,
                pose_order(model.bones, model.indexes, model.root_bone_index),
                pose,
            )
        }),
    ensures
        after[at].transform is Some,
{
    let bones = smd_scan(lines, numbers, lines.len() as int)->0.bones;
    lemma_smd_scan_bare(lines, numbers, lines.len() as int);
    lemma_rest_pose_reaches(bones, after, at, pose);
}

} // verus!
