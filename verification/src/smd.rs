//! The parser of skeleton files.
//!
//! A skeleton file is read line by line. Its bone section lists the bones as
//! `index name parent`, and its joint section gives the rest joint of a bone as
//! `index tx ty tz rx ry rz`.

use crate::bone::{
    assembled, bone_views, count_places, distinct_indices, hangs_below, index_map,
    lemma_assembled_children, lemma_index_map, Bone, BoneView, Joint, Model, ModelView,
    ParseBoneError, ParseJointError, ParseSMDError, root_of, NO_PARENT,
};
use crate::numbers::{decode_lines, number, number_at, number_rows, row_at, table_decoded};
use crate::scalar::Scalar;
use crate::text::{
    chars_of, contains, fields, has, integer_of, lines_of, parse_integer, remove_all, split,
    string_of, texts, trim, trimmed, without,
};
use vstd::prelude::*;

verus! {

/// The bone that three fields `index name parent` describe. The name loses
/// its double quotes and the white space around it.
pub open spec fn bone_of_fields(f: Seq<Seq<char>>) -> Option<BoneView> {
    if f.len() == 3 && integer_of(f[0]) is Some && integer_of(f[2]) is Some {
        Some(
            BoneView::fresh(
                integer_of(f[0])->0,
                integer_of(f[2])->0,
                trimmed(without(f[1], seq!['"'])),
            ),
        )
    } else {
        None
    }
}

/// The bone that a line describes: its fields are the pieces between single
/// spaces.
pub open spec fn bone_of(text: Seq<char>) -> Option<BoneView> {
    bone_of_fields(split(text, ' '))
}

/// The joint that seven fields `index tx ty tz rx ry rz` describe, and the
/// index of the bone it belongs to. `numbers` holds, field by field, the number
/// that each field denotes.
pub open spec fn joint_of_fields(f: Seq<Seq<char>>, numbers: Seq<Option<Scalar>>) -> Option<
    (i32, Joint),
> {
    if f.len() == 7 && integer_of(f[0]) is Some && (forall|k: int|
        1 <= k < 7 ==> number_at(numbers, k) is Some) {
        Some(
            (
                integer_of(f[0])->0,
                Joint {
                    tx: number_at(numbers, 1)->0,
                    ty: number_at(numbers, 2)->0,
                    tz: number_at(numbers, 3)->0,
                    rx: number_at(numbers, 4)->0,
                    ry: number_at(numbers, 5)->0,
                    rz: number_at(numbers, 6)->0,
                },
            ),
        )
    } else {
        None
    }
}

/// The joint that a line describes: its fields are the pieces between single
/// spaces.
pub open spec fn joint_of(text: Seq<char>, numbers: Seq<Option<Scalar>>) -> Option<(i32, Joint)> {
    joint_of_fields(split(text, ' '), numbers)
}

/// The place of the first bone with the given index, or the length of the list
/// where no bone has it.
pub open spec fn first_place(bones: Seq<BoneView>, index: i32) -> int
    decreases bones.len(),
{
    if bones.len() == 0 || bones[0].index == index {
        0
    } else {
        1 + first_place(bones.drop_first(), index)
    }
}

/// The bones after a joint line: the first bone with the given index takes the
/// joint, and nothing changes where no bone has that index.
pub open spec fn with_joint(bones: Seq<BoneView>, index: i32, joint: Joint) -> Seq<BoneView> {
    let at = first_place(bones, index);
    if 0 <= at < bones.len() {
        bones.update(at, BoneView { joint, ..bones[at] })
    } else {
        bones
    }
}

/// What the parser knows after some lines: whether the bone section and the
/// joint section have begun, and the bones read so far.
pub struct SmdState {
    pub nodes: bool,
    pub skeleton: bool,
    pub bones: Seq<BoneView>,
}

/// The state after one more line, or none where the line is malformed. The
/// line is taken without the white space around it. A line that holds `nodes`
/// opens the bone section and one that holds `skeleton` the joint section;
/// neither section ever closes. In the bone section a line of three fields is a
/// bone, in the joint section a line of seven fields is a joint, and any other
/// line is passed over.
pub open spec fn smd_step(state: SmdState, line: Seq<char>, numbers: Seq<Option<Scalar>>) -> Option<
    SmdState,
> {
    let text = trimmed(line);
    let nodes = state.nodes || contains(text, "nodes"@);
    let skeleton = state.skeleton || contains(text, "skeleton"@);
    let count = split(text, ' ').len();
    if nodes && count == 3 {
        match bone_of(text) {
            Some(bone) => Some(SmdState { nodes, skeleton, bones: state.bones.push(bone) }),
            None => None,
        }
    } else if skeleton && count == 7 {
        match joint_of(text, numbers) {
            Some((index, joint)) => Some(
                SmdState { nodes, skeleton, bones: with_joint(state.bones, index, joint) },
            ),
            None => None,
        }
    } else {
        Some(SmdState { nodes, skeleton, bones: state.bones })
    }
}

/// The state after the first `n` lines, or none where one of them is
/// malformed.
pub open spec fn smd_scan(
    lines: Seq<Seq<char>>,
    numbers: Seq<Seq<Option<Scalar>>>,
    n: int,
) -> Option<SmdState>
    decreases n,
{
    if n <= 0 {
        Some(SmdState { nodes: false, skeleton: false, bones: Seq::empty() })
    } else {
        match smd_scan(lines, numbers, n - 1) {
            Some(state) => smd_step(state, lines[n - 1], row_at(numbers, n - 1)),
            None => None,
        }
    }
}

/// The skeleton that a file describes, or none where a line is malformed or
/// two bones share an index.
pub open spec fn smd_model(lines: Seq<Seq<char>>, numbers: Seq<Seq<Option<Scalar>>>) -> Option<
    ModelView,
> {
    match smd_scan(lines, numbers, lines.len() as int) {
        Some(state) => if distinct_indices(state.bones) {
            Some(assembled(state.bones))
        } else {
            None
        },
        None => None,
    }
}

impl Joint {
    /// Reads a joint line. `numbers` holds, field by field, the number that
    /// each field of the line denotes.
    pub fn parse(
        s: &str,
        numbers: &Vec<Option<Scalar>>,
    ) -> (r: Result<(i32, Joint), ParseJointError>)
        ensures
            r == match joint_of(s@, numbers@) {
                Some(found) => Ok::<(i32, Joint), ParseJointError>(found),
                None => Err(ParseJointError),
            },
    {
        let chars = chars_of(s);
        let f = fields(&chars, ' ');
        match Joint::from_fields(&f, numbers) {
            Some(found) => Ok(found),
            None => Err(ParseJointError),
        }
    }

    fn from_fields(f: &Vec<Vec<char>>, numbers: &Vec<Option<Scalar>>) -> (r: Option<(i32, Joint)>)
        ensures
            r == joint_of_fields(texts(f@), numbers@),
    {
        if f.len() != 7 {
            return None;
        }
        assert(texts(f@)[0] == f@[0]@);
        let index = match parse_integer(&f[0]) {
            Some(index) => index,
            None => {
                return None;
            },
        };
        let tx = number(numbers, 1);
        let ty = number(numbers, 2);
        let tz = number(numbers, 3);
        let rx = number(numbers, 4);
        let ry = number(numbers, 5);
        let rz = number(numbers, 6);
        match (tx, ty, tz, rx, ry, rz) {
            (Some(tx), Some(ty), Some(tz), Some(rx), Some(ry), Some(rz)) => Some(
                (index, Joint { tx, ty, tz, rx, ry, rz }),
            ),
            _ => None,
        }
    }
}

impl Bone {
    /// Reads a bone line.
    pub fn from_str(s: &str) -> (r: Result<Bone, ParseBoneError>)
        ensures
            match r {
                Ok(bone) => bone_of(s@) == Some(bone@),
                Err(_) => bone_of(s@) is None,
            },
    {
        let chars = chars_of(s);
        let f = fields(&chars, ' ');
        match Bone::from_fields(&f) {
            Some(bone) => Ok(bone),
            None => Err(ParseBoneError),
        }
    }

    fn from_fields(f: &Vec<Vec<char>>) -> (r: Option<Bone>)
        ensures
            match r {
                Some(bone) => bone_of_fields(texts(f@)) == Some(bone@),
                None => bone_of_fields(texts(f@)) is None,
            },
    {
        if f.len() != 3 {
            return None;
        }
        assert(texts(f@)[0] == f@[0]@);
        assert(texts(f@)[1] == f@[1]@);
        assert(texts(f@)[2] == f@[2]@);
        let index = match parse_integer(&f[0]) {
            Some(index) => index,
            None => {
                return None;
            },
        };
        let parent = match parse_integer(&f[2]) {
            Some(parent) => parent,
            None => {
                return None;
            },
        };
        let mut quote: Vec<char> = Vec::new();
        quote.push('"');
        assert(quote@ =~= seq!['"']);
        let name = trim(&remove_all(&f[1], &quote));
        Some(Bone::new(index, parent, string_of(&name)))
    }
}

/// The numbers of a skeleton file, as [`Model::from_smd`] takes them: the
/// kernel `decode` is asked for every field between single spaces of every
/// trimmed line.
pub fn smd_numbers<D: Fn(&str) -> Option<Scalar>>(lines: &Vec<String>, decode: &D) -> (r: Vec<
    Vec<Option<Scalar>>,
>)
    requires
        forall|s: &str| decode.requires((s,)),
    ensures
        table_decoded(*decode, lines_of(lines@), ' ', true, number_rows(r@)),
{
    decode_lines(lines, ' ', true, decode)
}

impl Model {
    /// Reads a skeleton file. `numbers` holds, line by line and field by
    /// field, the number that each field between single spaces of the trimmed
    /// line denotes. The file is refused where a bone line or a joint line is
    /// malformed, and where two bones share an index.
    pub fn from_smd(lines: &Vec<String>, numbers: &Vec<Vec<Option<Scalar>>>) -> (r: Result<
        Model,
        ParseSMDError,
    >)
        ensures
            match r {
                Ok(model) => smd_model(lines_of(lines@), number_rows(numbers@)) == Some(model@),
                Err(_) => smd_model(lines_of(lines@), number_rows(numbers@)) is None,
            },
            r is Ok ==> r->Ok_0.indexes_fit(),
    {
        let ghost texts_in = lines_of(lines@);
        let ghost rows_in = number_rows(numbers@);
        let nodes_word = chars_of("nodes");
        let skeleton_word = chars_of("skeleton");
        let no_numbers: Vec<Option<Scalar>> = Vec::new();
        let mut nodes_flag = false;
        let mut skeleton_flag = false;
        let mut bones: Vec<Bone> = Vec::new();
        let mut i: usize = 0;
        assert(bone_views(bones@) =~= Seq::empty());
        while i < lines.len()
            invariant
                0 <= i <= lines.len(),
                texts_in == lines_of(lines@),
                rows_in == number_rows(numbers@),
                nodes_word@ == "nodes"@,
                skeleton_word@ == "skeleton"@,
                no_numbers@ == Seq::<Option<Scalar>>::empty(),
                smd_scan(texts_in, rows_in, i as int) == Some(
                    SmdState {
                        nodes: nodes_flag,
                        skeleton: skeleton_flag,
                        bones: bone_views(bones@),
                    },
                ),
            decreases lines.len() - i,
        {
            let chars = chars_of(lines[i].as_str());
            let text = trim(&chars);
            let row: &Vec<Option<Scalar>> = if i < numbers.len() {
                &numbers[i]
            } else {
                &no_numbers
            };
            assert(texts_in[i as int] == lines@[i as int]@);
            assert(row@ == row_at(rows_in, i as int));
            let ghost state = SmdState {
                nodes: nodes_flag,
                skeleton: skeleton_flag,
                bones: bone_views(bones@),
            };
            if has(&text, &nodes_word) {
                nodes_flag = true;
            }
            if has(&text, &skeleton_word) {
                skeleton_flag = true;
            }
            let f = fields(&text, ' ');
            assert(texts(f@).len() == f.len());
            if nodes_flag && f.len() == 3 {
                match Bone::from_fields(&f) {
                    Some(bone) => {
                        assert(bone_views(bones@.push(bone)) =~= bone_views(bones@).push(bone@));
                        bones.push(bone);
                    },
                    None => {
                        proof {
                            assert(smd_step(state, texts_in[i as int], row@) is None);
                            lemma_smd_scan_fails(texts_in, rows_in, i + 1, lines.len() as int);
                        }
                        return Err(ParseSMDError);
                    },
                }
            } else if skeleton_flag && f.len() == 7 {
                match Joint::from_fields(&f, row) {
                    Some((index, joint)) => {
                        let mut k: usize = 0;
                        while k < bones.len() && bones[k].index != index
                            invariant
                                0 <= k <= bones.len(),
                                forall|q: int|
                                    0 <= q < k ==> (#[trigger] bone_views(bones@)[q]).index
                                        != index,
                            decreases bones.len() - k,
                        {
                            assert(bone_views(bones@)[k as int] == bones@[k as int]@);
                            k += 1;
                        }
                        proof {
                            if k < bones.len() {
                                assert(bone_views(bones@)[k as int] == bones@[k as int]@);
                            }
                            lemma_first_place(bone_views(bones@), index, k as int);
                        }
                        if k < bones.len() {
                            let ghost before = bone_views(bones@);
                            bones[k].joint = joint;
                            proof {
                                let after = bone_views(bones@);
                                let wanted = with_joint(before, index, joint);
                                assert forall|q: int| 0 <= q < after.len() implies after[q]
                                    == wanted[q] by {
                                    assert(after[q] == bones@[q]@);
                                }
                                assert(after =~= wanted);
                            }
                        }
                    },
                    None => {
                        proof {
                            assert(smd_step(state, texts_in[i as int], row@) is None);
                            lemma_smd_scan_fails(texts_in, rows_in, i + 1, lines.len() as int);
                        }
                        return Err(ParseSMDError);
                    },
                }
            }
            i += 1;
        }
        let ghost read = bone_views(bones@);
        let indexes = Model::make_index(&bones);
        proof {
            assert(read.len() == bones.len());
            lemma_index_map(read);
        }
        if count_places(&indexes) != bones.len() {
            return Err(ParseSMDError);
        }
        let mut root_bone_index: i32 = 0;
        let mut k: usize = 0;
        while k < bones.len()
            invariant
                0 <= k <= bones.len(),
                read == bone_views(bones@),
                root_bone_index == root_of(read.subrange(0, k as int)),
            decreases bones.len() - k,
        {
            proof {
                let next = read.subrange(0, k + 1);
                assert(next.drop_last() =~= read.subrange(0, k as int));
                assert(next.last() == bones@[k as int]@);
            }
            if bones[k].parent == NO_PARENT {
                root_bone_index = bones[k].index;
            }
            k += 1;
        }
        assert(read.subrange(0, bones.len() as int) =~= read);
        let mut model = Model { bones, indexes, root_bone_index };
        model.compute_childs();
        assert(bone_views(model.bones@).len() == read.len());
        Ok(model)
    }
}

proof fn lemma_smd_scan_fails(
    lines: Seq<Seq<char>>,
    numbers: Seq<Seq<Option<Scalar>>>,
    n: int,
    m: int,
)
    requires
        0 <= n <= m,
        smd_scan(lines, numbers, n) is None,
    ensures
        smd_scan(lines, numbers, m) is None,
    decreases m - n,
{
    if n < m {
        lemma_smd_scan_fails(lines, numbers, n, m - 1);
    }
}

proof fn lemma_first_place(bones: Seq<BoneView>, index: i32, at: int)
    requires
        0 <= at <= bones.len(),
        forall|k: int| 0 <= k < at ==> (#[trigger] bones[k]).index != index,
        at < bones.len() ==> bones[at].index == index,
    ensures
        first_place(bones, index) == at,
    decreases at,
{
    if at > 0 {
        let rest = bones.drop_first();
        assert(bones[0].index != index);
        assert forall|k: int| 0 <= k < at - 1 implies (#[trigger] rest[k]).index != index by {
            assert(rest[k] == bones[k + 1]);
        }
        lemma_first_place(rest, index, at - 1);
    }
}

/// Whether a bone is as a bone line gives it: without children, transform and
/// tracks.
pub open spec fn is_bare(bone: BoneView) -> bool {
    bone.childs.len() == 0 && bone.transform is None && bone.tracks.len() == 0
}

/// The bones read from the first `n` lines of a skeleton file are bare, and
/// there are at most `n` of them.
pub proof fn lemma_smd_scan_bare(lines: Seq<Seq<char>>, numbers: Seq<Seq<Option<Scalar>>>, n: int)
    requires
        0 <= n,
    ensures
        smd_scan(lines, numbers, n) matches Some(state) ==> state.bones.len() <= n && forall|
            p: int,
        |
            0 <= p < state.bones.len() ==> is_bare(#[trigger] state.bones[p]),
    decreases n,
{
    if n > 0 {
        lemma_smd_scan_bare(lines, numbers, n - 1);
        if smd_scan(lines, numbers, n - 1) is Some && smd_scan(lines, numbers, n) is Some {
            let before = smd_scan(lines, numbers, n - 1)->0;
            let state = smd_scan(lines, numbers, n)->0;
            assert(smd_step(before, lines[n - 1], row_at(numbers, n - 1)) == Some(state));
            assert forall|p: int| 0 <= p < state.bones.len() implies is_bare(
                #[trigger] state.bones[p],
            ) by {
                if p < before.bones.len() {
                    assert(is_bare(before.bones[p]));
                }
            }
        }
    }
}

/// In the skeleton that a file describes, the index map leads from the index of
/// each bone to the bone and to nothing else; the index of a bone stands in the
/// child list of the bone that its parent index leads to, and in no other; and
/// no child list holds an index twice.
///
/// A bone whose parent index no bone carries therefore stands in no child
/// list, and a bone that names itself as parent stands in its own.
pub proof fn lemma_parsed_skeleton(lines: Seq<Seq<char>>, numbers: Seq<Seq<Option<Scalar>>>)
    requires
        lines.len() <= usize::MAX,
        smd_model(lines, numbers) is Some,
    ensures
        ({
            let model = smd_model(lines, numbers)->0;
            &&& forall|c: int|
                0 <= c < model.bones.len() ==> model.indexes.contains_key(
                    (#[trigger] model.bones[c]).index,
                ) && model.indexes[model.bones[c].index] == c
            &&& forall|k: i32| #[trigger]
                model.indexes.contains_key(k) ==> model.indexes[k] < model.bones.len()
                    && model.bones[model.indexes[k] as int].index == k
            &&& forall|c: int, p: int|
                0 <= c < model.bones.len() && 0 <= p < model.bones.len() ==> (
                #[trigger] model.bones[p].childs.contains(model.bones[c].index) <==> hangs_below(
                    model.bones,
                    model.indexes,
                    c,
                    p,
                ))
            &&& forall|p: int|
                0 <= p < model.bones.len() ==> (#[trigger] model.bones[p]).childs.no_duplicates()
        }),
{
    let state = smd_scan(lines, numbers, lines.len() as int)->0;
    let bones = state.bones;
    let model = smd_model(lines, numbers)->0;
    lemma_smd_scan_bare(lines, numbers, lines.len() as int);
    assert(model == assembled(bones));
    lemma_assembled_children(bones);
    lemma_index_map(bones);
    assert forall|c: int, p: int|
        0 <= c < model.bones.len() && 0 <= p < model.bones.len() implies (
    #[trigger] model.bones[p].childs.contains(model.bones[c].index) <==> hangs_below(
        model.bones,
        model.indexes,
        c,
        p,
    )) by {
        assert(assembled(bones).bones[p].childs.contains(bones[c].index) <==> hangs_below(
            bones,
            index_map(bones),
            c,
            p,
        ));
    }
}

} // verus!
