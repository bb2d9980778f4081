//! Poses of an animated skeleton.
//!
//! Three text files describe a character: a skeleton file with the bones and
//! their rest joints, a keyframe file with the tracks that drive the joints, and
//! a hurtbox file with the capsules that hang on the bones. The library reads
//! them, evaluates the tracks at a frame, poses the skeleton from the top down
//! and places the hurtboxes in a plane.
//!
//! Scalars are carried as bit patterns and never computed with here. Where
//! numbers have to be made, from text or from other numbers, a kernel that the
//! caller supplies makes them, and the contracts say when a kernel is called,
//! with what, and where its result goes.
#![allow(non_camel_case_types)]

pub mod animation;
pub mod bone;
pub mod drive;
pub mod figatree;
pub mod hurtbox;
pub mod numbers;
pub mod pose;
pub mod scalar;
pub mod smd;
pub mod text;

use animation::{Animation, AnimationView, ParseFigaTreeError, Sample};
use drive::{drives, frame_posed, lemma_frame_keeps_undriven_joints};
use bone::{bone_views, BoneView, Joint, Model, ModelView, ParseSMDError, Transform};
use figatree::{figa_scan, figa_start, figatree_numbers, lemma_figa_scan_keeps_bones};
use hurtbox::{hurtbox_numbers, hurtboxes_of, parse_hurtboxes, ParseHurtboxError};
use numbers::{number_rows, table_decoded};
use scalar::Scalar;
use smd::{smd_model, smd_numbers};
use text::lines_of;
use vstd::prelude::*;

verus! {

/// An animation could not be loaded.
#[derive(Debug, Clone, Copy)]
pub struct LoadAnimationError;

impl From<ParseSMDError> for LoadAnimationError {
    fn from(_error: ParseSMDError) -> (r: LoadAnimationError) {
        LoadAnimationError
    }
}

impl vstd::std_specs::convert::FromSpecImpl<ParseSMDError> for LoadAnimationError {
    open spec fn obeys_from_spec() -> bool {
        true
    }

    open spec fn from_spec(_error: ParseSMDError) -> LoadAnimationError {
        LoadAnimationError
    }
}

impl From<ParseHurtboxError> for LoadAnimationError {
    fn from(_error: ParseHurtboxError) -> (r: LoadAnimationError) {
        LoadAnimationError
    }
}

impl vstd::std_specs::convert::FromSpecImpl<ParseHurtboxError> for LoadAnimationError {
    open spec fn obeys_from_spec() -> bool {
        true
    }

    open spec fn from_spec(_error: ParseHurtboxError) -> LoadAnimationError {
        LoadAnimationError
    }
}

impl From<ParseFigaTreeError> for LoadAnimationError {
    fn from(_error: ParseFigaTreeError) -> (r: LoadAnimationError) {
        LoadAnimationError
    }
}

impl vstd::std_specs::convert::FromSpecImpl<ParseFigaTreeError> for LoadAnimationError {
    open spec fn obeys_from_spec() -> bool {
        true
    }

    open spec fn from_spec(_error: ParseFigaTreeError) -> LoadAnimationError {
        LoadAnimationError
    }
}

/// A source of text: something that can hand over its lines, or fail to.
pub trait Data {
    fn read(&self) -> Result<Vec<String>, LoadAnimationError>;
}

/// The animation that three files describe, each given by its lines and its
/// numbers; none where the skeleton file or the keyframe file is malformed.
/// The hurtbox file cannot fail: its malformed lines are passed over.
pub open spec fn animation_of(
    model_lines: Seq<Seq<char>>,
    model_numbers: Seq<Seq<Option<Scalar>>>,
    hurtbox_lines: Seq<Seq<char>>,
    hurtbox_numbers: Seq<Seq<Option<Scalar>>>,
    animation_lines: Seq<Seq<char>>,
    animation_numbers: Seq<Seq<Option<Scalar>>>,
) -> Option<AnimationView> {
    match smd_model(model_lines, model_numbers) {
        Some(model) => {
            let bare = AnimationView {
                frame_count: Scalar::zero(),
                model,
                hurtboxes: Seq::empty(),
            };
            let end = figa_scan(
                figa_start(bare),
                model.indexes,
                animation_lines,
                animation_numbers,
                animation_lines.len() as int,
            );
            if end.failed {
                None
            } else {
                Some(
                    AnimationView {
                        frame_count: end.frame_count,
                        model: ModelView { bones: end.bones, ..model },
                        hurtboxes: hurtboxes_of(
                            hurtbox_lines,
                            hurtbox_numbers,
                            hurtbox_lines.len() as int,
                        ),
                    },
                )
            }
        },
        None => None,
    }
}

/// In a loaded animation posed at any frame, a bone none of whose tracks drives
/// a joint component has the joint that the skeleton file gave it.
pub proof fn lemma_undriven_joints_pass_through<
    B: Fn(Sample) -> Scalar,
    P: Fn(Option<Transform>, Joint) -> Transform,
>(
    model_lines: Seq<Seq<char>>,
    model_numbers: Seq<Seq<Option<Scalar>>>,
    hurtbox_lines: Seq<Seq<char>>,
    hurtbox_numbers: Seq<Seq<Option<Scalar>>>,
    animation_lines: Seq<Seq<char>>,
    animation_numbers: Seq<Seq<Option<Scalar>>>,
    loaded: AnimationView,
    posed: Seq<BoneView>,
    frame: Scalar,
    blend: B,
    pose: P,
    at: int,
)
    requires
        animation_of(
            model_lines,
            model_numbers,
            hurtbox_lines,
            hurtbox_numbers,
            animation_lines,
            animation_numbers,
        ) == Some(loaded),
        frame_posed(
            loaded.model.bones,
            posed,
            loaded.model.indexes,
            loaded.model.root_bone_index,
            frame,
            blend,
            pose,
        ),
        0 <= at < loaded.model.bones.len(),
        forall|k: int|
            0 <= k < loaded.model.bones[at].tracks.len() ==> !drives(
                (#[trigger] loaded.model.bones[at].tracks[k]).kind,
            ),
    ensures
        smd_model(model_lines, model_numbers) is Some,
        at < smd_model(model_lines, model_numbers)->0.bones.len(),
        posed[at].joint == smd_model(model_lines, model_numbers)->0.bones[at].joint,
{
    let model = smd_model(model_lines, model_numbers)->0;
    let bare = AnimationView { frame_count: Scalar::zero(), model, hurtboxes: Seq::empty() };
    lemma_figa_scan_keeps_bones(
        figa_start(bare),
        model.indexes,
        animation_lines,
        animation_numbers,
        animation_lines.len() as int,
    );
    lemma_frame_keeps_undriven_joints(
        loaded.model.bones,
        posed,
        loaded.model.indexes,
        loaded.model.root_bone_index,
        frame,
        blend,
        pose,
        at,
    );
}

/// Assembles an animation from the lines and the numbers of its three files:
/// the skeleton is read, the keyframes are loaded into it, and the hurtboxes
/// are attached.
pub fn load_animation(
    model_lines: &Vec<String>,
    model_numbers: &Vec<Vec<Option<Scalar>>>,
    hurtbox_lines: &Vec<String>,
    hurtbox_numbers: &Vec<Vec<Option<Scalar>>>,
    animation_lines: &Vec<String>,
    animation_numbers: &Vec<Vec<Option<Scalar>>>,
) -> (r: Result<Animation, LoadAnimationError>)
    ensures
        match r {
            Ok(animation) => animation_of(
                lines_of(model_lines@),
                number_rows(model_numbers@),
                lines_of(hurtbox_lines@),
                number_rows(hurtbox_numbers@),
                lines_of(animation_lines@),
                number_rows(animation_numbers@),
            ) == Some(animation@),
            Err(_) => animation_of(
                lines_of(model_lines@),
                number_rows(model_numbers@),
                lines_of(hurtbox_lines@),
                number_rows(hurtbox_numbers@),
                lines_of(animation_lines@),
                number_rows(animation_numbers@),
            ) is None,
        },
        r is Ok ==> r->Ok_0.model.indexes_fit(),
{
    let model = match Model::from_smd(model_lines, model_numbers) {
        Ok(model) => model,
        Err(error) => {
            return Err(LoadAnimationError::from(error));
        },
    };
    let hurtboxes = parse_hurtboxes(hurtbox_lines, hurtbox_numbers);
    let ghost read = model@;
    let mut anim = Animation::from_model(model);
    assert(anim@ == (AnimationView {
        frame_count: Scalar::zero(),
        model: read,
        hurtboxes: Seq::empty(),
    }));
    match anim.load_figatree(animation_lines, animation_numbers) {
        Ok(()) => {},
        Err(error) => {
            return Err(LoadAnimationError::from(error));
        },
    }
    anim.attach_hurtboxes(hurtboxes);
    assert(anim.model@ == (ModelView { bones: bone_views(anim.model.bones@), ..read }));
    Ok(anim)
}

/// Loads an animation from three sources of text: every source is read once,
/// and [`animation_from_lines`] loads the animation from the lines that were
/// read. A source that cannot be read gives an error, and so does a file that
/// is malformed.
pub fn get_animation_with_hurtboxes<T: Data, D: Fn(&str) -> Option<Scalar>>(
    model_data: T,
    hurtboxes_data: T,
    animation_data: T,
    decode: &D,
) -> (r: Result<Animation, LoadAnimationError>)
    requires
        forall|s: &str| decode.requires((s,)),
    ensures
        r is Ok ==> r->Ok_0.model.indexes_fit(),
        r is Ok ==> exists|
            model_lines: Seq<Seq<char>>,
            model_numbers: Seq<Seq<Option<Scalar>>>,
            hurtbox_lines: Seq<Seq<char>>,
            hurtbox_numbers: Seq<Seq<Option<Scalar>>>,
            animation_lines: Seq<Seq<char>>,
            animation_numbers: Seq<Seq<Option<Scalar>>>,
        |
            {
                &&& table_decoded(*decode, model_lines, ' ', true, model_numbers)
                &&& table_decoded(*decode, hurtbox_lines, ',', false, hurtbox_numbers)
                &&& table_decoded(*decode, animation_lines, ' ', true, animation_numbers)
                &&& #[trigger] animation_of(
                    model_lines,
                    model_numbers,
                    hurtbox_lines,
                    hurtbox_numbers,
                    animation_lines,
                    animation_numbers,
                ) == Some(r->Ok_0@)
            },
{
    let model_lines = match model_data.read() {
        Ok(lines) => lines,
        Err(error) => {
            return Err(error);
        },
    };
    let hurtbox_lines = match hurtboxes_data.read() {
        Ok(lines) => lines,
        Err(error) => {
            return Err(error);
        },
    };
    let animation_lines = match animation_data.read() {
        Ok(lines) => lines,
        Err(error) => {
            return Err(error);
        },
    };
    let loaded = animation_from_lines(&model_lines, &hurtbox_lines, &animation_lines, decode);
    proof {
        if loaded is Ok {
            let (model_numbers, hurtbox_numbers, animation_numbers) = choose|
                model_numbers: Seq<Seq<Option<Scalar>>>,
                hurtbox_numbers: Seq<Seq<Option<Scalar>>>,
                animation_numbers: Seq<Seq<Option<Scalar>>>,
            |
                {
                    &&& table_decoded(*decode, lines_of(model_lines@), ' ', true, model_numbers)
                    &&& table_decoded(*decode, lines_of(hurtbox_lines@), ',', false, hurtbox_numbers)
                    &&& table_decoded(
                        *decode,
                        lines_of(animation_lines@),
                        ' ',
                        true,
                        animation_numbers,
                    )
                    &&& #[trigger] animation_of(
                        lines_of(model_lines@),
                        model_numbers,
                        lines_of(hurtbox_lines@),
                        hurtbox_numbers,
                        lines_of(animation_lines@),
                        animation_numbers,
                    ) == Some(loaded->Ok_0@)
                };
            assert(animation_of(
                lines_of(model_lines@),
                model_numbers,
                lines_of(hurtbox_lines@),
                hurtbox_numbers,
                lines_of(animation_lines@),
                animation_numbers,
            ) == Some(loaded->Ok_0@));
        }
    }
    loaded
}

/// Whether `loaded` is what the lines of three files come to once the kernel
/// `decode` has made their numbers: the animation that lines and numbers
/// describe, or none where the skeleton file or the keyframe file is
/// malformed.
pub open spec fn loaded_from<D: Fn(&str) -> Option<Scalar>>(
    decode: D,
    model_lines: Seq<Seq<char>>,
    hurtbox_lines: Seq<Seq<char>>,
    animation_lines: Seq<Seq<char>>,
    loaded: Option<AnimationView>,
) -> bool {
    exists|
        model_numbers: Seq<Seq<Option<Scalar>>>,
        hurtbox_numbers: Seq<Seq<Option<Scalar>>>,
        animation_numbers: Seq<Seq<Option<Scalar>>>,
    |
        {
            &&& table_decoded(decode, model_lines, ' ', true, model_numbers)
            &&& table_decoded(decode, hurtbox_lines, ',', false, hurtbox_numbers)
            &&& table_decoded(decode, animation_lines, ' ', true, animation_numbers)
            &&& #[trigger] animation_of(
                model_lines,
                model_numbers,
                hurtbox_lines,
                hurtbox_numbers,
                animation_lines,
                animation_numbers,
            ) == loaded
        }
}

/// Loads an animation from the lines of its three files. The kernel `decode`
/// makes the numbers of every line, fields cut at single spaces in the
/// skeleton and keyframe files and at commas in the hurtbox file, and
/// [`load_animation`] assembles the animation from lines and numbers. The
/// load fails exactly where the skeleton file or the keyframe file is
/// malformed under these numbers.
pub fn animation_from_lines<D: Fn(&str) -> Option<Scalar>>(
    model_lines: &Vec<String>,
    hurtbox_lines: &Vec<String>,
    animation_lines: &Vec<String>,
    decode: &D,
) -> (r: Result<Animation, LoadAnimationError>)
    requires
        forall|s: &str| decode.requires((s,)),
    ensures
        loaded_from(
            *decode,
            lines_of(model_lines@),
            lines_of(hurtbox_lines@),
            lines_of(animation_lines@),
            match r {
                Ok(animation) => Some(animation@),
                Err(_) => None,
            },
        ),
        r is Ok ==> r->Ok_0.model.indexes_fit(),
{
    let model_numbers = smd_numbers(model_lines, decode);
    let hurtbox_numbers = hurtbox_numbers(hurtbox_lines, decode);
    let animation_numbers = figatree_numbers(animation_lines, decode);
    let loaded = load_animation(
        model_lines,
        &model_numbers,
        hurtbox_lines,
        &hurtbox_numbers,
        animation_lines,
        &animation_numbers,
    );
    proof {
        let described = animation_of(
            lines_of(model_lines@),
            number_rows(model_numbers@),
            lines_of(hurtbox_lines@),
            number_rows(hurtbox_numbers@),
            lines_of(animation_lines@),
            number_rows(animation_numbers@),
        );
        if loaded is Ok {
            assert(described == Some(loaded->Ok_0@));
        } else {
            assert(described == None::<AnimationView>);
        }
    }
    loaded
}

} // verus!
