use melee_anim_rs::animation::TrackType;
use melee_anim_rs::smd::smd_numbers;
use melee_anim_rs::hurtbox::hurtbox_numbers;
use melee_anim_rs::figatree::figatree_numbers;
use melee_anim_rs::scalar::Scalar;
use melee_anim_rs::{
    animation_from_lines, get_animation_with_hurtboxes, load_animation, Data, LoadAnimationError,
};
use melee_anim_rs::animation::{ParseFigaTreeError, ParseKeyError};
use melee_anim_rs::bone::{ParseBoneError, ParseJointError, ParseSMDError};
use melee_anim_rs::hurtbox::ParseHurtboxError;
use std::cell::Cell;

struct Text<'a> {
    text: Option<&'a str>,
    reads: &'a Cell<usize>,
}

impl<'a> Data for Text<'a> {
    fn read(&self) -> Result<Vec<String>, LoadAnimationError> {
        self.reads.set(self.reads.get() + 1);
        match self.text {
            Some(text) => Ok(text.lines().map(|l| l.to_string()).collect()),
            None => Err(LoadAnimationError),
        }
    }
}

fn decode(text: &str) -> Option<Scalar> {
    text.parse::<f32>().ok().map(|v| Scalar::from_bits(v.to_bits()))
}

fn number_of(value: Scalar) -> f32 {
    f32::from_bits(value.to_bits())
}

fn lines(text: &str) -> Vec<String> {
    text.lines().map(|l| l.to_string()).collect()
}

const SKELETON: &str = "nodes\n0 \"root\" -1\n1 \"a\" 0\nskeleton\n0 1 2 3 0 0 0\n";
const HURTBOXES: &str = "1,0,0,0,0,1,0,0.5,Mid,1\nbroken\n0,0,0,0,0,2,0,0.5,Low,0\n";
const KEYFRAMES: &str = "FrameCount: 10\nNode 1:\nHSD_A_J_TRAY\n0 2 0 HSD_A_OP_LIN\n}\nNode 0:\n";

fn load(
    skeleton: Option<&str>,
    hurtboxes: Option<&str>,
    keyframes: Option<&str>,
) -> (bool, usize) {
    let reads = Cell::new(0);
    let loaded = get_animation_with_hurtboxes(
        Text { text: skeleton, reads: &reads },
        Text { text: hurtboxes, reads: &reads },
        Text { text: keyframes, reads: &reads },
        &decode,
    );
    (loaded.is_ok(), reads.get())
}

#[test]
fn three_sources_give_an_animation() {
    let reads = Cell::new(0);
    let animation = get_animation_with_hurtboxes(
        Text { text: Some(SKELETON), reads: &reads },
        Text { text: Some(HURTBOXES), reads: &reads },
        Text { text: Some(KEYFRAMES), reads: &reads },
        &decode,
    )
    .unwrap();
    assert_eq!(reads.get(), 3);
    assert_eq!(number_of(animation.frame_count), 10.);
    assert_eq!(animation.model.bones.len(), 2);
    assert_eq!(number_of(animation.model.bones[0].joint.tz), 3.);
    assert_eq!(animation.model.bones[1].tracks.len(), 1);
    assert_eq!(animation.model.bones[1].tracks[0].kind, TrackType::HSD_A_J_TRAY);
    assert!(animation.model.bones[0].tracks.is_empty());
    assert_eq!(animation.hurtboxes.iter().map(|h| h.bone_index).collect::<Vec<_>>(), vec![1, 0]);
}

#[test]
fn a_source_that_cannot_be_read_fails_the_load() {
    assert_eq!(load(Some(SKELETON), Some(HURTBOXES), Some(KEYFRAMES)), (true, 3));
    assert_eq!(load(None, Some(HURTBOXES), Some(KEYFRAMES)), (false, 1));
    assert_eq!(load(Some(SKELETON), None, Some(KEYFRAMES)), (false, 2));
    assert_eq!(load(Some(SKELETON), Some(HURTBOXES), None), (false, 3));
}

#[test]
fn a_malformed_skeleton_or_keyframe_file_fails_the_load() {
    assert!(!load(Some("nodes\nx \"root\" -1\n"), Some(HURTBOXES), Some(KEYFRAMES)).0);
    assert!(!load(Some("nodes\n0 \"a\" -1\n0 \"b\" -1\n"), Some(HURTBOXES), Some(KEYFRAMES)).0);
    assert!(!load(Some(SKELETON), Some(HURTBOXES), Some("FrameCount: x\n")).0);
    assert!(!load(Some(SKELETON), Some(HURTBOXES), Some("HSD_A_J_WRONG\n")).0);
}

#[test]
fn a_malformed_hurtbox_file_does_not_fail_the_load() {
    assert!(load(Some(SKELETON), Some("all\nbroken\n,,,\n"), Some(KEYFRAMES)).0);
    assert!(load(Some(SKELETON), Some(""), Some(KEYFRAMES)).0);
    assert!(load(Some(""), Some(""), Some("")).0);
}

#[test]
fn an_animation_is_assembled_from_lines_and_numbers() {
    let (s, h, k) = (lines(SKELETON), lines(HURTBOXES), lines(KEYFRAMES));
    let (sn, hn, kn) =
        (smd_numbers(&s, &decode), hurtbox_numbers(&h, &decode), figatree_numbers(&k, &decode));
    let animation = load_animation(&s, &sn, &h, &hn, &k, &kn).unwrap();
    assert_eq!(animation.hurtboxes.len(), 2);
    assert_eq!(animation.model.bones[1].tracks.len(), 1);
    assert_eq!(number_of(animation.frame_count), 10.);
    assert!(load_animation(&s, &vec![], &h, &hn, &k, &kn).is_err());
    assert!(load_animation(&s, &sn, &h, &hn, &k, &vec![]).is_err());
    let bare = load_animation(&s, &sn, &h, &vec![], &k, &kn).unwrap();
    assert!(bare.hurtboxes.is_empty());
}

#[test]
fn lines_are_decoded_and_loaded() {
    let (s, h, k) = (lines(SKELETON), lines(HURTBOXES), lines(KEYFRAMES));
    let animation = animation_from_lines(&s, &h, &k, &decode).unwrap();
    assert_eq!(number_of(animation.frame_count), 10.);
    assert_eq!(animation.model.bones.len(), 2);
    let joint = animation.model.bones[0].joint;
    assert_eq!([joint.tx, joint.ty, joint.tz].map(number_of), [1., 2., 3.]);
    assert_eq!(animation.model.bones[1].tracks.len(), 1);
    assert_eq!(number_of(animation.model.bones[1].tracks[0].keys[0].value), 2.);
    assert_eq!(animation.hurtboxes.iter().map(|h| h.bone_index).collect::<Vec<_>>(), vec![1, 0]);
    assert_eq!(number_of(animation.hurtboxes[1].y2), 2.);
    assert!(animation_from_lines(&lines("nodes\n0 \"a\" x\n"), &h, &k, &decode).is_err());
    assert!(animation_from_lines(&s, &h, &lines("FrameCount: x\n"), &decode).is_err());
    assert!(animation_from_lines(&s, &lines("broken\n"), &k, &decode).is_ok());
    let nothing = |_: &str| None;
    assert!(animation_from_lines(&s, &h, &k, &nothing).is_err());
}

#[test]
fn every_parse_error_becomes_a_load_error() {
    let _: ParseSMDError = ParseSMDError::from(ParseBoneError);
    let _: ParseSMDError = ParseSMDError::from(ParseJointError);
    let _: ParseFigaTreeError = ParseFigaTreeError::from(ParseKeyError);
    let _: LoadAnimationError = LoadAnimationError::from(ParseSMDError);
    let _: LoadAnimationError = LoadAnimationError::from(ParseFigaTreeError);
    let _: LoadAnimationError = LoadAnimationError::from(ParseHurtboxError);
    let _: LoadAnimationError = ParseSMDError.into();
}
