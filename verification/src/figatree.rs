//! The parser of keyframe files.
//!
//! A keyframe file is read line by line. It names a frame count, and then,
//! bone by bone, the tracks of the bone: a channel tag, and between braces one
//! key to a line.

use crate::animation::{
    copy_keys, track_views, Animation, AnimationView, InterpolationType, Key, ParseFigaTreeError,
    ParseKeyError, Track, TrackType, TrackView,
};
use crate::bone::{bone_views, BoneView};
use crate::numbers::{decode_lines, number, number_at, number_rows, row_at, table_decoded};
use crate::scalar::Scalar;
use crate::text::{
    begins_with, chars_of, contains, fields, has, integer_of, is_text, lines_of, parse_integer,
    remove_all, split, starts_with, texts, trim, trimmed, without,
};
use vstd::prelude::*;

verus! {

/// The interpolation mode that a tag names.
pub open spec fn interpolation_type_of(s: Seq<char>) -> Option<InterpolationType> {
    if s == "HSD_A_OP_NONE"@ {
        Some(InterpolationType::HSD_A_OP_NONE)
    } else if s == "HSD_A_OP_CON"@ {
        Some(InterpolationType::HSD_A_OP_CON)
    } else if s == "HSD_A_OP_LIN"@ {
        Some(InterpolationType::HSD_A_OP_LIN)
    } else if s == "HSD_A_OP_SPL0"@ {
        Some(InterpolationType::HSD_A_OP_SPL0)
    } else if s == "HSD_A_OP_SPL"@ {
        Some(InterpolationType::HSD_A_OP_SPL)
    } else if s == "HSD_A_OP_SLP"@ {
        Some(InterpolationType::HSD_A_OP_SLP)
    } else if s == "HSD_A_OP_KEY"@ {
        Some(InterpolationType::HSD_A_OP_KEY)
    } else {
        None
    }
}

/// The channel that a tag names.
pub open spec fn track_type_of(s: Seq<char>) -> Option<TrackType> {
    if s == "HSD_A_J_NONE"@ {
        Some(TrackType::HSD_A_J_NONE)
    } else if s == "HSD_A_J_ROTX"@ {
        Some(TrackType::HSD_A_J_ROTX)
    } else if s == "HSD_A_J_ROTY"@ {
        Some(TrackType::HSD_A_J_ROTY)
    } else if s == "HSD_A_J_ROTZ"@ {
        Some(TrackType::HSD_A_J_ROTZ)
    } else if s == "HSD_A_J_PATH"@ {
        Some(TrackType::HSD_A_J_PATH)
    } else if s == "HSD_A_J_TRAX"@ {
        Some(TrackType::HSD_A_J_TRAX)
    } else if s == "HSD_A_J_TRAY"@ {
        Some(TrackType::HSD_A_J_TRAY)
    } else if s == "HSD_A_J_TRAZ"@ {
        Some(TrackType::HSD_A_J_TRAZ)
    } else if s == "HSD_A_J_SCAX"@ {
        Some(TrackType::HSD_A_J_SCAX)
    } else if s == "HSD_A_J_SCAY"@ {
        Some(TrackType::HSD_A_J_SCAY)
    } else if s == "HSD_A_J_SCAZ"@ {
        Some(TrackType::HSD_A_J_SCAZ)
    } else if s == "HSD_A_J_NODE"@ {
        Some(TrackType::HSD_A_J_NODE)
    } else {
        None
    }
}

/// The key that the fields `frame value tangent mode` describe; fields beyond
/// the fourth are not looked at. `numbers` holds, field by field, the number
/// that each field denotes.
pub open spec fn key_of_fields(f: Seq<Seq<char>>, numbers: Seq<Option<Scalar>>) -> Option<Key> {
    if f.len() >= 4 && number_at(numbers, 0) is Some && number_at(numbers, 1) is Some && number_at(
        numbers,
        2,
    ) is Some && interpolation_type_of(f[3]) is Some {
        Some(
            Key {
                frame: number_at(numbers, 0)->0,
                value: number_at(numbers, 1)->0,
                tan: number_at(numbers, 2)->0,
                interpolation_type: interpolation_type_of(f[3])->0,
            },
        )
    } else {
        None
    }
}

/// The key that a line describes: its fields are the pieces between single
/// spaces.
pub open spec fn key_of(text: Seq<char>, numbers: Seq<Option<Scalar>>) -> Option<Key> {
    key_of_fields(split(text, ' '), numbers)
}

/// What the keyframe parser holds while it reads: the clamp bound and the
/// bones as far as they are loaded, the index of the bone whose block is being
/// read, the channel and the keys of the track being read, the tracks read for
/// that bone so far, and whether a malformed line has ended the load.
pub struct FigaState {
    pub frame_count: Scalar,
    pub bones: Seq<BoneView>,
    pub current_bone: i32,
    pub current_track_type: TrackType,
    pub tracks: Seq<TrackView>,
    pub keys: Seq<Key>,
    pub failed: bool,
}

/// The state in which the parser starts on an animation.
pub open spec fn figa_start(animation: AnimationView) -> FigaState {
    FigaState {
        frame_count: animation.frame_count,
        bones: animation.model.bones,
        current_bone: -1i32,
        current_track_type: TrackType::HSD_A_J_NONE,
        tracks: Seq::empty(),
        keys: Seq::empty(),
        failed: false,
    }
}

/// The bones after the tracks read for the current bone have been handed to
/// it. Nothing is handed over before the first bone block, nor to a bone that
/// the index map does not hold.
pub open spec fn with_tracks(state: FigaState, indexes: Map<i32, usize>) -> Seq<BoneView> {
    if state.current_bone >= 0 && indexes.contains_key(state.current_bone)
        && indexes[state.current_bone] < state.bones.len() {
        let place = indexes[state.current_bone] as int;
        state.bones.update(place, BoneView { tracks: state.tracks, ..state.bones[place] })
    } else {
        state.bones
    }
}

/// The key as it is stored: a frame beyond the clamp bound is set to the
/// bound.
pub open spec fn clamped(key: Key, frame_count: Scalar) -> Key {
    if key.frame.gt(frame_count) {
        Key { frame: frame_count, ..key }
    } else {
        key
    }
}

/// The state after one more line. The line is taken without the white space
/// around it, and the first of these that applies decides:
/// - `FrameCount: <number>` sets the clamp bound;
/// - a line that begins with `Node ` hands the tracks read so far to the
///   current bone, and then opens the block of the bone whose index is left
///   when `Node ` and `:` are taken out of the line;
/// - a line that begins with `HSD_A_J_` must be a channel tag and opens a
///   track;
/// - a line that holds `HSD_A_OP` must be a key, which is clamped and added to
///   the track;
/// - `}` closes the track and adds it to the tracks of the current bone.
/// Any other line is passed over. A line that fails its reading ends the load;
/// what was done before it stays done.
pub open spec fn figa_step(
    state: FigaState,
    indexes: Map<i32, usize>,
    line: Seq<char>,
    numbers: Seq<Option<Scalar>>,
) -> FigaState {
    let text = trimmed(line);
    if state.failed {
        state
    } else if starts_with(text, "FrameCount: "@) {
        if split(text, ' ').len() == 2 && number_at(numbers, 1) is Some {
            FigaState { frame_count: number_at(numbers, 1)->0, ..state }
        } else {
            FigaState { failed: true, ..state }
        }
    } else if starts_with(text, "Node "@) {
        let handed = FigaState { bones: with_tracks(state, indexes), ..state };
        match integer_of(without(without(text, "Node "@), ":"@)) {
            Some(index) => FigaState { current_bone: index, tracks: Seq::empty(), ..handed },
            None => FigaState { failed: true, ..handed },
        }
    } else if starts_with(text, "HSD_A_J_"@) {
        match track_type_of(text) {
            Some(kind) => FigaState { current_track_type: kind, keys: Seq::empty(), ..state },
            None => FigaState { failed: true, ..state },
        }
    } else if contains(text, "HSD_A_OP"@) {
        match key_of(text, numbers) {
            Some(key) => FigaState { keys: state.keys.push(clamped(key, state.frame_count)), ..state },
            None => FigaState { failed: true, ..state },
        }
    } else if text == "}"@ {
        FigaState {
            tracks: state.tracks.push(
                TrackView { kind: state.current_track_type, keys: state.keys },
            ),
            ..state
        }
    } else {
        state
    }
}

/// The state after the first `n` lines.
pub open spec fn figa_scan(
    start: FigaState,
    indexes: Map<i32, usize>,
    lines: Seq<Seq<char>>,
    numbers: Seq<Seq<Option<Scalar>>>,
    n: int,
) -> FigaState
    decreases n,
{
    if n <= 0 {
        start
    } else {
        figa_step(
            figa_scan(start, indexes, lines, numbers, n - 1),
            indexes,
            lines[n - 1],
            row_at(numbers, n - 1),
        )
    }
}

impl Key {
    /// Reads the tag of an interpolation mode.
    pub fn parse_interpolation_type(s: &str) -> (r: Result<InterpolationType, ParseKeyError>)
        ensures
            r == match interpolation_type_of(s@) {
                Some(mode) => Ok::<InterpolationType, ParseKeyError>(mode),
                None => Err(ParseKeyError),
            },
    {
        match Key::interpolation_type(&chars_of(s)) {
            Some(mode) => Ok(mode),
            None => Err(ParseKeyError),
        }
    }

    fn interpolation_type(tag: &Vec<char>) -> (r: Option<InterpolationType>)
        ensures
            r == interpolation_type_of(tag@),
    {
        if is_text(tag, &chars_of("HSD_A_OP_NONE")) {
            Some(InterpolationType::HSD_A_OP_NONE)
        } else if is_text(tag, &chars_of("HSD_A_OP_CON")) {
            Some(InterpolationType::HSD_A_OP_CON)
        } else if is_text(tag, &chars_of("HSD_A_OP_LIN")) {
            Some(InterpolationType::HSD_A_OP_LIN)
        } else if is_text(tag, &chars_of("HSD_A_OP_SPL0")) {
            Some(InterpolationType::HSD_A_OP_SPL0)
        } else if is_text(tag, &chars_of("HSD_A_OP_SPL")) {
            Some(InterpolationType::HSD_A_OP_SPL)
        } else if is_text(tag, &chars_of("HSD_A_OP_SLP")) {
            Some(InterpolationType::HSD_A_OP_SLP)
        } else if is_text(tag, &chars_of("HSD_A_OP_KEY")) {
            Some(InterpolationType::HSD_A_OP_KEY)
        } else {
            None
        }
    }

    /// Reads a key line. `numbers` holds, field by field, the number that each
    /// field of the line denotes.
    pub fn from_str(s: &str, numbers: &Vec<Option<Scalar>>) -> (r: Result<Key, ParseKeyError>)
        ensures
            r == match key_of(s@, numbers@) {
                Some(key) => Ok::<Key, ParseKeyError>(key),
                None => Err(ParseKeyError),
            },
    {
        let chars = chars_of(s);
        let f = fields(&chars, ' ');
        match Key::from_fields(&f, numbers) {
            Some(key) => Ok(key),
            None => Err(ParseKeyError),
        }
    }

    fn from_fields(f: &Vec<Vec<char>>, numbers: &Vec<Option<Scalar>>) -> (r: Option<Key>)
        ensures
            r == key_of_fields(texts(f@), numbers@),
    {
        assert(texts(f@).len() == f.len());
        if f.len() < 4 {
            return None;
        }
        assert(texts(f@)[3] == f@[3]@);
        let frame = number(numbers, 0);
        let value = number(numbers, 1);
        let tan = number(numbers, 2);
        let mode = Key::interpolation_type(&f[3]);
        match (frame, value, tan, mode) {
            (Some(frame), Some(value), Some(tan), Some(interpolation_type)) => Some(
                Key { frame, value, tan, interpolation_type },
            ),
            _ => None,
        }
    }
}

impl Track {
    /// Reads the tag of a channel.
    pub fn parse_type(s: &str) -> (r: Result<TrackType, ParseFigaTreeError>)
        ensures
            r == match track_type_of(s@) {
                Some(kind) => Ok::<TrackType, ParseFigaTreeError>(kind),
                None => Err(ParseFigaTreeError),
            },
    {
        match Track::type_of(&chars_of(s)) {
            Some(kind) => Ok(kind),
            None => Err(ParseFigaTreeError),
        }
    }

    fn type_of(tag: &Vec<char>) -> (r: Option<TrackType>)
        ensures
            r == track_type_of(tag@),
    {
        if is_text(tag, &chars_of("HSD_A_J_NONE")) {
            Some(TrackType::HSD_A_J_NONE)
        } else if is_text(tag, &chars_of("HSD_A_J_ROTX")) {
            Some(TrackType::HSD_A_J_ROTX)
        } else if is_text(tag, &chars_of("HSD_A_J_ROTY")) {
            Some(TrackType::HSD_A_J_ROTY)
        } else if is_text(tag, &chars_of("HSD_A_J_ROTZ")) {
            Some(TrackType::HSD_A_J_ROTZ)
        } else if is_text(tag, &chars_of("HSD_A_J_PATH")) {
            Some(TrackType::HSD_A_J_PATH)
        } else if is_text(tag, &chars_of("HSD_A_J_TRAX")) {
            Some(TrackType::HSD_A_J_TRAX)
        } else if is_text(tag, &chars_of("HSD_A_J_TRAY")) {
            Some(TrackType::HSD_A_J_TRAY)
        } else if is_text(tag, &chars_of("HSD_A_J_TRAZ")) {
            Some(TrackType::HSD_A_J_TRAZ)
        } else if is_text(tag, &chars_of("HSD_A_J_SCAX")) {
            Some(TrackType::HSD_A_J_SCAX)
        } else if is_text(tag, &chars_of("HSD_A_J_SCAY")) {
            Some(TrackType::HSD_A_J_SCAY)
        } else if is_text(tag, &chars_of("HSD_A_J_SCAZ")) {
            Some(TrackType::HSD_A_J_SCAZ)
        } else if is_text(tag, &chars_of("HSD_A_J_NODE")) {
            Some(TrackType::HSD_A_J_NODE)
        } else {
            None
        }
    }
}

/// The numbers of a keyframe file, as [`Animation::load_figatree`] takes them:
/// the kernel `decode` is asked for every field between single spaces of every
/// trimmed line.
pub fn figatree_numbers<D: Fn(&str) -> Option<Scalar>>(lines: &Vec<String>, decode: &D) -> (r: Vec<
    Vec<Option<Scalar>>,
>)
    requires
        forall|s: &str| decode.requires((s,)),
    ensures
        table_decoded(*decode, lines_of(lines@), ' ', true, number_rows(r@)),
{
    decode_lines(lines, ' ', true, decode)
}

impl Animation {
    /// Reads a keyframe file into the animation. `numbers` holds, line by line
    /// and field by field, the number that each field between single spaces
    /// of the trimmed line denotes.
    ///
    /// The first malformed line ends the load with an error. The animation then
    /// holds what was read before that line and is of no further use.
    pub fn load_figatree(&mut self, lines: &Vec<String>, numbers: &Vec<Vec<Option<Scalar>>>) -> (r:
        Result<(), ParseFigaTreeError>)
        requires
            old(self).model.indexes_fit(),
        ensures
            ({
                let end = figa_scan(
                    figa_start(old(self)@),
                    old(self).model.indexes@,
                    lines_of(lines@),
                    number_rows(numbers@),
                    lines.len() as int,
                );
                &&& final(self).frame_count == end.frame_count
                &&& bone_views(final(self).model.bones@) == end.bones
                &&& r is Err <==> end.failed
            }),
            final(self).model.indexes == old(self).model.indexes,
            final(self).model.root_bone_index == old(self).model.root_bone_index,
            final(self).hurtboxes == old(self).hurtboxes,
            final(self).model.indexes_fit(),
    {
        let ghost start = figa_start(self@);
        let ghost indexes = self.model.indexes@;
        let ghost texts_in = lines_of(lines@);
        let ghost rows_in = number_rows(numbers@);
        let frame_word = chars_of("FrameCount: ");
        let node_word = chars_of("Node ");
        let colon = chars_of(":");
        let track_word = chars_of("HSD_A_J_");
        let key_word = chars_of("HSD_A_OP");
        let brace = chars_of("}");
        let no_numbers: Vec<Option<Scalar>> = Vec::new();
        let mut current_bone: i32 = -1;
        let mut current_track_type = TrackType::HSD_A_J_NONE;
        let mut tracks: Vec<Track> = Vec::new();
        let mut keys: Vec<Key> = Vec::new();
        let mut i: usize = 0;
        assert(track_views(tracks@) =~= Seq::empty());
        while i < lines.len()
            invariant
                0 <= i <= lines.len(),
                texts_in == lines_of(lines@),
                rows_in == number_rows(numbers@),
                indexes == self.model.indexes@,
                start == figa_start(old(self)@),
                frame_word@ == "FrameCount: "@,
                node_word@ == "Node "@,
                colon@ == ":"@,
                track_word@ == "HSD_A_J_"@,
                key_word@ == "HSD_A_OP"@,
                brace@ == "}"@,
                no_numbers@ == Seq::<Option<Scalar>>::empty(),
                self.model.indexes == old(self).model.indexes,
                self.model.root_bone_index == old(self).model.root_bone_index,
                self.hurtboxes == old(self).hurtboxes,
                self.model.indexes_fit(),
                figa_scan(start, indexes, texts_in, rows_in, i as int) == (FigaState {
                    frame_count: self.frame_count,
                    bones: bone_views(self.model.bones@),
                    current_bone,
                    current_track_type,
                    tracks: track_views(tracks@),
                    keys: keys@,
                    failed: false,
                }),
            decreases lines.len() - i,
        {
            let chars = chars_of(lines[i].as_str());
            let text = trim(&chars);
            let row: &Vec<Option<Scalar>> = if i < numbers.len() {
                &numbers[i]
            } else {
                &no_numbers
            };
            assert(texts_in[i as int] == lines@[i as int]@);
            assert(row@ == row_at(rows_in, i as int));
            let ghost state = figa_scan(start, indexes, texts_in, rows_in, i as int);
            let ghost next = figa_step(state, indexes, texts_in[i as int], row@);
            assert(figa_scan(start, indexes, texts_in, rows_in, i + 1) == next);
            let mut failed = false;
            if begins_with(&text, &frame_word) {
                let f = fields(&text, ' ');
                assert(texts(f@).len() == f.len());
                match number(row, 1) {
                    Some(frame_count) if f.len() == 2 => {
                        self.frame_count = frame_count;
                    },
                    _ => {
                        failed = true;
                    },
                }
            } else if begins_with(&text, &node_word) {
                if current_bone >= 0 {
                    match self.model.position(current_bone) {
                        Some(place) => {
                            let ghost before = bone_views(self.model.bones@);
                            let ghost handed = track_views(tracks@);
                            self.model.bones[place].tracks = tracks;
                            proof {
                                let after = bone_views(self.model.bones@);
                                let wanted = with_tracks(state, indexes);
                                assert forall|q: int| 0 <= q < after.len() implies after[q]
                                    == wanted[q] by {
                                    assert(after[q] == self.model.bones@[q]@);
                                }
                                assert(after =~= wanted);
                            }
                        },
                        None => {},
                    }
                }
                tracks = Vec::new();
                assert(track_views(tracks@) =~= Seq::empty());
                match parse_integer(&remove_all(&remove_all(&text, &node_word), &colon)) {
                    Some(index) => {
                        current_bone = index;
                    },
                    None => {
                        failed = true;
                    },
                }
            } else if begins_with(&text, &track_word) {
                match Track::type_of(&text) {
                    Some(kind) => {
                        current_track_type = kind;
                        keys = Vec::new();
                    },
                    None => {
                        failed = true;
                    },
                }
            } else if has(&text, &key_word) {
                let f = fields(&text, ' ');
                match Key::from_fields(&f, row) {
                    Some(key) => {
                        let mut key = key;
                        if key.frame.greater_than(self.frame_count) {
                            key.frame = self.frame_count;
                        }
                        keys.push(key);
                    },
                    None => {
                        failed = true;
                    },
                }
            } else if is_text(&text, &brace) {
                let track = Track { kind: current_track_type, keys: copy_keys(&keys) };
                assert(track_views(tracks@.push(track)) =~= track_views(tracks@).push(track@));
                tracks.push(track);
            }
            if failed {
                proof {
                    assert(next.failed);
                    assert(next.frame_count == self.frame_count);
                    assert(next.bones == bone_views(self.model.bones@));
                    lemma_figa_scan_fails(start, indexes, texts_in, rows_in, i + 1, lines.len() as int);
                }
                return Err(ParseFigaTreeError);
            }
            i += 1;
        }
        Ok(())
    }
}

proof fn lemma_figa_scan_fails(
    start: FigaState,
    indexes: Map<i32, usize>,
    lines: Seq<Seq<char>>,
    numbers: Seq<Seq<Option<Scalar>>>,
    n: int,
    m: int,
)
    requires
        0 <= n <= m,
        figa_scan(start, indexes, lines, numbers, n).failed,
    ensures
        figa_scan(start, indexes, lines, numbers, m) == figa_scan(start, indexes, lines, numbers, n),
    decreases m - n,
{
    if n < m {
        lemma_figa_scan_fails(start, indexes, lines, numbers, n, m - 1);
    }
}

/// Loading keyframes changes nothing about a bone but its tracks.
pub proof fn lemma_figa_scan_keeps_bones(
    start: FigaState,
    indexes: Map<i32, usize>,
    lines: Seq<Seq<char>>,
    numbers: Seq<Seq<Option<Scalar>>>,
    n: int,
)
    ensures
        figa_scan(start, indexes, lines, numbers, n).bones.len() == start.bones.len(),
        forall|p: int|
            0 <= p < start.bones.len() ==> #[trigger] figa_scan(
                start,
                indexes,
                lines,
                numbers,
                n,
            ).bones[p] == (BoneView {
                tracks: figa_scan(start, indexes, lines, numbers, n).bones[p].tracks,
                ..start.bones[p]
            }),
    decreases n,
{
    if n > 0 {
        lemma_figa_scan_keeps_bones(start, indexes, lines, numbers, n - 1);
        let before = figa_scan(start, indexes, lines, numbers, n - 1);
        let after = figa_scan(start, indexes, lines, numbers, n);
        assert(after == figa_step(before, indexes, lines[n - 1], row_at(numbers, n - 1)));
        assert(after.bones == before.bones || after.bones == with_tracks(before, indexes));
        assert forall|p: int| 0 <= p < start.bones.len() implies #[trigger] after.bones[p]
            == (BoneView { tracks: after.bones[p].tracks, ..start.bones[p] }) by {
            assert(before.bones[p] == (BoneView {
                tracks: before.bones[p].tracks,
                ..start.bones[p]
            }));
        }
    }
}

} // verus!
