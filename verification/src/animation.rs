//! Keyframe tracks, their evaluation, and the animation of a skeleton.
//!
//! A track is a list of keys in file order. Evaluating it at a frame is a scan
//! over the keys that threads an [`AnimState`] forward and stops at the first
//! segment that lies beyond the frame. The scan only moves and compares
//! scalars; the one place where numbers are computed, the blend between the two
//! ends of a segment, is handed to a kernel that the caller supplies.
//!
//! An [`Animation`] owns a skeleton whose bones carry tracks, and the
//! hurtboxes that hang on it. Asked for a frame, it poses a copy of the
//! skeleton and leaves its own alone.

use crate::bone::{bone_views, transform_of, BoneView, Joint, Model, ModelView, Transform};
use crate::drive::frame_posed;
use crate::hurtbox::Hurtbox;
use crate::scalar::Scalar;
use vstd::prelude::*;

verus! {

/// How the segment that a key opens is interpolated.
#[derive(Debug, PartialEq, Eq, Clone, Copy, Structural)]
pub enum InterpolationType {
    HSD_A_OP_NONE,
    HSD_A_OP_CON,
    HSD_A_OP_LIN,
    HSD_A_OP_SPL0,
    HSD_A_OP_SPL,
    HSD_A_OP_SLP,
    HSD_A_OP_KEY,
}

/// The joint channel that a track drives.
#[derive(Debug, PartialEq, Eq, Clone, Copy, Structural)]
pub enum TrackType {
    HSD_A_J_NONE,
    HSD_A_J_ROTX,
    HSD_A_J_ROTY,
    HSD_A_J_ROTZ,
    HSD_A_J_PATH,
    HSD_A_J_TRAX,
    HSD_A_J_TRAY,
    HSD_A_J_TRAZ,
    HSD_A_J_SCAX,
    HSD_A_J_SCAY,
    HSD_A_J_SCAZ,
    HSD_A_J_NODE,
}

/// A point of a plane.
#[derive(Debug, Clone, Copy)]
pub struct Point2<T> {
    pub x: T,
    pub y: T,
}

/// One sample of a track.
#[derive(Debug, Clone, Copy)]
pub struct Key {
    pub frame: Scalar,
    pub value: Scalar,
    pub tan: Scalar,
    pub interpolation_type: InterpolationType,
}

/// The segment that a scan has settled on: its two values, tangents and frame
/// bounds, the mode that governs it (`op_intrp`) and the mode of the key
/// consumed last (`op`).
#[derive(Debug, Clone, Copy)]
pub struct AnimState {
    pub p0: Scalar,
    pub p1: Scalar,
    pub d0: Scalar,
    pub d1: Scalar,
    pub t0: Scalar,
    pub t1: Scalar,
    pub op_intrp: InterpolationType,
    pub op: InterpolationType,
}

/// What a track is worth at a frame: a stored value, or a blend that is still
/// to be computed from stored values.
#[derive(Debug, Clone, Copy)]
pub enum Sample {
    /// A stored value, taken over bit for bit.
    Exact(Scalar),
    /// The straight line from `p0` at frame `t0` to `p1` at frame `t1`, taken at
    /// `frame`.
    Linear { p0: Scalar, p1: Scalar, t0: Scalar, t1: Scalar, frame: Scalar },
    /// The cubic Hermite curve from `p0` at frame `t0` to `p1` at frame `t1`
    /// with end tangents `d0` and `d1`, taken at `frame`.
    Hermite {
        p0: Scalar,
        p1: Scalar,
        d0: Scalar,
        d1: Scalar,
        t0: Scalar,
        t1: Scalar,
        frame: Scalar,
    },
}

/// An animation channel: the keys that drive one joint component.
#[derive(Debug, Clone)]
pub struct Track {
    pub kind: TrackType,
    pub keys: Vec<Key>,
}

/// A track as a value: its channel and its keys in order.
pub struct TrackView {
    pub kind: TrackType,
    pub keys: Seq<Key>,
}

impl View for Track {
    type V = TrackView;

    open spec fn view(&self) -> TrackView {
        TrackView { kind: self.kind, keys: self.keys@ }
    }
}

/// The tracks of a list as values.
pub open spec fn track_views(tracks: Seq<Track>) -> Seq<TrackView> {
    tracks.map_values(|t: Track| t@)
}

/// A skeleton with its animation: the clamp bound of key frames, the model
/// whose bones carry the tracks, and the hurtboxes attached to it.
#[derive(Debug)]
pub struct Animation {
    pub frame_count: Scalar,
    pub model: Model,
    pub hurtboxes: Vec<Hurtbox>,
}

/// An animation as a value.
pub struct AnimationView {
    pub frame_count: Scalar,
    pub model: ModelView,
    pub hurtboxes: Seq<Hurtbox>,
}

impl View for Animation {
    type V = AnimationView;

    open spec fn view(&self) -> AnimationView {
        AnimationView {
            frame_count: self.frame_count,
            model: self.model@,
            hurtboxes: self.hurtboxes@,
        }
    }
}

/// A line that should describe a key does not.
#[derive(Debug, Clone, Copy)]
pub struct ParseKeyError;

/// A keyframe file could not be read as one.
#[derive(Debug, Clone, Copy)]
pub struct ParseFigaTreeError;

impl From<ParseKeyError> for ParseFigaTreeError {
    fn from(_error: ParseKeyError) -> (r: ParseFigaTreeError) {
        ParseFigaTreeError
    }
}

impl vstd::std_specs::convert::FromSpecImpl<ParseKeyError> for ParseFigaTreeError {
    open spec fn obeys_from_spec() -> bool {
        true
    }

    open spec fn from_spec(_error: ParseKeyError) -> ParseFigaTreeError {
        ParseFigaTreeError
    }
}

impl Key {
    /// A key from its four parts.
    pub fn new(
        frame: Scalar,
        value: Scalar,
        tan: Scalar,
        interpolation_type: InterpolationType,
    ) -> (r: Key)
        ensures
            r == (Key { frame, value, tan, interpolation_type }),
    {
        Key { frame, value, tan, interpolation_type }
    }
}

impl AnimState {
    /// The state before any key: every scalar is zero and both modes are
    /// constant.
    pub open spec fn rest() -> AnimState {
        AnimState {
            p0: Scalar::zero(),
            p1: Scalar::zero(),
            d0: Scalar::zero(),
            d1: Scalar::zero(),
            t0: Scalar::zero(),
            t1: Scalar::zero(),
            op_intrp: InterpolationType::HSD_A_OP_CON,
            op: InterpolationType::HSD_A_OP_CON,
        }
    }

    /// The segment of no length that sits on `key`: both ends carry the key's
    /// value, tangent and frame.
    pub open spec fn pinned(key: Key) -> AnimState {
        AnimState {
            p0: key.value,
            p1: key.value,
            d0: key.tan,
            d1: key.tan,
            t0: key.frame,
            t1: key.frame,
            op_intrp: key.interpolation_type,
            op: key.interpolation_type,
        }
    }

    /// The state after `key` has been consumed. The mode of the key before it
    /// becomes the governing mode.
    pub open spec fn consume(self, key: Key) -> AnimState {
        let entered = AnimState { op_intrp: self.op, op: key.interpolation_type, ..self };
        match key.interpolation_type {
            InterpolationType::HSD_A_OP_CON | InterpolationType::HSD_A_OP_LIN => {
                let shifted = AnimState {
                    p0: self.p1,
                    p1: key.value,
                    t0: self.t1,
                    t1: key.frame,
                    ..entered
                };
                if self.op != InterpolationType::HSD_A_OP_SLP {
                    AnimState { d0: self.d1, d1: Scalar::zero(), ..shifted }
                } else {
                    shifted
                }
            },
            InterpolationType::HSD_A_OP_SPL0 => AnimState {
                p0: self.p1,
                p1: key.value,
                d0: self.d1,
                d1: Scalar::zero(),
                t0: self.t1,
                t1: key.frame,
                ..entered
            },
            InterpolationType::HSD_A_OP_SPL => AnimState {
                p0: self.p1,
                p1: key.value,
                d0: self.d1,
                d1: key.tan,
                t0: self.t1,
                t1: key.frame,
                ..entered
            },
            InterpolationType::HSD_A_OP_SLP => AnimState { d0: self.d1, d1: key.tan, ..entered },
            InterpolationType::HSD_A_OP_KEY => AnimState { p0: key.value, p1: key.value, ..entered },
            InterpolationType::HSD_A_OP_NONE => entered,
        }
    }

    /// Whether a scan for `frame` ends in this state: the segment reaches
    /// beyond the frame, and the key consumed last is no slope key.
    pub open spec fn settles(self, frame: Scalar) -> bool {
        self.t1.gt(frame) && self.op != InterpolationType::HSD_A_OP_SLP
    }

    /// The state in which the next key is met when the scan goes on: the key
    /// consumed last now governs.
    pub open spec fn carried(self) -> AnimState {
        AnimState { op_intrp: self.op, ..self }
    }

    /// What the segment is worth at `frame`. A frame that hits one of the two
    /// bounds takes the stored value there; a segment of no length and a
    /// constant or fixed one take the first value; only then is anything
    /// blended.
    pub open spec fn sample(self, frame: Scalar) -> Sample {
        if frame.same(self.t0) {
            Sample::Exact(self.p0)
        } else if frame.same(self.t1) {
            Sample::Exact(self.p1)
        } else if self.t0.same(self.t1) || self.op_intrp == InterpolationType::HSD_A_OP_CON
            || self.op_intrp == InterpolationType::HSD_A_OP_KEY {
            Sample::Exact(self.p0)
        } else if self.op_intrp == InterpolationType::HSD_A_OP_LIN {
            Sample::Linear { p0: self.p0, p1: self.p1, t0: self.t0, t1: self.t1, frame }
        } else {
            Sample::Hermite {
                p0: self.p0,
                p1: self.p1,
                d0: self.d0,
                d1: self.d1,
                t0: self.t0,
                t1: self.t1,
                frame,
            }
        }
    }

    /// The state before any key.
    pub fn initial() -> (r: AnimState)
        ensures
            r == AnimState::rest(),
    {
        AnimState {
            p0: Scalar::zero(),
            p1: Scalar::zero(),
            d0: Scalar::zero(),
            d1: Scalar::zero(),
            t0: Scalar::zero(),
            t1: Scalar::zero(),
            op_intrp: InterpolationType::HSD_A_OP_CON,
            op: InterpolationType::HSD_A_OP_CON,
        }
    }

    /// Consumes one key.
    pub fn advance(self, key: &Key) -> (r: AnimState)
        ensures
            r == self.consume(*key),
    {
        let mut next = self;
        next.op_intrp = self.op;
        next.op = key.interpolation_type;
        match key.interpolation_type {
            InterpolationType::HSD_A_OP_CON | InterpolationType::HSD_A_OP_LIN => {
                next.p0 = self.p1;
                next.p1 = key.value;
                if self.op != InterpolationType::HSD_A_OP_SLP {
                    next.d0 = self.d1;
                    next.d1 = Scalar::zero();
                }
                next.t0 = self.t1;
                next.t1 = key.frame;
            },
            InterpolationType::HSD_A_OP_SPL0 => {
                next.p0 = self.p1;
                next.p1 = key.value;
                next.d0 = self.d1;
                next.d1 = Scalar::zero();
                next.t0 = self.t1;
                next.t1 = key.frame;
            },
            InterpolationType::HSD_A_OP_SPL => {
                next.p0 = self.p1;
                next.p1 = key.value;
                next.d0 = self.d1;
                next.d1 = key.tan;
                next.t0 = self.t1;
                next.t1 = key.frame;
            },
            InterpolationType::HSD_A_OP_SLP => {
                next.d0 = self.d1;
                next.d1 = key.tan;
            },
            InterpolationType::HSD_A_OP_KEY => {
                next.p0 = key.value;
                next.p1 = key.value;
            },
            InterpolationType::HSD_A_OP_NONE => {},
        }
        next
    }

    /// What the segment is worth at `frame`.
    pub fn sample_at(&self, frame: Scalar) -> (r: Sample)
        ensures
            r == self.sample(frame),
    {
        if frame.equals(self.t0) {
            Sample::Exact(self.p0)
        } else if frame.equals(self.t1) {
            Sample::Exact(self.p1)
        } else if self.t0.equals(self.t1) || self.op_intrp == InterpolationType::HSD_A_OP_CON
            || self.op_intrp == InterpolationType::HSD_A_OP_KEY {
            Sample::Exact(self.p0)
        } else if self.op_intrp == InterpolationType::HSD_A_OP_LIN {
            Sample::Linear { p0: self.p0, p1: self.p1, t0: self.t0, t1: self.t1, frame }
        } else {
            Sample::Hermite {
                p0: self.p0,
                p1: self.p1,
                d0: self.d0,
                d1: self.d1,
                t0: self.t0,
                t1: self.t1,
                frame,
            }
        }
    }
}

/// The greatest frame among the first `n` keys, and the place of the first key
/// that carries it. The search starts from the first key. A later key takes
/// over with a strictly greater frame, or with a frame that is a number where
/// none was found before: a frame that is no number is passed over. Without
/// keys the answer is frame zero at place 0.
pub open spec fn last_frame_upto(keys: Seq<Key>, n: int) -> (Scalar, int)
    decreases n,
{
    if n <= 0 {
        (Scalar::zero(), 0)
    } else if n == 1 {
        (keys[0].frame, 0)
    } else {
        let (m, index) = last_frame_upto(keys, n - 1);
        if keys[n - 1].frame.gt(m) || (m.is_nan() && !keys[n - 1].frame.is_nan()) {
            (keys[n - 1].frame, n - 1)
        } else {
            (m, index)
        }
    }
}

/// The greatest frame of a track and the place of the first key that carries
/// it; frame zero at place 0 for a track without keys.
pub open spec fn last_frame_of(keys: Seq<Key>) -> (Scalar, int) {
    last_frame_upto(keys, keys.len() as int)
}

/// The scan over the keys from place `from` on, entered in `state`.
pub open spec fn scan(keys: Seq<Key>, frame: Scalar, from: int, state: AnimState) -> AnimState
    decreases keys.len() - from,
{
    if from < 0 || from >= keys.len() {
        state
    } else {
        let next = state.consume(keys[from]);
        if next.settles(frame) {
            next
        } else {
            scan(keys, frame, from + 1, next.carried())
        }
    }
}

/// The segment on which a query for `frame` settles. At or beyond the
/// greatest frame of a track of several keys it is the segment of no length on
/// the first key that has that frame; otherwise the scan from the first key
/// decides.
pub open spec fn anim_state_of(keys: Seq<Key>, frame: Scalar) -> AnimState {
    let (last, index) = last_frame_of(keys);
    if keys.len() > 1 && frame.ge(last) {
        AnimState::pinned(keys[index])
    } else {
        scan(keys, frame, 0, AnimState::rest())
    }
}

/// What a track is worth at `frame`. At or beyond the greatest frame of a
/// track of several keys it is the value of the first key that has that frame,
/// as it is stored; otherwise it is read off the segment on which the scan
/// settles.
pub open spec fn sample_of(keys: Seq<Key>, frame: Scalar) -> Sample {
    let (last, index) = last_frame_of(keys);
    if keys.len() > 1 && frame.ge(last) {
        Sample::Exact(keys[index].value)
    } else {
        anim_state_of(keys, frame).sample(frame)
    }
}

/// Whether `value` is what a track is worth at `frame`: the stored value where
/// one is hit, and else a value that the kernel `blend` returned for the blend
/// that is due there.
pub open spec fn worth<F: Fn(Sample) -> Scalar>(
    keys: Seq<Key>,
    frame: Scalar,
    value: Scalar,
    blend: F,
) -> bool {
    match sample_of(keys, frame) {
        Sample::Exact(stored) => value == stored,
        due => blend.ensures((due,), value),
    }
}

impl Track {
    /// The greatest frame of the track and the place of the first key that
    /// carries it; frame zero at place 0 for a track without keys.
    pub fn last_frame(&self) -> (r: (Scalar, usize))
        ensures
            (r.0, r.1 as int) == last_frame_of(self.keys@),
            self.keys.len() == 0 ==> r == (Scalar::zero(), 0usize),
            self.keys.len() > 0 ==> r.1 < self.keys.len() && r.0 == self.keys@[r.1 as int].frame,
            forall|j: int| 0 <= j < self.keys.len() ==> !(#[trigger] self.keys@[j]).frame.gt(r.0),
            forall|j: int| 0 <= j < r.1 ==> !(#[trigger] self.keys@[j]).frame.ge(r.0),
            r.0.is_nan() ==> forall|j: int|
                0 <= j < self.keys.len() ==> (#[trigger] self.keys@[j]).frame.is_nan(),
    {
        if self.keys.len() == 0 {
            return (Scalar::zero(), 0);
        }
        proof {
            lemma_last_frame(self.keys@, self.keys.len() as int);
        }
        let mut index: usize = 0;
        let mut m = self.keys[0].frame;
        let mut i: usize = 1;
        while i < self.keys.len()
            invariant
                1 <= i <= self.keys.len(),
                (m, index as int) == last_frame_upto(self.keys@, i as int),
                index < i,
                m == self.keys@[index as int].frame,
            decreases self.keys.len() - i,
        {
            let frame = self.keys[i].frame;
            if frame.greater_than(m) || (m.nan() && !frame.nan()) {
                index = i;
                m = frame;
            }
            i += 1;
        }
        (m, index)
    }

    /// The scan over all keys, from the rest state.
    fn scan_keys(&self, frame: Scalar) -> (r: AnimState)
        ensures
            r == scan(self.keys@, frame, 0, AnimState::rest()),
    {
        let mut state = AnimState::initial();
        let mut i: usize = 0;
        while i < self.keys.len()
            invariant
                0 <= i <= self.keys.len(),
                scan(self.keys@, frame, 0, AnimState::rest()) == scan(
                    self.keys@,
                    frame,
                    i as int,
                    state,
                ),
            decreases self.keys.len() - i,
        {
            let next = state.advance(&self.keys[i]);
            assert(scan(self.keys@, frame, i as int, state) == if next.settles(frame) {
                next
            } else {
                scan(self.keys@, frame, i + 1, next.carried())
            });
            if next.t1.greater_than(frame) && next.op != InterpolationType::HSD_A_OP_SLP {
                return next;
            }
            state = next;
            state.op_intrp = next.op;
            i += 1;
        }
        state
    }

    /// The segment on which a query for `frame` settles.
    pub fn get_anim_state(&self, frame: Scalar) -> (r: AnimState)
        ensures
            r == anim_state_of(self.keys@, frame),
    {
        let (last_frame, last_frame_index) = self.last_frame();
        if self.keys.len() > 1 && frame.at_least(last_frame) {
            let key = &self.keys[last_frame_index];
            AnimState {
                p0: key.value,
                p1: key.value,
                d0: key.tan,
                d1: key.tan,
                t0: key.frame,
                t1: key.frame,
                op_intrp: key.interpolation_type,
                op: key.interpolation_type,
            }
        } else {
            self.scan_keys(frame)
        }
    }

    /// What the track is worth at `frame`, before any blending.
    pub fn get_sample(&self, frame: Scalar) -> (r: Sample)
        ensures
            r == sample_of(self.keys@, frame),
    {
        let (last_frame, last_frame_index) = self.last_frame();
        if self.keys.len() > 1 && frame.at_least(last_frame) {
            Sample::Exact(self.keys[last_frame_index].value)
        } else {
            let state = self.scan_keys(frame);
            state.sample_at(frame)
        }
    }

    /// The value of the track at `frame`. A stored value is returned as it is;
    /// a blend is computed by `blend`, which is called at most once and only
    /// with a blend.
    pub fn get_value<F: Fn(Sample) -> Scalar>(&self, frame: Scalar, blend: &F) -> (r: Scalar)
        requires
            forall|s: Sample| !(s is Exact) ==> blend.requires((s,)),
        ensures
            worth(self.keys@, frame, r, *blend),
    {
        let sample = self.get_sample(frame);
        match sample {
            Sample::Exact(value) => value,
            _ => blend(sample),
        }
    }
}

/// The last frame of a track with keys is the frame of the key found. No key
/// has a greater frame, and no key before the one found has a frame as great.
/// It is a number where the frame of any key is.
pub proof fn lemma_last_frame(keys: Seq<Key>, n: int)
    requires
        0 < n <= keys.len(),
    ensures
        ({
            let (m, index) = last_frame_upto(keys, n);
            &&& 0 <= index < n
            &&& keys[index].frame == m
            &&& forall|j: int| 0 <= j < n ==> !(#[trigger] keys[j]).frame.gt(m)
            &&& forall|j: int| 0 <= j < index ==> !(#[trigger] keys[j]).frame.ge(m)
            &&& m.is_nan() ==> forall|j: int| 0 <= j < n ==> (#[trigger] keys[j]).frame.is_nan()
        }),
    decreases n,
{
    if n > 1 {
        lemma_last_frame(keys, n - 1);
    }
}

/// Whether a track that holds `key` alone is worth the key's own value at
/// `frame`.
///
/// A fixed key always is. A key of another mode is met from the rest state, so
/// its segment runs from value zero at frame zero to the key: the key's value
/// is returned at the key's own frame (unless that is frame zero, where the
/// rest value wins), and elsewhere only a stored zero can come back.
pub open spec fn lone_key_keeps_value(key: Key, frame: Scalar) -> bool {
    match key.interpolation_type {
        InterpolationType::HSD_A_OP_KEY => true,
        InterpolationType::HSD_A_OP_NONE | InterpolationType::HSD_A_OP_SLP => key.value
            == Scalar::zero(),
        mode => if frame.same(Scalar::zero()) {
            key.value == Scalar::zero()
        } else if frame.same(key.frame) {
            true
        } else {
            key.value == Scalar::zero() && (key.frame.same(Scalar::zero()) || key.frame.gt(frame)
                || mode == InterpolationType::HSD_A_OP_CON)
        },
    }
}

/// A track of one key is worth that key's value exactly on the queries that
/// [`lone_key_keeps_value`] admits, and on no others.
pub proof fn lemma_single_key(key: Key, frame: Scalar)
    ensures
        sample_of(seq![key], frame) == Sample::Exact(key.value) <==> lone_key_keeps_value(
            key,
            frame,
        ),
{
    let keys = seq![key];
    let next = AnimState::rest().consume(key);
    assert(keys[0] == key);
    assert(scan(keys, frame, 1, next.carried()) == next.carried());
    assert(scan(keys, frame, 0, AnimState::rest()) == if next.settles(frame) {
        next
    } else {
        next.carried()
    });
}

/// A track of one fixed key is worth that key's value at every frame.
pub proof fn lemma_single_fixed_key(key: Key, frame: Scalar)
    requires
        key.interpolation_type == InterpolationType::HSD_A_OP_KEY,
    ensures
        sample_of(seq![key], frame) == Sample::Exact(key.value),
{
    lemma_single_key(key, frame);
}

/// A query that lands on a bound of the segment it settles on is worth the
/// value stored at that bound, bit for bit: nothing is blended.
pub proof fn lemma_bounds_are_exact(keys: Seq<Key>, frame: Scalar)
    ensures
        frame.same(anim_state_of(keys, frame).t0) ==> sample_of(keys, frame) == Sample::Exact(
            anim_state_of(keys, frame).p0,
        ),
        !frame.same(anim_state_of(keys, frame).t0) && frame.same(anim_state_of(keys, frame).t1)
            ==> sample_of(keys, frame) == Sample::Exact(anim_state_of(keys, frame).p1),
{
}

/// Whether a key of this mode moves the segment on to itself.
pub open spec fn is_shifting(mode: InterpolationType) -> bool {
    mode == InterpolationType::HSD_A_OP_CON || mode == InterpolationType::HSD_A_OP_LIN || mode
        == InterpolationType::HSD_A_OP_SPL0 || mode == InterpolationType::HSD_A_OP_SPL
}

/// A track in running order: every key moves the segment on, and the frames
/// strictly increase.
pub open spec fn ascending(keys: Seq<Key>) -> bool {
    &&& forall|i: int| 0 <= i < keys.len() ==> is_shifting((#[trigger] keys[i]).interpolation_type)
    &&& forall|i: int, j: int|
        0 <= i < j < keys.len() ==> (#[trigger] keys[i]).frame.lt((#[trigger] keys[j]).frame)
}

/// The state in which key `n` is met when none of the keys before it ended the
/// scan.
pub open spec fn state_before(keys: Seq<Key>, n: int) -> AnimState
    decreases n,
{
    if n <= 0 {
        AnimState::rest()
    } else {
        state_before(keys, n - 1).consume(keys[n - 1]).carried()
    }
}

proof fn lemma_scan_skips(keys: Seq<Key>, frame: Scalar, n: int)
    requires
        0 <= n <= keys.len(),
        forall|k: int| 0 <= k < n ==> is_shifting((#[trigger] keys[k]).interpolation_type),
        forall|k: int| 0 <= k < n ==> !(#[trigger] keys[k]).frame.gt(frame),
    ensures
        scan(keys, frame, 0, AnimState::rest()) == scan(keys, frame, n, state_before(keys, n)),
        n > 0 ==> state_before(keys, n).p1 == keys[n - 1].value,
        n > 0 ==> state_before(keys, n).t1 == keys[n - 1].frame,
    decreases n,
{
    if n > 0 {
        lemma_scan_skips(keys, frame, n - 1);
        let before = state_before(keys, n - 1);
        let next = before.consume(keys[n - 1]);
        assert(is_shifting(keys[n - 1].interpolation_type));
        assert(next.t1 == keys[n - 1].frame);
        assert(!next.settles(frame));
        assert(scan(keys, frame, n - 1, before) == scan(keys, frame, n, next.carried()));
    }
}

/// In a track in running order the last frame is that of the last key.
pub proof fn lemma_last_key_of_ascending(keys: Seq<Key>)
    requires
        ascending(keys),
        keys.len() > 0,
    ensures
        last_frame_of(keys) == (keys[keys.len() - 1].frame, keys.len() - 1),
{
    let n = keys.len() as int;
    let (m, index) = last_frame_of(keys);
    lemma_last_frame(keys, n);
    assert(!keys[n - 1].frame.gt(m));
    assert(index == n - 1) by {
        if index < n - 1 {
            assert(keys[index].frame.lt(keys[n - 1].frame));
        }
    }
}

/// Whether the key at place `k` is the key of greatest frame: its frame is a
/// number, no key has a greater one, and no key before it has the same.
pub open spec fn is_greatest_key(keys: Seq<Key>, k: int) -> bool {
    &&& 0 <= k < keys.len()
    &&& !keys[k].frame.is_nan()
    &&& forall|j: int| 0 <= j < keys.len() ==> !(#[trigger] keys[j]).frame.gt(keys[k].frame)
    &&& forall|j: int| 0 <= j < k ==> !(#[trigger] keys[j]).frame.same(keys[k].frame)
}

/// The last frame of a track is the frame of its key of greatest frame, found
/// at the place of that key.
pub proof fn lemma_last_frame_is_greatest(keys: Seq<Key>, k: int)
    requires
        is_greatest_key(keys, k),
    ensures
        last_frame_of(keys) == (keys[k].frame, k),
{
    let (m, index) = last_frame_of(keys);
    lemma_last_frame(keys, keys.len() as int);
    assert(!keys[k].frame.gt(m));
    assert(!keys[index].frame.gt(keys[k].frame));
    assert(!m.is_nan()) by {
        if m.is_nan() {
            assert(keys[k].frame.is_nan());
        }
    }
    assert(keys[index].frame.same(keys[k].frame));
    if index < k {
        assert(!keys[index].frame.same(keys[k].frame));
    }
    if k < index {
        assert(!keys[k].frame.ge(m));
    }
}

/// At or beyond its greatest frame, a track of several keys is pinned on the
/// first key that has that frame, and is worth the value of that key as it is
/// stored.
pub proof fn lemma_clamped_to_greatest_key(keys: Seq<Key>, k: int, frame: Scalar)
    requires
        keys.len() > 1,
        is_greatest_key(keys, k),
        frame.ge(keys[k].frame),
    ensures
        anim_state_of(keys, frame) == AnimState::pinned(keys[k]),
        sample_of(keys, frame) == Sample::Exact(keys[k].value),
{
    lemma_last_frame_is_greatest(keys, k);
}

/// At or beyond the frame of its last key, a track of several keys in running
/// order is worth the value of that key.
pub proof fn lemma_clamped_to_last_key(keys: Seq<Key>, frame: Scalar)
    requires
        ascending(keys),
        keys.len() > 1,
        frame.ge(keys[keys.len() - 1].frame),
    ensures
        sample_of(keys, frame) == Sample::Exact(keys[keys.len() - 1].value),
{
    lemma_last_key_of_ascending(keys);
}

/// In a track of several keys in running order, the track is worth at the
/// frame of each key exactly the value of that key.
pub proof fn lemma_key_frames_are_exact(keys: Seq<Key>, i: int)
    requires
        ascending(keys),
        keys.len() > 1,
        0 <= i < keys.len(),
    ensures
        sample_of(keys, keys[i].frame) == Sample::Exact(keys[i].value),
{
    let frame = keys[i].frame;
    let n = keys.len() as int;
    let (m, index) = last_frame_of(keys);
    lemma_last_key_of_ascending(keys);
    if i == n - 1 {
        assert(frame.ge(m));
    } else {
        assert(keys[i].frame.lt(keys[n - 1].frame));
        assert(!frame.ge(m));
        assert forall|k: int| 0 <= k < i + 1 implies !(#[trigger] keys[k]).frame.gt(frame) by {
            if k < i {
                assert(keys[k].frame.lt(keys[i].frame));
            }
        }
        lemma_scan_skips(keys, frame, i + 1);
        let before = state_before(keys, i + 1);
        let next = before.consume(keys[i + 1]);
        assert(is_shifting(keys[i + 1].interpolation_type));
        assert(keys[i].frame.lt(keys[i + 1].frame));
        assert(next.settles(frame));
        assert(scan(keys, frame, i + 1, before) == next);
        assert(next.t0 == frame);
        assert(next.p0 == keys[i].value);
    }
}

/// A copy of the tracks.
pub fn copy_tracks(tracks: &Vec<Track>) -> (r: Vec<Track>)
    ensures
        track_views(r@) == track_views(tracks@),
{
    let mut out: Vec<Track> = Vec::new();
    let mut i: usize = 0;
    while i < tracks.len()
        invariant
            0 <= i <= tracks.len(),
            out.len() == i,
            forall|k: int| 0 <= k < i ==> (#[trigger] out@[k])@ == tracks@[k]@,
        decreases tracks.len() - i,
    {
        let track = Track { kind: tracks[i].kind, keys: copy_keys(&tracks[i].keys) };
        out.push(track);
        i += 1;
    }
    assert(track_views(out@) =~= track_views(tracks@));
    out
}

/// A copy of the keys.
pub fn copy_keys(keys: &Vec<Key>) -> (r: Vec<Key>)
    ensures
        r@ == keys@,
{
    let mut out: Vec<Key> = Vec::new();
    let mut i: usize = 0;
    while i < keys.len()
        invariant
            0 <= i <= keys.len(),
            out@ == keys@.subrange(0, i as int),
        decreases keys.len() - i,
    {
        out.push(keys[i]);
        assert(keys@.subrange(0, i + 1) =~= keys@.subrange(0, i as int).push(keys@[i as int]));
        i += 1;
    }
    assert(keys@.subrange(0, keys.len() as int) =~= keys@);
    out
}

/// One of the three axes of space.
#[derive(Debug, PartialEq, Eq, Clone, Copy, Structural)]
pub enum Axis {
    X,
    Y,
    Z,
}

/// The coordinate of a point along an axis.
pub open spec fn coordinate(point: (Scalar, Scalar, Scalar), axis: Axis) -> Scalar {
    match axis {
        Axis::X => point.0,
        Axis::Y => point.1,
        Axis::Z => point.2,
    }
}

/// The places in the list of the first `n` hurtboxes whose bone index the map
/// holds, in order.
pub open spec fn attached(hurtboxes: Seq<Hurtbox>, indexes: Map<i32, usize>, n: int) -> Seq<int>
    decreases n,
{
    if n <= 0 {
        Seq::empty()
    } else if indexes.contains_key(hurtboxes[n - 1].bone_index) {
        attached(hurtboxes, indexes, n - 1).push(n - 1)
    } else {
        attached(hurtboxes, indexes, n - 1)
    }
}

/// Whether `out` is the hurtbox as it lies in the plane of the two axes: both
/// ends of its axis are what the kernel `place` made of them under the
/// transform that its bone counts as having, read along `horizontal` and
/// `vertical`, and the size is the size of the hurtbox.
pub open spec fn flattened<M: Fn(Transform, Scalar, Scalar, Scalar) -> (
    Scalar,
    Scalar,
    Scalar,
)>(
    hurtbox: Hurtbox,
    transform: Transform,
    horizontal: Axis,
    vertical: Axis,
    out: (Point2<Scalar>, Point2<Scalar>, Scalar),
    place: M,
) -> bool {
    exists|a: (Scalar, Scalar, Scalar), b: (Scalar, Scalar, Scalar)|
        {
            &&& place.ensures((transform, hurtbox.x1, hurtbox.y1, hurtbox.z1), a)
            &&& place.ensures((transform, hurtbox.x2, hurtbox.y2, hurtbox.z2), b)
            &&& out.0 == (Point2 { x: coordinate(a, horizontal), y: coordinate(a, vertical) })
            &&& out.1 == (Point2 { x: coordinate(b, horizontal), y: coordinate(b, vertical) })
            &&& out.2 == hurtbox.size
        }
}

/// Whether `out` holds, in order, the hurtboxes whose bone the skeleton has,
/// each as it lies in the plane under the transform of its bone. A hurtbox
/// whose bone index the map does not hold is left out.
pub open spec fn hurtboxes_flattened<M: Fn(Transform, Scalar, Scalar, Scalar) -> (
    Scalar,
    Scalar,
    Scalar,
)>(
    hurtboxes: Seq<Hurtbox>,
    bones: Seq<BoneView>,
    indexes: Map<i32, usize>,
    horizontal: Axis,
    vertical: Axis,
    out: Seq<(Point2<Scalar>, Point2<Scalar>, Scalar)>,
    place: M,
) -> bool {
    let found = attached(hurtboxes, indexes, hurtboxes.len() as int);
    &&& out.len() == found.len()
    &&& forall|k: int|
        0 <= k < found.len() ==> flattened(
            hurtboxes[found[k]],
            transform_of(bones[indexes[hurtboxes[found[k]].bone_index] as int]),
            horizontal,
            vertical,
            #[trigger] out[k],
            place,
        )
}

impl Model {
    /// The hurtboxes as they lie in the plane of two axes under the transforms
    /// that the bones have now.
    pub fn project_hurtboxes<M: Fn(Transform, Scalar, Scalar, Scalar) -> (
        Scalar,
        Scalar,
        Scalar,
    )>(
        &self,
        hurtboxes: &Vec<Hurtbox>,
        horizontal: Axis,
        vertical: Axis,
        place: &M,
    ) -> (r: Vec<(Point2<Scalar>, Point2<Scalar>, Scalar)>)
        requires
            self.indexes_fit(),
            forall|t: Transform, x: Scalar, y: Scalar, z: Scalar|
                place.requires((t, x, y, z)),
        ensures
            hurtboxes_flattened(
                hurtboxes@,
                bone_views(self.bones@),
                self.indexes@,
                horizontal,
                vertical,
                r@,
                *place,
            ),
    {
        let mut out: Vec<(Point2<Scalar>, Point2<Scalar>, Scalar)> = Vec::new();
        let mut i: usize = 0;
        while i < hurtboxes.len()
            invariant
                0 <= i <= hurtboxes.len(),
                self.indexes_fit(),
                forall|t: Transform, x: Scalar, y: Scalar, z: Scalar|
                    place.requires((t, x, y, z)),
                out.len() == attached(hurtboxes@, self.indexes@, i as int).len(),
                forall|k: int|
                    0 <= k < out.len() ==> flattened(
                        hurtboxes@[attached(hurtboxes@, self.indexes@, i as int)[k]],
                        transform_of(
                            bone_views(
                                self.bones@,
                            )[self.indexes@[hurtboxes@[attached(
                                hurtboxes@,
                                self.indexes@,
                                i as int,
                            )[k]].bone_index] as int],
                        ),
                        horizontal,
                        vertical,
                        #[trigger] out@[k],
                        *place,
                    ),
            decreases hurtboxes.len() - i,
        {
            let hurtbox = hurtboxes[i];
            match self.position(hurtbox.bone_index) {
                Some(at) => {
                    let transform = self.bones[at].transform();
                    assert(bone_views(self.bones@)[at as int] == self.bones@[at as int]@);
                    let a = place(transform, hurtbox.x1, hurtbox.y1, hurtbox.z1);
                    let b = place(transform, hurtbox.x2, hurtbox.y2, hurtbox.z2);
                    let flat = (
                        Point2 {
                            x: Model::along(a, horizontal),
                            y: Model::along(a, vertical),
                        },
                        Point2 {
                            x: Model::along(b, horizontal),
                            y: Model::along(b, vertical),
                        },
                        hurtbox.size,
                    );
                    proof {
                        let before = attached(hurtboxes@, self.indexes@, i as int);
                        let after = attached(hurtboxes@, self.indexes@, i + 1);
                        assert(after == before.push(i as int));
                        assert(flattened(hurtbox, transform, horizontal, vertical, flat, *place));
                        let grown = out@.push(flat);
                        assert forall|k: int| 0 <= k < grown.len() implies flattened(
                            hurtboxes@[after[k]],
                            transform_of(
                                bone_views(
                                    self.bones@,
                                )[self.indexes@[hurtboxes@[after[k]].bone_index] as int],
                            ),
                            horizontal,
                            vertical,
                            #[trigger] grown[k],
                            *place,
                        ) by {
                            if k < out.len() {
                                assert(grown[k] == out@[k]);
                                assert(after[k] == before[k]);
                            }
                        }
                    }
                    out.push(flat);
                },
                None => {},
            }
            i += 1;
        }
        out
    }

    /// The coordinate of a point along an axis.
    fn along(point: (Scalar, Scalar, Scalar), axis: Axis) -> (r: Scalar)
        ensures
            r == coordinate(point, axis),
    {
        match axis {
            Axis::X => point.0,
            Axis::Y => point.1,
            Axis::Z => point.2,
        }
    }
}

impl Animation {
    /// The animation of a model: no frames, no hurtboxes.
    pub fn from_model(model: Model) -> (r: Animation)
        ensures
            r.model == model,
            r.frame_count == Scalar::zero(),
            r.hurtboxes@ == Seq::<Hurtbox>::empty(),
    {
        Animation { model, frame_count: Scalar::zero(), hurtboxes: Vec::new() }
    }

    /// Puts the given hurtboxes in the place of those attached before.
    pub fn attach_hurtboxes(&mut self, hurtboxes: Vec<Hurtbox>)
        ensures
            final(self).hurtboxes == hurtboxes,
            final(self).model == old(self).model,
            final(self).frame_count == old(self).frame_count,
    {
        self.hurtboxes = hurtboxes;
    }

    /// The skeleton at `frame`: a copy of the model whose joints are driven to
    /// the frame and whose bones are posed from them. The animation itself is
    /// left as it is.
    pub fn get_frame_model<
        B: Fn(Sample) -> Scalar,
        P: Fn(Option<Transform>, Joint) -> Transform,
    >(
        &self,
        frame: Scalar,
        blend: &B,
        pose: &P,
    ) -> (r: Model)
        requires
            self.model.indexes_fit(),
            forall|s: Sample| !(s is Exact) ==> blend.requires((s,)),
            forall|t: Option<Transform>, j: Joint| pose.requires((t, j)),
        ensures
            frame_posed(
                bone_views(self.model.bones@),
                bone_views(r.bones@),
                self.model.indexes@,
                self.model.root_bone_index,
                frame,
                *blend,
                *pose,
            ),
            r.indexes@ == self.model.indexes@,
            r.root_bone_index == self.model.root_bone_index,
            r.indexes_fit(),
    {
        let mut anim_model = self.model.duplicate();
        assert(bone_views(anim_model.bones@).len() == bone_views(self.model.bones@).len());
        anim_model.compute_frame_transform(frame, blend, pose);
        assert(bone_views(anim_model.bones@).len() == bone_views(self.model.bones@).len());
        anim_model
    }

    /// The hurtboxes at `frame` as they lie in the plane of two axes: the
    /// skeleton is posed at the frame, and every hurtbox whose bone it has is
    /// placed under the transform of that bone.
    pub fn project_hurtboxes<
        B: Fn(Sample) -> Scalar,
        P: Fn(Option<Transform>, Joint) -> Transform,
        M: Fn(Transform, Scalar, Scalar, Scalar) -> (Scalar, Scalar, Scalar),
    >(
        &self,
        frame: Scalar,
        horizontal: Axis,
        vertical: Axis,
        blend: &B,
        pose: &P,
        place: &M,
    ) -> (r: Vec<(Point2<Scalar>, Point2<Scalar>, Scalar)>)
        requires
            self.model.indexes_fit(),
            forall|s: Sample| !(s is Exact) ==> blend.requires((s,)),
            forall|t: Option<Transform>, j: Joint| pose.requires((t, j)),
            forall|t: Transform, x: Scalar, y: Scalar, z: Scalar|
                place.requires((t, x, y, z)),
        ensures
            exists|posed: Seq<BoneView>|
                {
                    &&& frame_posed(
                        bone_views(self.model.bones@),
                        posed,
                        self.model.indexes@,
                        self.model.root_bone_index,
                        frame,
                        *blend,
                        *pose,
                    )
                    &&& hurtboxes_flattened(
                        self.hurtboxes@,
                        posed,
                        self.model.indexes@,
                        horizontal,
                        vertical,
                        r@,
                        *place,
                    )
                },
    {
        let model = self.get_frame_model(frame, blend, pose);
        let flat = model.project_hurtboxes(&self.hurtboxes, horizontal, vertical, place);
        proof {
            let posed = bone_views(model.bones@);
            assert(frame_posed(
                bone_views(self.model.bones@),
                posed,
                self.model.indexes@,
                self.model.root_bone_index,
                frame,
                *blend,
                *pose,
            ) && hurtboxes_flattened(
                self.hurtboxes@,
                posed,
                self.model.indexes@,
                horizontal,
                vertical,
                flat@,
                *place,
            ));
        }
        flat
    }

    /// The hurtboxes at `frame` seen from the side: [`Animation::project_hurtboxes`]
    /// with the depth axis as the horizontal and the height axis as the
    /// vertical.
    pub fn get_frame_hurtboxes_2d<
        B: Fn(Sample) -> Scalar,
        P: Fn(Option<Transform>, Joint) -> Transform,
        M: Fn(Transform, Scalar, Scalar, Scalar) -> (Scalar, Scalar, Scalar),
    >(&self, frame: Scalar, blend: &B, pose: &P, place: &M) -> (r: Vec<
        (Point2<Scalar>, Point2<Scalar>, Scalar),
    >)
        requires
            self.model.indexes_fit(),
            forall|s: Sample| !(s is Exact) ==> blend.requires((s,)),
            forall|t: Option<Transform>, j: Joint| pose.requires((t, j)),
            forall|t: Transform, x: Scalar, y: Scalar, z: Scalar|
                place.requires((t, x, y, z)),
        ensures
            exists|posed: Seq<BoneView>|
                {
                    &&& frame_posed(
                        bone_views(self.model.bones@),
                        posed,
                        self.model.indexes@,
                        self.model.root_bone_index,
                        frame,
                        *blend,
                        *pose,
                    )
                    &&& hurtboxes_flattened(
                        self.hurtboxes@,
                        posed,
                        self.model.indexes@,
                        Axis::Z,
                        Axis::Y,
                        r@,
                        *place,
                    )
                },
    {
        self.project_hurtboxes(frame, Axis::Z, Axis::Y, blend, pose, place)
    }
}

} // verus!
