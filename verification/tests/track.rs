use melee_anim_rs::animation::{AnimState, InterpolationType, Key, Sample, Track, TrackType};
use melee_anim_rs::scalar::Scalar;
use std::cell::Cell;

use InterpolationType::{
    HSD_A_OP_CON, HSD_A_OP_KEY, HSD_A_OP_LIN, HSD_A_OP_NONE, HSD_A_OP_SLP, HSD_A_OP_SPL,
    HSD_A_OP_SPL0,
};

fn scalar(value: f32) -> Scalar {
    Scalar::from_bits(value.to_bits())
}

fn number(value: Scalar) -> f32 {
    f32::from_bits(value.to_bits())
}

fn key(frame: f32, value: f32, tan: f32, mode: InterpolationType) -> Key {
    Key::new(scalar(frame), scalar(value), scalar(tan), mode)
}

fn track(keys: Vec<Key>) -> Track {
    Track { kind: TrackType::HSD_A_J_ROTX, keys }
}

fn lerp(lhs: f32, rhs: f32, weight: f32) -> f32 {
    lhs * (1. - weight) + rhs * weight
}

fn hermite(fterm: f32, time: f32, p0: f32, p1: f32, d0: f32, d1: f32) -> f32 {
    let fvar1 = time * time;
    let mut fvar2 = fterm * fterm * time * fvar1;
    let fvar3 = 3. * fvar1 * fterm * fterm;
    let fvar4 = fvar2 - fvar1 * fterm;
    fvar2 = 2. * fvar2 * fterm;
    d1 * fvar4 + d0 * (time + (fvar4 - fvar1 * fterm)) + p0 * (1. + (fvar2 - fvar3))
        + p1 * (-fvar2 + fvar3)
}

fn blend(sample: Sample) -> Scalar {
    match sample {
        Sample::Exact(_) => panic!("a stored value needs no blending"),
        Sample::Linear { p0, p1, t0, t1, frame } => {
            let weight = (number(frame) - number(t0)) / (number(t1) - number(t0));
            scalar(lerp(number(p0), number(p1), weight))
        }
        Sample::Hermite { p0, p1, d0, d1, t0, t1, frame } => scalar(hermite(
            1. / (number(t1) - number(t0)),
            number(frame) - number(t0),
            number(p0),
            number(p1),
            number(d0),
            number(d1),
        )),
    }
}

fn value_at(track: &Track, frame: f32) -> f32 {
    number(track.get_value(scalar(frame), &blend))
}

fn bits(state: &AnimState) -> [u32; 6] {
    [
        state.p0.to_bits(),
        state.p1.to_bits(),
        state.d0.to_bits(),
        state.d1.to_bits(),
        state.t0.to_bits(),
        state.t1.to_bits(),
    ]
}

fn floats(values: [f32; 6]) -> [u32; 6] {
    values.map(|v| v.to_bits())
}

#[test]
fn linear_track_at_three_frames() {
    let t = track(vec![key(0., 0., 0., HSD_A_OP_LIN), key(10., 100., 0., HSD_A_OP_LIN)]);
    assert_eq!(value_at(&t, 5.), 50.0);
    assert_eq!(value_at(&t, 10.), 100.0);
    assert_eq!(value_at(&t, 15.), 100.0);
}

#[test]
fn linear_blend_is_handed_over_with_its_ends() {
    let t = track(vec![key(0., 0., 0., HSD_A_OP_LIN), key(10., 100., 0., HSD_A_OP_LIN)]);
    match t.get_sample(scalar(2.5)) {
        Sample::Linear { p0, p1, t0, t1, frame } => {
            assert_eq!(number(p0), 0.);
            assert_eq!(number(p1), 100.);
            assert_eq!(number(t0), 0.);
            assert_eq!(number(t1), 10.);
            assert_eq!(number(frame), 2.5);
        }
        other => panic!("{other:?}"),
    }
    assert_eq!(value_at(&t, 2.5), 25.0);
}

#[test]
fn a_lone_fixed_key_is_worth_its_value_at_every_frame() {
    let t = track(vec![key(7., 0.3, 0., HSD_A_OP_KEY)]);
    for frame in [-5., -0., 0., 0.1, 7., 7.5, 1000., f32::INFINITY, f32::NAN] {
        let got = t.get_value(scalar(frame), &blend);
        assert_eq!(got.to_bits(), 0.3f32.to_bits(), "{frame}");
        assert!(matches!(t.get_sample(scalar(frame)), Sample::Exact(_)));
    }
}

#[test]
fn a_lone_linear_key_is_met_from_the_rest_state() {
    let t = track(vec![key(10., 100., 0., HSD_A_OP_LIN)]);
    assert_eq!(value_at(&t, 10.), 100.);
    assert_eq!(t.get_value(scalar(5.), &blend).to_bits(), 0);
    assert_eq!(t.get_value(scalar(0.), &blend).to_bits(), 0);
    assert_eq!(value_at(&t, 20.), 200.);
}

#[test]
fn a_lone_key_at_its_own_frame_is_worth_its_value() {
    for mode in [HSD_A_OP_CON, HSD_A_OP_LIN, HSD_A_OP_SPL0, HSD_A_OP_SPL, HSD_A_OP_KEY] {
        let t = track(vec![key(3., 0.7, 0.2, mode)]);
        assert_eq!(t.get_value(scalar(3.), &blend).to_bits(), 0.7f32.to_bits(), "{mode:?}");
    }
}

#[test]
fn a_lone_slope_or_empty_key_leaves_the_rest_value() {
    for mode in [HSD_A_OP_NONE, HSD_A_OP_SLP] {
        let t = track(vec![key(3., 0.7, 0.2, mode)]);
        for frame in [0., 1., 3., 4.] {
            assert_eq!(t.get_value(scalar(frame), &blend).to_bits(), 0, "{mode:?} {frame}");
        }
    }
}

#[test]
fn an_empty_track_is_worth_zero() {
    let t = track(vec![]);
    assert_eq!(t.last_frame().0.to_bits(), 0);
    assert_eq!(t.last_frame().1, 0);
    for frame in [-1., 0., 1.] {
        assert_eq!(t.get_value(scalar(frame), &blend).to_bits(), 0);
    }
}

#[test]
fn last_frame_is_the_greatest_frame() {
    let t = track(vec![
        key(4., 0., 0., HSD_A_OP_LIN),
        key(9., 0., 0., HSD_A_OP_LIN),
        key(2., 0., 0., HSD_A_OP_LIN),
    ]);
    let (frame, index) = t.last_frame();
    assert_eq!(number(frame), 9.);
    assert_eq!(index, 1);
}

#[test]
fn last_frame_takes_the_first_of_equal_frames() {
    let t = track(vec![
        key(1., 0., 0., HSD_A_OP_LIN),
        key(9., 1., 0., HSD_A_OP_LIN),
        key(9., 2., 0., HSD_A_OP_LIN),
        key(9., 3., 0., HSD_A_OP_LIN),
    ]);
    assert_eq!(t.last_frame().1, 1);
    assert_eq!(value_at(&t, 9.), 1.);
    assert_eq!(value_at(&t, 50.), 1.);
}

#[test]
fn last_frame_is_the_greatest_frame_below_zero_too() {
    let t = track(vec![
        key(-4., 0., 0., HSD_A_OP_LIN),
        key(-2., 0., 0., HSD_A_OP_LIN),
        key(-3., 0., 0., HSD_A_OP_LIN),
    ]);
    let (frame, index) = t.last_frame();
    assert_eq!(number(frame), -2.);
    assert_eq!(index, 1);
    let one = track(vec![key(-7., 0., 0., HSD_A_OP_LIN)]);
    assert_eq!(number(one.last_frame().0), -7.);
    assert_eq!(one.last_frame().1, 0);
    let zero = track(vec![key(-0., 0., 0., HSD_A_OP_LIN), key(0., 0., 0., HSD_A_OP_LIN)]);
    assert_eq!(zero.last_frame().0.to_bits(), (-0.0f32).to_bits());
    assert_eq!(zero.last_frame().1, 0);
}

#[test]
fn a_track_below_frame_zero_is_clamped_to_its_key_of_greatest_frame() {
    let t = track(vec![key(-5., 1., 0.5, HSD_A_OP_LIN), key(-3., 2., 0.25, HSD_A_OP_LIN)]);
    for frame in [-3., -1., 0., 4.] {
        let state = t.get_anim_state(scalar(frame));
        assert_eq!(bits(&state), floats([2., 2., 0.25, 0.25, -3., -3.]));
        assert_eq!(state.op_intrp, HSD_A_OP_LIN);
        assert_eq!(state.op, HSD_A_OP_LIN);
        assert_eq!(value_at(&t, frame), 2.);
    }
    assert_eq!(value_at(&t, -5.), 1.);
    assert_eq!(value_at(&t, -4.), lerp(1., 2., 0.5));
    let t = track(vec![key(-3., 7., 0., HSD_A_OP_LIN), key(-5., 9., 0., HSD_A_OP_LIN)]);
    assert_eq!(t.last_frame().1, 0);
    assert_eq!(value_at(&t, -3.), 7.);
    assert_eq!(value_at(&t, 0.), 7.);
}

#[test]
fn frames_that_are_no_numbers_are_passed_over_wherever_they_stand() {
    let t = track(vec![
        key(f32::NAN, 0., 0., HSD_A_OP_LIN),
        key(-3., 0., 0., HSD_A_OP_LIN),
        key(f32::NAN, 0., 0., HSD_A_OP_LIN),
        key(-1., 0., 0., HSD_A_OP_LIN),
    ]);
    let (frame, index) = t.last_frame();
    assert_eq!(number(frame), -1.);
    assert_eq!(index, 3);
    let none =
        track(vec![key(f32::NAN, 0., 0., HSD_A_OP_LIN), key(f32::NAN, 0., 0., HSD_A_OP_LIN)]);
    assert!(number(none.last_frame().0).is_nan());
    assert_eq!(none.last_frame().1, 0);
}

#[test]
fn last_frame_passes_over_nan() {
    let t = track(vec![
        key(f32::NAN, 0., 0., HSD_A_OP_LIN),
        key(3., 0., 0., HSD_A_OP_LIN),
        key(f32::NAN, 0., 0., HSD_A_OP_LIN),
    ]);
    let (frame, index) = t.last_frame();
    assert_eq!(number(frame), 3.);
    assert_eq!(index, 1);
}

#[test]
fn at_or_beyond_the_last_frame_the_state_sits_on_the_last_key() {
    let t = track(vec![key(0., 1., 0.5, HSD_A_OP_LIN), key(10., 2., 0.25, HSD_A_OP_SPL)]);
    for frame in [10., 11., f32::INFINITY] {
        let state = t.get_anim_state(scalar(frame));
        assert_eq!(bits(&state), floats([2., 2., 0.25, 0.25, 10., 10.]), "{frame}");
        assert_eq!(state.op_intrp, HSD_A_OP_SPL);
        assert_eq!(state.op, HSD_A_OP_SPL);
        assert_eq!(value_at(&t, frame), 2.);
    }
}

#[test]
fn the_scan_stops_at_the_first_segment_beyond_the_frame() {
    let t = track(vec![
        key(0., 1., 0., HSD_A_OP_LIN),
        key(10., 2., 0., HSD_A_OP_CON),
        key(20., 3., 0., HSD_A_OP_LIN),
        key(30., 4., 0., HSD_A_OP_LIN),
    ]);
    let state = t.get_anim_state(scalar(5.));
    assert_eq!(bits(&state), floats([1., 2., 0., 0., 0., 10.]));
    assert_eq!(state.op_intrp, HSD_A_OP_LIN);
    assert_eq!(state.op, HSD_A_OP_CON);
    let state = t.get_anim_state(scalar(15.));
    assert_eq!(bits(&state), floats([2., 3., 0., 0., 10., 20.]));
    assert_eq!(state.op_intrp, HSD_A_OP_CON);
    assert_eq!(state.op, HSD_A_OP_LIN);
    let state = t.get_anim_state(scalar(20.));
    assert_eq!(bits(&state), floats([3., 4., 0., 0., 20., 30.]));
    assert_eq!(state.op_intrp, HSD_A_OP_LIN);
}

#[test]
fn the_mode_of_the_key_before_governs_the_segment() {
    let t = track(vec![
        key(0., 1., 0., HSD_A_OP_LIN),
        key(10., 2., 0., HSD_A_OP_CON),
        key(20., 4., 0., HSD_A_OP_LIN),
        key(30., 8., 0., HSD_A_OP_LIN),
    ]);
    assert_eq!(value_at(&t, 5.), 1.5);
    assert_eq!(value_at(&t, 15.), 2.);
    assert_eq!(value_at(&t, 25.), 6.);
}

#[test]
fn a_scan_that_runs_out_of_keys_is_governed_by_the_last_key() {
    let t = track(vec![key(5., 2., 0., HSD_A_OP_LIN)]);
    let state = t.get_anim_state(scalar(9.));
    assert_eq!(bits(&state), floats([0., 2., 0., 0., 0., 5.]));
    assert_eq!(state.op_intrp, HSD_A_OP_LIN);
    assert_eq!(state.op, HSD_A_OP_LIN);
    assert_eq!(value_at(&t, 9.), lerp(0., 2., 9. / 5.));
}

#[test]
fn a_spline_key_brings_its_tangent() {
    let t = track(vec![key(0., 1., 0.5, HSD_A_OP_SPL), key(10., 2., 0.25, HSD_A_OP_SPL)]);
    let state = t.get_anim_state(scalar(4.));
    assert_eq!(bits(&state), floats([1., 2., 0.5, 0.25, 0., 10.]));
    assert_eq!(state.op_intrp, HSD_A_OP_SPL);
    match t.get_sample(scalar(4.)) {
        Sample::Hermite { p0, p1, d0, d1, t0, t1, frame } => {
            assert_eq!(
                [p0, p1, d0, d1, t0, t1, frame].map(number),
                [1., 2., 0.5, 0.25, 0., 10., 4.]
            );
        }
        other => panic!("{other:?}"),
    }
    assert_eq!(value_at(&t, 4.), hermite(0.1, 4., 1., 2., 0.5, 0.25));
}

#[test]
fn a_spline_key_without_tangent_clears_it() {
    let t = track(vec![key(0., 1., 0.5, HSD_A_OP_SPL), key(10., 2., 0.25, HSD_A_OP_SPL0)]);
    let state = t.get_anim_state(scalar(4.));
    assert_eq!(bits(&state), floats([1., 2., 0.5, 0., 0., 10.]));
    assert_eq!(value_at(&t, 4.), hermite(0.1, 4., 1., 2., 0.5, 0.));
}

#[test]
fn a_slope_key_changes_tangents_only_and_never_ends_the_scan() {
    let t = track(vec![
        key(0., 1., 0.5, HSD_A_OP_SPL),
        key(99., 77., 0.75, HSD_A_OP_SLP),
        key(10., 2., 0.25, HSD_A_OP_SPL),
        key(20., 2., 0.25, HSD_A_OP_SPL),
    ]);
    let state = t.get_anim_state(scalar(4.));
    assert_eq!(bits(&state), floats([1., 2., 0.75, 0.25, 0., 10.]));
    assert_eq!(state.op_intrp, HSD_A_OP_SLP);
    assert_eq!(state.op, HSD_A_OP_SPL);
}

#[test]
fn a_linear_key_after_a_slope_key_keeps_the_tangents() {
    let t = track(vec![
        key(0., 1., 0.5, HSD_A_OP_SPL),
        key(0., 0., 0.75, HSD_A_OP_SLP),
        key(10., 2., 0.25, HSD_A_OP_LIN),
        key(20., 2., 0.25, HSD_A_OP_LIN),
    ]);
    let state = t.get_anim_state(scalar(4.));
    assert_eq!(bits(&state), floats([1., 2., 0.5, 0.75, 0., 10.]));
    let plain = track(vec![
        key(0., 1., 0.5, HSD_A_OP_SPL),
        key(10., 2., 0.25, HSD_A_OP_LIN),
        key(20., 2., 0.25, HSD_A_OP_LIN),
    ]);
    let state = plain.get_anim_state(scalar(4.));
    assert_eq!(bits(&state), floats([1., 2., 0.5, 0., 0., 10.]));
}

#[test]
fn a_fixed_key_sets_both_values_and_no_bound() {
    let t = track(vec![
        key(0., 1., 0., HSD_A_OP_LIN),
        key(5., 9., 0., HSD_A_OP_KEY),
        key(10., 2., 0., HSD_A_OP_LIN),
        key(20., 3., 0., HSD_A_OP_LIN),
    ]);
    let state = t.get_anim_state(scalar(4.));
    assert_eq!(bits(&state), floats([9., 2., 0., 0., 0., 10.]));
    assert_eq!(state.op_intrp, HSD_A_OP_KEY);
    assert_eq!(value_at(&t, 4.), 9.);
}

#[test]
fn an_empty_key_changes_nothing_but_the_mode() {
    let t = track(vec![
        key(0., 1., 0., HSD_A_OP_LIN),
        key(5., 9., 0., HSD_A_OP_NONE),
        key(10., 2., 0., HSD_A_OP_LIN),
        key(20., 3., 0., HSD_A_OP_LIN),
    ]);
    let state = t.get_anim_state(scalar(4.));
    assert_eq!(bits(&state), floats([1., 2., 0., 0., 0., 10.]));
    assert_eq!(state.op_intrp, HSD_A_OP_NONE);
    assert_eq!(value_at(&t, 4.), hermite(0.1, 4., 1., 2., 0., 0.));
}

#[test]
fn keys_need_not_be_in_order() {
    let t = track(vec![
        key(10., 1., 0., HSD_A_OP_LIN),
        key(0., 2., 0., HSD_A_OP_LIN),
        key(20., 3., 0., HSD_A_OP_LIN),
    ]);
    assert_eq!(t.last_frame().1, 2);
    let state = t.get_anim_state(scalar(5.));
    assert_eq!(bits(&state), floats([0., 1., 0., 0., 0., 10.]));
    let state = t.get_anim_state(scalar(12.));
    assert_eq!(bits(&state), floats([2., 3., 0., 0., 0., 20.]));
    assert_eq!(value_at(&t, 12.), lerp(2., 3., 12. / 20.));
}

#[test]
fn a_frame_on_a_bound_takes_the_stored_value_bit_for_bit() {
    let t = track(vec![
        key(0., 0.1, 0., HSD_A_OP_SPL),
        key(3., 0.7, 0.3, HSD_A_OP_SPL),
        key(7., -0.0, 0.9, HSD_A_OP_SPL),
        key(11., 1.0e-40, 0.9, HSD_A_OP_SPL),
    ]);
    assert_eq!(t.get_value(scalar(0.), &blend).to_bits(), 0.1f32.to_bits());
    assert_eq!(t.get_value(scalar(3.), &blend).to_bits(), 0.7f32.to_bits());
    assert_eq!(t.get_value(scalar(7.), &blend).to_bits(), (-0.0f32).to_bits());
    assert_eq!(t.get_value(scalar(11.), &blend).to_bits(), 1.0e-40f32.to_bits());
    assert_eq!(t.get_value(scalar(-0.), &blend).to_bits(), 0.1f32.to_bits());
}

#[test]
fn in_a_running_track_every_key_frame_is_worth_its_key() {
    let modes = [HSD_A_OP_CON, HSD_A_OP_LIN, HSD_A_OP_SPL0, HSD_A_OP_SPL];
    let mut keys = vec![];
    for i in 0..12 {
        keys.push(key(i as f32 * 1.5, 0.1 * i as f32 - 0.35, 0.3, modes[i % 4]));
    }
    let t = track(keys.clone());
    for k in keys {
        assert_eq!(t.get_value(k.frame, &blend).to_bits(), k.value.to_bits());
        assert!(matches!(t.get_sample(k.frame), Sample::Exact(_)));
    }
}

#[test]
fn adjacent_linear_segments_meet_at_their_key() {
    let t = track(vec![
        key(0., 1., 0., HSD_A_OP_LIN),
        key(10., 2., 0., HSD_A_OP_LIN),
        key(20., 4., 0., HSD_A_OP_LIN),
    ]);
    let before = value_at(&t, f32::from_bits(10.0f32.to_bits() - 1));
    let at = value_at(&t, 10.);
    let after = value_at(&t, f32::from_bits(10.0f32.to_bits() + 1));
    assert_eq!(at, 2.);
    assert!((before - at).abs() < 1.0e-5);
    assert!((after - at).abs() < 1.0e-5);
}

#[test]
fn a_segment_of_no_length_is_worth_its_first_value() {
    let t = track(vec![
        key(5., 1., 0., HSD_A_OP_LIN),
        key(5., 2., 0., HSD_A_OP_LIN),
        key(20., 0., 0., HSD_A_OP_SLP),
    ]);
    let state = t.get_anim_state(scalar(7.));
    assert_eq!(bits(&state), floats([1., 2., 0., 0., 5., 5.]));
    assert_eq!(state.op_intrp, HSD_A_OP_SLP);
    assert_eq!(value_at(&t, 7.), 1.);
    assert_eq!(value_at(&t, 5.), 1.);
    assert!(matches!(t.get_sample(scalar(7.)), Sample::Exact(_)));
}

#[test]
fn a_constant_segment_is_worth_its_first_value() {
    let t = track(vec![
        key(0., 1., 0., HSD_A_OP_CON),
        key(10., 2., 0., HSD_A_OP_LIN),
        key(20., 3., 0., HSD_A_OP_LIN),
    ]);
    for frame in [0.5, 5., 9.5] {
        assert_eq!(value_at(&t, frame), 1.);
        assert!(matches!(t.get_sample(scalar(frame)), Sample::Exact(_)));
    }
}

#[test]
fn a_nan_frame_settles_on_no_segment() {
    let t = track(vec![key(0., 1., 0., HSD_A_OP_CON), key(10., 2., 0., HSD_A_OP_CON)]);
    let state = t.get_anim_state(scalar(f32::NAN));
    assert_eq!(bits(&state), floats([1., 2., 0., 0., 0., 10.]));
    assert_eq!(state.op_intrp, HSD_A_OP_CON);
    assert_eq!(t.get_value(scalar(f32::NAN), &blend).to_bits(), 1.0f32.to_bits());
}

#[test]
fn the_kernel_is_called_for_blends_only_and_once() {
    let calls = Cell::new(0);
    let counting = |sample: Sample| {
        calls.set(calls.get() + 1);
        blend(sample)
    };
    let t = track(vec![
        key(0., 1., 0., HSD_A_OP_LIN),
        key(10., 2., 0., HSD_A_OP_SPL),
        key(20., 3., 0., HSD_A_OP_CON),
        key(30., 4., 0., HSD_A_OP_CON),
    ]);
    for frame in [0., 10., 20., 25., 30., 31.] {
        t.get_value(scalar(frame), &counting);
    }
    assert_eq!(calls.get(), 0);
    t.get_value(scalar(5.), &counting);
    assert_eq!(calls.get(), 1);
    t.get_value(scalar(15.), &counting);
    assert_eq!(calls.get(), 2);
}

#[test]
fn the_value_is_what_the_kernel_returns() {
    let t = track(vec![key(0., 1., 0., HSD_A_OP_LIN), key(10., 2., 0., HSD_A_OP_LIN)]);
    let fixed = |_: Sample| scalar(42.);
    assert_eq!(number(t.get_value(scalar(5.), &fixed)), 42.);
    assert_eq!(number(t.get_value(scalar(10.), &fixed)), 2.);
}

#[test]
fn the_state_advances_and_samples_on_its_own() {
    let start = AnimState::initial();
    assert_eq!(bits(&start), [0; 6]);
    assert_eq!(start.op, HSD_A_OP_CON);
    assert_eq!(start.op_intrp, HSD_A_OP_CON);
    let next = start.advance(&key(4., 2., 0.5, HSD_A_OP_SPL));
    assert_eq!(bits(&next), floats([0., 2., 0., 0.5, 0., 4.]));
    assert_eq!(next.op_intrp, HSD_A_OP_CON);
    assert_eq!(next.op, HSD_A_OP_SPL);
    assert!(matches!(next.sample_at(scalar(1.)), Sample::Exact(v) if v.to_bits() == 0));
    let last = next.advance(&key(8., 3., 0.25, HSD_A_OP_LIN));
    assert_eq!(bits(&last), floats([2., 3., 0.5, 0., 4., 8.]));
    assert_eq!(last.op_intrp, HSD_A_OP_SPL);
    assert!(matches!(last.sample_at(scalar(5.)), Sample::Hermite { .. }));
    assert!(matches!(last.sample_at(scalar(4.)), Sample::Exact(v) if number(v) == 2.));
    assert!(matches!(last.sample_at(scalar(8.)), Sample::Exact(v) if number(v) == 3.));
}

#[test]
fn a_spline_blend_has_its_value() {
    let t = track(vec![key(0., 0., 0., HSD_A_OP_SPL), key(2., 1., 0., HSD_A_OP_SPL)]);
    assert_eq!(value_at(&t, 1.), 0.5);
    assert_eq!(value_at(&t, 0.5), 0.15625);
    let t = track(vec![key(0., 0., 1., HSD_A_OP_SPL), key(2., 1., 0., HSD_A_OP_SPL)]);
    assert_eq!(value_at(&t, 1.), 0.75);
    let t = track(vec![key(0., 0., 0., HSD_A_OP_SPL), key(2., 1., 1., HSD_A_OP_SPL)]);
    assert_eq!(value_at(&t, 1.), 0.25);
    let t = track(vec![key(4., 3., 0., HSD_A_OP_SPL), key(8., 7., 0., HSD_A_OP_SPL)]);
    assert_eq!(value_at(&t, 6.), 5.);
}

#[test]
fn the_line_is_exact_at_both_ends() {
    for (p0, p1) in [(0., 100.), (0.1, 0.7), (-3.5, 2.25), (1.0e-40, 1.0e30)] {
        assert_eq!(lerp(p0, p1, 0.), p0);
        assert_eq!(lerp(p0, p1, 1.), p1);
    }
}

#[test]
fn the_spline_begins_at_its_first_value() {
    for (p0, p1, d0, d1) in [(0., 1., 0., 0.), (0.1, 0.7, 3., -2.), (-3.5, 2.25, 1.0e10, 0.5)] {
        for length in [1., 2., 3., 7.5] {
            assert_eq!(hermite(1. / length, 0., p0, p1, d0, d1), p0);
        }
    }
}

#[test]
fn the_spline_ends_at_its_second_value() {
    for (p0, p1, d0, d1) in [(0., 1., 0., 0.), (0.5, 0.75, 3., -2.), (-3.5, 2.25, 8., 0.5)] {
        for length in [1., 2., 4., 0.5] {
            assert_eq!(hermite(1. / length, length, p0, p1, d0, d1), p1);
        }
    }
}
