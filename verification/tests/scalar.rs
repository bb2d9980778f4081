use melee_anim_rs::scalar::Scalar;

fn scalar(value: f32) -> Scalar {
    Scalar::from_bits(value.to_bits())
}

fn samples() -> Vec<f32> {
    vec![
        0.0,
        -0.0,
        1.0,
        -1.0,
        0.5,
        -0.5,
        10.0,
        100.25,
        -100.25,
        f32::MIN_POSITIVE,
        -f32::MIN_POSITIVE,
        1.0e-45,
        -1.0e-45,
        f32::MAX,
        f32::MIN,
        f32::INFINITY,
        f32::NEG_INFINITY,
        f32::NAN,
        -f32::NAN,
        f32::from_bits(0x7f80_0001),
        f32::from_bits(0xffff_ffff),
    ]
}

#[test]
fn zero_is_positive_zero() {
    assert_eq!(Scalar::zero().to_bits(), 0);
    assert_eq!(Scalar::zero().to_bits(), 0.0f32.to_bits());
}

#[test]
fn bits_round_trip() {
    for value in samples() {
        assert_eq!(scalar(value).to_bits(), value.to_bits());
        assert_eq!(Scalar::from_bits(value.to_bits()).bits, value.to_bits());
    }
}

#[test]
fn nan_is_told_from_numbers() {
    for value in samples() {
        assert_eq!(scalar(value).nan(), value.is_nan(), "{value}");
    }
}

#[test]
fn less_than_is_the_float_order() {
    for a in samples() {
        for b in samples() {
            assert_eq!(scalar(a).less_than(scalar(b)), a < b, "{a} < {b}");
        }
    }
}

#[test]
fn greater_than_is_the_float_order() {
    for a in samples() {
        for b in samples() {
            assert_eq!(scalar(a).greater_than(scalar(b)), a > b, "{a} > {b}");
        }
    }
}

#[test]
fn at_least_is_the_float_order() {
    for a in samples() {
        for b in samples() {
            assert_eq!(scalar(a).at_least(scalar(b)), a >= b, "{a} >= {b}");
        }
    }
}

#[test]
fn equals_is_float_equality() {
    for a in samples() {
        for b in samples() {
            assert_eq!(scalar(a).equals(scalar(b)), a == b, "{a} == {b}");
        }
    }
}

#[test]
fn the_two_zeros_are_equal_and_neither_is_less() {
    let plus = scalar(0.0);
    let minus = scalar(-0.0);
    assert_ne!(plus.to_bits(), minus.to_bits());
    assert!(plus.equals(minus));
    assert!(!plus.less_than(minus));
    assert!(!minus.less_than(plus));
    assert!(plus.at_least(minus));
    assert!(minus.at_least(plus));
}

#[test]
fn nan_is_unordered() {
    let nan = scalar(f32::NAN);
    let one = scalar(1.0);
    assert!(!nan.equals(nan));
    assert!(!nan.less_than(one));
    assert!(!nan.greater_than(one));
    assert!(!nan.at_least(one));
    assert!(!one.at_least(nan));
}
