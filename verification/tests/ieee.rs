use railway::ieee;

const SAMPLES: [f32; 16] = [
    0.0,
    -0.0,
    1.0,
    -1.0,
    0.5,
    -0.5,
    2.0,
    1.0e-40,
    -1.0e-40,
    3.4028235e38,
    -3.4028235e38,
    f32::INFINITY,
    f32::NEG_INFINITY,
    f32::NAN,
    1.1754944e-38,
    150.25,
];

#[test]
fn constants_are_the_bit_patterns() {
    assert_eq!(ieee::ZERO, 0.0f32.to_bits());
    assert_eq!(ieee::ONE, 1.0f32.to_bits());
    assert_eq!(ieee::SIGN, (-0.0f32).to_bits());
    assert_eq!(ieee::INFINITY, f32::INFINITY.to_bits());
}

#[test]
fn nan_is_told() {
    for v in SAMPLES {
        assert_eq!(ieee::nan(v.to_bits()), v.is_nan(), "{}", v);
    }
    assert!(ieee::nan(0x7fc0_0001));
    assert!(ieee::nan(0xffff_ffff));
    assert!(ieee::nan(0x7f80_0001));
    assert!(!ieee::nan(0x7f80_0000));
    assert!(!ieee::nan(0xff80_0000));
}

#[test]
fn less_than_agrees_with_the_numbers() {
    for a in SAMPLES {
        for b in SAMPLES {
            assert_eq!(ieee::lt(a.to_bits(), b.to_bits()), a < b, "{} < {}", a, b);
        }
    }
}

#[test]
fn equality_agrees_with_the_numbers() {
    for a in SAMPLES {
        for b in SAMPLES {
            assert_eq!(ieee::eq(a.to_bits(), b.to_bits()), a == b, "{} == {}", a, b);
        }
    }
}

#[test]
fn the_two_zeros_are_equal_and_neither_is_less() {
    let plus = 0.0f32.to_bits();
    let minus = (-0.0f32).to_bits();
    assert!(ieee::eq(plus, minus));
    assert!(!ieee::lt(plus, minus));
    assert!(!ieee::lt(minus, plus));
}

#[test]
fn clamp_agrees_with_the_numbers_between_ordered_bounds() {
    for v in SAMPLES {
        for lo in SAMPLES {
            for hi in SAMPLES {
                if lo <= hi {
                    let expected = v.clamp(lo, hi);
                    let got = f32::from_bits(ieee::clamp(v.to_bits(), lo.to_bits(), hi.to_bits()));
                    if expected.is_nan() {
                        assert!(got.is_nan());
                    } else {
                        assert_eq!(got, expected, "clamp({}, {}, {})", v, lo, hi);
                    }
                }
            }
        }
    }
}

#[test]
fn clamp_exact_values() {
    let c = |v: f32, lo: f32, hi: f32| f32::from_bits(ieee::clamp(v.to_bits(), lo.to_bits(), hi.to_bits()));
    assert_eq!(c(5.0, 0.0, 1.0), 1.0);
    assert_eq!(c(-5.0, 0.0, 1.0), 0.0);
    assert_eq!(c(0.25, 0.0, 1.0), 0.25);
    assert!(c(f32::NAN, 0.0, 1.0).is_nan());
}
