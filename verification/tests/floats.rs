use vexpr::float::{equal, less, nan, negate, INFINITY, PI, SIGN};

fn bits(value: f64) -> u64 {
    value.to_bits()
}

const SAMPLES: [f64; 17] = [
    0.0,
    -0.0,
    1.0,
    -1.0,
    0.5,
    -0.5,
    1.5,
    2.0,
    -2.0,
    1e300,
    -1e300,
    5e-324,
    -5e-324,
    f64::MAX,
    f64::MIN,
    f64::INFINITY,
    f64::NEG_INFINITY,
];

#[test]
fn constants_are_the_bits_of_the_machine() {
    assert_eq!(INFINITY, f64::INFINITY.to_bits());
    assert_eq!(PI, std::f64::consts::PI.to_bits());
    assert_eq!(SIGN, (-0.0f64).to_bits());
}

#[test]
fn negate_flips_the_sign() {
    for value in SAMPLES {
        assert_eq!(negate(bits(value)), bits(-value));
    }
    assert_eq!(negate(bits(f64::NAN)), bits(-f64::NAN));
    assert_eq!(negate(negate(bits(1.25))), bits(1.25));
}

#[test]
fn nan_is_told_by_exponent_and_fraction() {
    for value in SAMPLES {
        assert!(!nan(bits(value)));
    }
    assert!(nan(bits(f64::NAN)));
    assert!(nan(bits(-f64::NAN)));
    assert!(nan(0x7FF0_0000_0000_0001));
    assert!(nan(0xFFFF_FFFF_FFFF_FFFF));
}

#[test]
fn equal_agrees_with_the_machine() {
    for a in SAMPLES {
        for b in SAMPLES {
            assert_eq!(equal(bits(a), bits(b)), a == b, "{} == {}", a, b);
        }
        assert!(!equal(bits(a), bits(f64::NAN)));
        assert!(!equal(bits(f64::NAN), bits(a)));
    }
    assert!(!equal(bits(f64::NAN), bits(f64::NAN)));
}

#[test]
fn less_agrees_with_the_machine() {
    for a in SAMPLES {
        for b in SAMPLES {
            assert_eq!(less(bits(a), bits(b)), a < b, "{} < {}", a, b);
        }
        assert!(!less(bits(a), bits(f64::NAN)));
        assert!(!less(bits(f64::NAN), bits(a)));
    }
}
