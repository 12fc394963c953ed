//! Comparisons over bits against the numbers themselves.
use gpx_tile_generator::ieee::{at_least, equal, non_negative, same, truncate};

const SINGLES: [f32; 12] = [
    0.0,
    -0.0,
    1.0,
    -1.0,
    0.25,
    1e-45,
    -1e-45,
    f32::MAX,
    f32::MIN,
    f32::INFINITY,
    f32::NEG_INFINITY,
    f32::NAN,
];

const DOUBLES: [f64; 18] = [
    0.0,
    -0.0,
    1.0,
    -1.0,
    0.999,
    1.5,
    511.0,
    16384.0,
    4294967294.75,
    4294967295.0,
    4294967296.0,
    1e300,
    5e-324,
    -5e-324,
    f64::INFINITY,
    f64::NEG_INFINITY,
    f64::NAN,
    -f64::NAN,
];

#[test]
fn single_precision_comparisons() {
    for a in SINGLES {
        for b in SINGLES {
            assert_eq!(at_least(a.to_bits(), b.to_bits()), a >= b, "{a} >= {b}");
            assert_eq!(same(a.to_bits(), b.to_bits()), a == b, "{a} == {b}");
        }
    }
}

#[test]
fn double_precision_comparisons() {
    for a in DOUBLES {
        assert_eq!(non_negative(a.to_bits()), a >= 0.0, "{a} >= 0");
        for b in DOUBLES {
            assert_eq!(equal(a.to_bits(), b.to_bits()), a == b, "{a} == {b}");
        }
    }
}

#[test]
fn truncation_saturates() {
    for a in DOUBLES {
        assert_eq!(truncate(a.to_bits()), a as u32, "{a} as u32");
    }
}
