//! Doubles by their bit patterns, against the floats that they stand for.

use ow_rs::double::{Double, Point};

fn double(x: f64) -> Double {
    Double { bits: x.to_bits() }
}

const SAMPLE: &[f64] = &[
    f64::NEG_INFINITY,
    f64::MIN,
    -9223372036854777856.0,
    -9223372036854775808.0,
    -9007199254740993.0,
    -2147483648.5,
    -100.25,
    -7.0,
    -1.5,
    -1.0,
    -0.999999999,
    -1e-300,
    -5e-324,
    -0.0,
    0.0,
    5e-324,
    2.2250738585072014e-308,
    0.25,
    0.999999999,
    1.0,
    1.0000000000000002,
    1.5,
    4.0,
    6.999999999999999,
    7.0,
    100.0,
    100.00000000000001,
    4503599627370495.5,
    9007199254740992.0,
    9223372036854774784.0,
    9223372036854775808.0,
    1e30,
    8.5e37,
    f64::MAX,
    f64::INFINITY,
    f64::NAN,
];

#[test]
fn doubles_compare_as_floats_do() {
    for &a in SAMPLE {
        for &b in SAMPLE {
            assert_eq!(double(a).lt(double(b)), a < b, "{a} and {b}");
            assert_eq!(double(a).le(double(b)), a <= b, "{a} and {b}");
        }
        assert_eq!(double(a).is_nan(), a.is_nan());
    }
    assert_eq!(double(0.0).order(), 0);
    assert_eq!(double(-0.0).order(), 0);
    assert_eq!(double(1.0).order(), 0x3ff0_0000_0000_0000);
    assert_eq!(double(-1.0).order(), -0x3ff0_0000_0000_0000);
}

#[test]
fn doubles_lose_their_fraction() {
    for &a in SAMPLE {
        assert_eq!(double(a).truncated(), a as i64, "{a}");
    }
    assert_eq!(double(7.9).truncated(), 7);
    assert_eq!(double(-7.9).truncated(), -7);
}

#[test]
fn doubles_compare_with_whole_numbers() {
    for &a in SAMPLE {
        for n in -120i128..120 {
            assert_eq!(double(a).lt_whole(n), a < n as f64, "{a} and {n}");
        }
    }
    let big = 1i128 << 62;
    assert!(double(4611686018427387000.0).lt_whole(big));
    assert!(!double(4611686018427387904.0).lt_whole(big));
    assert!(double(4611686018427387904.0).lt_whole(big + 1));
    assert!(double(-4611686018427387904.0).lt_whole(1 - big));
    assert!(!double(-4611686018427387904.0).lt_whole(-big));
    assert!(double(1.5).lt_whole(2) && !double(1.5).lt_whole(1));
    assert!(double(8.5e37).lt_whole((1i128 << 126) - 1));
    assert!(!double(8.6e37).lt_whole((1i128 << 126) - 1));
    assert!(double(-8.6e37).lt_whole(1 - (1i128 << 126)));
}

#[test]
fn the_board_has_its_edges() {
    let at = |x: f64, y: f64| Point { x: double(x), y: double(y) }.on_board();
    assert!(at(0.0, 0.0) && at(100.0, 100.0) && at(-0.0, 50.0));
    assert!(!at(-5e-324, 50.0) && !at(100.00000000000001, 50.0));
    assert!(!at(50.0, -0.1) && !at(50.0, 100.1));
    assert!(!at(f64::NAN, 50.0) && !at(50.0, f64::NAN) && !at(f64::INFINITY, 50.0));
}
