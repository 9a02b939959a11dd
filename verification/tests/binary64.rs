use better_image_view::binary64::Binary64;

fn b(x: f64) -> Binary64 {
    Binary64::from_bits(x.to_bits())
}

fn f(x: Binary64) -> f64 {
    f64::from_bits(x.to_bits())
}

fn same(x: Binary64, y: f64) -> bool {
    (f(x).is_nan() && y.is_nan()) || x.to_bits() == y.to_bits()
}

/// Edge cases followed by doubles of all magnitudes.
fn samples() -> Vec<f64> {
    let mut list = vec![
        0.0, -0.0, 1.0, -1.0, 0.5, -0.5, 1.5, 2.5, 0.1, 0.2, 0.3, 25.4, 72.0, 300.0, 1e300, -1e300,
        1e-300, f64::MAX, f64::MIN, f64::MIN_POSITIVE, f64::EPSILON, f64::INFINITY, f64::NEG_INFINITY,
        f64::NAN, f64::from_bits(1), f64::from_bits(0xf_ffff_ffff_ffff), 4503599627370495.5,
        9007199254740993.0, 2147483647.0, 2147483648.0, -2147483648.0, -2147483649.0, 0.49999999999999994,
        3.4028235e38, 3.4028236e38, 1.4e-45, 7e-46,
    ];
    let mut state: u64 = 0x9e37_79b9_7f4a_7c15;
    for round in 0..120 {
        state ^= state << 13;
        state ^= state >> 7;
        state ^= state << 17;
        list.push(f64::from_bits(state));
        let small = (state % 100_000) as f64 / 97.0;
        list.push(if round % 2 == 0 { small } else { -small });
    }
    list
}

#[test]
fn arithmetic_agrees_with_the_processor() {
    let list = samples();
    for &x in &list {
        for &y in &list {
            assert!(same(b(x).plus(b(y)), x + y), "{x} + {y}");
            assert!(same(b(x).minus(b(y)), x - y), "{x} - {y}");
            assert!(same(b(x).times(b(y)), x * y), "{x} * {y}");
            assert!(same(b(x).over(b(y)), x / y), "{x} / {y}");
            assert_eq!(b(x).less_than(b(y)), x < y, "{x} < {y}");
            assert_eq!(b(x).is_at_most(b(y)), x <= y, "{x} <= {y}");
            assert!(same(b(x).min(b(y)), x.min(y)) || x == y, "min {x} {y}");
            assert!(same(b(x).max(b(y)), x.max(y)) || x == y, "max {x} {y}");
        }
    }
}

#[test]
fn conversions_agree_with_the_processor() {
    for x in samples() {
        assert!(same(b(x).round(), x.round()), "round {x}");
        assert!(same(b(x).ceil(), x.ceil()), "ceil {x}");
        assert!(same(b(x).abs(), x.abs()), "abs {x}");
        assert!(same(b(x).negated(), -x), "-{x}");
        assert_eq!(b(x).to_i32(), x as i32, "{x} as i32");
        assert!(same(b(x).to_single(), x as f32 as f64), "{x} as f32");
        assert_eq!(b(x).is_finite(), x.is_finite());
        assert_eq!(b(x).is_nan(), x.is_nan());
    }
    for n in [0, 1, -1, i32::MAX, i32::MIN, 12345] {
        assert!(same(Binary64::from_i32(n), n as f64));
    }
    for n in [0, 1, u64::MAX, 1 << 53, (1 << 53) + 1, (1 << 53) + 3, (1 << 63) + 1025] {
        assert!(same(Binary64::from_u64(n), n as f64));
    }
    assert!(same(Binary64::from_fraction(254, 10), 25.4));
    assert!(same(Binary64::from_fraction(667, 1000), 0.667));
}

#[test]
fn single_precision_agrees_with_the_processor() {
    let list = samples();
    for &x in &list {
        for &y in &list {
            let (x, y) = (x as f32, y as f32);
            let (a, c) = (b(x as f64), b(y as f64));
            assert!(same(a.times_single(c), (x * y) as f64), "{x} * {y}");
            assert!(same(a.minus_single(c), (x - y) as f64), "{x} - {y}");
            assert!(same(a.over_single(c), (x / y) as f64), "{x} / {y}");
        }
    }
}
