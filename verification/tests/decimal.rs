use better_image_view::binary64::Binary64;
use better_image_view::decimal::{format_fixed, format_i32, format_u64};

fn b(x: f64) -> Binary64 {
    Binary64::from_bits(x.to_bits())
}

#[test]
fn whole_numbers_agree_with_std() {
    for n in [0, 1, 9, 10, 99, 100, 12_345, u64::MAX, u64::MAX - 1, 1_000_000_007] {
        assert_eq!(format_u64(n), n.to_string());
    }
    for n in [0, -1, 7, -10, i32::MAX, i32::MIN, 2560] {
        assert_eq!(format_i32(n), n.to_string());
    }
}

#[test]
fn fixed_places_agree_with_std() {
    let mut list = vec![
        0.0, -0.0, 0.5, 1.5, 2.5, 0.25, 0.125, 0.05, 0.15, 0.005, 0.015, 1e21, -1e22, 123456.789, 66.7,
        0.994_999, 0.995, 9.995, 99.95, 1e-300, 5e-324, f64::MAX, f64::INFINITY, f64::NEG_INFINITY,
    ];
    let mut state: u64 = 0x1234_5678_9abc_def1;
    for _ in 0..300 {
        state ^= state << 13;
        state ^= state >> 7;
        state ^= state << 17;
        list.push((state % 1_000_000) as f64 / 256.0);
        list.push(f64::from_bits(state >> 2));
    }
    for x in list {
        assert_eq!(format_fixed(b(x), 0), format!("{x:.0}"));
        assert_eq!(format_fixed(b(x), 1), format!("{x:.1}"));
        assert_eq!(format_fixed(b(x), 2), format!("{x:.2}"));
    }
    assert_eq!(format_fixed(b(f64::NAN), 1), "NaN");
}
