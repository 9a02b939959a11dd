use better_image_view::binary64::Binary64;
use better_image_view::canvas::{
    default_zoom, format_zoom, next_zoom_level, previous_zoom_level, scaled_image_size, ImageCanvas,
    ScalingFilter, TextureSize,
};

fn b(x: f64) -> Binary64 {
    Binary64::from_bits(x.to_bits())
}

fn f(x: Binary64) -> f64 {
    f64::from_bits(x.to_bits())
}

const LEVELS: [f64; 22] = [
    0.125, 0.167, 0.25, 0.333, 0.5, 0.667, 0.75, 1.0, 1.25, 1.5, 2.0, 3.0, 4.0, 5.0, 6.0, 8.0, 10.0,
    12.0, 16.0, 20.0, 24.0, 32.0,
];

#[test]
fn default_zoom_never_enlarges_small_images() {
    assert_eq!(f(default_zoom(1200, 800, 400, 300)), 1.0);
}

#[test]
fn default_zoom_shrinks_large_images_to_fit() {
    assert_eq!(f(default_zoom(1200, 800, 2400, 1200)), 0.5);
    assert_eq!(f(default_zoom(1200, 800, 1200, 1600)), 0.5);
}

#[test]
fn zoom_steps_use_clean_source_relative_levels() {
    assert_eq!(f(next_zoom_level(b(0.63))), 0.667);
    assert_eq!(f(next_zoom_level(b(0.75))), 1.0);
    assert_eq!(f(next_zoom_level(b(4.0))), 5.0);
    assert_eq!(f(next_zoom_level(b(32.0))), 32.0);
}

#[test]
fn zooming_out_visits_fit_between_standard_levels() {
    assert_eq!(previous_zoom_level(b(0.667), b(0.63)).map(f), None);
    assert_eq!(previous_zoom_level(b(1.0), b(0.63)).map(f), Some(0.75));
    assert_eq!(previous_zoom_level(b(2.0), b(0.8)).map(f), Some(1.5));
}

#[test]
fn zoom_percentage_keeps_useful_fractional_levels() {
    assert_eq!(format_zoom(b(1.0)), "100%");
    assert_eq!(format_zoom(b(0.667)), "66.7%");
    assert_eq!(format_zoom(b(0.125)), "12.5%");
}

#[test]
fn scaled_image_size_preserves_aspect_ratio() {
    let (width, height) = scaled_image_size(1600, 900, b(1.25));
    let (width, height) = (f(width) as f32, f(height) as f32);
    assert!((width / height - 1600.0 / 900.0).abs() < 0.0001);
}

#[test]
fn levels_are_visited_one_after_the_other() {
    let mut zoom = b(0.1);
    for level in LEVELS {
        zoom = next_zoom_level(zoom);
        assert_eq!(f(zoom), level);
    }
    for level in LEVELS.iter().rev().skip(1) {
        zoom = previous_zoom_level(zoom, b(0.0)).unwrap();
        assert_eq!(f(zoom), *level);
    }
    assert!(previous_zoom_level(zoom, b(0.0)).is_none());
    assert_eq!(f(next_zoom_level(b(f64::NAN))), 32.0);
    assert_eq!(f(next_zoom_level(b(f64::INFINITY))), 32.0);
}

#[test]
fn zoom_percentages_agree_with_std_formatting() {
    for i in 1..2000 {
        let zoom = i as f64 / 617.0;
        let percentage = zoom * 100.0;
        let expected = if (percentage - percentage.round()).abs() < 0.01 {
            format!("{percentage:.0}%")
        } else {
            format!("{percentage:.1}%")
        };
        assert_eq!(format_zoom(b(zoom)), expected);
    }
}

#[test]
fn default_zoom_agrees_with_double_arithmetic() {
    for view in [1, 3, 640, 1199, 1200, 2560] {
        for image in [1, 7, 1200, 1201, 3000, 99_999] {
            let expected = (view as f64 / image as f64).min(801.0 / 777.0).min(1.0);
            assert_eq!(f(default_zoom(view, 801, image, 777)), expected);
            assert_eq!(f(default_zoom(view, view, image, image)) == 1.0, image <= view);
        }
    }
    assert!(f(default_zoom(0, 800, 0, 600)) == 1.0);
}

#[test]
fn canvas_zooms_by_levels_of_the_source() {
    let mut canvas = ImageCanvas::new();
    assert_eq!(canvas.measure(true), (0, 0, -1, -1));
    assert!(canvas.snapshot(100, 100).is_none());
    assert!(canvas.effective_zoom(100, 100).is_none());
    canvas.zoom_in(100, 100);
    canvas.zoom_out();
    assert!(!canvas.is_zoomed());

    canvas.set_texture(TextureSize { width: 2000, height: 1000 }, 4000, 2000);
    assert!(!canvas.is_zoomed());
    assert_eq!(f(canvas.effective_zoom(1000, 800).unwrap()), 0.25);
    assert_eq!(canvas.measure(false), (0, 0, -1, -1));

    canvas.zoom_in(1000, 800);
    assert!(canvas.is_zoomed());
    assert_eq!(f(canvas.fit_zoom), 0.25);
    assert_eq!(f(canvas.effective_zoom(1000, 800).unwrap()), 0.333);
    assert_eq!(f(canvas.zoom), 0.666);
    assert_eq!(canvas.measure(true), (1332, 1332, -1, -1));
    assert_eq!(canvas.measure(false), (666, 666, -1, -1));
    assert!(matches!(canvas.snapshot(1332, 800).unwrap().filter, ScalingFilter::Linear));

    canvas.zoom_in(1000, 800);
    assert_eq!(f(canvas.effective_zoom(1000, 800).unwrap()), 0.5);
    canvas.zoom_out();
    assert_eq!(f(canvas.effective_zoom(1000, 800).unwrap()), 0.333);
    canvas.zoom_out();
    assert!(!canvas.is_zoomed());
    canvas.zoom_out();
    assert!(!canvas.is_zoomed());

    for _ in 0..5 {
        canvas.zoom_in(1000, 800);
    }
    assert_eq!(f(canvas.zoom), 2.0);
    assert!(matches!(canvas.snapshot(4000, 2000).unwrap().filter, ScalingFilter::Nearest));
    canvas.zoom_fit();
    assert!(!canvas.is_zoomed());
    assert_eq!(f(canvas.fit_zoom), 0.0);
}

#[test]
fn snapshot_centers_the_texture() {
    let mut canvas = ImageCanvas::new();
    canvas.set_texture(TextureSize { width: 400, height: 300 }, 400, 300);
    let drawing = canvas.snapshot(1200, 801).unwrap();
    assert_eq!(f(drawing.width), 400.0);
    assert_eq!(f(drawing.height), 300.0);
    assert_eq!(f(drawing.x), 400.0);
    assert_eq!(f(drawing.y), 250.5);

    canvas.set_texture(TextureSize { width: 777, height: 333 }, 777, 333);
    let drawing = canvas.snapshot(500, 200).unwrap();
    let zoom = (500.0_f64 / 777.0).min(200.0 / 333.0).min(1.0);
    let width = 777.0_f32 * zoom as f32;
    let height = 333.0_f32 * zoom as f32;
    assert_eq!(f(drawing.width), width as f64);
    assert_eq!(f(drawing.height), height as f64);
    assert_eq!(f(drawing.x), ((500.0_f32 - width) / 2.0) as f64);
    assert_eq!(f(drawing.y), ((200.0_f32 - height) / 2.0) as f64);
}

#[test]
fn zooming_shows_levels_whatever_the_texture() {
    for texture in [1, 7, 640, 2559, 2560] {
        for source in [texture, 3 * texture + 1, 7777] {
            for view in [50, 333, 1000, 4000] {
                let mut canvas = ImageCanvas::new();
                canvas.set_texture(
                    TextureSize { width: texture, height: texture },
                    source,
                    source,
                );
                let fit = f(canvas.effective_zoom(view, view).unwrap());
                let mut expected = f(next_zoom_level(b(fit)));
                canvas.zoom_in(view, view);
                canvas.zoom_out();
                assert!(!canvas.is_zoomed());
                assert_eq!(f(canvas.effective_zoom(view, view).unwrap()), fit);
                for _ in 0..3 {
                    canvas.zoom_in(view, view);
                    let shown = f(canvas.effective_zoom(view, view).unwrap());
                    assert!((shown - expected).abs() <= expected * f64::EPSILON * 2.0);
                    expected = f(next_zoom_level(b(shown)));
                }
            }
        }
    }
}

#[test]
fn fitted_image_reaches_an_edge_of_the_view() {
    for (width, height) in [(2400, 1200), (1200, 1600), (7777, 3), (1, 9001), (400, 300)] {
        for (view_width, view_height) in [(1200, 800), (997, 991), (3, 1)] {
            let zoom = f(default_zoom(view_width, view_height, width, height));
            let across = width as f64 * zoom;
            let down = height as f64 * zoom;
            assert!(across <= view_width as f64 * (1.0 + 1e-15));
            assert!(down <= view_height as f64 * (1.0 + 1e-15));
            if zoom < 1.0 {
                let missing = (view_width as f64 - across).min(view_height as f64 - down);
                assert!(missing.abs() < 1e-12);
            }
        }
    }
}
