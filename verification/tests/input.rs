use better_image_view::binary64::Binary64;
use better_image_view::input::{
    cache_bytes, cache_megabytes, command_for, panned, scrolled, Command, Key,
};

fn b(x: f64) -> Binary64 {
    Binary64::from_bits(x.to_bits())
}

fn f(x: Binary64) -> f64 {
    f64::from_bits(x.to_bits())
}

#[test]
fn keys_ask_for_commands() {
    let plain = |key| command_for(key, false, false);
    assert_eq!(plain(Key::PageDown), Some(Command::MoveBy(1)));
    assert_eq!(plain(Key::Space), Some(Command::MoveBy(1)));
    assert_eq!(plain(Key::PageUp), Some(Command::MoveBy(-1)));
    assert_eq!(plain(Key::BackSpace), Some(Command::MoveBy(-1)));
    assert_eq!(plain(Key::Right), Some(Command::MoveBy(1)));
    assert_eq!(plain(Key::Left), Some(Command::MoveBy(-1)));
    assert_eq!(plain(Key::Up), None);
    assert_eq!(plain(Key::Down), None);
    assert_eq!(plain(Key::Home), Some(Command::MoveToFirst));
    assert_eq!(plain(Key::End), Some(Command::MoveToLast));
    assert_eq!(plain(Key::Plus), Some(Command::ZoomIn));
    assert_eq!(plain(Key::KeypadAdd), Some(Command::ZoomIn));
    assert_eq!(plain(Key::Equal), Some(Command::ZoomIn));
    assert_eq!(plain(Key::Minus), Some(Command::ZoomOut));
    assert_eq!(plain(Key::KeypadSubtract), Some(Command::ZoomOut));
    assert_eq!(plain(Key::Zero), Some(Command::ZoomFit));
    assert_eq!(plain(Key::KeypadZero), Some(Command::ZoomFit));
    assert_eq!(plain(Key::F), Some(Command::ToggleFullscreen));
    assert_eq!(plain(Key::I), Some(Command::ToggleInfo));
    assert_eq!(plain(Key::E), Some(Command::ToggleEdit));
    assert_eq!(plain(Key::P), Some(Command::ToggleMetadata));
    assert_eq!(plain(Key::Delete), Some(Command::Delete));
    assert_eq!(plain(Key::Escape), Some(Command::Quit));
    assert_eq!(plain(Key::Q), Some(Command::Quit));
    assert_eq!(plain(Key::Other), None);
}

#[test]
fn control_and_zoom_change_the_meaning() {
    assert_eq!(command_for(Key::P, true, false), Some(Command::Print));
    assert_eq!(command_for(Key::Right, false, true), Some(Command::PanBy(80, 0)));
    assert_eq!(command_for(Key::Left, true, true), Some(Command::PanBy(-80, 0)));
    assert_eq!(command_for(Key::Down, false, true), Some(Command::PanBy(0, 80)));
    assert_eq!(command_for(Key::Up, false, true), Some(Command::PanBy(0, -80)));
    assert_eq!(command_for(Key::PageDown, false, true), Some(Command::MoveBy(1)));
}

#[test]
fn wheel_movements_add_up_to_steps() {
    let (left, step) = scrolled(b(0.0), b(0.4));
    assert_eq!((f(left), step), (0.4, None));
    let (left, step) = scrolled(left, b(0.4));
    assert_eq!((f(left), step), (0.8, None));
    let (left, step) = scrolled(left, b(0.4));
    assert_eq!((f(left), step), (0.0, Some(1)));
    let (left, step) = scrolled(left, b(-1.0));
    assert_eq!((f(left), step), (0.0, Some(-1)));
    let (left, step) = scrolled(b(0.9), b(-1.8));
    assert_eq!((f(left), step), (0.9 - 1.8, None));
}

#[test]
fn panning_stays_inside() {
    let pan = |value: f64, delta: i32| {
        f(panned(b(value), delta, b(0.0), b(1000.0), b(300.0)))
    };
    assert_eq!(pan(100.0, 80), 180.0);
    assert_eq!(pan(50.0, -80), 0.0);
    assert_eq!(pan(650.5, 80), 700.0);
}

#[test]
fn cache_size_is_a_setting() {
    let setting = |text: &str| cache_megabytes(Some(text.to_string()));
    assert_eq!(cache_megabytes(None), 512);
    for text in [
        "", "+", "-", "0", "+0", "00", "-1", "1.5", " 7", "7 ", "x", "1e3", "٣", "++1", "+-1",
        "18446744073709551616", "99999999999999999999999",
    ] {
        assert_eq!(setting(text), 512, "{text}");
        assert!(text.parse::<usize>().ok().filter(|value| *value > 0).is_none());
    }
    for text in ["1", "+64", "007", "2048", "18446744073709551615"] {
        assert_eq!(setting(text), text.parse::<usize>().unwrap());
    }
    assert_eq!(cache_bytes(512), 536_870_912);
    assert_eq!(cache_bytes(0), 0);
}
