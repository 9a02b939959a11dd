use better_image_view::binary64::Binary64;
use better_image_view::export::{
    export_names, export_scale, export_turn, initial_name, save_status, SaveProgress, Turn,
};
use better_image_view::frame::edited_dimensions;
use better_image_view::path::ImagePath;

fn path(bytes: &[u8]) -> ImagePath {
    ImagePath::new(bytes.to_vec())
}

fn f(x: Binary64) -> f64 {
    f64::from_bits(x.to_bits())
}

#[test]
fn copies_are_named_after_their_source() {
    assert_eq!(initial_name(&path(b"/p/photo.PNG")), "photo-edited.PNG");
    assert_eq!(initial_name(&path(b"/p/a.b.jpg")), "a.b-edited.jpg");
    assert_eq!(initial_name(&path(b"/p/plain")), "plain-edited.jpg");
    assert_eq!(initial_name(&path(b"/p/\xff.tif")), "image-edited.tif");
    assert_eq!(initial_name(&path(b"/")), "image-edited.jpg");
}

#[test]
fn names_of_a_copy_must_be_text() {
    let (source, destination) = export_names(&path(b"/p/a.jpg"), &path(b"/p/b.jpg"), false).unwrap();
    assert_eq!((source.as_str(), destination.as_str()), ("/p/a.jpg", "/p/b.jpg"));
    assert_eq!(
        export_names(&path(b"/\xff"), &path(b"/\xff"), true).unwrap_err(),
        "source filename is not valid UTF-8"
    );
    assert_eq!(
        export_names(&path(b"/a"), &path(b"/\xff"), false).unwrap_err(),
        "destination filename is not valid UTF-8"
    );
}

#[test]
fn source_is_never_overwritten() {
    for (destination, same_file) in [
        (&b"/p/a.jpg"[..], false),
        (&b"/p//a.jpg"[..], false),
        (&b"/p/./a.jpg"[..], false),
        (&b"/q/link.jpg"[..], true),
    ] {
        assert_eq!(
            export_names(&path(b"/p/a.jpg"), &path(destination), same_file).unwrap_err(),
            "destination is the source file"
        );
    }
}

#[test]
fn copies_are_turned() {
    assert_eq!(export_turn(0), Turn::D0);
    assert_eq!(export_turn(1), Turn::D90);
    assert_eq!(export_turn(2), Turn::D180);
    assert_eq!(export_turn(3), Turn::D270);
    assert_eq!(export_turn(253), Turn::D90);
}

#[test]
fn copies_are_only_shrunk() {
    assert_eq!(export_scale(4000, 3000, 1000).map(f), Some(0.25));
    assert_eq!(export_scale(3000, 4001, 1000).map(f), Some(1000.0 / 4001.0));
    assert!(export_scale(4000, 3000, 4000).is_none());
    assert!(export_scale(4000, 3000, 0).is_none());
    assert!(export_scale(4000, 3000, -1).is_none());
}

#[test]
fn copies_have_the_announced_size() {
    for rotation in 0..4 {
        let (width, height) = if rotation % 2 == 0 { (4001, 3000) } else { (3000, 4001) };
        let scale = f(export_scale(width, height, 1234).unwrap());
        assert_eq!(
            edited_dimensions(4001, 3000, rotation, 1234),
            (
                (width as f64 * scale).round() as i32,
                (height as f64 * scale).round() as i32
            )
        );
    }
}

#[test]
fn saving_is_reported() {
    assert_eq!(save_status(&SaveProgress::NotLocal), "Choose a local destination");
    assert_eq!(save_status(&SaveProgress::Started), "Saving edited copy…");
    assert_eq!(save_status(&SaveProgress::Saved(path(b"/p/b\xff.jpg"))), "Saved /p/b\u{fffd}.jpg");
    assert_eq!(
        save_status(&SaveProgress::Failed("disk full".to_string())),
        "Could not save: disk full"
    );
    assert_eq!(save_status(&SaveProgress::Stopped), "Export worker stopped");
}
