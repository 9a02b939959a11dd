use better_image_view::binary64::Binary64;
use better_image_view::frame::DecodedFrame;
use better_image_view::loader::{LoaderCommand, LoaderEvent};
use better_image_view::path::ImagePath;
use better_image_view::viewer::{Update, ViewSize, Viewer};

const VIEW: ViewSize = ViewSize {
    width: 1200,
    height: 800,
};

fn path(name: &str) -> ImagePath {
    ImagePath::new(format!("/p/{name}").into_bytes())
}

fn frame(name: &str) -> DecodedFrame {
    DecodedFrame {
        path: path(name),
        width: 3,
        height: 2,
        stride: 12,
        pixels: (0..24).collect(),
        source_width: 2400,
        source_height: 1600,
        source_dpi: None,
        file_type: "PNG".to_string(),
        metadata: format!("about {name}"),
    }
}

fn viewer(names: &[&str], index: usize) -> Viewer {
    let paths = names.iter().map(|name| path(name)).collect();
    Viewer::new(paths, index, 1000)
}

fn loaded(viewer: &Viewer, name: &str) -> LoaderEvent {
    LoaderEvent::Loaded {
        generation: viewer.generation,
        frame: frame(name),
    }
}

fn requested(update: Update) -> Vec<String> {
    match update.request {
        Some(LoaderCommand::Batch { paths, .. }) => {
            paths.iter().map(|path| path.name_or("?")).collect()
        }
        other => panic!("unexpected {other:?}"),
    }
}

#[test]
fn first_image_is_awaited_and_shown() {
    let mut viewer = viewer(&["a", "b", "c", "d"], 1);
    let update = viewer.show_or_load(VIEW);
    assert_eq!(viewer.title, "b  —  2 / 4");
    assert_eq!(viewer.status, "Loading…");
    assert!(update.texture.is_none());
    assert!(!update.close);
    assert_eq!(requested(update), vec!["b", "c", "d", "a"]);

    let texture = viewer.accept(loaded(&viewer, "b"), VIEW).unwrap();
    assert_eq!(texture.pixels, frame("b").pixels);
    assert_eq!(viewer.status, "");
    assert_eq!(viewer.metadata, "about b");
    assert_eq!(viewer.info, "b\n2400 × 1600 · PNG · 50%");
    assert_eq!(viewer.resize_limit, 2400);
    assert_eq!(viewer.resize_edge.to_bits(), 2400.0_f64.to_bits());
}

#[test]
fn neighbours_in_the_direction_of_travel_come_first() {
    let names = ["a", "b", "c", "d", "e", "f"];
    let mut viewer = viewer(&names, 2);
    viewer.show_or_load(VIEW);
    assert_eq!(requested(viewer.move_by(1, VIEW).unwrap()), vec!["d", "e", "f", "c"]);
    assert_eq!(requested(viewer.move_by(-1, VIEW).unwrap()), vec!["c", "b", "a", "d"]);
    let event = loaded(&viewer, "b");
    assert!(viewer.accept(event, VIEW).is_none());
    assert_eq!(requested(viewer.move_by(-1, VIEW).unwrap()), vec!["b", "a", "c"]);
    assert_eq!(viewer.generation, 4);
    assert_eq!(viewer.direction, -1);
}

#[test]
fn repeated_neighbours_are_requested_once() {
    let mut viewer = viewer(&["a", "a", "a"], 0);
    assert_eq!(requested(viewer.show_or_load(VIEW)), vec!["a"]);
}

#[test]
fn moves_stop_at_the_ends() {
    let mut viewer = viewer(&["a", "b", "c"], 0);
    viewer.show_or_load(VIEW);
    assert!(viewer.move_by(-1, VIEW).is_none());
    assert_eq!((viewer.index, viewer.generation), (0, 1));
    viewer.move_by(7, VIEW);
    assert_eq!((viewer.index, viewer.direction), (2, 1));
    assert!(viewer.move_by(1, VIEW).is_none());
    viewer.move_to(0, VIEW);
    assert_eq!((viewer.index, viewer.direction), (0, -1));
    assert!(viewer.move_to(0, VIEW).is_none());
    viewer.move_to(9, VIEW);
    assert_eq!((viewer.index, viewer.direction), (2, 1));
    assert_eq!(viewer.title, "c  —  3 / 3");
}

#[test]
fn outdated_events_only_fill_the_cache() {
    let mut viewer = viewer(&["a", "b"], 0);
    viewer.show_or_load(VIEW);
    let early = loaded(&viewer, "b");
    let failed = LoaderEvent::Failed {
        generation: viewer.generation,
        path: path("b"),
        message: "broken".to_string(),
    };
    viewer.move_by(1, VIEW);
    assert!(viewer.accept(failed, VIEW).is_none());
    assert_eq!(viewer.status, "Loading…");
    assert!(viewer.accept(early, VIEW).is_none());
    assert_eq!(viewer.status, "Loading…");
    assert!(viewer.cache.contains(&path("b")));
    viewer.move_by(-1, VIEW);
    let update = viewer.move_by(1, VIEW).unwrap();
    assert!(update.texture.is_some());
    assert_eq!(viewer.status, "");
}

#[test]
fn failures_of_the_current_image_are_told() {
    let mut viewer = viewer(&["a", "b"], 0);
    viewer.show_or_load(VIEW);
    let failed = |name: &str| LoaderEvent::Failed {
        generation: 1,
        path: path(name),
        message: "broken".to_string(),
    };
    viewer.accept(failed("b"), VIEW);
    assert_eq!(viewer.status, "Loading…");
    viewer.accept(failed("a"), VIEW);
    assert_eq!(viewer.status, "Could not load: broken");
}

#[test]
fn current_image_is_never_evicted() {
    let mut viewer = Viewer::new(vec![path("a"), path("b")], 0, 10);
    viewer.show_or_load(VIEW);
    viewer.accept(loaded(&viewer, "a"), VIEW);
    viewer.accept(loaded(&viewer, "b"), VIEW);
    assert!(viewer.cache.contains(&path("a")));
    assert!(!viewer.cache.contains(&path("b")));
    assert_eq!(viewer.cache.used_bytes(), 24);
}

#[test]
fn info_follows_the_zoom() {
    let mut viewer = viewer(&["a"], 0);
    viewer.show_or_load(VIEW);
    viewer.toggle_info(VIEW);
    assert!(viewer.info_visible);
    assert_eq!(viewer.info, "");
    viewer.accept(loaded(&viewer, "a"), VIEW);
    assert!(viewer.info.ends_with("50%"));
    viewer.zoom_in(VIEW);
    assert!(viewer.info.ends_with("66.7%"));
    assert!(viewer.canvas.is_zoomed());
    viewer.zoom_in(VIEW);
    viewer.zoom_out(VIEW);
    assert!(viewer.info.ends_with("66.7%"));
    viewer.zoom_fit(VIEW);
    assert!(!viewer.canvas.is_zoomed());
    assert!(viewer.info.ends_with("50%"));
    viewer.update_info(ViewSize { width: 600, height: 400 });
    assert!(viewer.info.ends_with("25%"));
    viewer.toggle_info(VIEW);
    assert!(!viewer.info_visible);
}

#[test]
fn panels_exclude_each_other() {
    let mut viewer = viewer(&["a"], 0);
    viewer.show_or_load(VIEW);
    viewer.toggle_metadata();
    assert!(viewer.metadata_shown && !viewer.edit_shown);
    assert!(viewer.toggle_edit(VIEW).is_none());
    assert!(!viewer.metadata_shown && viewer.edit_shown);
    viewer.toggle_metadata();
    assert!(viewer.metadata_shown && !viewer.edit_shown);
    viewer.toggle_metadata();
    assert!(!viewer.metadata_shown && !viewer.edit_shown);
}

#[test]
fn edits_are_shown_and_undone() {
    let mut viewer = viewer(&["a"], 0);
    viewer.show_or_load(VIEW);
    assert!(viewer.rotate_edit(1, VIEW).is_none());
    assert_eq!(viewer.edit_rotation, 1);
    assert!(viewer.rotate_edit(-1, VIEW).is_none());
    viewer.accept(loaded(&viewer, "a"), VIEW);
    assert_eq!(viewer.edit_dimensions, "");

    let texture = viewer.toggle_edit(VIEW).unwrap();
    assert_eq!((texture.width, texture.height), (3, 2));
    assert_eq!(viewer.edit_dimensions, "Output: 2400 × 1600");

    let texture = viewer.rotate_edit(-1, VIEW).unwrap();
    assert_eq!((texture.width, texture.height), (2, 3));
    assert_eq!(viewer.edit_rotation, 3);
    assert_eq!(viewer.edit_dimensions, "Output: 1600 × 2400");
    assert_eq!((viewer.canvas.source_width, viewer.canvas.source_height), (1600, 2400));

    viewer.choose_edge(Binary64::from_bits(1200.7_f64.to_bits()));
    assert_eq!(viewer.edit_dimensions, "Output: 800 × 1200");

    let texture = viewer.reset_edits(VIEW).unwrap();
    assert_eq!((texture.width, texture.height), (3, 2));
    assert_eq!(viewer.edit_rotation, 0);
    assert_eq!(viewer.edit_dimensions, "Output: 2400 × 1600");
    assert!(viewer.toggle_edit(VIEW).is_none());
    assert!(!viewer.edit_shown);
}

#[test]
fn four_quarter_turns_are_none() {
    let mut viewer = viewer(&["a"], 0);
    viewer.show_or_load(VIEW);
    for turns in [1, 2, 3, 0] {
        viewer.rotate_edit(1, VIEW);
        assert_eq!(viewer.edit_rotation, turns);
    }
    viewer.rotate_edit(-128, VIEW);
    assert_eq!(viewer.edit_rotation, 0);
    viewer.rotate_edit(127, VIEW);
    assert_eq!(viewer.edit_rotation, 3);
}

#[test]
fn another_image_is_shown_without_edits() {
    let mut viewer = viewer(&["a", "b"], 0);
    viewer.show_or_load(VIEW);
    viewer.rotate_edit(1, VIEW);
    viewer.move_by(1, VIEW);
    assert_eq!(viewer.edit_rotation, 0);
}

#[test]
fn names_and_bitmaps_are_copied() {
    let mut viewer = viewer(&["a"], 0);
    viewer.show_or_load(VIEW);
    assert!(!viewer.copy_bitmap());
    assert_eq!(viewer.status, "Loading…");
    assert_eq!(viewer.copy_filename(), "a");
    assert_eq!(viewer.status, "Filename copied");
    viewer.open_failed("nothing installed");
    assert_eq!(viewer.status, "Could not open application chooser: nothing installed");
    viewer.accept(loaded(&viewer, "a"), VIEW);
    assert!(viewer.copy_bitmap());
    assert_eq!(viewer.status, "Bitmap copied");
}

#[test]
fn only_decoded_images_are_printed() {
    let mut viewer = viewer(&["a"], 0);
    viewer.show_or_load(VIEW);
    assert!(viewer.print().is_none());
    assert_eq!(viewer.status, "Wait for the image to finish loading");
    viewer.accept(loaded(&viewer, "a"), VIEW);
    assert_eq!(viewer.print().unwrap().source_width, 2400);
    assert_eq!(viewer.status, "");
}

#[test]
fn forgotten_image_gives_way_to_the_next_one() {
    let mut viewer = viewer(&["a", "b", "c"], 1);
    viewer.show_or_load(VIEW);
    viewer.accept(loaded(&viewer, "b"), VIEW);
    let update = viewer.forget_current_image(VIEW);
    assert!(!update.close);
    assert_eq!(viewer.title, "c  —  2 / 2");
    assert!(!viewer.cache.contains(&path("b")));
    assert_eq!(viewer.generation, 2);
    viewer.forget_current_image(VIEW);
    assert_eq!(viewer.title, "a  —  1 / 1");
    let update = viewer.forget_current_image(VIEW);
    assert!(update.close && update.texture.is_none() && update.request.is_none());
    assert!(viewer.paths.is_empty());
}
