use better_image_view::cache::FrameCache;
use better_image_view::frame::DecodedFrame;
use better_image_view::path::ImagePath;

fn path(name: &str) -> ImagePath {
    ImagePath::new(name.as_bytes().to_vec())
}

fn frame(name: &str, size: usize) -> DecodedFrame {
    DecodedFrame {
        path: path(name),
        width: size as i32 / 4,
        height: 1,
        stride: size,
        pixels: vec![0; size],
        source_width: size as i32 / 4,
        source_height: 1,
        source_dpi: None,
        file_type: "TEST".to_string(),
        metadata: String::new(),
    }
}

#[test]
fn cache_evicts_the_least_recently_used_unprotected_frame() {
    let mut cache = FrameCache::new(8);
    cache.insert(frame("first", 4), &path("first"));
    cache.insert(frame("second", 4), &path("second"));

    assert!(cache.get(&path("first")).is_some());
    cache.insert(frame("third", 4), &path("third"));

    assert!(cache.contains(&path("first")));
    assert!(!cache.contains(&path("second")));
    assert!(cache.contains(&path("third")));
    assert_eq!(cache.used_bytes(), 8);
}

#[test]
fn cache_keeps_the_current_frame_when_over_budget() {
    let mut cache = FrameCache::new(4);
    cache.insert(frame("current", 8), &path("current"));
    cache.insert(frame("prefetch", 4), &path("current"));

    assert!(cache.contains(&path("current")));
    assert!(!cache.contains(&path("prefetch")));
    assert_eq!(cache.used_bytes(), 8);
}

#[test]
fn cached_frame_is_read_back() {
    let mut cache = FrameCache::new(100);
    assert!(cache.get(&path("a")).is_none());
    assert!(cache.peek(&path("a")).is_none());
    cache.insert(frame("a", 40), &path("a"));
    cache.insert(frame("b", 40), &path("a"));
    let read = cache.get(&path("a")).unwrap();
    assert_eq!(read.size_bytes(), 40);
    assert_eq!(read.path.bytes, b"a".to_vec());
}

#[test]
fn newer_frame_takes_the_place_of_an_older_one() {
    let mut cache = FrameCache::new(100);
    cache.insert(frame("a", 40), &path("a"));
    cache.insert(frame("a", 12), &path("a"));
    assert_eq!(cache.used_bytes(), 12);
    assert_eq!(cache.peek(&path("a")).unwrap().size_bytes(), 12);
}

#[test]
fn looking_without_touching_does_not_save_a_frame() {
    let mut cache = FrameCache::new(8);
    cache.insert(frame("first", 4), &path("first"));
    cache.insert(frame("second", 4), &path("second"));
    assert!(cache.peek(&path("first")).is_some());
    cache.insert(frame("third", 4), &path("third"));
    assert!(!cache.contains(&path("first")));
    assert!(cache.contains(&path("second")));
}

#[test]
fn protected_frame_counts_as_used_when_it_is_passed_over() {
    let mut cache = FrameCache::new(12);
    cache.insert(frame("a", 4), &path("a"));
    cache.insert(frame("b", 4), &path("a"));
    cache.insert(frame("c", 4), &path("a"));
    cache.insert(frame("d", 4), &path("a"));
    assert!(!cache.contains(&path("b")));
    // The passed over frame is now the most recently used one.
    cache.insert(frame("e", 4), &path("e"));
    assert!(!cache.contains(&path("c")));
    assert!(cache.contains(&path("a")));
    assert!(cache.contains(&path("d")));
    assert_eq!(cache.used_bytes(), 12);
}

#[test]
fn removed_frame_is_gone_and_others_stay() {
    let mut cache = FrameCache::new(100);
    cache.insert(frame("a", 40), &path("a"));
    cache.insert(frame("b", 30), &path("a"));
    cache.remove(&path("a"));
    cache.remove(&path("missing"));
    assert!(!cache.contains(&path("a")));
    assert!(cache.contains(&path("b")));
    assert_eq!(cache.used_bytes(), 30);
}

#[test]
fn paths_are_told_apart_by_their_components() {
    let mut cache = FrameCache::new(100);
    cache.insert(frame("a/b", 40), &path("a//b"));
    assert!(cache.contains(&path("a/./b")));
    assert!(!cache.contains(&path("./a/b")));
    cache.insert(frame("a//b", 12), &path("a/b"));
    assert_eq!(cache.used_bytes(), 12);
    cache.remove(&path("a/b/"));
    assert_eq!(cache.used_bytes(), 0);
}

#[test]
fn frames_go_one_by_one() {
    let mut cache = FrameCache::new(12);
    for name in ["a", "b", "c"] {
        cache.insert(frame(name, 4), &path(name));
    }
    // Two frames are enough to make room.
    cache.insert(frame("d", 8), &path("d"));
    assert!(!cache.contains(&path("a")));
    assert!(!cache.contains(&path("b")));
    assert!(cache.contains(&path("c")));
    assert_eq!(cache.used_bytes(), 12);
}
