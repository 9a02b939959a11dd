use better_image_view::listing::{
    is_supported_image, natural_sort_key, position_of, sibling_images, sort_naturally, FolderEntry,
    FolderListing,
};
use better_image_view::path::ImagePath;

fn path(name: &str) -> ImagePath {
    ImagePath::new(name.as_bytes().to_vec())
}

fn entry(name: &str, is_file: bool) -> FolderEntry {
    FolderEntry {
        path: path(name),
        is_file,
    }
}

#[test]
fn sorts_folder_listing_naturally() {
    let mut names = vec![
        "IMG_10.jpg",
        "img_9.jpg",
        "IMG_2.jpg",
        "img_01.jpg",
        "img_1.jpg",
        "cover.png",
    ];
    names.sort_by_cached_key(|name| natural_sort_key(name));
    assert_eq!(
        names,
        vec![
            "cover.png",
            "img_01.jpg",
            "img_1.jpg",
            "IMG_2.jpg",
            "img_9.jpg",
            "IMG_10.jpg",
        ]
    );
}

#[test]
fn own_sort_agrees_with_the_derived_order() {
    let names = [
        "b10", "b9", "B09", "a", "", "10", "9", "09", "Ä1", "ä01", "x1y2", "x1y10", "x01y2",
        "straße", "STRASSE", "img 3", "img3", "99999999999999999999999", "100000000000000000000000",
    ];
    let paths: Vec<ImagePath> = names.iter().map(|name| path(&format!("/p/{name}.png"))).collect();
    let mut expected: Vec<String> = names.iter().map(|name| format!("{name}.png")).collect();
    expected.sort_by_cached_key(|name| natural_sort_key(name));
    let sorted: Vec<String> = sort_naturally(&paths)
        .iter()
        .map(|p| p.name_or("?"))
        .collect();
    assert_eq!(sorted, expected);
}

#[test]
fn equal_keys_keep_their_order() {
    let paths = vec![path("/b/same.png"), path("/a/same.png")];
    let sorted = sort_naturally(&paths);
    assert_eq!(sorted[0].bytes, paths[0].bytes);
    assert_eq!(sorted[1].bytes, paths[1].bytes);
}

#[test]
fn digit_runs_are_compared_by_value() {
    assert!(natural_sort_key("a7") < natural_sort_key("a10"));
    assert!(natural_sort_key("a007") < natural_sort_key("a10"));
    assert!(natural_sort_key("a007") < natural_sort_key("a7"));
    assert!(natural_sort_key("7") < natural_sort_key("a"));
    assert!(natural_sort_key("A") == natural_sort_key("A"));
}

#[test]
fn names_are_ordered_by_their_number() {
    let long = "9".repeat(40);
    let longer = format!("1{}", "0".repeat(40));
    for (a, b) in [("7", "10"), ("007", "8"), ("0", "01"), (long.as_str(), longer.as_str())] {
        for (s, t) in [("", ""), ("zzz.png", ""), ("-1.jpg", ".JPG"), (".x", "")] {
            let first = format!("IMG_{a}{s}");
            let second = format!("IMG_{b}{t}");
            assert!(natural_sort_key(&first) < natural_sort_key(&second));
            let first = format!("Ä{a}{s}é");
            let second = format!("ä{b}{t}É");
            assert!(natural_sort_key(&first) < natural_sort_key(&second));
        }
    }
}

#[test]
fn names_are_compared_without_case() {
    assert!(natural_sort_key("ÄB") < natural_sort_key("äc"));
    assert!(natural_sort_key("IMG") < natural_sort_key("imh"));
}

#[test]
fn supported_images_are_told_by_extension() {
    for name in [
        "a.avif", "a.bmp", "a.gif", "a.heic", "a.heif", "a.jpeg", "a.jpg", "a.jxl", "a.png", "a.tif",
        "a.tiff", "a.webp", "a.JPG", "/x.y/a.b.Png",
    ] {
        assert!(is_supported_image(&path(name)));
    }
    for name in ["a", ".jpg", "a.txt", "a.jpgx", "jpg", "a.jpg.", "a.png/..", "/"] {
        assert!(!is_supported_image(&path(name)));
    }
    assert!(!is_supported_image(&ImagePath::new(b"a.p\xffg".to_vec())));
    assert!(is_supported_image(&ImagePath::new(b"\xff.png".to_vec())));
}

#[test]
fn folder_is_listed() {
    let listing = FolderListing::Entries {
        parent: path("/p"),
        entries: vec![
            entry("/p/b10.jpg", true),
            entry("/p/sub.png", false),
            entry("/p/b9.jpg", true),
            entry("/p/notes.txt", true),
        ],
    };
    let paths = sibling_images(&path("/p/b9.jpg"), &listing).unwrap();
    let names: Vec<String> = paths.iter().map(|p| p.to_text().unwrap()).collect();
    assert_eq!(names, vec!["/p/b9.jpg", "/p/b10.jpg"]);
    assert_eq!(position_of(&paths, &path("/p/b10.jpg")), Some(1));
    assert_eq!(position_of(&paths, &path("/p/notes.txt")), None);
}

#[test]
fn unlisted_folders_are_reported() {
    let initial = path("/p/a.jpg");
    assert_eq!(
        sibling_images(&initial, &FolderListing::NotAFile).unwrap_err(),
        "not a file: /p/a.jpg"
    );
    assert_eq!(
        sibling_images(&initial, &FolderListing::NoParent).unwrap_err(),
        "image has no parent directory"
    );
    assert_eq!(
        sibling_images(
            &initial,
            &FolderListing::Unreadable {
                parent: path("/p"),
                reason: "denied".to_string(),
            }
        )
        .unwrap_err(),
        "cannot read /p: denied"
    );
    assert_eq!(
        sibling_images(
            &initial,
            &FolderListing::Entries {
                parent: ImagePath::new(b"/p\xff".to_vec()),
                entries: vec![entry("/p/notes.txt", true)],
            }
        )
        .unwrap_err(),
        "no supported images in /p\u{fffd}"
    );
}
