use better_image_view::path::ImagePath;
use std::path::Path;

#[test]
fn parts_of_paths_agree_with_std() {
    for text in [
        "", "/", "//", "a", "a.png", "/a.png", "/x/a.png", "/x/a.png/", "/x/a.png//", ".", "..",
        "/x/.", "/x/..", "./a.jpg", "a/..", ".hidden", ".hidden.png", "a.", "a..png", "a.b.c", "/x.y/z",
        "x/./", "x/././/", "...", "/..a", "a b/c d.ef", "ü/é.à", "./", "/.",
    ] {
        let path = ImagePath::new(text.as_bytes().to_vec());
        let std_path = Path::new(text);
        let name = std_path.file_name().map(|part| part.to_str().unwrap().as_bytes().to_vec());
        let ending = std_path.extension().map(|part| part.to_str().unwrap().as_bytes().to_vec());
        let stem = std_path.file_stem().map(|part| part.to_str().unwrap().as_bytes().to_vec());
        assert_eq!(path.file_name(), name, "{text}");
        assert_eq!(path.extension(), ending, "{text}");
        assert_eq!(path.file_stem(), stem, "{text}");
    }
}

#[test]
fn names_are_texts_or_fallbacks() {
    assert_eq!(ImagePath::new(b"/x/a.png".to_vec()).name_or("image"), "a.png");
    assert_eq!(ImagePath::new(b"/x/\xc3\xa4.png".to_vec()).name_or("image"), "ä.png");
    assert_eq!(ImagePath::new(b"/x/\xc3.png".to_vec()).name_or("image"), "image");
    assert_eq!(ImagePath::new(b"/".to_vec()).name_or("image"), "image");
    assert_eq!(ImagePath::new(b"/\xff".to_vec()).to_text(), None);
    assert_eq!(ImagePath::new(b"/\xe2\x82\xac".to_vec()).to_text(), Some("/€".to_string()));
}

#[test]
fn paths_are_the_same_by_their_components() {
    let list = [
        "", "/", "//", "a", "./a", ".//a", "a/", "a/.", "a/./", "/a", "//a", "/./a", "a/b", "a//b",
        "a/./b", "a/../b", "./", ".", "./.", "..", "../", "a/b/c", "a/bc", "ab/c", "/.", "...", ".a",
    ];
    for first in list {
        for second in list {
            let a = ImagePath::new(first.as_bytes().to_vec());
            let b = ImagePath::new(second.as_bytes().to_vec());
            assert_eq!(a.same(&b), Path::new(first) == Path::new(second), "{first} {second}");
        }
        let path = ImagePath::new(first.as_bytes().to_vec());
        assert!(path.same(&path.clone()));
    }
}
