use better_image_view::binary64::Binary64;
use better_image_view::decode::{
    decode_thumbnail, decoder_name, ensure_rgba, file_type, source_dpi, Raster, Source,
    DECODE_HEIGHT, DECODE_WIDTH,
};
use better_image_view::listing::{sibling_images, FolderEntry, FolderListing};
use better_image_view::metadata::SourceInfo;
use better_image_view::path::ImagePath;

fn b(x: f64) -> Binary64 {
    Binary64::from_bits(x.to_bits())
}

fn f(x: Binary64) -> f64 {
    f64::from_bits(x.to_bits())
}

fn source(orientation: i32) -> Source {
    Source {
        info: SourceInfo {
            width: 4000,
            height: 3000,
            bands: 3,
            xres: b(11.811),
            yres: b(11.811),
            pages: 1,
            orientation,
        },
        file_size: Some(900),
        exif: vec![],
    }
}

#[test]
fn discovers_and_decodes_the_sample_image() {
    let sample = ImagePath::new(b"test/flower.jpg".to_vec());
    let listing = FolderListing::Entries {
        parent: ImagePath::new(b"test".to_vec()),
        entries: vec![FolderEntry {
            path: ImagePath::new(b"test/flower.jpg".to_vec()),
            is_file: true,
        }],
    };
    let paths = sibling_images(&sample, &listing).expect("sample directory should be readable");
    assert_eq!(paths.len(), 1);
    assert_eq!(paths[0].bytes, sample.bytes);

    let raster = Raster {
        width: 1600,
        height: 1200,
        pixels: vec![127; 1600 * 1200 * 4],
    };
    let frame = decode_thumbnail(&sample, &source(1), raster).expect("sample image should decode");
    assert!(frame.width > 0);
    assert!(frame.height > 0);
    assert_eq!(
        frame.pixels.len(),
        frame.width as usize * frame.height as usize * 4
    );
}

#[test]
fn frame_is_put_together() {
    let path = ImagePath::new(b"/p/photo.jPg".to_vec());
    let raster = Raster {
        width: 3,
        height: 2,
        pixels: (0..24).collect(),
    };
    let frame = decode_thumbnail(&path, &source(1), raster).unwrap();
    assert!(frame.path.same(&path));
    assert_eq!((frame.width, frame.height, frame.stride), (3, 2, 12));
    assert_eq!(frame.pixels.len(), frame.width as usize * frame.height as usize * 4);
    assert_eq!((frame.source_width, frame.source_height), (4000, 3000));
    assert_eq!(f(frame.source_dpi.unwrap()), 11.811 * 25.4);
    assert_eq!(frame.file_type, "JPG");
    assert!(frame.metadata.starts_with("File\nphoto.jPg\n\nType: JPG\n"));
    assert!(frame.metadata.contains("\nFile size: 900 B\n"));
    assert!(frame.is_showable());
}

#[test]
fn sources_on_their_side_are_set_upright() {
    let path = ImagePath::new(b"a.png".to_vec());
    for orientation in -1..12 {
        let raster = Raster {
            width: 1,
            height: 1,
            pixels: vec![0; 4],
        };
        let frame = decode_thumbnail(&path, &source(orientation), raster).unwrap();
        let expected = if (5..=8).contains(&orientation) {
            (3000, 4000)
        } else {
            (4000, 3000)
        };
        assert_eq!((frame.source_width, frame.source_height), expected);
    }
}

#[test]
fn pixels_must_fill_the_frame() {
    let path = ImagePath::new(b"a.png".to_vec());
    for length in [0, 23, 25] {
        let raster = Raster {
            width: 3,
            height: 2,
            pixels: vec![0; length],
        };
        assert_eq!(
            decode_thumbnail(&path, &source(1), raster).unwrap_err(),
            format!("unexpected decoded buffer size: got {length}, expected 24")
        );
    }
}

#[test]
fn implausible_resolutions_are_ignored() {
    for xres in [0.0, 1.0, 1.417, 1.418, 2.835, 94.4, 94.49, 500.0, -3.0, f64::NAN, f64::INFINITY] {
        let dpi = xres * 25.4;
        let expected = if (36.0..=2400.0).contains(&dpi) {
            Some(dpi)
        } else {
            None
        };
        assert_eq!(source_dpi(b(xres)).map(f), expected);
    }
}

#[test]
fn file_types_are_extensions() {
    assert_eq!(file_type(&ImagePath::new(b"/x/a.webp".to_vec())), "WEBP");
    assert_eq!(file_type(&ImagePath::new("/x/a.ßx".as_bytes().to_vec())), "ßX");
    assert_eq!(file_type(&ImagePath::new(b"/x/a".to_vec())), "Unknown");
    assert_eq!(file_type(&ImagePath::new(b"/x/a.\xff".to_vec())), "Unknown");
}

#[test]
fn names_must_be_text() {
    assert_eq!(decoder_name(&ImagePath::new(b"/x/a.jpg".to_vec())).unwrap(), "/x/a.jpg");
    assert_eq!(
        decoder_name(&ImagePath::new(b"/x/\x80.jpg".to_vec())).unwrap_err(),
        "filename is not valid UTF-8"
    );
}

#[test]
fn bands_are_completed() {
    assert_eq!(ensure_rgba(4), Ok(false));
    assert_eq!(ensure_rgba(3), Ok(true));
    assert_eq!(ensure_rgba(1), Err("unsupported decoded band count: 1".to_string()));
    assert_eq!(ensure_rgba(-2), Err("unsupported decoded band count: -2".to_string()));
    assert_eq!((DECODE_WIDTH, DECODE_HEIGHT), (2560, 1600));
}
