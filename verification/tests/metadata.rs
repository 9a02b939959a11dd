use better_image_view::binary64::Binary64;
use better_image_view::metadata::{describe_metadata, human_size, SourceInfo, EXIF_FIELDS};
use better_image_view::path::ImagePath;

fn b(x: f64) -> Binary64 {
    Binary64::from_bits(x.to_bits())
}

fn info() -> SourceInfo {
    SourceInfo {
        width: 4000,
        height: 3000,
        bands: 3,
        xres: b(11.811),
        yres: b(2.834_999_999),
        pages: 1,
        orientation: 1,
    }
}

#[test]
fn formats_file_sizes_for_metadata() {
    assert_eq!(human_size(900), "900 B");
    assert_eq!(human_size(1536), "1.5 KiB");
}

#[test]
fn file_sizes_agree_with_repeated_division() {
    let units = ["B", "KiB", "MiB", "GiB", "TiB"];
    let mut list = vec![0, 1, 1023, 1024, 1025, 1280, 1075, 1076, 1_048_575, 1_048_576, u64::MAX];
    for shift in 0..64 {
        let power = 1u64 << shift;
        list.push(power);
        list.push(power - 1);
        list.push(power + power / 3);
        list.push(power | power >> 5 | power >> 11);
    }
    for bytes in list {
        let mut value = bytes as f64;
        let mut unit = 0;
        while value >= 1024.0 && unit < units.len() - 1 {
            value /= 1024.0;
            unit += 1;
        }
        let expected = if unit == 0 {
            format!("{bytes} {}", units[unit])
        } else {
            format!("{value:.1} {}", units[unit])
        };
        assert_eq!(human_size(bytes), expected);
    }
}

#[test]
fn metadata_of_a_plain_file() {
    let path = ImagePath::new(b"/p/photo.jpg".to_vec());
    let text = describe_metadata(&path, &info(), "JPG", None, &vec![]);
    assert_eq!(
        text,
        "File\nphoto.jpg\n\nType: JPG\nDimensions: 4000 × 3000\nBands: 3\n\
         Resolution: 11.81 × 2.83 px/mm"
    );
}

#[test]
fn metadata_with_all_parts() {
    let path = ImagePath::new(b"/p/\xff.jpg".to_vec());
    let mut source = info();
    source.pages = 7;
    source.orientation = 6;
    let mut exif: Vec<Option<String>> = vec![None; 15];
    exif[0] = Some("Maker".to_string());
    exif[8] = Some("200".to_string());
    exif[14] = Some("7 deg".to_string());
    let text = describe_metadata(&path, &source, "JPG", Some(2_621_440), &exif);
    assert_eq!(
        text,
        "File\nimage\n\nType: JPG\nDimensions: 4000 × 3000\nBands: 3\nFile size: 2.5 MiB\n\
         Resolution: 11.81 × 2.83 px/mm\nPages: 7\nOrientation: 6\n\nEXIF\nCamera maker: Maker\n\
         ISO: 200\nGPS longitude: 7 deg"
    );
}

#[test]
fn exif_fields_have_labels_and_names() {
    assert_eq!(EXIF_FIELDS.len(), 15);
    assert_eq!(EXIF_FIELDS[0], ("Camera maker", "exif-ifd0-Make"));
    assert_eq!(EXIF_FIELDS[7], ("Aperture", "exif-ifd2-FNumber"));
    assert_eq!(EXIF_FIELDS[13], ("GPS latitude", "exif-ifd3-GPSLatitude"));
}
