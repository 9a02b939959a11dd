use better_image_view::frame::{
    edited_dimensions, preview_pixels, texture_for_rotation, DecodedFrame,
};
use better_image_view::path::ImagePath;

/// A frame whose pixels carry their place, with two bytes of padding per row.
fn frame(width: i32, height: i32) -> DecodedFrame {
    let stride = width as usize * 4 + 2;
    let mut pixels = vec![0xee; stride * height as usize];
    for y in 0..height as usize {
        for x in 0..width as usize {
            let at = y * stride + x * 4;
            pixels[at] = x as u8;
            pixels[at + 1] = y as u8;
            pixels[at + 2] = 200;
            pixels[at + 3] = 128;
        }
    }
    DecodedFrame {
        path: ImagePath::new(b"a.png".to_vec()),
        width,
        height,
        stride,
        pixels,
        source_width: width,
        source_height: height,
        source_dpi: None,
        file_type: "PNG".to_string(),
        metadata: String::new(),
    }
}

#[test]
fn edited_dimensions_rotate_and_preserve_aspect_ratio() {
    assert_eq!(edited_dimensions(4000, 3000, 0, 2000), (2000, 1500));
    assert_eq!(edited_dimensions(4000, 3000, 1, 2000), (1500, 2000));
    assert_eq!(edited_dimensions(4000, 3000, 2, 5000), (4000, 3000));
}

#[test]
fn edited_copy_has_the_chosen_edge() {
    for (width, height) in [(4000, 3000), (3, 4001), (1999, 1), (65_535, 65_537)] {
        for edge in [1, 2, 7, 999, 1998, 40_000] {
            for rotation in 0..4 {
                let (w, h) = edited_dimensions(width, height, rotation, edge);
                let longer = width.max(height);
                assert!(w >= 1 && h >= 1);
                if edge < longer {
                    assert_eq!(w.max(h), edge);
                } else {
                    assert_eq!(w.max(h), longer);
                }
                let scale = edge as f64 / longer as f64;
                if edge < longer && rotation % 2 == 0 {
                    assert_eq!(w, (width as f64 * scale).round().max(1.0) as i32);
                    assert_eq!(h, (height as f64 * scale).round().max(1.0) as i32);
                }
            }
        }
    }
    assert_eq!(edited_dimensions(4000, 3001, 0, 1000), (1000, 750));
    assert_eq!(edited_dimensions(4000, 3001, 1, 1000), (750, 1000));
    assert_eq!(edited_dimensions(4000, 1, 0, 1000), (1000, 1));
    assert_eq!(edited_dimensions(640, 480, 3, 0), (480, 640));
    assert_eq!(edited_dimensions(640, 480, 0, -7), (640, 480));
}

#[test]
fn unturned_texture_keeps_its_rows() {
    let frame = frame(3, 2);
    let texture = texture_for_rotation(&frame, 4);
    assert_eq!(texture.pixels, frame.pixels);
    assert_eq!(texture.stride, frame.stride);
    assert_eq!((texture.width, texture.height), (3, 2));
}

#[test]
fn texture_is_turned_clockwise() {
    let frame = frame(3, 2);
    let texture = texture_for_rotation(&frame, 1);
    assert_eq!((texture.width, texture.height, texture.stride), (2, 3, 8));
    // The first row of the source is the last column.
    let at = |x: usize, y: usize| {
        let start = y * texture.stride + x * 4;
        (texture.pixels[start], texture.pixels[start + 1])
    };
    assert_eq!(at(1, 0), (0, 0));
    assert_eq!(at(1, 1), (1, 0));
    assert_eq!(at(1, 2), (2, 0));
    assert_eq!(at(0, 0), (0, 1));

    let half = texture_for_rotation(&frame, 2);
    assert_eq!((half.width, half.height), (3, 2));
    assert_eq!(&half.pixels[0..4], &[2, 1, 200, 128]);

    let left = texture_for_rotation(&frame, 3);
    assert_eq!((left.width, left.height), (2, 3));
    assert_eq!(&left.pixels[0..4], &[2, 0, 200, 128]);
}

#[test]
fn four_turns_give_the_image_again() {
    let mut current = frame(5, 3);
    let start = texture_for_rotation(&texture_frame(&current, 2), 2);
    for _ in 0..4 {
        current = texture_frame(&current, 1);
    }
    assert_eq!(current.pixels, start.pixels);
    assert_eq!((current.width, current.height), (5, 3));
}

fn texture_frame(from: &DecodedFrame, rotation: u8) -> DecodedFrame {
    let texture = texture_for_rotation(from, rotation);
    let mut turned = frame(1, 1);
    turned.width = texture.width;
    turned.height = texture.height;
    turned.stride = texture.stride;
    turned.pixels = texture.pixels;
    turned
}

#[test]
fn preview_premultiplies_and_swaps_channels() {
    let frame = frame(3, 2);
    let stride = 16;
    let pixels = preview_pixels(&frame, stride);
    assert_eq!(pixels.len(), stride * 2);
    let start = stride + 2 * 4;
    assert_eq!(
        &pixels[start..start + 4],
        &[(200 * 128 / 255) as u8, 0, (2 * 128 / 255) as u8, 128]
    );
}

#[test]
fn frames_without_all_rows_cannot_be_shown() {
    let mut frame = frame(3, 2);
    assert!(frame.is_showable());
    frame.pixels.truncate(14 + 11);
    assert!(!frame.is_showable());
    frame.pixels.push(0);
    assert!(frame.is_showable());
    frame.height = -1;
    assert!(!frame.is_showable());
    frame.height = 0;
    assert!(frame.is_showable());
}
