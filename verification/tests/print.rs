use better_image_view::binary64::Binary64;
use better_image_view::path::ImagePath;
use better_image_view::print::{
    dragged_offset, paper_preview, preview_sheet_layout, print_answer, print_page, print_status,
    print_title, raster_dpi, render_failure, resolution_note, send_result, PrintAnswer,
    PrintProgress, PrintSpec,
};

fn b(x: f64) -> Binary64 {
    Binary64::from_bits(x.to_bits())
}

fn f(x: Binary64) -> f64 {
    f64::from_bits(x.to_bits())
}

fn a4(fit_to_page: bool) -> PrintSpec {
    PrintSpec {
        paper_width_mm: b(210.0),
        paper_height_mm: b(297.0),
        fit_to_page,
        image_dpi: b(300.0),
        align_x: b(0.5),
        align_y: b(0.5),
        offset_x_mm: b(0.0),
        offset_y_mm: b(0.0),
    }
}

/// The rectangle of an image, computed with doubles.
fn expected(spec: &PrintSpec, width: i32, height: i32) -> (f64, f64, f64, f64) {
    let margin = 12.0 / 25.4 * 72.0;
    let paper_width = f(spec.paper_width_mm) / 25.4 * 72.0;
    let paper_height = f(spec.paper_height_mm) / 25.4 * 72.0;
    let printable_width = paper_width - margin * 2.0;
    let printable_height = paper_height - margin * 2.0;
    let (w, h) = if spec.fit_to_page {
        let scale = (printable_width / width as f64).min(printable_height / height as f64);
        (width as f64 * scale, height as f64 * scale)
    } else {
        (
            width as f64 / f(spec.image_dpi) * 72.0,
            height as f64 / f(spec.image_dpi) * 72.0,
        )
    };
    (
        margin + f(spec.align_x) * (printable_width - w) + f(spec.offset_x_mm) / 25.4 * 72.0,
        margin + f(spec.align_y) * (printable_height - h) + f(spec.offset_y_mm) / 25.4 * 72.0,
        w,
        h,
    )
}

#[test]
fn print_fit_preserves_aspect_ratio_and_margins() {
    let spec = a4(true);
    let (_, _, width, height) = spec.image_rect_points(2000, 1000);
    let (width, height) = (f(width), f(height));
    assert!((width / height - 2.0).abs() < 0.0001);
    assert!(width < 210.0 / 25.4 * 72.0);
}

#[test]
fn print_dpi_controls_physical_size() {
    let spec = a4(false);
    let (_, _, width, height) = spec.image_rect_points(3000, 1500);
    let (width, height) = (f(width), f(height));
    assert!((width - 720.0).abs() < 0.0001);
    assert!((height - 360.0).abs() < 0.0001);
}

#[test]
fn placement_agrees_with_double_arithmetic() {
    for fit in [true, false] {
        for (x, y) in [(0u32, 2u32), (1, 1), (2, 0)] {
            for (width, height) in [(2000, 1000), (333, 777), (1, 5000)] {
                let mut spec = a4(true);
                assert_eq!(spec.set_sizing(if fit { 1 } else { 0 }), !fit);
                spec.set_align_x(x);
                spec.set_align_y(y);
                spec.set_dpi(b(287.0));
                spec.set_offset_x(b(3.7));
                spec.set_offset_y(b(-12.9));
                spec.set_paper(b(215.9), b(279.4));
                assert_eq!(f(spec.align_x), x as f64 / 2.0);
                let (rx, ry, rw, rh) = spec.image_rect_points(width, height);
                assert_eq!((f(rx), f(ry), f(rw), f(rh)), expected(&spec, width, height));
            }
        }
    }
}

#[test]
fn left_aligned_image_starts_at_the_margin() {
    let mut spec = a4(true);
    spec.set_align_x(0);
    spec.set_align_y(0);
    let (x, y, _, _) = spec.image_rect_points(640, 480);
    assert_eq!(f(x), 12.0 / 25.4 * 72.0);
    assert_eq!(f(y), 12.0 / 25.4 * 72.0);
}

#[test]
fn dialog_starts_in_natural_size() {
    let spec = PrintSpec::new(b(210.0), b(297.0), Some(b(150.0)));
    assert!(!spec.fit_to_page);
    assert_eq!(f(spec.image_dpi), 150.0);
    assert_eq!(f(spec.align_x), 0.5);
    assert_eq!(f(spec.offset_y_mm), 0.0);
    assert_eq!(f(PrintSpec::new(b(210.0), b(297.0), None).image_dpi), 300.0);
    assert_eq!(resolution_note(Some(b(71.6))), "Using embedded resolution: 72 DPI");
    assert_eq!(
        resolution_note(None),
        "No trustworthy embedded resolution; using 300 DPI"
    );
}

#[test]
fn page_decodes_no_more_than_it_prints() {
    let spec = a4(false);
    let page = print_page(spec, 3000, 1500, raster_dpi(0));
    assert_eq!((page.target_width, page.target_height), (3000, 1500));
    let page = print_page(spec, 3000, 1500, raster_dpi(100));
    assert_eq!((page.target_width, page.target_height), (1000, 500));
    assert_eq!(f(page.paper_width), 210.0 / 25.4 * 72.0);
    let page = print_page(a4(true), 30_000, 3, raster_dpi(1));
    assert_eq!((page.target_width, page.target_height), (8, 1));
    let (sx, sy) = page.image_scale(8, 1);
    assert_eq!(f(sx), f(page.image.width) / 8.0);
    assert_eq!(f(sy), f(page.image.height));
    assert_eq!(f(raster_dpi(-5)), 300.0);
    assert_eq!(f(raster_dpi(1200)), 1200.0);
}

#[test]
fn preview_shows_what_is_printed() {
    let mut spec = a4(false);
    spec.set_offset_x(b(5.5));
    let layout = preview_sheet_layout(420, 360, spec).unwrap();
    let paper_width = 210.0 / 25.4 * 72.0;
    let paper_height = 297.0 / 25.4 * 72.0;
    let scale = ((420.0 - 24.0_f64) / paper_width).min((360.0 - 24.0) / paper_height);
    assert_eq!(f(layout.scale), scale);
    assert_eq!(f(layout.sheet.width), paper_width * scale);
    assert_eq!(f(layout.sheet.x), (420.0 - paper_width * scale) / 2.0);

    let preview = paper_preview(420, 360, spec, 500, 250, 3000, 1500).unwrap();
    let (x, y, w, h) = expected(&spec, 3000, 1500);
    assert_eq!(f(preview.image_x), f(layout.sheet.x) + x * scale);
    assert_eq!(f(preview.image_y), f(layout.sheet.y) + y * scale);
    assert_eq!(f(preview.image_scale_x), w * scale / 500.0);
    assert_eq!(f(preview.image_scale_y), h * scale / 250.0);
    assert_eq!(f(preview.shadow.x), f(layout.sheet.x) + 3.0);

    assert!(preview_sheet_layout(24, 360, spec).is_none());
    assert!(paper_preview(420, 10, spec, 500, 250, 3000, 1500).is_none());
    spec.set_paper(b(0.0), b(0.0));
    assert!(preview_sheet_layout(420, 360, spec).is_none());
}

#[test]
fn dragging_moves_the_offset() {
    let offset = dragged_offset(b(2.0), b(30.0), b(0.4));
    assert_eq!(f(offset), 2.0 + 30.0 / 0.4 / (72.0 / 25.4));
}

#[test]
fn alignments_place_the_image() {
    let paper = 210.0 / 25.4 * 72.0;
    let margin = 12.0 / 25.4 * 72.0;
    for fit in [true, false] {
        let mut spec = a4(fit);
        let (x, _, w, _) = spec.image_rect_points(1000, 3000);
        assert!((2.0 * f(x) + f(w) - paper).abs() < 1e-9);
        spec.set_align_x(2);
        let (x, _, w, _) = spec.image_rect_points(1000, 3000);
        assert!((f(x) + f(w) - (paper - margin)).abs() < 1e-9);
        spec.set_offset_x(b(7.5));
        let (moved, _, moved_w, _) = spec.image_rect_points(1000, 3000);
        assert_eq!(f(moved), f(x) + 7.5 / 25.4 * 72.0);
        assert_eq!(f(moved_w), f(w));
    }
}

#[test]
fn narrow_paper_places_the_image_alike() {
    let margin = 12.0 / 25.4 * 72.0;
    for mm in [0.0, 5.0, 12.0, 24.0, 30.0] {
        let paper = mm / 25.4 * 72.0;
        for fit in [true, false] {
            let mut spec = a4(fit);
            spec.paper_width_mm = b(mm);
            let (x, _, w, _) = spec.image_rect_points(1000, 3000);
            assert!((2.0 * f(x) + f(w) - paper).abs() < 1e-9);
            spec.set_align_x(2);
            let (x, _, w, _) = spec.image_rect_points(1000, 3000);
            assert!((f(x) + f(w) - (paper - margin)).abs() < 1e-9);
        }
    }
}

#[test]
fn paper_of_two_margins_leaves_no_room() {
    let margin = 12.0 / 25.4 * 72.0;
    let mut spec = a4(true);
    spec.paper_width_mm = b(24.0);
    let (x, y, w, h) = spec.image_rect_points(1000, 3000);
    assert_eq!((f(w), f(h)), (0.0, 0.0));
    assert_eq!(f(x), margin);
    assert!((2.0 * f(y) - 297.0 / 25.4 * 72.0).abs() < 1e-9);
}

#[test]
fn fitted_image_lies_inside_the_margins() {
    let margin = 12.0 / 25.4 * 72.0;
    for (width, height) in [(2000, 1000), (1000, 2000), (1, 7777), (333, 331)] {
        for align in 0..3 {
            let mut spec = a4(true);
            spec.set_align_x(align);
            spec.set_align_y(align);
            let (x, y, w, h) = spec.image_rect_points(width, height);
            let (x, y, w, h) = (f(x), f(y), f(w), f(h));
            assert!(x >= margin - 1e-9 && x + w <= 210.0 / 25.4 * 72.0 - margin + 1e-9);
            assert!(y >= margin - 1e-9 && y + h <= 297.0 / 25.4 * 72.0 - margin + 1e-9);
            assert!((w * height as f64 - h * width as f64).abs() < 1e-6);
        }
    }
}

#[test]
fn sheet_leaves_its_padding_free() {
    let spec = a4(false);
    for (width, height) in [(25, 25), (420, 360), (360, 420), (2000, 100), (100, 2000)] {
        let layout = preview_sheet_layout(width, height, spec).unwrap();
        let (x, y) = (f(layout.sheet.x), f(layout.sheet.y));
        assert!(x >= 12.0 - 1e-6 && y >= 12.0 - 1e-6);
        assert!(x <= 12.0 + 1e-6 || y <= 12.0 + 1e-6);
    }
    assert!(preview_sheet_layout(24, 25, spec).is_none());
    assert!(preview_sheet_layout(25, 24, spec).is_none());
    assert!(preview_sheet_layout(-5, 400, spec).is_none());
}

#[test]
fn answers_of_the_dialog() {
    assert_eq!(print_answer(true, true), PrintAnswer::Render);
    assert_eq!(print_answer(true, false), PrintAnswer::NoPrinter);
    assert_eq!(print_answer(false, true), PrintAnswer::Dismiss);
    assert_eq!(print_answer(false, false), PrintAnswer::Dismiss);
    assert!(render_failure(Ok(())).is_none());
    assert!(matches!(
        render_failure(Err("broken".to_string())),
        Some(PrintProgress::Unrendered(error)) if error == "broken"
    ));
    let sent = send_result("a.jpg".to_string(), "Laser".to_string(), Ok(()));
    assert_eq!(print_status(&sent), "Sent “a.jpg” to Laser");
    let unsent = send_result("a.jpg".to_string(), "Laser".to_string(), Err("jam".to_string()));
    assert_eq!(print_status(&unsent), "Could not print: jam");
}

#[test]
fn print_job_is_reported() {
    assert_eq!(print_status(&PrintProgress::NoPrinter), "No printer selected");
    assert_eq!(
        print_status(&PrintProgress::Sent {
            title: "a.jpg".to_string(),
            printer: "Laser".to_string(),
        }),
        "Sent “a.jpg” to Laser"
    );
    assert_eq!(
        print_status(&PrintProgress::Unsent("jam".to_string())),
        "Could not print: jam"
    );
    assert_eq!(
        print_status(&PrintProgress::Unrendered("broken".to_string())),
        "Could not render print: broken"
    );
    assert_eq!(print_title(&ImagePath::new(b"/x/a.jpg".to_vec())), "a.jpg");
    assert_eq!(print_title(&ImagePath::new(b"/x/\xff.jpg".to_vec())), "Image");
}
