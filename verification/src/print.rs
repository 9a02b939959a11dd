//! Placing an image on paper.
use crate::binary64::{
    at_most, ceiling, fraction, lemma_rounded_exact, lemma_whole_exact, less, minimum, negation,
    one, truncated, whole, Binary64, Number,
};
use crate::decimal::{fixed, format_fixed};
use crate::decode::plausible_dpi;
use crate::ordering::{
    lemma_divided_back, lemma_fitted_extent, lemma_half, lemma_quotient_within,
    lemma_quotients_ordered, lemma_relative_error, lemma_rounded_again, lemma_rounded_doubled,
    lemma_rounded_range, lemma_scaled_back, lemma_sum_error, lemma_units_within,
    lemma_whole_units_error, lemma_within_back, lemma_within_cancel, lemma_within_chain,
    lemma_within_times, within,
};
use crate::path::{file_name, text_or, ImagePath};
use crate::rounding::{
    lemma_pow2_mono, lemma_rounded_ratio, lemma_rounded_zero, nearest, rounded_units,
    rounding_shift,
};
use vstd::arithmetic::div_mod::*;
use vstd::arithmetic::mul::*;
use vstd::arithmetic::power2::*;
use vstd::prelude::*;

verus! {

/// Millimetres that stay free along each edge of the paper.
pub const PRINT_MARGIN_MM: i32 = 12;

/// The resolution that is assumed where none can be trusted.
pub const DEFAULT_DPI: i32 = 300;

/// How an image is placed on a sheet of paper.
#[derive(Clone, Copy, Debug)]
pub struct PrintSpec {
    pub paper_width_mm: Binary64,
    pub paper_height_mm: Binary64,
    pub fit_to_page: bool,
    pub image_dpi: Binary64,
    /// Placement inside the printable area: 0 is the left or top edge, 0.5 the center, 1 the right
    /// or bottom edge.
    pub align_x: Binary64,
    pub align_y: Binary64,
    /// A free offset in addition.
    pub offset_x_mm: Binary64,
    pub offset_y_mm: Binary64,
}

/// A rectangle.
#[derive(Clone, Copy, Debug)]
pub struct Rectangle {
    pub x: Binary64,
    pub y: Binary64,
    pub width: Binary64,
    pub height: Binary64,
}

/// Where the paper lies in the preview, and how many pixels a point has there.
#[derive(Clone, Copy, Debug)]
pub struct SheetLayout {
    pub scale: Binary64,
    pub sheet: Rectangle,
}

/// What the preview draws: the shadow of the sheet, the sheet, and the image, moved and scaled.
#[derive(Clone, Copy, Debug)]
pub struct PaperPreview {
    pub shadow: Rectangle,
    pub sheet: Rectangle,
    pub image_x: Binary64,
    pub image_y: Binary64,
    pub image_scale_x: Binary64,
    pub image_scale_y: Binary64,
}

/// The page of a print job, and the size to which the source is decoded for it.
#[derive(Clone, Copy, Debug)]
pub struct PrintPage {
    pub paper_width: Binary64,
    pub paper_height: Binary64,
    pub image: Rectangle,
    pub target_width: i32,
    pub target_height: i32,
}

/// Millimetres in points.
pub open spec fn points(mm: Number) -> Number {
    mm.over(fraction(254, 10)).times(whole(72))
}

/// The part of a paper edge between the margins, in points.
pub open spec fn printable(mm: Number) -> Number {
    points(mm).minus(points(whole(PRINT_MARGIN_MM as int)).times(whole(2)))
}

impl PrintSpec {
    /// The extents of a printed image, in points.
    pub open spec fn printed_size(self, image_width: int, image_height: int) -> (Number, Number) {
        if self.fit_to_page {
            let scale = minimum(
                printable(self.paper_width_mm@).over(whole(image_width)),
                printable(self.paper_height_mm@).over(whole(image_height)),
            );
            (whole(image_width).times(scale), whole(image_height).times(scale))
        } else {
            (
                whole(image_width).over(self.image_dpi@).times(whole(72)),
                whole(image_height).over(self.image_dpi@).times(whole(72)),
            )
        }
    }
}

/// Where an extent starts along a paper edge, in points.
pub open spec fn placed(mm: Number, align: Number, extent: Number, offset_mm: Number) -> Number {
    points(whole(PRINT_MARGIN_MM as int)).plus(align.times(printable(mm).minus(extent))).plus(
        points(offset_mm),
    )
}

impl PrintSpec {
    /// The rectangle of an image on the paper, in points: x, y, width and height.
    pub open spec fn image_rect(self, image_width: int, image_height: int) -> (
        Number,
        Number,
        Number,
        Number,
    ) {
        let (width, height) = self.printed_size(image_width, image_height);
        (
            placed(self.paper_width_mm@, self.align_x@, width, self.offset_x_mm@),
            placed(self.paper_height_mm@, self.align_y@, height, self.offset_y_mm@),
            width,
            height,
        )
    }
}

/// The pixels of a printed extent, at least one and no more than the source has.
pub open spec fn raster_extent(extent: Number, raster_dpi: Number, source: int) -> int {
    let wanted = truncated(ceiling(extent.over(whole(72)).times(raster_dpi)));
    let bounded = if wanted < source {
        wanted
    } else {
        source
    };
    if bounded > 1 {
        bounded
    } else {
        1
    }
}

/// The note on the resolution that is offered at first.
pub open spec fn resolution_note_text(source_dpi: Option<Number>) -> Seq<char> {
    match source_dpi {
        Some(dpi) => "Using embedded resolution: "@ + fixed(dpi, 0) + " DPI"@,
        None => "No trustworthy embedded resolution; using 300 DPI"@,
    }
}

fn to_points(mm: Binary64) -> (r: Binary64)
    ensures
        r@ == points(mm@),
{
    mm.over(Binary64::from_fraction(254, 10)).times(Binary64::from_i32(72))
}

fn to_printable(mm: Binary64) -> (r: Binary64)
    ensures
        r@ == printable(mm@),
{
    to_points(mm).minus(to_points(Binary64::from_i32(PRINT_MARGIN_MM)).times(Binary64::from_i32(2)))
}

fn place(mm: Binary64, align: Binary64, extent: Binary64, offset_mm: Binary64) -> (r: Binary64)
    ensures
        r@ == placed(mm@, align@, extent@, offset_mm@),
{
    to_points(Binary64::from_i32(PRINT_MARGIN_MM)).plus(
        align.times(to_printable(mm).minus(extent)),
    ).plus(to_points(offset_mm))
}

fn raster(extent: Binary64, raster_dpi: Binary64, source: i32) -> (r: i32)
    ensures
        r == raster_extent(extent@, raster_dpi@, source as int),
{
    let wanted: i32 = extent.over(Binary64::from_i32(72)).times(raster_dpi).ceil().to_i32();
    let bounded: i32 = if wanted < source {
        wanted
    } else {
        source
    };
    if bounded > 1 {
        bounded
    } else {
        1
    }
}

/// The alignments that can be selected.
proof fn lemma_alignments()
    ensures
        whole(0).over(whole(2)) == whole(0),
        whole(1).over(whole(2)) == fraction(1, 2),
        whole(2).over(whole(2)) == whole(1),
{
    let u = one();
    lemma_whole_exact(0);
    lemma_whole_exact(1);
    lemma_whole_exact(2);
    lemma_pow2_pos(1074);
    lemma_pow2_pos(2098);
    lemma_mul_basics(u as int);
    lemma_rounded_zero(53, 0, 2 * u);
    assert((u * u) * 2 == u * (2 * u)) by (nonlinear_arith);
    lemma_rounded_ratio(53, 0, u * u, 2 * u, u, 2);
    assert(((2 * u) * u) * 1 == u * (2 * u)) by (nonlinear_arith);
    lemma_rounded_ratio(53, 0, (2 * u) * u, 2 * u, u, 1);
}

/// The resolution that the print dialog starts with: that of the source, or the assumed one.
pub open spec fn initial_dpi(source_dpi: Option<Number>) -> Number {
    match source_dpi {
        Some(dpi) => dpi,
        None => whole(DEFAULT_DPI as int),
    }
}

/// The resolution at which a page is rendered.
pub open spec fn rendered_dpi(resolution: int) -> Number {
    whole(
        if resolution > 0 {
            resolution
        } else {
            DEFAULT_DPI as int
        },
    )
}

impl PrintSpec {
    /// The placement that the print dialog starts with: in natural size, centered.
    pub fn new(
        paper_width_mm: Binary64,
        paper_height_mm: Binary64,
        source_dpi: Option<Binary64>,
    ) -> (r: Self)
        ensures
            r.paper_width_mm == paper_width_mm,
            r.paper_height_mm == paper_height_mm,
            !r.fit_to_page,
            match source_dpi {
                Some(dpi) => r.image_dpi == dpi,
                None => r.image_dpi@ == whole(DEFAULT_DPI as int),
            },
            r.image_dpi@ == initial_dpi(
                match source_dpi {
                    Some(dpi) => Some(dpi@),
                    None => None,
                },
            ),
            r.align_x@ == fraction(1, 2),
            r.align_y@ == fraction(1, 2),
            r.offset_x_mm@ == whole(0),
            r.offset_y_mm@ == whole(0),
    {
        let half: Binary64 = Binary64::from_fraction(1, 2);
        let nothing: Binary64 = Binary64::from_i32(0);
        PrintSpec {
            paper_width_mm,
            paper_height_mm,
            fit_to_page: false,
            image_dpi: match source_dpi {
                Some(dpi) => dpi,
                None => Binary64::from_i32(DEFAULT_DPI),
            },
            align_x: half,
            align_y: half,
            offset_x_mm: nothing,
            offset_y_mm: nothing,
        }
    }

    /// The rectangle of the image on the paper, in points: x, y, width and height.
    pub fn image_rect_points(&self, image_width: i32, image_height: i32) -> (r: (
        Binary64,
        Binary64,
        Binary64,
        Binary64,
    ))
        ensures
            (r.2@, r.3@) == self.printed_size(image_width as int, image_height as int),
            r.0@ == placed(self.paper_width_mm@, self.align_x@, r.2@, self.offset_x_mm@),
            r.1@ == placed(self.paper_height_mm@, self.align_y@, r.3@, self.offset_y_mm@),
            (r.0@, r.1@, r.2@, r.3@) == self.image_rect(image_width as int, image_height as int),
    {
        let across: Binary64 = Binary64::from_i32(image_width);
        let down: Binary64 = Binary64::from_i32(image_height);
        let (width, height): (Binary64, Binary64) = if self.fit_to_page {
            let scale: Binary64 = to_printable(self.paper_width_mm).over(across).min(
                to_printable(self.paper_height_mm).over(down),
            );
            (across.times(scale), down.times(scale))
        } else {
            let inch: Binary64 = Binary64::from_i32(72);
            (across.over(self.image_dpi).times(inch), down.over(self.image_dpi).times(inch))
        };
        (
            place(self.paper_width_mm, self.align_x, width, self.offset_x_mm),
            place(self.paper_height_mm, self.align_y, height, self.offset_y_mm),
            width,
            height,
        )
    }

    /// Takes over the paper that the dialog has selected.
    pub fn set_paper(&mut self, width_mm: Binary64, height_mm: Binary64)
        ensures
            *final(self) == (PrintSpec {
                paper_width_mm: width_mm,
                paper_height_mm: height_mm,
                ..*old(self)
            }),
    {
        self.paper_width_mm = width_mm;
        self.paper_height_mm = height_mm;
    }

    /// Takes over the selected sizing; the second entry fits the image to the page. Returns
    /// whether a resolution can be entered.
    pub fn set_sizing(&mut self, selected: u32) -> (sensitive: bool)
        ensures
            *final(self) == (PrintSpec { fit_to_page: selected == 1, ..*old(self) }),
            sensitive == (selected != 1),
    {
        self.fit_to_page = selected == 1;
        !self.fit_to_page
    }

    /// Takes over the resolution of the image.
    pub fn set_dpi(&mut self, dpi: Binary64)
        ensures
            *final(self) == (PrintSpec { image_dpi: dpi, ..*old(self) }),
    {
        self.image_dpi = dpi;
    }

    /// Takes over the selected horizontal alignment: left, center or right.
    pub fn set_align_x(&mut self, selected: u32)
        ensures
            *final(self) == (PrintSpec { align_x: final(self).align_x, ..*old(self) }),
            final(self).align_x@ == whole(selected as int).over(whole(2)),
            selected == 0 ==> final(self).align_x@ == whole(0),
            selected == 1 ==> final(self).align_x@ == fraction(1, 2),
            selected == 2 ==> final(self).align_x@ == whole(1),
    {
        proof {
            lemma_alignments();
        }
        self.align_x = Binary64::from_u64(selected as u64).over(Binary64::from_i32(2));
    }

    /// Takes over the selected vertical alignment: top, middle or bottom.
    pub fn set_align_y(&mut self, selected: u32)
        ensures
            *final(self) == (PrintSpec { align_y: final(self).align_y, ..*old(self) }),
            final(self).align_y@ == whole(selected as int).over(whole(2)),
            selected == 0 ==> final(self).align_y@ == whole(0),
            selected == 1 ==> final(self).align_y@ == fraction(1, 2),
            selected == 2 ==> final(self).align_y@ == whole(1),
    {
        proof {
            lemma_alignments();
        }
        self.align_y = Binary64::from_u64(selected as u64).over(Binary64::from_i32(2));
    }

    /// Takes over the horizontal offset.
    pub fn set_offset_x(&mut self, mm: Binary64)
        ensures
            *final(self) == (PrintSpec { offset_x_mm: mm, ..*old(self) }),
    {
        self.offset_x_mm = mm;
    }

    /// Takes over the vertical offset.
    pub fn set_offset_y(&mut self, mm: Binary64)
        ensures
            *final(self) == (PrintSpec { offset_y_mm: mm, ..*old(self) }),
    {
        self.offset_y_mm = mm;
    }
}

/// The note on the resolution that is offered at first.
pub fn resolution_note(source_dpi: Option<Binary64>) -> (s: String)
    ensures
        s@ == resolution_note_text(
            match source_dpi {
                Some(dpi) => Some(dpi@),
                None => None,
            },
        ),
{
    match source_dpi {
        Some(dpi) => {
            let mut s: String = "Using embedded resolution: ".to_owned();
            let value: String = format_fixed(dpi, 0);
            s.append(value.as_str());
            s.append(" DPI");
            s
        },
        None => "No trustworthy embedded resolution; using 300 DPI".to_owned(),
    }
}

/// The millimetres of `delta` pixels of the preview.
pub open spec fn dragged(delta: Number, scale: Number) -> Number {
    delta.over(scale).over(whole(72).over(fraction(254, 10)))
}

/// The offset, in millimetres, after dragging by `delta` pixels of the preview.
pub fn dragged_offset(start_mm: Binary64, delta: Binary64, scale: Binary64) -> (r: Binary64)
    ensures
        r@ == start_mm@.plus(delta@.over(scale@).over(whole(72).over(fraction(254, 10)))),
        r@ == start_mm@.plus(dragged(delta@, scale@)),
{
    let points_per_mm: Binary64 = Binary64::from_i32(72).over(Binary64::from_fraction(254, 10));
    start_mm.plus(delta.over(scale).over(points_per_mm))
}

/// The resolution at which a page is rendered: that of the printer, if it tells one.
pub fn raster_dpi(resolution: i32) -> (r: Binary64)
    ensures
        r@ == whole(
            if resolution > 0 {
                resolution as int
            } else {
                DEFAULT_DPI as int
            },
        ),
        r@ == rendered_dpi(resolution as int),
{
    if resolution > 0 {
        Binary64::from_i32(resolution)
    } else {
        Binary64::from_i32(DEFAULT_DPI)
    }
}

/// Lays out the page of a print job.
pub fn print_page(
    spec: PrintSpec,
    source_width: i32,
    source_height: i32,
    raster_dpi: Binary64,
) -> (r: PrintPage)
    ensures
        r.lays_out(spec, source_width as int, source_height as int, raster_dpi@),
{
    let (x, y, width, height): (Binary64, Binary64, Binary64, Binary64) = spec.image_rect_points(
        source_width,
        source_height,
    );
    PrintPage {
        paper_width: to_points(spec.paper_width_mm),
        paper_height: to_points(spec.paper_height_mm),
        image: Rectangle { x, y, width, height },
        target_width: raster(width, raster_dpi, source_width),
        target_height: raster(height, raster_dpi, source_height),
    }
}

/// The factor by which some pixels are scaled to fill an extent.
pub open spec fn filling_scale(extent: Number, pixels: int) -> Number {
    extent.over(whole(pixels))
}

impl PrintPage {
    /// Whether this is the page of a placement, with the source decoded as finely as it is
    /// printed.
    pub open spec fn lays_out(
        self,
        spec: PrintSpec,
        source_width: int,
        source_height: int,
        raster_dpi: Number,
    ) -> bool {
        let (width, height) = spec.printed_size(source_width, source_height);
        &&& self.paper_width@ == points(spec.paper_width_mm@)
        &&& self.paper_height@ == points(spec.paper_height_mm@)
        &&& self.image.width@ == width
        &&& self.image.height@ == height
        &&& self.image.x@ == placed(spec.paper_width_mm@, spec.align_x@, width, spec.offset_x_mm@)
        &&& self.image.y@ == placed(spec.paper_height_mm@, spec.align_y@, height, spec.offset_y_mm@)
        &&& self.target_width == raster_extent(width, raster_dpi, source_width)
        &&& self.target_height == raster_extent(height, raster_dpi, source_height)
    }

    /// The factors by which a decoded image is scaled to fill its rectangle.
    pub fn image_scale(&self, width: i32, height: i32) -> (r: (Binary64, Binary64))
        ensures
            r.0@ == self.image.width@.over(whole(width as int)),
            r.1@ == self.image.height@.over(whole(height as int)),
            r.0@ == filling_scale(self.image.width@, width as int),
            r.1@ == filling_scale(self.image.height@, height as int),
    {
        (
            self.image.width.over(Binary64::from_i32(width)),
            self.image.height.over(Binary64::from_i32(height)),
        )
    }
}

/// Pixels per point at which the paper fits into the preview with its padding.
pub open spec fn sheet_scale(width: int, height: int, spec: PrintSpec) -> Number {
    let padding = whole(12).times(whole(2));
    minimum(
        whole(width).minus(padding).over(points(spec.paper_width_mm@)),
        whole(height).minus(padding).over(points(spec.paper_height_mm@)),
    )
}

/// Whether there is room to draw a sheet at a scale.
pub open spec fn drawable(scale: Number) -> bool {
    scale is Finite && less(whole(0), scale)
}

impl Rectangle {
    /// Whether this is the sheet at a scale, centered in the preview.
    pub open spec fn is_sheet(self, width: int, height: int, spec: PrintSpec, scale: Number) -> bool {
        &&& self.width@ == points(spec.paper_width_mm@).times(scale)
        &&& self.height@ == points(spec.paper_height_mm@).times(scale)
        &&& self.x@ == whole(width).minus(self.width@).over(whole(2))
        &&& self.y@ == whole(height).minus(self.height@).over(whole(2))
    }
}

impl SheetLayout {
    /// Whether this is the layout of a sheet in the preview.
    pub open spec fn shows(self, width: int, height: int, spec: PrintSpec) -> bool {
        &&& self.scale@ == sheet_scale(width, height, spec)
        &&& self.sheet.is_sheet(width, height, spec, self.scale@)
    }
}

/// Fits the paper sheet into the preview.
pub fn preview_sheet_layout(width: i32, height: i32, spec: PrintSpec) -> (r: Option<SheetLayout>)
    ensures
        r is Some <==> drawable(sheet_scale(width as int, height as int, spec)),
        r matches Some(layout) ==> layout.shows(width as int, height as int, spec),
{
    let paper_width: Binary64 = to_points(spec.paper_width_mm);
    let paper_height: Binary64 = to_points(spec.paper_height_mm);
    let two: Binary64 = Binary64::from_i32(2);
    let padding: Binary64 = Binary64::from_i32(12).times(two);
    let across: Binary64 = Binary64::from_i32(width);
    let down: Binary64 = Binary64::from_i32(height);
    let scale: Binary64 = across.minus(padding).over(paper_width).min(
        down.minus(padding).over(paper_height),
    );
    if scale.is_at_most(Binary64::from_i32(0)) || !scale.is_finite() {
        return None;
    }
    let sheet_width: Binary64 = paper_width.times(scale);
    let sheet_height: Binary64 = paper_height.times(scale);
    Some(
        SheetLayout {
            scale,
            sheet: Rectangle {
                x: across.minus(sheet_width).over(two),
                y: down.minus(sheet_height).over(two),
                width: sheet_width,
                height: sheet_height,
            },
        },
    )
}

impl PaperPreview {
    /// Whether this shows the sheet in the preview with its shadow, and the image at its place.
    pub open spec fn shows(
        self,
        width: int,
        height: int,
        spec: PrintSpec,
        image_width: int,
        image_height: int,
        source_width: int,
        source_height: int,
    ) -> bool {
        let scale = sheet_scale(width, height, spec);
        let (printed_width, printed_height) = spec.printed_size(source_width, source_height);
        let x = placed(spec.paper_width_mm@, spec.align_x@, printed_width, spec.offset_x_mm@);
        let y = placed(spec.paper_height_mm@, spec.align_y@, printed_height, spec.offset_y_mm@);
        &&& self.sheet.is_sheet(width, height, spec, scale)
        &&& self.shadow.x@ == self.sheet.x@.plus(whole(3))
        &&& self.shadow.y@ == self.sheet.y@.plus(whole(3))
        &&& self.shadow.width@ == self.sheet.width@
        &&& self.shadow.height@ == self.sheet.height@
        &&& self.image_x@ == self.sheet.x@.plus(x.times(scale))
        &&& self.image_y@ == self.sheet.y@.plus(y.times(scale))
        &&& self.image_scale_x@ == printed_width.times(scale).over(whole(image_width))
        &&& self.image_scale_y@ == printed_height.times(scale).over(whole(image_height))
    }
}

/// The paper sheet centered in the preview, with the image placed on it.
pub fn paper_preview(
    width: i32,
    height: i32,
    spec: PrintSpec,
    image_width: i32,
    image_height: i32,
    source_width: i32,
    source_height: i32,
) -> (r: Option<PaperPreview>)
    ensures
        r is Some <==> drawable(sheet_scale(width as int, height as int, spec)),
        r matches Some(preview) ==> preview.shows(
            width as int,
            height as int,
            spec,
            image_width as int,
            image_height as int,
            source_width as int,
            source_height as int,
        ),
{
    match preview_sheet_layout(width, height, spec) {
        None => None,
        Some(layout) => {
            let (x, y, draw_width, draw_height): (Binary64, Binary64, Binary64, Binary64) =
                spec.image_rect_points(source_width, source_height);
            let scale: Binary64 = layout.scale;
            let three: Binary64 = Binary64::from_i32(3);
            Some(PaperPreview {
                shadow: Rectangle {
                    x: layout.sheet.x.plus(three),
                    y: layout.sheet.y.plus(three),
                    width: layout.sheet.width,
                    height: layout.sheet.height,
                },
                sheet: layout.sheet,
                image_x: layout.sheet.x.plus(x.times(scale)),
                image_y: layout.sheet.y.plus(y.times(scale)),
                image_scale_x: draw_width.times(scale).over(Binary64::from_i32(image_width)),
                image_scale_y: draw_height.times(scale).over(Binary64::from_i32(image_height)),
            })
        },
    }
}

/// What has become of a print job.
#[derive(Debug)]
pub enum PrintProgress {
    NoPrinter,
    Sent { title: String, printer: String },
    Unsent(String),
    Unrendered(String),
}

/// What the window says of a print job.
pub open spec fn progress_text(progress: PrintProgress) -> Seq<char> {
    match progress {
        PrintProgress::NoPrinter => "No printer selected"@,
        PrintProgress::Sent { title, printer } => "Sent “"@ + title@ + "” to "@ + printer@,
        PrintProgress::Unsent(error) => "Could not print: "@ + error@,
        PrintProgress::Unrendered(error) => "Could not render print: "@ + error@,
    }
}

/// What the window says of a print job.
pub fn print_status(progress: &PrintProgress) -> (r: String)
    ensures
        r@ == progress_text(*progress),
{
    let (start, end): (&str, &String) = match progress {
        PrintProgress::NoPrinter => return "No printer selected".to_owned(),
        PrintProgress::Sent { title, printer } => {
            let mut text: String = "Sent “".to_owned();
            text.append(title.as_str());
            text.append("” to ");
            text.append(printer.as_str());
            return text;
        },
        PrintProgress::Unsent(error) => ("Could not print: ", error),
        PrintProgress::Unrendered(error) => ("Could not render print: ", error),
    };
    let mut text: String = start.to_owned();
    text.append(end.as_str());
    text
}

/// What follows the answer of the print dialog.
#[derive(Clone, Copy, Debug, PartialEq, Eq, Structural)]
pub enum PrintAnswer {
    /// The page is rendered for the selected printer.
    Render,
    NoPrinter,
    /// Nothing is printed.
    Dismiss,
}

/// What follows the answer of the print dialog: it may have been accepted or not, with a printer
/// selected or none.
pub fn print_answer(accepted: bool, printer: bool) -> (r: PrintAnswer)
    ensures
        r is Render <==> accepted && printer,
        r is NoPrinter <==> accepted && !printer,
        r is Dismiss <==> !accepted,
{
    if !accepted {
        PrintAnswer::Dismiss
    } else if printer {
        PrintAnswer::Render
    } else {
        PrintAnswer::NoPrinter
    }
}

/// What is to be reported of a rendered page; nothing where it can be sent to the printer.
pub fn render_failure(rendered: Result<(), String>) -> (r: Option<PrintProgress>)
    ensures
        r is None <==> rendered is Ok,
        rendered matches Err(error) ==> r == Some(PrintProgress::Unrendered(error)),
{
    match rendered {
        Ok(()) => None,
        Err(error) => Some(PrintProgress::Unrendered(error)),
    }
}

/// What is to be reported of a job that has been sent to a printer.
pub fn send_result(title: String, printer: String, sent: Result<(), String>) -> (r: PrintProgress)
    ensures
        sent is Ok ==> r == (PrintProgress::Sent { title, printer }),
        sent matches Err(error) ==> r == PrintProgress::Unsent(error),
{
    match sent {
        Ok(()) => PrintProgress::Sent { title, printer },
        Err(error) => PrintProgress::Unsent(error),
    }
}

/// The title of the print job of a file.
pub fn print_title(path: &ImagePath) -> (r: String)
    ensures
        r@ == text_or(file_name(path@), "Image"@),
{
    path.name_or("Image")
}

/// What the preview shows is what is printed: the image has the same place and the same size on
/// the sheet.
pub proof fn preview_shows_the_print(
    page: PrintPage,
    raster_dpi: Number,
    preview: PaperPreview,
    width: int,
    height: int,
    spec: PrintSpec,
    image_width: int,
    image_height: int,
    source_width: int,
    source_height: int,
)
    requires
        page.lays_out(spec, source_width, source_height, raster_dpi),
        preview.shows(
            width,
            height,
            spec,
            image_width,
            image_height,
            source_width,
            source_height,
        ),
    ensures
        ({
            let scale = sheet_scale(width, height, spec);
            &&& preview.sheet.width@ == page.paper_width@.times(scale)
            &&& preview.sheet.height@ == page.paper_height@.times(scale)
            &&& preview.image_x@ == preview.sheet.x@.plus(page.image.x@.times(scale))
            &&& preview.image_y@ == preview.sheet.y@.plus(page.image.y@.times(scale))
            &&& preview.image_scale_x@ == page.image.width@.times(scale).over(whole(image_width))
            &&& preview.image_scale_y@ == page.image.height@.times(scale).over(whole(image_height))
            &&& preview.shadow.x@ == preview.sheet.x@.plus(whole(3))
            &&& preview.shadow.y@ == preview.sheet.y@.plus(whole(3))
            &&& preview.shadow.width@ == preview.sheet.width@
            &&& preview.shadow.height@ == preview.sheet.height@
            &&& preview.sheet.x@ == whole(width).minus(preview.sheet.width@).over(whole(2))
            &&& preview.sheet.y@ == whole(height).minus(preview.sheet.height@).over(whole(2))
        }),
{
}

/// The source is never decoded to more pixels than it has, nor to none.
pub proof fn raster_keeps_to_the_source(extent: Number, raster_dpi: Number, source: int)
    requires
        source >= 1,
    ensures
        1 <= raster_extent(extent, raster_dpi, source) <= source,
{
}

/// Whether an extent is a number of less than 2^1016 points, of either sign.
pub open spec fn bounded(extent: Number) -> bool {
    extent matches Number::Finite { units, .. } && units < pow2(2090)
}

/// Whether an image can be fitted into an extent: it is bounded and not negative. It may be zero.
pub open spec fn fittable(extent: Number) -> bool {
    bounded(extent) && 0 <= extent.signed()
}

/// The scale of a fitted image, and what it makes of its extents.
proof fn lemma_fit_scale(spec: PrintSpec, image_width: int, image_height: int) -> (scale: nat)
    requires
        spec.fit_to_page,
        0 < image_width <= i32::MAX,
        0 < image_height <= i32::MAX,
        fittable(printable(spec.paper_width_mm@)),
        fittable(printable(spec.paper_height_mm@)),
    ensures
        ({
            let (width, height) = spec.printed_size(image_width, image_height);
            let across = printable(spec.paper_width_mm@).signed();
            let down = printable(spec.paper_height_mm@).signed();
            let u = one();
            let c = 0x8_0000_0000_0000int;
            &&& width == (Number::Finite {
                negative: false,
                units: rounded_units(53, 0, (image_width as nat * u) * scale, u),
            })
            &&& height == (Number::Finite {
                negative: false,
                units: rounded_units(53, 0, (image_height as nat * u) * scale, u),
            })
            &&& c * width.signed() <= c * across + across
            &&& c * height.signed() <= c * down + down
            &&& c * across <= c * width.signed() + across || c * down <= c * height.signed() + down
        }),
{
    lemma_whole_exact(image_width);
    lemma_whole_exact(image_height);
    lemma_printable_grain(spec.paper_width_mm@);
    lemma_printable_grain(spec.paper_height_mm@);
    lemma_pow2_pos(1074);
    let u = one();
    let w = image_width as nat;
    let h = image_height as nat;
    assert(w * u > 0 && h * u > 0) by (nonlinear_arith)
        requires
            w > 0,
            h > 0,
            u > 0,
    ;
    let across = printable(spec.paper_width_mm@)->units;
    let down = printable(spec.paper_height_mm@)->units;
    let a = rounded_units(53, 0, across * u, w * u);
    let b = rounded_units(53, 0, down * u, h * u);
    let scale = if b < a {
        b
    } else {
        a
    };
    lemma_fitted_extent(across, w, scale);
    lemma_fitted_extent(down, h, scale);
    scale
}

/// An image that is fitted to the page keeps the margins, but for one part in 2^51, and fills the
/// area between them along one edge, but for the same.
pub proof fn fitted_print_keeps_the_margins(spec: PrintSpec, image_width: int, image_height: int)
    requires
        spec.fit_to_page,
        0 < image_width <= i32::MAX,
        0 < image_height <= i32::MAX,
        fittable(printable(spec.paper_width_mm@)),
        fittable(printable(spec.paper_height_mm@)),
    ensures
        ({
            let (width, height) = spec.printed_size(image_width, image_height);
            let across = printable(spec.paper_width_mm@).signed();
            let down = printable(spec.paper_height_mm@).signed();
            &&& width is Finite && height is Finite
            &&& 0x8_0000_0000_0000 * width.signed() <= 0x8_0000_0000_0000 * across + across
            &&& 0x8_0000_0000_0000 * height.signed() <= 0x8_0000_0000_0000 * down + down
            &&& 0x8_0000_0000_0000 * across <= 0x8_0000_0000_0000 * width.signed() + across
                || 0x8_0000_0000_0000 * down <= 0x8_0000_0000_0000 * height.signed() + down
        }),
{
    let scale = lemma_fit_scale(spec, image_width, image_height);
}

/// A rounded number of two points or more is a multiple of 2^-52 points.
proof fn lemma_grain(n: nat, d: nat)
    requires
        d > 0,
        rounded_units(53, 0, n, d) >= 2 * one(),
    ensures
        ({
            let r = rounded_units(53, 0, n, d);
            r == r / pow2(1022) * pow2(1022)
        }),
{
    let k = rounding_shift(53, 0, n, d);
    let r = rounded_units(53, 0, n, d);
    let m = nearest(n, d * pow2(k));
    let grain = pow2(1022);
    lemma_rounded_range(53, 0, n, d);
    lemma2_to64();
    lemma2_to64_rest();
    lemma_pow2_adds(53, k);
    lemma_pow2_pos(1074);
    lemma_pow2_pos(1022);
    if k < 1022 {
        lemma_pow2_mono(53 + k, 1074);
    }
    let finer = pow2((k - 1022) as nat);
    lemma_pow2_adds((k - 1022) as nat, 1022);
    assert(m * (finer * grain) == (m * finer) * grain) by (nonlinear_arith);
    lemma_div_by_multiple((m * finer) as int, grain as int);
}

/// The margin in points, and no offset in points.
proof fn lemma_margin() -> (m: nat)
    ensures
        points(whole(PRINT_MARGIN_MM as int)) == (Number::Finite { negative: false, units: m }),
        2 * one() <= m <= 864 * one(),
        m == m / pow2(1022) * pow2(1022),
        rounded_units(53, 0, m, 1) == m,
        points(whole(PRINT_MARGIN_MM as int)).times(whole(2)) == (Number::Finite {
            negative: false,
            units: 2 * m,
        }),
        points(whole(0)) == (Number::Finite { negative: false, units: 0 }),
{
    let u = one();
    lemma_pow2_pos(1074);
    lemma_pow2_pos(2098);
    lemma_mul_basics(u as int);
    lemma_whole_exact(0);
    lemma_whole_exact(2);
    lemma_whole_exact(12);
    lemma_whole_exact(72);
    let inch = fraction(254, 10);
    let n = 254 * u;
    lemma_rounded_exact(1, 1074);
    lemma_rounded_exact(26, 1074);
    lemma_quotients_ordered(1 * u, 1, n, 10);
    lemma_quotients_ordered(n, 10, 26 * u, 1);
    lemma_pow2_adds(5, 1074);
    lemma2_to64();
    lemma_pow2_strictly_increases(1079, 2098);
    let d = rounded_units(53, 0, n, 10);
    assert(inch == (Number::Finite { negative: false, units: d }));
    lemma_rounded_zero(53, 0, d);
    lemma_rounded_zero(53, 0, u);
    lemma_mul_basics((72 * u) as int);
    let q = rounded_units(53, 0, (12 * u) * u, d);
    assert(((12 * u) * u) * 1 <= (12 * u) * d) by (nonlinear_arith)
        requires
            d >= u,
    ;
    lemma_rounded_exact(12, 1074);
    lemma_quotients_ordered((12 * u) * u, d, 12 * u, 1);
    lemma_pow2_adds(4, 1074);
    lemma_pow2_strictly_increases(1078, 2098);
    let m = rounded_units(53, 0, q * (72 * u), u);
    assert((q * (72 * u)) * 1 <= (864 * u) * u) by (nonlinear_arith)
        requires
            q <= 12 * u,
    ;
    lemma_rounded_exact(864, 1074);
    lemma_quotients_ordered(q * (72 * u), u, 864 * u, 1);
    let quarter = pow2(1072);
    lemma_pow2_adds(2, 1072);
    lemma_mul_basics(quarter as int);
    assert(quarter * d <= ((12 * u) * u) * 1) by (nonlinear_arith)
        requires
            u == 4 * quarter,
            d <= 26 * u,
    ;
    lemma_rounded_exact(1, 1072);
    lemma_quotients_ordered(quarter, 1, (12 * u) * u, d);
    assert((2 * u) * u <= (q * (72 * u)) * 1) by (nonlinear_arith)
        requires
            u == 4 * quarter,
            q >= quarter,
    ;
    lemma_rounded_exact(2, 1074);
    lemma_quotients_ordered(2 * u, 1, q * (72 * u), u);
    lemma_grain(q * (72 * u), u);
    lemma_pow2_adds(11, 1074);
    lemma_pow2_strictly_increases(1085, 2098);
    lemma_rounded_again(q * (72 * u), u);
    lemma_rounded_doubled(q * (72 * u), u);
    assert((m * (2 * u)) * 1 == (2 * m) * u) by (nonlinear_arith);
    lemma_rounded_ratio(53, 0, m * (2 * u), u, 2 * m, 1);
    m
}

/// The paper edge of a printable part: that part and both margins, but for one part in 2^53.
proof fn lemma_printable(mm: Number)
    requires
        bounded(printable(mm)),
    ensures
        points(mm) is Finite,
        ({
            let e = 0x20_0000_0000_0000int;
            let p = printable(mm).signed();
            let paper = points(mm).signed();
            let t = paper - 2 * points(whole(PRINT_MARGIN_MM as int)).signed();
            &&& t >= 0 ==> 0 <= p && e * p <= e * t + t && e * t <= e * p + t
            &&& t <= 0 ==> p <= 0 && e * p >= e * t + t && e * t >= e * p + t
            &&& -(pow2(2092) as int) < paper < pow2(2092)
        }),
{
    let m = lemma_margin();
    let edge = points(mm);
    let margins = points(whole(PRINT_MARGIN_MM as int)).times(whole(2));
    assert(edge is Finite);
    let t = edge.signed() - 2 * m;
    let n = (if t < 0 {
        -t
    } else {
        t
    }) as nat;
    let top = pow2(2097);
    lemma_mul_basics(top as int);
    lemma_mul_basics(n as int);
    lemma_rounded_exact(1, 2097);
    lemma_pow2_strictly_increases(2090, 2097);
    if n > top {
        lemma_quotients_ordered(top, 1, n, 1);
        assert(false);
    }
    lemma_sum_error(edge, negation(margins));
    lemma_pow2_adds(1, 2090);
    lemma_pow2_adds(1, 2091);
    lemma_pow2_adds(11, 1074);
    lemma_pow2_mono(1085, 2090);
    lemma2_to64();
}

/// A printable part that is not negative is zero or at least 2^-52 points.
proof fn lemma_printable_grain(mm: Number)
    requires
        fittable(printable(mm)),
    ensures
        !printable(mm).negative(),
        printable(mm)->units == 0 || pow2(90) <= printable(mm)->units,
{
    let m = lemma_margin();
    lemma_printable(mm);
    let u = one();
    let grain = pow2(1022);
    let edge = points(mm);
    let t = edge.signed() - 2 * m;
    lemma_whole_exact(72);
    lemma_pow2_pos(1074);
    lemma_pow2_pos(1022);
    lemma_rounded_zero(53, 0, 1);
    if t > 0 {
        let inches = mm.over(fraction(254, 10));
        assert(inches is Finite);
        lemma_grain(inches->units * (72 * u), u);
        let a = edge->units / grain;
        let b = m / grain;
        assert(t == (a - 2 * b) * grain) by (nonlinear_arith)
            requires
                t == a * grain - 2 * (b * grain),
        ;
        assert(t >= grain) by (nonlinear_arith)
            requires
                t == (a - 2 * b) * grain,
                t > 0,
                grain > 0,
        ;
        lemma_mul_basics(grain as int);
        lemma_mul_basics(t);
        lemma_rounded_exact(1, 1022);
        lemma_quotients_ordered(grain, 1, t as nat, 1);
        lemma_pow2_mono(90, 1022);
    }
}

/// A part of a free space, which may be negative.
proof fn lemma_share(align: Number, free: Number)
    requires
        align is Finite,
        0 <= align.signed() <= one(),
        free is Finite,
        free->units < pow2(2098),
        rounded_units(53, 0, free->units, 1) == free->units,
    ensures
        ({
            let r = align.times(free);
            &&& r is Finite
            &&& free.signed() >= 0 ==> 0 <= r.signed() <= free.signed()
            &&& free.signed() <= 0 ==> free.signed() <= r.signed() <= 0
            &&& align == fraction(1, 2) ==> {
                let full = 0x20_0000_0000_0000 * free->units;
                let twice = 0x20_0000_0000_0000 * (2 * r->units);
                &&& twice <= full + free->units + 0x20_0000_0000_0000
                &&& full <= twice + free->units + 0x20_0000_0000_0000
            }
            &&& align == whole(1) ==> r.signed() == free.signed()
        }),
{
    let u = one();
    let a = align->units;
    let f = free->units;
    lemma_pow2_pos(1074);
    lemma_mul_basics(f as int);
    lemma_rounded_zero(53, 0, u);
    assert((a * f) * 1 <= f * u) by (nonlinear_arith)
        requires
            a <= u,
    ;
    lemma_quotients_ordered(a * f, u, f, 1);
    if align == fraction(1, 2) {
        let half = pow2(1073);
        lemma_pow2_adds(1, 1073);
        lemma2_to64();
        lemma_mul_basics(u as int);
        lemma_mul_basics(half as int);
        lemma_rounded_exact(1, 1073);
        lemma_rounded_ratio(53, 0, 1 * u, 2, half, 1);
        lemma_pow2_strictly_increases(1073, 2098);
        assert(a == half);
        assert((a * f) * 2 == f * u) by (nonlinear_arith)
            requires
                u == 2 * a,
        ;
        lemma_rounded_ratio(53, 0, a * f, u, f, 2);
        lemma_half(f);
    }
    if align == whole(1) {
        lemma_whole_exact(1);
        lemma_mul_basics(u as int);
        assert((a * f) * 1 == f * u) by (nonlinear_arith)
            requires
                a == u,
        ;
        lemma_rounded_ratio(53, 0, a * f, u, f, 1);
    }
}

/// What an extent is placed by: what the space that is left, its share before the extent, and the
/// place are, each but for rounding.
proof fn lemma_placed(mm: Number, align: Number, extent: Number)
    requires
        bounded(printable(mm)),
        align is Finite,
        0 <= align.signed() <= one(),
        extent is Finite,
        -(pow2(2092) as int) < extent.signed() < pow2(2092),
    ensures
        ({
            let e = 0x20_0000_0000_0000int;
            let margin = points(whole(PRINT_MARGIN_MM as int)).signed();
            let free = printable(mm).minus(extent);
            let f = printable(mm).signed() - extent.signed();
            let share = align.times(free);
            let place = placed(mm, align, extent, whole(0));
            let t = margin + share.signed();
            &&& free is Finite
            &&& f >= 0 ==> 0 <= free.signed() && e * free.signed() <= e * f + f && e * f <= e
                * free.signed() + f
            &&& f <= 0 ==> free.signed() <= 0 && e * free.signed() >= e * f + f && e * f >= e
                * free.signed() + f
            &&& share is Finite
            &&& free.signed() >= 0 ==> 0 <= share.signed() <= free.signed()
            &&& free.signed() <= 0 ==> free.signed() <= share.signed() <= 0
            &&& place is Finite
            &&& t >= 0 ==> e * place.signed() <= e * t + t && e * t <= e * place.signed() + t
            &&& t <= 0 ==> e * place.signed() >= e * t + t && e * t >= e * place.signed() + t
        }),
{
    let m = lemma_margin();
    lemma_printable(mm);
    let p = printable(mm);
    lemma_pow2_adds(1, 2092);
    lemma_pow2_mono(2090, 2092);
    lemma_pow2_mono(2093, 2097);
    lemma_pow2_mono(2093, 2098);
    lemma_pow2_adds(10, 1074);
    lemma_pow2_mono(1084, 2092);
    lemma2_to64();
    lemma_sum_error(p, negation(extent));
    let free = p.minus(extent);
    lemma_pow2_adds(1, 2093);
    lemma_pow2_mono(2094, 2097);
    lemma_pow2_adds(1, 2094);
    lemma_pow2_mono(2095, 2097);
    lemma_pow2_mono(2094, 2098);
    lemma_share(align, free);
    let share = align.times(free);
    let margin = points(whole(PRINT_MARGIN_MM as int));
    lemma_sum_error(margin, share);
    lemma_offset_added(mm, align, extent, whole(0));
}

/// Adding no offset changes nothing.
proof fn lemma_offset_added(mm: Number, align: Number, extent: Number, offset: Number)
    ensures
        ({
            let unmoved = points(whole(PRINT_MARGIN_MM as int)).plus(
                align.times(printable(mm).minus(extent)),
            );
            &&& placed(mm, align, extent, whole(0)) == unmoved
            &&& placed(mm, align, extent, offset) == unmoved.plus(points(offset))
        }),
{
    let m = lemma_margin();
    let margin = points(whole(PRINT_MARGIN_MM as int));
    let share = align.times(printable(mm).minus(extent));
    let unmoved = margin.plus(share);
    if unmoved is Finite && share is Finite {
        let t = margin.signed() + share.signed();
        let n = (if t < 0 {
            -t
        } else {
            t
        }) as nat;
        lemma_rounded_again(n, 1);
        lemma_rounded_zero(53, 0, 1);
        lemma_whole_units_error(n);
    }
}

/// An image at the left or the top edge, without an offset, starts at the margin.
pub proof fn edge_alignment_keeps_the_margin(mm: Number, extent: Number)
    requires
        printable(mm).minus(extent) is Finite,
    ensures
        placed(mm, whole(0), extent, whole(0)) == points(whole(PRINT_MARGIN_MM as int)),
{
    let m = lemma_margin();
    let u = one();
    lemma_pow2_pos(1074);
    lemma_pow2_pos(2098);
    lemma_mul_basics(u as int);
    lemma_whole_exact(0);
    lemma_rounded_zero(53, 0, u);
    lemma_rounded_zero(53, 0, 1);
    let free = printable(mm).minus(extent);
    lemma_mul_basics((free->units) as int);
    let share = whole(0).times(free);
    assert(share is Finite && share.signed() == 0);
    lemma_pow2_adds(10, 1074);
    lemma2_to64();
    lemma_pow2_strictly_increases(1084, 2098);
    lemma_offset_added(mm, whole(0), extent, whole(0));
}

/// An offset moves the place by its own points and by nothing else, and it does not change the
/// size.
pub proof fn offset_moves_the_image(mm: Number, align: Number, extent: Number, offset: Number)
    ensures
        placed(mm, align, extent, offset) == placed(mm, align, extent, whole(0)).plus(
            points(offset),
        ),
{
    lemma_offset_added(mm, align, extent, offset);
}

/// The size of a printed image depends on neither alignments nor offsets; that of a fitted one not
/// on the resolution either.
pub proof fn placement_keeps_the_size(a: PrintSpec, b: PrintSpec, width: int, height: int)
    requires
        a.paper_width_mm@ == b.paper_width_mm@,
        a.paper_height_mm@ == b.paper_height_mm@,
        a.fit_to_page == b.fit_to_page,
        a.fit_to_page || a.image_dpi@ == b.image_dpi@,
    ensures
        a.printed_size(width, height) == b.printed_size(width, height),
{
}

/// Whether two lengths are the same but for one part in 2^48 of a third one.
pub open spec fn close(a: int, b: int, whole_length: int) -> bool {
    &&& 0x1_0000_0000_0000 * (a - b) <= whole_length
    &&& 0x1_0000_0000_0000 * (b - a) <= whole_length
}

/// The lengths that an extent is placed by, together: the paper edge, the margin and the extent,
/// each without its sign.
pub open spec fn lengths(mm: Number, extent: Number) -> int {
    points(whole(PRINT_MARGIN_MM as int)).signed() + extent->units + points(mm)->units
}

/// An image in the middle leaves the same space on both sides, but for rounding, also on paper
/// that is narrower than the margins or the image.
pub proof fn middle_alignment_centers(mm: Number, extent: Number)
    requires
        bounded(printable(mm)),
        extent is Finite,
        -(pow2(2092) as int) < extent.signed() < pow2(2092),
    ensures
        ({
            let paper = points(mm).signed();
            let place = placed(mm, fraction(1, 2), extent, whole(0));
            &&& place is Finite
            &&& close(2 * place.signed() + extent.signed(), paper, lengths(mm, extent))
        }),
{
    let m = lemma_margin();
    lemma_printable(mm);
    lemma_half_align();
    lemma_placed(mm, fraction(1, 2), extent);
    lemma_free_bound(mm, extent);
    let free = printable(mm).minus(extent);
    lemma_share(fraction(1, 2), free);
    lemma_pow2_mono(58, 1074);
    lemma2_to64_rest();
    lemma_centered_units(
        m as int,
        points(mm).signed(),
        printable(mm).signed(),
        extent.signed(),
        free.signed(),
        fraction(1, 2).times(free).signed(),
        placed(mm, fraction(1, 2), extent, whole(0)).signed(),
        lengths(mm, extent),
    );
}

/// A number that is rounded lies near the exact one, which is bounded.
proof fn lemma_near_exact(exact: int, r: int, bound: int)
    requires
        ({
            let e = 0x20_0000_0000_0000int;
            &&& exact >= 0 ==> e * r <= e * exact + exact && e * exact <= e * r + exact
            &&& exact <= 0 ==> e * r >= e * exact + exact && e * exact >= e * r + exact
            &&& -bound <= exact <= bound
        }),
    ensures
        0x20_0000_0000_0000 * (r - exact) <= bound,
        0x20_0000_0000_0000 * (exact - r) <= bound,
{
}

/// The arithmetic of a centered extent, where `all` is the sum of the lengths.
proof fn lemma_centered_units(
    m: int,
    paper: int,
    p: int,
    w: int,
    free: int,
    share: int,
    place: int,
    all: int,
)
    requires
        ({
            let e = 0x20_0000_0000_0000int;
            let t = paper - 2 * m;
            let f = p - w;
            let x = m + share;
            &&& m >= 0x400_0000_0000_0000
            &&& m + w + paper <= all && m + w - paper <= all
            &&& m - w + paper <= all && m - w - paper <= all
            &&& t >= 0 ==> e * p <= e * t + t && e * t <= e * p + t
            &&& t <= 0 ==> e * p >= e * t + t && e * t >= e * p + t
            &&& f >= 0 ==> e * free <= e * f + f && e * f <= e * free + f
            &&& f <= 0 ==> e * free >= e * f + f && e * f >= e * free + f
            &&& free >= 0 ==> e * (2 * share) <= e * free + free + e && e * free <= e * (2 * share)
                + free + e
            &&& free <= 0 ==> e * (2 * share) >= e * free + free - e && e * free >= e * (2 * share)
                + free - e
            &&& x >= 0 ==> e * place <= e * x + x && e * x <= e * place + x
            &&& x <= 0 ==> e * place >= e * x + x && e * x >= e * place + x
        }),
    ensures
        close(2 * place + w, paper, all),
{
    lemma_near_exact(paper - 2 * m, p, 2 * all);
    lemma_near_exact(p - w, free, 4 * all);
    let e = 0x20_0000_0000_0000int;
    assert(e * (2 * share - free) <= 5 * all + e && e * (free - 2 * share) <= 5 * all + e);
    lemma_near_exact(m + share, place, 4 * all);
}

proof fn lemma_half_align()
    ensures
        fraction(1, 2) is Finite,
        0 <= fraction(1, 2).signed() <= one(),
{
    let u = one();
    lemma_pow2_pos(1074);
    lemma_whole_exact(1);
    lemma_rounded_exact(1, 1074);
    lemma_mul_basics(u as int);
    lemma_quotients_ordered(1 * u, 2, 1 * u, 1);
    lemma_pow2_strictly_increases(1074, 2098);
}

/// A free space is a number of full precision.
proof fn lemma_free_bound(mm: Number, extent: Number)
    requires
        bounded(printable(mm)),
        extent is Finite,
        -(pow2(2092) as int) < extent.signed() < pow2(2092),
    ensures
        printable(mm).minus(extent) is Finite,
        printable(mm).minus(extent)->units < pow2(2098),
        rounded_units(53, 0, printable(mm).minus(extent)->units, 1) == printable(mm).minus(
            extent,
        )->units,
{
    lemma_pow2_mono(2090, 2092);
    lemma_pow2_adds(1, 2092);
    lemma_pow2_mono(2093, 2097);
    lemma_pow2_adds(1, 2093);
    lemma_pow2_mono(2094, 2098);
    lemma2_to64();
    lemma_sum_error(printable(mm), negation(extent));
}

/// An image at the right or the bottom edge ends at the margin, but for rounding, also on paper
/// that is narrower than the margins or the image.
pub proof fn far_alignment_keeps_the_margin(mm: Number, extent: Number)
    requires
        bounded(printable(mm)),
        extent is Finite,
        -(pow2(2092) as int) < extent.signed() < pow2(2092),
    ensures
        ({
            let paper = points(mm).signed();
            let margin = points(whole(PRINT_MARGIN_MM as int)).signed();
            let place = placed(mm, whole(1), extent, whole(0));
            &&& place is Finite
            &&& close(place.signed() + extent.signed(), paper - margin, lengths(mm, extent))
        }),
{
    let m = lemma_margin();
    lemma_printable(mm);
    lemma_whole_exact(1);
    lemma_mul_basics(one() as int);
    lemma_placed(mm, whole(1), extent);
    lemma_free_bound(mm, extent);
    lemma_share(whole(1), printable(mm).minus(extent));
}

/// Whether an extent lies inside the margins of a paper edge, but for one part in 2^48 of that
/// edge.
pub open spec fn inside_margins(mm: Number, place: Number, extent: Number) -> bool {
    let paper = points(mm).signed();
    let margin = points(whole(PRINT_MARGIN_MM as int)).signed();
    &&& place is Finite
    &&& 0x1_0000_0000_0000 * (margin - place.signed()) <= paper
    &&& 0x1_0000_0000_0000 * (place.signed() + extent.signed() - (paper - margin)) <= paper
}

proof fn lemma_fitted_place(mm: Number, align: Number, extent: Number)
    requires
        fittable(printable(mm)),
        align is Finite,
        0 <= align.signed() <= one(),
        extent is Finite,
        0 <= extent.signed(),
        0x8_0000_0000_0000 * extent.signed() <= 0x8_0000_0000_0000 * printable(mm).signed()
            + printable(mm).signed(),
    ensures
        inside_margins(mm, placed(mm, align, extent, whole(0)), extent),
{
    let m = lemma_margin();
    lemma_printable(mm);
    lemma_pow2_adds(1, 2090);
    lemma_pow2_mono(2091, 2092);
    lemma2_to64();
    lemma_placed(mm, align, extent);
}

/// A fitted image keeps its shape, but for one part in 2^51.
pub proof fn fitted_print_keeps_the_shape(spec: PrintSpec, image_width: int, image_height: int)
    requires
        spec.fit_to_page,
        0 < image_width <= i32::MAX,
        0 < image_height <= i32::MAX,
        fittable(printable(spec.paper_width_mm@)),
        fittable(printable(spec.paper_height_mm@)),
    ensures
        ({
            let (width, height) = spec.printed_size(image_width, image_height);
            let a = width.signed() * image_height;
            let b = height.signed() * image_width;
            &&& 0x8_0000_0000_0000 * a <= 0x8_0000_0000_0000 * b + b
            &&& 0x8_0000_0000_0000 * b <= 0x8_0000_0000_0000 * a + a
        }),
{
    let u = one();
    let w = image_width as nat;
    let h = image_height as nat;
    let scale = lemma_fit_scale(spec, image_width, image_height);
    let (width, height) = spec.printed_size(image_width, image_height);
    lemma_shape_extent(w, scale);
    lemma_shape_extent(h, scale);
    let e = 0x20_0000_0000_0000int;
    let x = width.signed();
    let y = height.signed();
    let full = (w * scale) * h;
    assert(e * (x * h) <= (e + 1) * full && e * (x * h) >= (e - 1) * full) by (nonlinear_arith)
        requires
            e * x <= (e + 1) * (w * scale),
            e * x >= (e - 1) * (w * scale),
            full == (w * scale) * h,
    ;
    assert(full == (h * scale) * w) by (nonlinear_arith)
        requires
            full == (w * scale) * h,
    ;
    assert(e * (y * w) <= (e + 1) * full && e * (y * w) >= (e - 1) * full) by (nonlinear_arith)
        requires
            e * y <= (e + 1) * (h * scale),
            e * y >= (e - 1) * (h * scale),
            full == (h * scale) * w,
    ;
}

proof fn lemma_shape_extent(extent: nat, scale: nat)
    ensures
        ({
            let e = 0x20_0000_0000_0000int;
            let r = rounded_units(53, 0, (extent * one()) * scale, one());
            &&& e * r <= (e + 1) * (extent * scale)
            &&& e * r >= (e - 1) * (extent * scale)
        }),
{
    let e = 0x20_0000_0000_0000int;
    let u = one();
    let n = extent * scale;
    lemma_pow2_pos(1074);
    assert(((extent * u) * scale) * 1 == n * u) by (nonlinear_arith)
        requires
            n == extent * scale,
    ;
    lemma_rounded_ratio(53, 0, (extent * u) * scale, u, n, 1);
    lemma_whole_units_error(n);
    assert((e + 1) * n == e * n + n && (e - 1) * n == e * n - n) by (nonlinear_arith);
}

/// A fitted image lies inside the margins wherever it is aligned, but for rounding.
pub proof fn fitted_print_lies_inside_the_margins(
    spec: PrintSpec,
    image_width: int,
    image_height: int,
)
    requires
        spec.fit_to_page,
        0 < image_width <= i32::MAX,
        0 < image_height <= i32::MAX,
        fittable(printable(spec.paper_width_mm@)),
        fittable(printable(spec.paper_height_mm@)),
        at_most(whole(0), spec.align_x@) && at_most(spec.align_x@, whole(1)),
        at_most(whole(0), spec.align_y@) && at_most(spec.align_y@, whole(1)),
        spec.offset_x_mm@ == whole(0),
        spec.offset_y_mm@ == whole(0),
    ensures
        ({
            let (width, height) = spec.printed_size(image_width, image_height);
            &&& inside_margins(
                spec.paper_width_mm@,
                placed(spec.paper_width_mm@, spec.align_x@, width, spec.offset_x_mm@),
                width,
            )
            &&& inside_margins(
                spec.paper_height_mm@,
                placed(spec.paper_height_mm@, spec.align_y@, height, spec.offset_y_mm@),
                height,
            )
        }),
{
    lemma_whole_exact(0);
    lemma_whole_exact(1);
    lemma_mul_basics(one() as int);
    let scale = lemma_fit_scale(spec, image_width, image_height);
    let (width, height) = spec.printed_size(image_width, image_height);
    lemma_fitted_place(spec.paper_width_mm@, spec.align_x@, width);
    lemma_fitted_place(spec.paper_height_mm@, spec.align_y@, height);
}

/// The space for a sheet: the extent of the preview without its padding.
proof fn lemma_padded_extent(extent: int)
    requires
        i32::MIN <= extent <= i32::MAX,
    ensures
        whole(extent).minus(whole(12).times(whole(2))) == whole(extent - 24),
{
    let u = one();
    lemma_whole_exact(extent);
    lemma_whole_exact(extent - 24);
    lemma_whole_exact(12);
    lemma_whole_exact(2);
    lemma_whole_exact(24);
    lemma_pow2_pos(1074);
    lemma_mul_basics(u as int);
    assert(((12 * u) * (2 * u)) * 1 == (24 * u) * u) by (nonlinear_arith);
    lemma_rounded_ratio(53, 0, (12 * u) * (2 * u), u, 24 * u, 1);
    assert(whole(12).times(whole(2)) == whole(24));
    let t = extent - 24;
    let n = (if t < 0 {
        -t
    } else {
        t
    }) as nat;
    let x = (if extent < 0 {
        -extent
    } else {
        extent
    }) as nat;
    assert(if extent < 0 {
        -(x * u) == extent * u
    } else {
        x * u == extent * u
    }) by (nonlinear_arith)
        requires
            x == if extent < 0 {
                -extent
            } else {
                extent
            },
    ;
    assert(n * u == if t < 0 {
        -(t * u)
    } else {
        t * u
    }) by (nonlinear_arith)
        requires
            n == if t < 0 {
                -t
            } else {
                t
            },
    ;
    assert(t * u == extent * u - 24 * u) by (nonlinear_arith)
        requires
            t == extent - 24,
    ;
    if t != 0 {
        assert(n * u > 0) by (nonlinear_arith)
            requires
                n > 0,
                u > 0,
        ;
    }
    assert(whole(extent).signed() == extent * u);
    lemma_rounded_exact(n, 1074);
}

/// Whether an extent can be computed with full precision: at least 2^-984 points, and less than
/// 2^1016 points.
pub open spec fn ordinary(extent: Number) -> bool {
    extent matches Number::Finite { negative, units } && !negative && pow2(90) <= units < pow2(2090)
}

/// The scale at which an extent of a preview holds a paper edge.
proof fn lemma_edge_scale(room: int, edge: Number)
    requires
        -0x1_0000_0000 <= room <= i32::MAX,
        ordinary(edge),
    ensures
        ({
            let r = whole(room).over(edge);
            &&& r !is Nan
            &&& room > 0 ==> r is Finite && !r.negative() && r.signed() > 0
            &&& room > 0 ==> r == (Number::Finite {
                negative: false,
                units: rounded_units(53, 0, (room as nat * one()) * one(), edge->units),
            })
            &&& room <= 0 ==> !less(whole(0), r)
        }),
{
    let u = one();
    lemma_whole_exact(room);
    lemma_whole_exact(0);
    lemma_pow2_pos(1074);
    lemma_pow2_pos(90);
    lemma_mul_basics(u as int);
    let d = edge->units;
    if room > 0 {
        let n = (room as nat * u) * u;
        let top = pow2(2089);
        let x = room as nat;
        lemma_mul_basics(top as int);
        lemma_rounded_exact(1, 2089);
        lemma_rounded_exact(1, 0);
        lemma_pow2_adds(1074, 1074);
        lemma_pow2_adds(31, 2148);
        lemma_pow2_adds(2089, 90);
        lemma_pow2_mono(2090, 2148);
        lemma_pow2_strictly_increases(2089, 2098);
        lemma2_to64();
        lemma2_to64_rest();
        let uu = u * u;
        lemma_mul_is_associative(x as int, u as int, u as int);
        assert(uu <= x * uu && x * uu <= 0x8000_0000 * uu) by (nonlinear_arith)
            requires
                1 <= x <= 0x8000_0000,
                uu >= 0,
        ;
        assert(n * 1 <= top * d) by (nonlinear_arith)
            requires
                n <= 0x8000_0000 * uu,
                0x8000_0000 * uu == top * pow2(90),
                d >= pow2(90),
        ;
        lemma_quotients_ordered(n, d, top, 1);
        lemma_quotients_ordered(1, 1, n, d);
    } else if room == 0 {
        lemma_rounded_zero(53, 0, d);
        lemma_pow2_pos(2098);
    }
}

/// There is a sheet exactly where the preview is larger than its padding.
pub proof fn sheet_needs_room(width: int, height: int, spec: PrintSpec)
    requires
        i32::MIN <= width <= i32::MAX,
        i32::MIN <= height <= i32::MAX,
        ordinary(points(spec.paper_width_mm@)),
        ordinary(points(spec.paper_height_mm@)),
    ensures
        drawable(sheet_scale(width, height, spec)) <==> width > 24 && height > 24,
{
    lemma_padded_extent(width);
    lemma_padded_extent(height);
    lemma_edge_scale(width - 24, points(spec.paper_width_mm@));
    lemma_edge_scale(height - 24, points(spec.paper_height_mm@));
    lemma_whole_exact(0);
    lemma_mul_basics(one() as int);
}

/// Where the sheet lies depends on the paper alone, not on how the image is placed on it.
pub proof fn sheet_depends_on_paper(a: PrintSpec, b: PrintSpec, width: int, height: int)
    requires
        a.paper_width_mm@ == b.paper_width_mm@,
        a.paper_height_mm@ == b.paper_height_mm@,
    ensures
        sheet_scale(width, height, a) == sheet_scale(width, height, b),
{
}

/// The place of a sheet along one axis.
proof fn lemma_sheet_axis(extent: int, edge: nat, scale: nat)
    requires
        24 < extent <= i32::MAX,
        pow2(90) <= edge < pow2(2090),
        scale <= rounded_units(53, 0, ((extent - 24) as nat * one()) * one(), edge),
    ensures
        ({
            let own = rounded_units(53, 0, ((extent - 24) as nat * one()) * one(), edge);
            let sheet = (Number::Finite { negative: false, units: edge }).times(
                Number::Finite { negative: false, units: scale },
            );
            let start = whole(extent).minus(sheet).over(whole(2));
            let behind = extent * one() - start.signed() - sheet.signed();
            let slack = pow2(1054);
            &&& sheet is Finite
            &&& start is Finite
            &&& start.signed() >= 12 * one() - slack
            &&& behind >= 12 * one() - slack
            &&& scale == own ==> start.signed() <= 12 * one() + slack
            &&& scale == own ==> behind <= 12 * one() + slack
            &&& -slack <= behind - start.signed() <= slack
        }),
{
    let u = one();
    let room = (extent - 24) as nat;
    let target = room * u;
    let own = rounded_units(53, 0, target * u, edge);
    lemma_pow2_pos(1074);
    lemma_pow2_pos(90);
    lemma2_to64();
    lemma2_to64_rest();
    lemma_mul_basics(u as int);
    lemma_pow2_adds(20, 1054);
    lemma_pow2_adds(1074, 1074);
    lemma_pow2_adds(53, 2090);
    lemma_pow2_mono(2143, 2148);
    lemma_pow2_mono(54, 1074);
    let slack = pow2(1054);
    assert(u <= target && target <= 0x8000_0000 * u) by (nonlinear_arith)
        requires
            target == room * u,
            1 <= room <= 0x8000_0000,
    ;
    assert(target * u >= edge * 0x20_0000_0000_0000) by (nonlinear_arith)
        requires
            target >= u,
            u * u >= 0x20_0000_0000_0000 * pow2(2090),
            edge <= pow2(2090),
    ;
    lemma_divided_back(target, edge);
    let own_back = rounded_units(53, 0, own * edge, u);
    let back = rounded_units(53, 0, edge * scale, u);
    assert((edge * scale) * u <= (own * edge) * u) by (nonlinear_arith)
        requires
            scale <= own,
    ;
    lemma_quotients_ordered(edge * scale, u, own * edge, u);
    lemma_mul_is_commutative(edge as int, own as int);
    lemma_pow2_adds(31, 1074);
    lemma_pow2_adds(1, 1105);
    lemma_pow2_mono(1106, 2097);
    lemma_pow2_mono(1106, 2098);
    assert(0x8_0000_0000_0000 * back <= 0x8_0000_0000_0000 * target + target);
    assert(back < pow2(2098));
    let sheet = Number::Finite { negative: false, units: back };
    lemma_whole_exact(extent);
    lemma_whole_exact(2);
    assert(extent * u == target + 24 * u) by (nonlinear_arith)
        requires
            target == room * u,
            room == extent - 24,
    ;
    assert((extent as nat) * u == extent * u);
    lemma_sum_error(whole(extent), negation(sheet));
    let free = whole(extent).minus(sheet);
    let y = extent * u - back;
    let f = free->units;
    assert(free.signed() >= 0);
    assert(y > 0);
    assert((f * u) * 2 == f * (2 * u)) by (nonlinear_arith);
    lemma_rounded_ratio(53, 0, f * u, 2 * u, f, 2);
    lemma_half(f);
    lemma_mul_basics(f as int);
    lemma_quotients_ordered(f, 2, f, 1);
    let x = rounded_units(53, 0, f, 2);
    let start = free.over(whole(2));
    assert(f < pow2(2098));
    assert(x < pow2(2098));
    assert(start.signed() == x);
}

/// A sheet in the preview is in its middle. It leaves the padding free on all sides, and reaches it
/// along one axis. All this is so but for a millionth of a pixel.
pub proof fn sheet_fills_the_room(width: int, height: int, spec: PrintSpec, sheet: Rectangle)
    requires
        24 < width <= i32::MAX,
        24 < height <= i32::MAX,
        ordinary(points(spec.paper_width_mm@)),
        ordinary(points(spec.paper_height_mm@)),
        sheet.is_sheet(width, height, spec, sheet_scale(width, height, spec)),
    ensures
        ({
            let padding = 12 * one();
            let slack = pow2(1054) as int;
            let left = sheet.x@.signed();
            let right = width * one() - left - sheet.width@.signed();
            let top = sheet.y@.signed();
            let bottom = height * one() - top - sheet.height@.signed();
            &&& left >= padding - slack && right >= padding - slack
            &&& top >= padding - slack && bottom >= padding - slack
            &&& (left <= padding + slack && right <= padding + slack) || (top <= padding + slack
                && bottom <= padding + slack)
            &&& -slack <= left - right <= slack
            &&& -slack <= top - bottom <= slack
        }),
{
    let across = points(spec.paper_width_mm@);
    let down = points(spec.paper_height_mm@);
    lemma_padded_extent(width);
    lemma_padded_extent(height);
    lemma_edge_scale(width - 24, across);
    lemma_edge_scale(height - 24, down);
    let u = one();
    let a = rounded_units(53, 0, ((width - 24) as nat * u) * u, across->units);
    let b = rounded_units(53, 0, ((height - 24) as nat * u) * u, down->units);
    let scale = if b < a {
        b
    } else {
        a
    };
    assert(sheet_scale(width, height, spec) == (Number::Finite { negative: false, units: scale }));
    lemma_sheet_axis(width, across->units, scale);
    lemma_sheet_axis(height, down->units, scale);
}

/// Whether two amounts are the same but for one part in 2^51 of the second one.
pub open spec fn alike(a: int, b: int) -> bool {
    &&& 0x8_0000_0000_0000 * a <= 0x8_0000_0000_0000 * b + b
    &&& 0x8_0000_0000_0000 * b <= 0x8_0000_0000_0000 * a + b
}

/// A quotient that is multiplied, each but for rounding.
proof fn lemma_scaled_quotient(n: nat, d: nat, k: nat)
    requires
        d > 0,
        n >= d * 0x20_0000_0000_0000,
    ensures
        ({
            let q = rounded_units(53, 0, n, d);
            let x = rounded_units(53, 0, k * q, 1);
            alike((x * d) as int, (k * n) as int)
        }),
{
    let q = rounded_units(53, 0, n, d);
    let x = rounded_units(53, 0, k * q, 1);
    lemma_relative_error(n, d);
    lemma_whole_units_error(k * q);
    let e = 0x20_0000_0000_0000int;
    let exact = k * n;
    let middle = k * (q * d);
    assert(e * middle <= e * exact + exact && e * exact <= e * middle + exact) by (nonlinear_arith)
        requires
            exact == k * n,
            middle == k * (q * d),
            e * (q * d) <= e * n + n,
            e * n <= e * (q * d) + n,
            k >= 0,
    ;
    assert(e * (x * d) <= e * middle + middle && e * middle <= e * (x * d) + middle)
        by (nonlinear_arith)
        requires
            middle == k * (q * d),
            e * x <= e * (k * q) + k * q,
            e * (k * q) <= e * x + k * q,
            d >= 0,
    ;
}

/// One extent of an image that is printed at a resolution.
proof fn lemma_resolved_extent(extent: int, dpi: Number)
    requires
        0 < extent <= i32::MAX,
        dpi is Finite,
        pow2(90) <= dpi.signed() <= pow2(2095),
    ensures
        ({
            let r = whole(extent).over(dpi).times(whole(72));
            &&& r is Finite
            &&& !r.negative()
            &&& alike(r.signed() * dpi.signed(), (72 * extent) * (one() * one()))
        }),
{
    let u = one();
    let w = extent as nat;
    let d = dpi->units;
    let n = (w * u) * u;
    lemma_whole_exact(extent);
    lemma_whole_exact(72);
    lemma_pow2_pos(90);
    lemma_pow2_pos(1074);
    lemma_pow2_adds(1074, 1074);
    lemma_pow2_adds(53, 2095);
    lemma_pow2_adds(31, 2148);
    lemma_pow2_adds(2089, 90);
    lemma2_to64();
    lemma2_to64_rest();
    assert(n == w * (u * u)) by (nonlinear_arith)
        requires
            n == (w * u) * u,
    ;
    let uu = u * u;
    assert(uu <= n <= 0x8000_0000 * uu) by (nonlinear_arith)
        requires
            n == w * uu,
            1 <= w <= 0x8000_0000,
    ;
    lemma_scaled_quotient(n, d, 72);
    let q = rounded_units(53, 0, n, d);
    let top = pow2(2089);
    lemma_mul_basics(top as int);
    lemma_rounded_exact(1, 2089);
    assert(n * 1 <= top * d) by (nonlinear_arith)
        requires
            n <= top * pow2(90),
            d >= pow2(90),
    ;
    lemma_quotients_ordered(n, d, top, 1);
    lemma_pow2_strictly_increases(2089, 2098);
    let x = rounded_units(53, 0, 72 * q, 1);
    lemma_pow2_adds(7, 2089);
    lemma_rounded_exact(1, 2096);
    lemma_mul_basics(pow2(2096) as int);
    lemma_mul_basics((72 * q) as int);
    lemma_quotients_ordered(72 * q, 1, pow2(2096), 1);
    lemma_pow2_strictly_increases(2096, 2098);
    assert((q * (72 * u)) * 1 == (72 * q) * u) by (nonlinear_arith);
    lemma_rounded_ratio(53, 0, q * (72 * u), u, 72 * q, 1);
    assert(whole(extent).over(dpi).times(whole(72)) == (Number::Finite {
        negative: false,
        units: x,
    }));
    assert(72 * n == (72 * extent) * uu) by (nonlinear_arith)
        requires
            n == w * uu,
            w == extent,
    ;
}

/// An image that is not fitted to the page is printed at its resolution: its printed extents times
/// the dots per inch are its pixels, with 72 points to the inch, but for one part in 2^51.
pub proof fn unfitted_print_has_its_resolution(spec: PrintSpec, image_width: int, image_height: int)
    requires
        !spec.fit_to_page,
        0 < image_width <= i32::MAX,
        0 < image_height <= i32::MAX,
        spec.image_dpi@ is Finite,
        pow2(90) <= spec.image_dpi@.signed() <= pow2(2095),
    ensures
        ({
            let (width, height) = spec.printed_size(image_width, image_height);
            let dpi = spec.image_dpi@.signed();
            &&& width is Finite && height is Finite
            &&& alike(width.signed() * dpi, (72 * image_width) * (one() * one()))
            &&& alike(height.signed() * dpi, (72 * image_height) * (one() * one()))
        }),
{
    lemma_resolved_extent(image_width, spec.image_dpi@);
    lemma_resolved_extent(image_height, spec.image_dpi@);
}

/// An inch in millimetres, but for rounding.
pub proof fn lemma_inch() -> (d: nat)
    ensures
        fraction(254, 10) == (Number::Finite { negative: false, units: d }),
        within((d * 10) as int, (254 * one()) as int, 1),
        one() <= d <= 26 * one(),
{
    let u = one();
    let n = 254 * u;
    let d = rounded_units(53, 0, n, 10);
    lemma_pow2_pos(1074);
    lemma2_to64();
    lemma2_to64_rest();
    lemma_pow2_mono(53, 1074);
    lemma_mul_basics(u as int);
    lemma_quotient_within(n, 10);
    lemma_rounded_exact(1, 1074);
    lemma_rounded_exact(26, 1074);
    lemma_quotients_ordered(1 * u, 1, n, 10);
    lemma_quotients_ordered(n, 10, 26 * u, 1);
    lemma_pow2_adds(5, 1074);
    lemma_pow2_strictly_increases(1079, 2098);
    d
}

/// An inch has 72 points and 25.4 millimetres, but for one part in 2^50: a length in points is to
/// 720 as the same length in millimetres is to 254, with the same sign.
pub proof fn inches_have_72_points(mm: Number)
    requires
        mm is Finite,
        pow2(90) <= mm->units < pow2(2090),
    ensures
        ({
            let r = points(mm);
            let length = 720 * mm->units as int;
            &&& r is Finite
            &&& r.negative() == mm.negative()
            &&& 0x4_0000_0000_0000 * (254 * r->units) <= 0x4_0000_0000_0000 * length + length
            &&& 0x4_0000_0000_0000 * length <= 0x4_0000_0000_0000 * (254 * r->units) + length
        }),
{
    let u = one();
    let d = lemma_inch();
    let mm_units = mm->units;
    let n = mm_units * u;
    lemma_whole_exact(72);
    lemma_pow2_pos(90);
    lemma_pow2_pos(1074);
    lemma2_to64();
    lemma2_to64_rest();
    lemma_pow2_adds(31, 59);
    assert(n >= d * 0x20_0000_0000_0000) by (nonlinear_arith)
        requires
            n == mm_units * u,
            mm_units >= 0x8000_0000 * 0x800_0000_0000_0000,
            d <= 26 * u,
    ;
    lemma_quotient_within(n, d);
    let q = rounded_units(53, 0, n, d);
    lemma_units_within(72 * q);
    let x = rounded_units(53, 0, 72 * q, 1);
    assert((q * (72 * u)) * 1 == (72 * q) * u) by (nonlinear_arith);
    lemma_rounded_ratio(53, 0, q * (72 * u), u, 72 * q, 1);
    // Nothing overflows.
    let top = pow2(2090);
    lemma_mul_basics(top as int);
    lemma_rounded_exact(1, 2090);
    assert(n * 1 <= top * d) by (nonlinear_arith)
        requires
            n == mm_units * u,
            mm_units <= top,
            d >= u,
    ;
    lemma_quotients_ordered(n, d, top, 1);
    lemma_pow2_strictly_increases(2090, 2098);
    lemma_pow2_adds(7, 2090);
    lemma_rounded_exact(1, 2097);
    lemma_mul_basics(pow2(2097) as int);
    lemma_mul_basics((72 * q) as int);
    lemma_quotients_ordered(72 * q, 1, pow2(2097), 1);
    lemma_pow2_strictly_increases(2097, 2098);
    assert(points(mm) == (Number::Finite { negative: mm.negative(), units: x }));
    // `x * d` is near `72 * n`, and ten times `d` is near `254 * u`.
    lemma_within_times(x as int, (72 * q) as int, d as int, 1);
    lemma_within_times((q * d) as int, n as int, 72, 1);
    assert((72 * q) * d == 72 * (q * d)) by (nonlinear_arith);
    lemma_within_chain((x * d) as int, (72 * (q * d)) as int, (72 * n) as int, 1, 1);
    lemma_within_times((x * d) as int, (72 * n) as int, 10, 3);
    lemma_within_times((d * 10) as int, (254 * u) as int, x as int, 1);
    assert(x * (d * 10) == (x * d) * 10) by (nonlinear_arith);
    lemma_within_back((x * (d * 10)) as int, (x * (254 * u)) as int, 1);
    lemma_within_chain(
        (x * (254 * u)) as int,
        ((x * d) * 10) as int,
        ((72 * n) * 10) as int,
        2,
        3,
    );
    assert(x * (254 * u) == (254 * x) * u) by (nonlinear_arith);
    assert((72 * n) * 10 == (720 * mm_units) * u) by (nonlinear_arith)
        requires
            n == mm_units * u,
    ;
    lemma_within_cancel((254 * x) as int, (720 * mm_units) as int, u as int, 6);
}

/// The pixels of an extent at a resolution, before they are limited.
proof fn lemma_wanted_pixels(extent: Number, raster_dpi: Number)
    requires
        ordinary(extent),
        extent.signed() < pow2(2060),
        raster_dpi is Finite,
        one() <= raster_dpi.signed() <= 0x8000_0000 * one(),
    ensures
        ({
            let y = extent.over(whole(72)).times(raster_dpi);
            &&& y is Finite
            &&& !y.negative()
            &&& alike(
                72 * (y.signed() * one()),
                extent.signed() * raster_dpi.signed(),
            )
        }),
{
    let u = one();
    let e = extent->units;
    let d = raster_dpi->units;
    lemma_whole_exact(72);
    lemma_pow2_pos(90);
    lemma_pow2_pos(1074);
    lemma2_to64();
    lemma2_to64_rest();
    lemma_pow2_adds(31, 59);
    assert((e * u) * 72 == e * (72 * u)) by (nonlinear_arith);
    lemma_rounded_ratio(53, 0, e * u, 72 * u, e, 72);
    let q = rounded_units(53, 0, e, 72);
    lemma_quotient_within(e, 72);
    // The quotient is not small, and nothing overflows.
    let low = pow2(80);
    lemma_pow2_adds(10, 80);
    lemma_mul_basics(low as int);
    lemma_rounded_exact(1, 80);
    lemma_quotients_ordered(low, 1, e, 72);
    let top = pow2(2060);
    lemma_mul_basics(top as int);
    lemma_mul_basics(e as int);
    lemma_rounded_exact(1, 2060);
    lemma_quotients_ordered(e, 72, top, 1);
    lemma_pow2_strictly_increases(2060, 2098);
    lemma_pow2_mono(53, 80);
    assert(q * d >= u * 0x20_0000_0000_0000) by (nonlinear_arith)
        requires
            q >= 0x20_0000_0000_0000,
            d >= u,
    ;
    lemma_quotient_within(q * d, u);
    let y = rounded_units(53, 0, q * d, u);
    lemma_pow2_adds(31, 2060);
    lemma_rounded_exact(1, 2091);
    lemma_mul_basics(pow2(2091) as int);
    assert((q * d) * 1 <= pow2(2091) * u) by (nonlinear_arith)
        requires
            q <= top,
            d <= 0x8000_0000 * u,
            pow2(2091) == 0x8000_0000 * top,
    ;
    lemma_quotients_ordered(q * d, u, pow2(2091), 1);
    lemma_pow2_strictly_increases(2091, 2098);
    assert(extent.over(whole(72)).times(raster_dpi) == (Number::Finite {
        negative: false,
        units: y,
    }));
    lemma_within_times((y * u) as int, (q * d) as int, 72, 1);
    lemma_within_times((q * 72) as int, e as int, d as int, 1);
    assert((q * 72) * d == 72 * (q * d)) by (nonlinear_arith);
    lemma_within_chain((72 * (y * u)) as int, (72 * (q * d)) as int, (e * d) as int, 1, 1);
}

/// The source is decoded as finely as it is printed, or as a whole where it is coarser: to at least
/// the pixels that its printed extent has at the resolution of the printer, and to less than one
/// more, but for one part in 2^51.
pub proof fn raster_is_as_fine_as_the_printer(extent: Number, raster_dpi: Number, source: int)
    requires
        ordinary(extent),
        extent.signed() < pow2(2060),
        raster_dpi is Finite,
        one() <= raster_dpi.signed() <= 0x8000_0000 * one(),
        1 <= source <= i32::MAX,
    ensures
        ({
            let r = raster_extent(extent, raster_dpi, source);
            let c = 0x8_0000_0000_0000int;
            let dots = extent.signed() * raster_dpi.signed();
            let inch = 72 * (one() * one());
            &&& r == source || c * (r * inch) >= c * dots - dots
            &&& r == 1 || c * ((r - 1) * inch) <= c * dots + dots
        }),
{
    let u = one();
    lemma_pow2_pos(1074);
    lemma_wanted_pixels(extent, raster_dpi);
    let y = extent.over(whole(72)).times(raster_dpi);
    let n = y->units;
    let dots = extent.signed() * raster_dpi.signed();
    let inch = 72 * (u * u);
    let c = 0x8_0000_0000_0000int;
    let pixels = if n % u == 0 {
        n / u
    } else {
        n / u + 1
    };
    lemma_fundamental_div_mod(n as int, u as int);
    lemma_mod_bound(n as int, u as int);
    lemma_div_by_multiple(pixels as int, u as int);
    assert(ceiling(y) == (Number::Finite { negative: false, units: pixels * u }));
    assert(pixels * u >= n) by (nonlinear_arith)
        requires
            n == u * (n / u) + n % u,
            0 <= n % u < u,
            pixels == if n % u == 0 {
                n / u
            } else {
                n / u + 1
            },
    ;
    assert(pixels > 0 ==> (pixels - 1) * u <= n) by (nonlinear_arith)
        requires
            n == u * (n / u) + n % u,
            0 <= n % u < u,
            pixels == if n % u == 0 {
                n / u
            } else {
                n / u + 1
            },
    ;
    let r = raster_extent(extent, raster_dpi, source);
    assert(r == source || r >= pixels);
    assert(r == 1 || r <= pixels);
    if r != source {
        assert(r * inch >= 72 * (n * u)) by (nonlinear_arith)
            requires
                r >= pixels,
                pixels * u >= n,
                inch == 72 * (u * u),
                u > 0,
        {
            assert(r * u >= pixels * u);
            assert((r * u) * u >= n * u);
            assert(r * inch == 72 * ((r * u) * u));
        }
    }
    if r != 1 {
        assert((r - 1) * inch <= 72 * (n * u)) by (nonlinear_arith)
            requires
                r - 1 <= pixels - 1,
                (pixels - 1) * u <= n,
                inch == 72 * (u * u),
                u > 0,
        {
            assert((r - 1) * u <= (pixels - 1) * u);
            assert(((r - 1) * u) * u <= n * u);
            assert((r - 1) * inch == 72 * (((r - 1) * u) * u));
        }
    }
}

/// An image that is dragged follows the pointer: the distance by which it is moved on the paper, at
/// the scale of the preview, is that of the pointer, but for ten parts in 2^53.
pub proof fn dragged_image_follows_the_pointer(delta: Number, scale: Number)
    requires
        delta is Finite,
        scale is Finite,
        !scale.negative(),
        pow2(674) <= delta->units <= pow2(1474),
        pow2(674) <= scale->units <= pow2(1474),
    ensures
        ({
            let moved = points(dragged(delta, scale));
            &&& moved is Finite
            &&& moved.negative() == delta.negative()
            &&& within((moved->units * scale->units) as int, (delta->units * one()) as int, 10)
        }),
{
    let u = one();
    let d = delta->units;
    let s = scale->units;
    let inch = lemma_inch();
    lemma_whole_exact(72);
    lemma_pow2_pos(674);
    lemma_pow2_pos(1074);
    lemma2_to64();
    lemma2_to64_rest();
    lemma_mul_basics(u as int);
    // Points per millimetre.
    let n = (72 * u) * u;
    let p = rounded_units(53, 0, n, inch);
    lemma_pow2_mono(80, 1074);
    lemma_pow2_adds(27, 53);
    assert(n >= inch * 0x20_0000_0000_0000) by (nonlinear_arith)
        requires
            n == (72 * u) * u,
            inch <= 26 * u,
            u >= 0x20_0000_0000_0000,
    ;
    lemma_quotient_within(n, inch);
    lemma_rounded_exact(72, 1074);
    lemma_rounded_exact(1, 1074);
    assert(n * 1 <= (72 * u) * inch) by (nonlinear_arith)
        requires
            n == (72 * u) * u,
            inch >= u,
    ;
    lemma_quotients_ordered(n, inch, 72 * u, 1);
    assert(u * inch <= n * 1) by (nonlinear_arith)
        requires
            n == (72 * u) * u,
            inch <= 26 * u,
    ;
    lemma_quotients_ordered(1 * u, 1, n, inch);
    assert(u <= p <= 72 * u);
    lemma_pow2_adds(7, 1074);
    lemma_pow2_strictly_increases(1081, 2098);
    // The distance in points.
    lemma_pow2_adds(674, 1074);
    lemma_pow2_adds(1474, 1074);
    lemma_pow2_adds(53, 1474);
    lemma_pow2_mono(1527, 1748);
    lemma_pow2_adds(1474, 274);
    lemma_pow2_adds(674, 1874);
    let low = pow2(274);
    let high = pow2(1874);
    lemma_dragged_quotient(d, s, pow2(674), pow2(1474), low, high);
    let q = rounded_units(53, 0, d * u, s);
    lemma_pow2_strictly_increases(1874, 2098);
    // In millimetres.
    lemma_pow2_mono(80, 274);
    lemma_pow2_adds(200, 74);
    lemma_pow2_mono(80, 200);
    let y = rounded_units(53, 0, q * u, p);
    assert(q * u >= p * 0x20_0000_0000_0000) by (nonlinear_arith)
        requires
            q >= 0x800_0000 * 0x20_0000_0000_0000,
            p <= 72 * u,
    ;
    lemma_quotient_within(q * u, p);
    let small = pow2(200);
    lemma_mul_basics(small as int);
    lemma_rounded_exact(1, 200);
    lemma_pow2_mono(7, 74);
    assert(small * p <= (q * u) * 1) by (nonlinear_arith)
        requires
            p <= 72 * u,
            q >= small * pow2(74),
            pow2(74) >= 128,
    ;
    lemma_quotients_ordered(small, 1, q * u, p);
    lemma_mul_basics(high as int);
    lemma_rounded_exact(1, 1874);
    assert((q * u) * 1 <= high * p) by (nonlinear_arith)
        requires
            q <= high,
            p >= u,
    ;
    lemma_quotients_ordered(q * u, p, high, 1);
    // In inches, and in points again.
    let i = rounded_units(53, 0, y * u, inch);
    assert(y * u >= inch * 0x20_0000_0000_0000) by (nonlinear_arith)
        requires
            y >= 0x800_0000 * 0x20_0000_0000_0000,
            inch <= 26 * u,
    ;
    lemma_quotient_within(y * u, inch);
    assert((y * u) * 1 <= high * inch) by (nonlinear_arith)
        requires
            y <= high,
            inch >= u,
    ;
    lemma_quotients_ordered(y * u, inch, high, 1);
    let x = rounded_units(53, 0, 72 * i, 1);
    lemma_units_within(72 * i);
    assert((i * (72 * u)) * 1 == (72 * i) * u) by (nonlinear_arith);
    lemma_rounded_ratio(53, 0, i * (72 * u), u, 72 * i, 1);
    lemma_pow2_adds(7, 1874);
    lemma_rounded_exact(1, 1881);
    lemma_mul_basics(pow2(1881) as int);
    lemma_mul_basics((72 * i) as int);
    lemma_quotients_ordered(72 * i, 1, pow2(1881), 1);
    lemma_pow2_strictly_increases(1881, 2098);
    assert(whole(72).over(fraction(254, 10)) == (Number::Finite { negative: false, units: p }));
    assert(dragged(delta, scale) == (Number::Finite { negative: delta.negative(), units: y }));
    assert(points(dragged(delta, scale)) == (Number::Finite {
        negative: delta.negative(),
        units: x,
    }));
    lemma_dragged_units(u, d, s, inch, p, q, y, i, x);
}

proof fn lemma_dragged_quotient(d: nat, s: nat, least: nat, most: nat, low: nat, high: nat)
    requires
        0 < least <= d <= most,
        least <= s <= most,
        least * one() >= 0x20_0000_0000_0000 * most,
        least * one() == most * low,
        most * one() == least * high,
        low == pow2(274),
        high == pow2(1874),
    ensures
        ({
            let q = rounded_units(53, 0, d * one(), s);
            &&& within((q * s) as int, (d * one()) as int, 1)
            &&& low <= q <= high
        }),
{
    let u = one();
    let n = d * u;
    assert(least * u <= n <= most * u) by (nonlinear_arith)
        requires
            n == d * u,
            least <= d <= most,
    ;
    lemma_quotient_within(n, s);
    lemma_mul_basics(low as int);
    lemma_mul_basics(high as int);
    lemma_rounded_exact(1, 274);
    lemma_rounded_exact(1, 1874);
    assert(low * s <= n * 1) by (nonlinear_arith)
        requires
            n >= most * low,
            s <= most,
    ;
    assert(n * 1 <= high * s) by (nonlinear_arith)
        requires
            n <= least * high,
            s >= least,
    ;
    lemma_quotients_ordered(low, 1, n, s);
    lemma_quotients_ordered(n, s, high, 1);
}

/// The arithmetic of a dragged image.
proof fn lemma_dragged_units(
    u: nat,
    d: nat,
    s: nat,
    inch: nat,
    p: nat,
    q: nat,
    y: nat,
    i: nat,
    x: nat,
)
    requires
        u > 0,
        within((p * inch) as int, ((72 * u) * u) as int, 1),
        within((q * s) as int, (d * u) as int, 1),
        within((y * p) as int, (q * u) as int, 1),
        within((i * inch) as int, (y * u) as int, 1),
        within(x as int, (72 * i) as int, 1),
    ensures
        within((x * s) as int, (d * u) as int, 10),
{
    let f = (72 * u) * u;
    lemma_within_times(x as int, (72 * i) as int, inch as int, 1);
    lemma_within_times((i * inch) as int, (y * u) as int, 72, 1);
    assert((72 * i) * inch == 72 * (i * inch)) by (nonlinear_arith);
    lemma_within_chain((x * inch) as int, (72 * (i * inch)) as int, (72 * (y * u)) as int, 1, 1);
    lemma_within_times((x * inch) as int, (72 * (y * u)) as int, p as int, 3);
    lemma_within_times((y * p) as int, (q * u) as int, (72 * u) as int, 1);
    assert((72 * (y * u)) * p == (y * p) * (72 * u)) by (nonlinear_arith);
    lemma_within_chain(
        ((x * inch) * p) as int,
        ((y * p) * (72 * u)) as int,
        ((q * u) * (72 * u)) as int,
        3,
        1,
    );
    lemma_within_times((p * inch) as int, f as int, x as int, 1);
    assert(x * (p * inch) == (x * inch) * p) by (nonlinear_arith);
    assert((q * u) * (72 * u) == q * f) by (nonlinear_arith)
        requires
            f == (72 * u) * u,
    ;
    assert(f > 0 && 0 <= x * f && 0 <= q * f) by (nonlinear_arith)
        requires
            f == (72 * u) * u,
            u > 0,
    ;
    lemma_within_back((x * (p * inch)) as int, (x * f) as int, 1);
    lemma_within_chain((x * f) as int, (x * (p * inch)) as int, (q * f) as int, 2, 5);
    lemma_within_cancel(x as int, q as int, f as int, 8);
    lemma_within_times(x as int, q as int, s as int, 8);
    lemma_within_chain((x * s) as int, (q * s) as int, (d * u) as int, 8, 1);
}

/// The page of a print job has the paper that is chosen, with the image at its place and in its
/// size, and each of its extents is decoded as finely as it is printed.
pub proof fn page_has_the_image_at_its_place(
    page: PrintPage,
    spec: PrintSpec,
    source_width: int,
    source_height: int,
    raster_dpi: Number,
)
    requires
        page.lays_out(spec, source_width, source_height, raster_dpi),
    ensures
        page.paper_width@ == points(spec.paper_width_mm@),
        page.paper_height@ == points(spec.paper_height_mm@),
        (page.image.width@, page.image.height@) == spec.printed_size(source_width, source_height),
        page.image.x@ == placed(
            spec.paper_width_mm@,
            spec.align_x@,
            page.image.width@,
            spec.offset_x_mm@,
        ),
        page.image.y@ == placed(
            spec.paper_height_mm@,
            spec.align_y@,
            page.image.height@,
            spec.offset_y_mm@,
        ),
        page.target_width == raster_extent(page.image.width@, raster_dpi, source_width),
        page.target_height == raster_extent(page.image.height@, raster_dpi, source_height),
{
}

/// What is said of the resolution and of a print job names the numbers, the printer and the reason.
pub proof fn print_jobs_are_reported(dpi: Number, title: String, printer: String, error: String)
    ensures
        resolution_note_text(Some(dpi)) == "Using embedded resolution: "@ + fixed(dpi, 0) + " DPI"@,
        resolution_note_text(None) == "No trustworthy embedded resolution; using 300 DPI"@,
        progress_text(PrintProgress::NoPrinter) == "No printer selected"@,
        progress_text(PrintProgress::Sent { title, printer }) == "Sent “"@ + title@ + "” to "@
            + printer@,
        progress_text(PrintProgress::Unsent(error)) == "Could not print: "@ + error@,
        progress_text(PrintProgress::Unrendered(error)) == "Could not render print: "@ + error@,
{
}

/// The resolution of a source is taken as it is, and that of a printer that tells one, too; without
/// one it is 300 dots per inch.
pub proof fn known_resolutions_are_taken(source_dpi: Number, resolution: int)
    ensures
        initial_dpi(Some(source_dpi)) == source_dpi,
        initial_dpi(None) == whole(300),
        resolution > 0 ==> rendered_dpi(resolution) == whole(resolution),
        resolution <= 0 ==> rendered_dpi(resolution) == whole(300),
{
}

/// An image whose source tells 25.4 times its pixels per millimetre as its resolution is printed, as
/// the dialog starts, in the size that its source has: its printed extents times that resolution are
/// its pixels, with 72 points to the inch, but for one part in 2^51.
pub proof fn natural_size_is_printed_first(
    spec: PrintSpec,
    xres: Number,
    dpi: Number,
    image_width: int,
    image_height: int,
)
    requires
        !spec.fit_to_page,
        plausible_dpi(xres) == Some(dpi),
        spec.image_dpi@ == initial_dpi(Some(dpi)),
        0 < image_width <= i32::MAX,
        0 < image_height <= i32::MAX,
    ensures
        ({
            let (width, height) = spec.printed_size(image_width, image_height);
            &&& width is Finite && height is Finite
            &&& alike(width.signed() * dpi.signed(), (72 * image_width) * (one() * one()))
            &&& alike(height.signed() * dpi.signed(), (72 * image_height) * (one() * one()))
        }),
{
    lemma_whole_exact(36);
    lemma_whole_exact(2400);
    lemma_pow2_pos(1074);
    lemma_pow2_mono(90, 1074);
    lemma_pow2_adds(12, 1074);
    lemma_pow2_mono(1086, 2095);
    lemma2_to64();
    unfitted_print_has_its_resolution(spec, image_width, image_height);
}

/// Both axes are treated alike: on paper that lies on its side, with alignments and offsets swapped,
/// an image on its side has the same place and size, swapped.
pub proof fn axes_are_treated_alike(a: PrintSpec, b: PrintSpec, image_width: int, image_height: int)
    requires
        a.paper_width_mm@ == b.paper_height_mm@,
        a.paper_height_mm@ == b.paper_width_mm@,
        a.fit_to_page == b.fit_to_page,
        a.image_dpi@ == b.image_dpi@,
        a.align_x@ == b.align_y@,
        a.align_y@ == b.align_x@,
        a.offset_x_mm@ == b.offset_y_mm@,
        a.offset_y_mm@ == b.offset_x_mm@,
        0 < image_width <= i32::MAX,
        0 < image_height <= i32::MAX,
        a.fit_to_page ==> fittable(printable(a.paper_width_mm@)) && fittable(
            printable(a.paper_height_mm@),
        ),
    ensures
        ({
            let (x, y, width, height) = a.image_rect(image_width, image_height);
            b.image_rect(image_height, image_width) == (y, x, height, width)
        }),
{
    if a.fit_to_page {
        lemma_whole_exact(image_width);
        lemma_whole_exact(image_height);
        lemma_printable_grain(a.paper_width_mm@);
        lemma_printable_grain(a.paper_height_mm@);
        lemma_pow2_pos(1074);
        let u = one();
        let w = image_width as nat;
        let h = image_height as nat;
        assert(w * u > 0 && h * u > 0) by (nonlinear_arith)
            requires
                w > 0,
                h > 0,
                u > 0,
        ;
        let across = printable(a.paper_width_mm@)->units;
        let down = printable(a.paper_height_mm@)->units;
        lemma_fitted_extent(across, w, 0);
        lemma_fitted_extent(down, h, 0);
    }
}

/// The rectangle of an image has its printed size and lies at its place along both axes; the page of
/// a print job has it there, too.
pub proof fn image_lies_at_its_place(
    spec: PrintSpec,
    page: PrintPage,
    image_width: int,
    image_height: int,
    raster_dpi: Number,
)
    requires
        page.lays_out(spec, image_width, image_height, raster_dpi),
    ensures
        ({
            let (x, y, width, height) = spec.image_rect(image_width, image_height);
            &&& (width, height) == spec.printed_size(image_width, image_height)
            &&& x == placed(spec.paper_width_mm@, spec.align_x@, width, spec.offset_x_mm@)
            &&& y == placed(spec.paper_height_mm@, spec.align_y@, height, spec.offset_y_mm@)
            &&& (page.image.x@, page.image.y@, page.image.width@, page.image.height@) == (
                x,
                y,
                width,
                height,
            )
        }),
{
}

/// A printable part is zero or at least 2^-52 points, of either sign.
proof fn lemma_signed_grain(mm: Number)
    requires
        bounded(printable(mm)),
    ensures
        printable(mm)->units == 0 || pow2(90) <= printable(mm)->units,
        printable(mm).signed() == 0 ==> !printable(mm).negative(),
{
    let m = lemma_margin();
    lemma_printable(mm);
    if printable(mm).signed() >= 0 {
        lemma_printable_grain(mm);
    } else {
        let u = one();
        let grain = pow2(1022);
        let edge = points(mm);
        let t = 2 * m - edge.signed();
        lemma_whole_exact(72);
        lemma_pow2_pos(1074);
        lemma_pow2_pos(1022);
        lemma_pow2_adds(52, 1022);
        lemma2_to64_rest();
        lemma_rounded_zero(53, 0, 1);
        assert(t > 0);
        if edge.signed() >= 2 * u {
            let inches = mm.over(fraction(254, 10));
            assert(inches is Finite);
            lemma_grain(inches->units * (72 * u), u);
            let a = edge->units / grain;
            let b = m / grain;
            assert(t == (2 * b - a) * grain) by (nonlinear_arith)
                requires
                    t == 2 * (b * grain) - a * grain,
            ;
            assert(t >= grain) by (nonlinear_arith)
                requires
                    t == (2 * b - a) * grain,
                    t > 0,
                    grain > 0,
            ;
        }
        assert(t >= grain);
        lemma_mul_basics(grain as int);
        lemma_mul_basics(t);
        lemma_rounded_exact(1, 1022);
        lemma_quotients_ordered(grain, 1, t as nat, 1);
        lemma_pow2_mono(90, 1022);
    }
}

/// One extent of an image that is turned over because the margins overlap.
proof fn lemma_overlapping_extent(space: nat, extent: nat, scale: nat)
    requires
        pow2(90) <= space < pow2(2090),
        0 < extent <= 0x8000_0000,
        scale >= rounded_units(53, 0, space * one(), extent * one()),
    ensures
        ({
            let own = rounded_units(53, 0, space * one(), extent * one());
            let r = rounded_units(53, 0, (extent * one()) * scale, one());
            &&& 0x8_0000_0000_0000 * space <= 0x8_0000_0000_0000 * r + space
            &&& scale == own ==> 0x8_0000_0000_0000 * r <= 0x8_0000_0000_0000 * space + space
        }),
{
    let u = one();
    let own = rounded_units(53, 0, space * u, extent * u);
    lemma_pow2_pos(1074);
    lemma_scaled_back(space, extent);
    assert(((extent * u) * own) * u <= ((extent * u) * scale) * u) by (nonlinear_arith)
        requires
            own <= scale,
    ;
    lemma_quotients_ordered((extent * u) * own, u, (extent * u) * scale, u);
}

/// Where the margins overlap along an axis, the fitted extents are negative: no longer than the space
/// along either axis, and as long as it along one of them, but for one part in 2^51.
pub proof fn overlapping_margins_turn_the_image_over(
    spec: PrintSpec,
    image_width: int,
    image_height: int,
)
    requires
        spec.fit_to_page,
        0 < image_width <= i32::MAX,
        0 < image_height <= i32::MAX,
        bounded(printable(spec.paper_width_mm@)),
        bounded(printable(spec.paper_height_mm@)),
        printable(spec.paper_width_mm@).signed() < 0 || printable(spec.paper_height_mm@).signed()
            < 0,
    ensures
        ({
            let (width, height) = spec.printed_size(image_width, image_height);
            let across = -printable(spec.paper_width_mm@).signed();
            let down = -printable(spec.paper_height_mm@).signed();
            let c = 0x8_0000_0000_0000int;
            width is Finite && height is Finite ==> {
                &&& width.signed() <= 0 && height.signed() <= 0
                &&& c * across <= c * -width.signed() + across || across <= 0
                &&& c * down <= c * -height.signed() + down || down <= 0
                &&& (across > 0 && c * -width.signed() <= c * across + across) || (down > 0 && c
                    * -height.signed() <= c * down + down)
            }
        }),
{
    lemma_whole_exact(image_width);
    lemma_whole_exact(image_height);
    lemma_signed_grain(spec.paper_width_mm@);
    lemma_signed_grain(spec.paper_height_mm@);
    lemma_pow2_pos(1074);
    lemma_pow2_pos(90);
    let u = one();
    let w = image_width as nat;
    let h = image_height as nat;
    assert(w * u > 0 && h * u > 0) by (nonlinear_arith)
        requires
            w > 0,
            h > 0,
            u > 0,
    ;
    let p = printable(spec.paper_width_mm@);
    let q = printable(spec.paper_height_mm@);
    lemma_fitted_extent(p->units, w, 0);
    lemma_fitted_extent(q->units, h, 0);
    let a = rounded_units(53, 0, p->units * u, w * u);
    let b = rounded_units(53, 0, q->units * u, h * u);
    let left = p.over(whole(image_width));
    let right = q.over(whole(image_height));
    assert(left == (Number::Finite { negative: p.negative(), units: a }));
    assert(right == (Number::Finite { negative: q.negative(), units: b }));
    lemma_rounded_zero(53, 0, w * u);
    lemma_rounded_zero(53, 0, h * u);
    lemma_mul_basics(u as int);
    lemma_rounded_zero(53, 0, u);
    lemma_mul_basics((w * u) as int);
    lemma_mul_basics((h * u) as int);
    let scale = minimum(left, right);
    let s = scale->units;
    if p.signed() < 0 {
        lemma_overlapping_extent(p->units, w, a);
        assert(a > 0);
    }
    if q.signed() < 0 {
        lemma_overlapping_extent(q->units, h, b);
        assert(b > 0);
    }
    assert(scale.negative() && s > 0);
    if p.signed() < 0 {
        assert(s >= a);
        lemma_overlapping_extent(p->units, w, s);
    }
    if q.signed() < 0 {
        assert(s >= b);
        lemma_overlapping_extent(q->units, h, s);
    }
    let (width, height) = spec.printed_size(image_width, image_height);
    let x = rounded_units(53, 0, (w * u) * s, u);
    let y = rounded_units(53, 0, (h * u) * s, u);
    assert(width is Finite ==> width == (Number::Finite { negative: true, units: x }));
    assert(height is Finite ==> height == (Number::Finite { negative: true, units: y }));
}

/// A decoded image fills its rectangle on the page, however many pixels it has, but for one part in
/// 2^51.
pub proof fn decoded_image_fills_its_rectangle(extent: Number, pixels: int)
    requires
        ordinary(extent),
        0 < pixels <= i32::MAX,
    ensures
        ({
            let filled = whole(pixels).times(filling_scale(extent, pixels));
            filled is Finite && alike(filled.signed(), extent.signed())
        }),
{
    let u = one();
    let n = pixels as nat;
    lemma_whole_exact(pixels);
    lemma_pow2_pos(1074);
    lemma_pow2_pos(90);
    assert(n * u > 0) by (nonlinear_arith)
        requires
            n > 0,
            u > 0,
    ;
    lemma_fitted_extent(
        extent->units,
        n,
        rounded_units(53, 0, extent->units * u, n * u),
    );
}

} // verus!
