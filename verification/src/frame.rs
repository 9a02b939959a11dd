//! Decoded images and what is made of their pixels.
use crate::binary64::{
    lemma_rounded_exact, lemma_whole_exact, maximum, one, rounded_whole, truncated, whole, Binary64,
    Number,
};
use crate::ordering::{
    lemma_quotients_ordered, lemma_relative_error, lemma_scaled_back, lemma_whole_units_error,
};
use crate::path::ImagePath;
use crate::rounding::{lemma_pow2_mono, lemma_rounded_ratio, rounded_units};
use vstd::arithmetic::div_mod::*;
use vstd::arithmetic::mul::*;
use vstd::arithmetic::power2::*;
use vstd::prelude::*;

verus! {

/// An image, decoded to rows of RGBA pixels that start `stride` bytes apart.
#[derive(Debug)]
pub struct DecodedFrame {
    pub path: ImagePath,
    pub width: i32,
    pub height: i32,
    pub stride: usize,
    pub pixels: Vec<u8>,
    pub source_width: i32,
    pub source_height: i32,
    pub source_dpi: Option<Binary64>,
    pub file_type: String,
    pub metadata: String,
}

/// Pixels that are ready to be shown, as rows of RGBA that start `stride` bytes apart.
#[derive(Debug)]
pub struct Texture {
    pub width: i32,
    pub height: i32,
    pub stride: usize,
    pub pixels: Vec<u8>,
}

impl Texture {
    /// Whether this is a frame after a number of quarter turns. Without a turn the rows are kept
    /// as they are, else they follow each other without gaps.
    pub open spec fn shows(self, frame: DecodedFrame, rotation: int) -> bool {
        &&& (self.width as int, self.height as int) == turned_size(
            rotation,
            frame.width as int,
            frame.height as int,
        )
        &&& rotation % 4 == 0 ==> self.pixels@ == frame.pixels@ && self.stride == frame.stride
        &&& rotation % 4 != 0 ==> self.stride == self.width * 4 && self.pixels@.len() == self.width
            * self.height * 4
        &&& shows_turned(
            rotation,
            self.pixels@,
            self.stride as int,
            frame.pixels@,
            frame.stride as int,
            frame.width as int,
            frame.height as int,
        )
    }
}

/// The four bytes of a pixel.
pub open spec fn pixel(pixels: Seq<u8>, stride: int, x: int, y: int) -> Seq<u8> {
    pixels.subrange(y * stride + x * 4, y * stride + x * 4 + 4)
}

/// Whether rows of `width` pixels, `stride` bytes apart, lie inside `length` bytes.
pub open spec fn covers(width: int, height: int, stride: int, length: int) -> bool {
    &&& 0 <= width
    &&& 0 <= height
    &&& width > 0 && height > 0 ==> (height - 1) * stride + width * 4 <= length
}

/// Width and height after a number of quarter turns.
pub open spec fn turned_size(rotation: int, width: int, height: int) -> (int, int) {
    if rotation % 2 == 0 {
        (width, height)
    } else {
        (height, width)
    }
}

/// From where the pixel at `x`, `y` comes when an image of the given size is turned clockwise by a
/// number of quarter turns.
pub open spec fn turned_from(rotation: int, width: int, height: int, x: int, y: int) -> (int, int) {
    if rotation % 4 == 0 {
        (x, y)
    } else if rotation % 4 == 1 {
        (y, height - 1 - x)
    } else if rotation % 4 == 2 {
        (width - 1 - x, height - 1 - y)
    } else {
        (width - 1 - y, x)
    }
}

/// Whether an image shows another one after a number of quarter turns.
pub open spec fn shows_turned(
    rotation: int,
    pixels: Seq<u8>,
    stride: int,
    source: Seq<u8>,
    source_stride: int,
    width: int,
    height: int,
) -> bool {
    let (across, down) = turned_size(rotation, width, height);
    forall|x: int, y: int|
        0 <= x < across && 0 <= y < down ==> #[trigger] pixel(pixels, stride, x, y) == {
            let (from_x, from_y) = turned_from(rotation, width, height, x, y);
            pixel(source, source_stride, from_x, from_y)
        }
}

/// Quarter turns add up: turning back and forth, or four times, gives the image again.
pub proof fn turns_add_up(
    first: int,
    second: int,
    width: int,
    height: int,
    source: Seq<u8>,
    source_stride: int,
    once: Seq<u8>,
    once_stride: int,
    twice: Seq<u8>,
    twice_stride: int,
)
    requires
        first >= 0,
        second >= 0,
        shows_turned(first, once, once_stride, source, source_stride, width, height),
        ({
            let (across, down) = turned_size(first, width, height);
            shows_turned(second, twice, twice_stride, once, once_stride, across, down)
        }),
    ensures
        shows_turned(first + second, twice, twice_stride, source, source_stride, width, height),
        turned_size(first + second, width, height) == ({
            let (across, down) = turned_size(first, width, height);
            turned_size(second, across, down)
        }),
{
    let (w1, h1) = turned_size(first, width, height);
    let (w2, h2) = turned_size(second, w1, h1);
    let total = first + second;
    assert(turned_size(total, width, height) == (w2, h2));
    assert forall|x: int, y: int| 0 <= x < w2 && 0 <= y < h2 implies #[trigger] pixel(
        twice,
        twice_stride,
        x,
        y,
    ) == ({
        let (from_x, from_y) = turned_from(total, width, height, x, y);
        pixel(source, source_stride, from_x, from_y)
    }) by {
        let (x1, y1) = turned_from(second, w1, h1, x, y);
        assert(0 <= x1 < w1 && 0 <= y1 < h1);
        assert(pixel(twice, twice_stride, x, y) == pixel(once, once_stride, x1, y1));
        let (x0, y0) = turned_from(first, width, height, x1, y1);
        assert(pixel(once, once_stride, x1, y1) == pixel(source, source_stride, x0, y0));
        let f = first % 4;
        let s = second % 4;
        assert(total % 4 == (f + s) % 4);
        assert(turned_from(total, width, height, x, y) == (x0, y0));
    }
}

pub open spec fn longer(width: int, height: int) -> int {
    if width > height {
        width
    } else {
        height
    }
}

/// The size of an edited copy: turned, and shrunk so that its longer edge is at most
/// `maximum_edge`.
pub open spec fn edited_size(
    source_width: int,
    source_height: int,
    rotation: int,
    maximum_edge: int,
) -> (int, int) {
    let (width, height) = turned_size(rotation, source_width, source_height);
    let edge = longer(width, height);
    if maximum_edge <= 0 || maximum_edge >= edge {
        (width, height)
    } else {
        let scale = whole(maximum_edge).over(whole(edge));
        (shrunk(width, scale), shrunk(height, scale))
    }
}

/// An extent at a scale, rounded, and at least one.
pub open spec fn shrunk(extent: int, scale: Number) -> int {
    truncated(maximum(rounded_whole(whole(extent).times(scale)), whole(1)))
}

fn shrink(extent: i32, scale: Binary64) -> (r: i32)
    ensures
        r == shrunk(extent as int, scale@),
{
    Binary64::from_i32(extent).times(scale).round().max(Binary64::from_i32(1)).to_i32()
}

/// The size of an edited copy.
pub fn edited_dimensions(
    source_width: i32,
    source_height: i32,
    rotation: u8,
    maximum_edge: i32,
) -> (r: (i32, i32))
    ensures
        (r.0 as int, r.1 as int) == edited_size(
            source_width as int,
            source_height as int,
            rotation as int,
            maximum_edge as int,
        ),
{
    let (width, height): (i32, i32) = if rotation % 2 == 0 {
        (source_width, source_height)
    } else {
        (source_height, source_width)
    };
    let edge: i32 = if width > height {
        width
    } else {
        height
    };
    if maximum_edge <= 0 || maximum_edge >= edge {
        return (width, height);
    }
    let scale: Binary64 = Binary64::from_i32(maximum_edge).over(Binary64::from_i32(edge));
    (shrink(width, scale), shrink(height, scale))
}

/// A whole number of units, rounded to the nearest whole number.
proof fn lemma_near_whole(units: nat, n: nat)
    requires
        2 * units < 2 * (n * one()) + one(),
        2 * (n * one()) <= 2 * units + one(),
    ensures
        (2 * units + one()) / (2 * one()) == n,
{
    let u = one();
    lemma_pow2_pos(1074);
    let rest = 2 * units + u - 2 * (n * u);
    assert((2 * units + u) == n * (2 * u) + rest) by (nonlinear_arith)
        requires
            rest == 2 * units + u - 2 * (n * u),
    ;
    lemma_fundamental_div_mod_converse((2 * units + u) as int, (2 * u) as int, n as int, rest);
}

/// An extent, scaled by what brings an edge to a maximum: the share of the maximum that the extent
/// has of the edge, but for one part in 2^51.
proof fn lemma_scaled_share(extent: nat, edge: nat, maximum_edge: nat)
    requires
        0 < extent,
        0 < edge <= 0x8000_0000,
        0 < maximum_edge,
    ensures
        ({
            let u = one();
            let scale = rounded_units(53, 0, (maximum_edge * u) * u, edge * u);
            let back = rounded_units(53, 0, (extent * u) * scale, u);
            let share = (extent * maximum_edge) * u;
            &&& 0x8_0000_0000_0000 * (back * edge) <= 0x8_0000_0000_0000 * share + share
            &&& 0x8_0000_0000_0000 * share <= 0x8_0000_0000_0000 * (back * edge) + share
        }),
{
    let u = one();
    let target = maximum_edge * u;
    let scale = rounded_units(53, 0, target * u, edge * u);
    let back = rounded_units(53, 0, (extent * u) * scale, u);
    let share = (extent * maximum_edge) * u;
    lemma_pow2_pos(1074);
    lemma2_to64();
    lemma2_to64_rest();
    lemma_pow2_adds(31, 59);
    lemma_pow2_mono(90, 1074);
    assert(edge * u > 0) by (nonlinear_arith)
        requires
            edge > 0,
            u > 0,
    ;
    assert((target * u) * edge == target * (edge * u)) by (nonlinear_arith);
    lemma_rounded_ratio(53, 0, target * u, edge * u, target, edge);
    assert(target >= edge * 0x20_0000_0000_0000) by (nonlinear_arith)
        requires
            target == maximum_edge * u,
            maximum_edge >= 1,
            u >= 0x8000_0000 * 0x800_0000_0000_0000,
            edge <= 0x8000_0000,
    ;
    lemma_relative_error(target, edge);
    let n = extent * scale;
    assert(((extent * u) * scale) * 1 == n * u) by (nonlinear_arith)
        requires
            n == extent * scale,
    ;
    lemma_rounded_ratio(53, 0, (extent * u) * scale, u, n, 1);
    lemma_whole_units_error(n);
    let e = 0x20_0000_0000_0000int;
    let exact = extent * (scale * edge);
    assert(share == extent * target) by (nonlinear_arith)
        requires
            share == (extent * maximum_edge) * u,
            target == maximum_edge * u,
    ;
    assert(e * exact <= e * share + share && e * share <= e * exact + share) by (nonlinear_arith)
        requires
            exact == extent * (scale * edge),
            share == extent * target,
            e * (scale * edge) <= e * target + target,
            e * target <= e * (scale * edge) + target,
            extent >= 0,
    ;
    assert(e * (back * edge) <= e * exact + exact && e * exact <= e * (back * edge) + exact)
        by (nonlinear_arith)
        requires
            exact == extent * (scale * edge),
            n == extent * scale,
            e * back <= e * n + n,
            e * n <= e * back + n,
            edge >= 0,
    ;
}

/// The share of an extent, rounded to whole pixels.
proof fn lemma_rounded_share(extent: nat, edge: nat, maximum_edge: nat, back: nat, pixels: nat)
    requires
        ({
            let share = (extent * maximum_edge) * one();
            &&& 0x8_0000_0000_0000 * (back * edge) <= 0x8_0000_0000_0000 * share + share
            &&& 0x8_0000_0000_0000 * share <= 0x8_0000_0000_0000 * (back * edge) + share
        }),
        pixels == (2 * back + one()) / (2 * one()),
    ensures
        proportional(pixels as int, extent as int, edge as int, maximum_edge as int),
{
    let u = one();
    lemma_pow2_pos(1074);
    lemma_fundamental_div_mod((2 * back + u) as int, (2 * u) as int);
    lemma_mod_bound((2 * back + u) as int, (2 * u) as int);
    let product = extent * maximum_edge;
    let share = product * u;
    let got = pixels * edge;
    let scaled = back * edge;
    assert((2 * u) * pixels == 2 * (pixels * u)) by (nonlinear_arith);
    assert(2 * (got * u) <= 2 * scaled + edge * u && 2 * scaled <= 2 * (got * u) + edge * u)
        by (nonlinear_arith)
        requires
            got == pixels * edge,
            scaled == back * edge,
            2 * (pixels * u) <= 2 * back + u,
            2 * back <= 2 * (pixels * u) + u,
            edge >= 0,
    ;
    let c = 0x8_0000_0000_0000int;
    assert(c * (2 * got) <= c * (2 * product) + c * edge + 2 * product && c * (2 * product) <= c * (2
        * got) + c * edge + 2 * product) by (nonlinear_arith)
        requires
            c * (2 * (got * u)) <= c * (2 * (product * u)) + c * (edge * u) + 2 * (product * u),
            c * (2 * (product * u)) <= c * (2 * (got * u)) + c * (edge * u) + 2 * (product * u),
            u > 0,
    ;
}

/// What becomes of an extent that is not longer than the edge which is shrunk to a maximum.
proof fn lemma_shrunk(extent: int, edge: int, maximum_edge: int)
    requires
        0 < extent <= edge <= i32::MAX,
        0 < maximum_edge < edge,
    ensures
        ({
            let r = shrunk(extent, whole(maximum_edge).over(whole(edge)));
            &&& 1 <= r <= extent
            &&& r <= maximum_edge
            &&& extent == edge ==> r == maximum_edge
            &&& in_proportion(r, extent, edge, maximum_edge)
        }),
{
    let u = one();
    lemma_pow2_pos(1074);
    lemma_whole_exact(extent);
    lemma_whole_exact(edge);
    lemma_whole_exact(maximum_edge);
    lemma_whole_exact(1);
    lemma2_to64();
    lemma2_to64_rest();
    lemma_pow2_mono(90, 1074);
    let most = maximum_edge as nat;
    let target = most * u;
    let width = extent as nat;
    let long = edge as nat;
    assert(target >= u) by (nonlinear_arith)
        requires
            target == most * u,
            most >= 1,
    ;
    lemma_scaled_back(target, long);
    let scale_units = rounded_units(53, 0, target * u, long * u);
    assert(long * u > 0 && width * u > 0) by (nonlinear_arith)
        requires
            long > 0,
            width > 0,
            u > 0,
    ;
    // The scale is less than one.
    lemma_rounded_exact(1, 1074);
    assert(target <= long * u) by (nonlinear_arith)
        requires
            target == most * u,
            most < long,
    ;
    assert(target * u <= u * (long * u)) by (nonlinear_arith)
        requires
            target <= long * u,
    ;
    lemma_mul_basics(u as int);
    lemma_mul_basics((target * u) as int);
    lemma_quotients_ordered(target * u, long * u, 1 * u, 1);
    assert(scale_units <= u);
    lemma_pow2_strictly_increases(1074, 2098);
    let scale = whole(maximum_edge).over(whole(edge));
    assert(scale == (Number::Finite { negative: false, units: scale_units }));
    // The extents keep their order.
    let long_back = rounded_units(53, 0, (long * u) * scale_units, u);
    let back = rounded_units(53, 0, (width * u) * scale_units, u);
    assert(((width * u) * scale_units) * u <= ((long * u) * scale_units) * u) by (nonlinear_arith)
        requires
            width <= long,
    ;
    lemma_quotients_ordered((width * u) * scale_units, u, (long * u) * scale_units, u);
    assert(((width * u) * scale_units) * 1 <= (width * u) * u) by (nonlinear_arith)
        requires
            scale_units <= u,
    ;
    lemma_rounded_exact(width, 1074);
    lemma_quotients_ordered((width * u) * scale_units, u, width * u, 1);
    assert(back <= width * u);
    // The edge comes back as the maximum.
    assert(target <= 0x8000_0000 * u) by (nonlinear_arith)
        requires
            target == most * u,
            most <= 0x8000_0000,
    ;
    lemma_near_whole(long_back, maximum_edge as nat);
    let across = (2 * back + u) / (2 * u);
    lemma_div_is_ordered((2 * back + u) as int, (2 * long_back + u) as int, (2 * u) as int);
    lemma_near_whole(width * u, width);
    lemma_div_is_ordered((2 * back + u) as int, (2 * (width * u) + u) as int, (2 * u) as int);
    assert(across <= maximum_edge && across <= width);
    assert(width * u < pow2(2098)) by {
        lemma_pow2_adds(31, 1074);
        lemma_pow2_strictly_increases(1105, 2098);
        assert(width * u <= 0x8000_0000 * u) by (nonlinear_arith)
            requires
                width <= 0x8000_0000,
        ;
    }
    lemma_div_by_multiple(across as int, u as int);
    lemma_div_by_multiple(1, u as int);
    lemma_mul_basics(u as int);
    let rounded = rounded_whole(whole(extent).times(scale));
    assert(rounded == (Number::Finite { negative: false, units: across * u }));
    lemma_scaled_share(width, long, most);
    lemma_rounded_share(width, long, most, back, across);
    if across == 0 {
        assert(maximum(rounded, whole(1)) == whole(1));
    } else {
        assert(across * u >= u) by (nonlinear_arith)
            requires
                across >= 1,
        ;
        assert(maximum(rounded, whole(1)) == rounded);
    }
}

/// Whether a number of pixels is the share of a maximum edge that an extent has of an edge, to the
/// nearest whole number, but for one part in 2^51.
pub open spec fn proportional(pixels: int, extent: int, edge: int, maximum_edge: int) -> bool {
    let got = 2 * (pixels * edge);
    let share = 2 * (extent * maximum_edge);
    &&& 0x8_0000_0000_0000 * (got - share) <= 0x8_0000_0000_0000 * edge + share
    &&& 0x8_0000_0000_0000 * (share - got) <= 0x8_0000_0000_0000 * edge + share
}

/// Whether an extent is shrunk in proportion, but to no less than one pixel.
pub open spec fn in_proportion(pixels: int, extent: int, edge: int, maximum_edge: int) -> bool {
    ||| proportional(pixels, extent, edge, maximum_edge)
    ||| pixels == 1 && proportional(0, extent, edge, maximum_edge)
}

/// An edited copy is never larger than its source. Where a maximum edge is chosen that is shorter
/// than the longer edge of the source, the longer edge of the copy has exactly that length, and
/// the other edge is shrunk in proportion, but to no less than one pixel.
pub proof fn edited_copy_keeps_to_its_edge(
    source_width: int,
    source_height: int,
    rotation: int,
    maximum_edge: int,
)
    requires
        0 < source_width <= i32::MAX,
        0 < source_height <= i32::MAX,
    ensures
        ({
            let (width, height) = turned_size(rotation, source_width, source_height);
            let (w, h) = edited_size(source_width, source_height, rotation, maximum_edge);
            &&& 1 <= w <= width
            &&& 1 <= h <= height
            &&& 0 < maximum_edge && (maximum_edge < width || maximum_edge < height) ==> {
                &&& w <= maximum_edge
                &&& h <= maximum_edge
                &&& w == maximum_edge || h == maximum_edge
                &&& in_proportion(w, width, longer(width, height), maximum_edge)
                &&& in_proportion(h, height, longer(width, height), maximum_edge)
            }
            &&& maximum_edge <= 0 || (maximum_edge >= width && maximum_edge >= height) ==> (w, h)
                == (width, height)
        }),
{
    let (width, height) = turned_size(rotation, source_width, source_height);
    let edge = longer(width, height);
    if 0 < maximum_edge < edge {
        lemma_shrunk(width, edge, maximum_edge);
        lemma_shrunk(height, edge, maximum_edge);
    }
}

/// A color channel, multiplied by the opacity.
pub open spec fn premultiplied(channel: u8, alpha: u8) -> u8 {
    ((channel * alpha) / 255) as u8
}

/// An RGBA pixel as premultiplied BGRA.
pub open spec fn preview_pixel(p: Seq<u8>) -> Seq<u8> {
    seq![
        premultiplied(p[2], p[3]),
        premultiplied(p[1], p[3]),
        premultiplied(p[0], p[3]),
        p[3],
    ]
}

fn premultiply(channel: u8, alpha: u8) -> (r: u8)
    ensures
        r == premultiplied(channel, alpha),
{
    assert(channel * alpha <= 255 * 255) by (nonlinear_arith)
        requires
            channel <= 255,
            alpha <= 255,
    ;
    let full: u16 = channel as u16 * alpha as u16;
    (full / 255) as u8
}

/// A pixel inside the covered rows lies inside the bytes.
proof fn lemma_pixel_inside(width: int, height: int, stride: int, length: int, x: int, y: int)
    requires
        covers(width, height, stride, length),
        0 <= stride,
        0 <= x < width,
        0 <= y < height,
    ensures
        0 <= y * stride,
        y * stride + x * 4 + 4 <= length,
{
    assert(0 <= y * stride <= (height - 1) * stride) by (nonlinear_arith)
        requires
            0 <= y <= height - 1,
            0 <= stride,
    ;
}

impl DecodedFrame {
    /// The number of bytes of the pixels.
    pub fn size_bytes(&self) -> (r: usize)
        ensures
            r == self.pixels@.len(),
    {
        self.pixels.len()
    }

    /// Whether the pixels cover all rows.
    pub open spec fn covered(&self) -> bool {
        covers(self.width as int, self.height as int, self.stride as int, self.pixels@.len() as int)
    }

    /// Whether the pixels cover all rows, and whether a turned copy of them can be counted.
    pub open spec fn showable(&self) -> bool {
        &&& self.covered()
        &&& self.width * self.height * 4 <= usize::MAX
        &&& self.width * 4 <= usize::MAX
        &&& self.height * 4 <= usize::MAX
    }

    /// Whether the frame can be shown, turned or not.
    pub fn is_showable(&self) -> (r: bool)
        ensures
            r == self.showable(),
    {
        if self.width < 0 || self.height < 0 {
            return false;
        }
        let width: u128 = self.width as u128;
        let height: u128 = self.height as u128;
        assert(width * height <= 0x8000_0000 * 0x8000_0000) by (nonlinear_arith)
            requires
                width <= 0x8000_0000,
                height <= 0x8000_0000,
        ;
        let most: u128 = usize::MAX as u128;
        if width * height * 4 > most || width * 4 > most || height * 4 > most {
            return false;
        }
        if width == 0 || height == 0 {
            return true;
        }
        let stride: u128 = self.stride as u128;
        assert((height - 1) * stride <= 0x8000_0000 * 0xffff_ffff_ffff_ffff) by (nonlinear_arith)
            requires
                1 <= height <= 0x8000_0000,
                stride <= 0xffff_ffff_ffff_ffff,
        ;
        (height - 1) * stride + width * 4 <= self.pixels.len() as u128
    }
}

/// Appends the four bytes at a position.
fn push_pixel(pixels: &mut Vec<u8>, source: &Vec<u8>, at: usize)
    requires
        at + 4 <= source.len(),
    ensures
        final(pixels)@ == old(pixels)@ + source@.subrange(at as int, at + 4),
{
    let ghost start = pixels@;
    pixels.push(source[at]);
    pixels.push(source[at + 1]);
    pixels.push(source[at + 2]);
    pixels.push(source[at + 3]);
    assert(pixels@ =~= start + source@.subrange(at as int, at + 4));
}

fn copy_bytes(source: &Vec<u8>) -> (r: Vec<u8>)
    ensures
        r@ == source@,
{
    let r: Vec<u8> = crate::path::part(source, 0, source.len());
    assert(r@ =~= source@);
    r
}

/// Whether the first `count` pixels of a row are those of a turned image.
spec fn row_turned(
    rotation: int,
    pixels: Seq<u8>,
    stride: int,
    frame: DecodedFrame,
    y: int,
    count: int,
) -> bool {
    forall|x: int|
        0 <= x < count ==> #[trigger] pixel(pixels, stride, x, y) == ({
            let (from_x, from_y) = turned_from(
                rotation,
                frame.width as int,
                frame.height as int,
                x,
                y,
            );
            pixel(frame.pixels@, frame.stride as int, from_x, from_y)
        })
}

/// Rows stay as they are when bytes are appended behind them.
proof fn lemma_rows_kept(
    rotation: int,
    pixels: Seq<u8>,
    longer: Seq<u8>,
    stride: int,
    frame: DecodedFrame,
    y: int,
    count: int,
)
    requires
        row_turned(rotation, pixels, stride, frame, y, count),
        0 <= stride,
        0 <= y,
        y * stride + count * 4 <= pixels.len() <= longer.len(),
        longer.take(pixels.len() as int) == pixels,
    ensures
        row_turned(rotation, longer, stride, frame, y, count),
{
    assert(0 <= y * stride) by (nonlinear_arith)
        requires
            0 <= y,
            0 <= stride,
    ;
    assert forall|x: int| 0 <= x < count implies #[trigger] pixel(longer, stride, x, y) == pixel(
        pixels,
        stride,
        x,
        y,
    ) by {
        assert forall|i: int| 0 <= i < pixels.len() implies longer[i] == pixels[i] by {
            assert(longer.take(pixels.len() as int)[i] == longer[i]);
        }
        assert(pixel(longer, stride, x, y) =~= pixel(pixels, stride, x, y));
    }
}

/// Appends row `y` of a turned frame.
fn push_turned_row(pixels: &mut Vec<u8>, frame: &DecodedFrame, rotation: u8, width: i32, y: i32)
    requires
        1 <= rotation <= 3,
        frame.covered(),
        ({
            let (across, down) = turned_size(
                rotation as int,
                frame.width as int,
                frame.height as int,
            );
            width == across && 0 <= y < down
        }),
        old(pixels)@.len() == y * (width * 4),
    ensures
        final(pixels)@.len() == old(pixels)@.len() + width * 4,
        final(pixels)@.take(old(pixels)@.len() as int) == old(pixels)@,
        row_turned(
            rotation as int,
            final(pixels)@,
            width * 4,
            *frame,
            y as int,
            width as int,
        ),
{
    let ghost start = pixels@;
    let ghost stride = width * 4;
    let mut x: i32 = 0;
    assert(start.take(start.len() as int) =~= start);
    while x < width
        invariant
            1 <= rotation <= 3,
            frame.covered(),
            ({
                let (across, down) = turned_size(
                    rotation as int,
                    frame.width as int,
                    frame.height as int,
                );
                width == across && 0 <= y < down
            }),
            stride == width * 4,
            start.len() == y * stride,
            0 <= x <= width,
            pixels@.len() == start.len() + x * 4,
            pixels@.take(start.len() as int) == start,
            row_turned(rotation as int, pixels@, stride, *frame, y as int, x as int),
        decreases width - x,
    {
        let (from_x, from_y): (i32, i32) = if rotation == 1 {
            (y, frame.height - 1 - x)
        } else if rotation == 2 {
            (frame.width - 1 - x, frame.height - 1 - y)
        } else {
            (frame.width - 1 - y, x)
        };
        let total: usize = frame.pixels.len();
        proof {
            lemma_pixel_inside(
                frame.width as int,
                frame.height as int,
                frame.stride as int,
                total as int,
                from_x as int,
                from_y as int,
            );
        }
        let at: usize = from_y as usize * frame.stride + from_x as usize * 4;
        let ghost done = pixels@;
        push_pixel(pixels, &frame.pixels, at);
        proof {
            assert(pixels@.take(done.len() as int) =~= done);
            assert(pixels@.take(start.len() as int) =~= done.take(start.len() as int));
            lemma_rows_kept(
                rotation as int,
                done,
                pixels@,
                stride,
                *frame,
                y as int,
                x as int,
            );
            assert(pixel(pixels@, stride, x as int, y as int) =~= pixel(
                frame.pixels@,
                frame.stride as int,
                from_x as int,
                from_y as int,
            ));
        }
        x = x + 1;
    }
}

/// The pixels of a frame after a number of quarter turns.
pub fn texture_for_rotation(frame: &DecodedFrame, rotation: u8) -> (r: Texture)
    requires
        rotation % 4 != 0 ==> frame.showable(),
    ensures
        r.shows(*frame, rotation as int),
{
    let turns: u8 = rotation % 4;
    if turns == 0 {
        return Texture {
            width: frame.width,
            height: frame.height,
            stride: frame.stride,
            pixels: copy_bytes(&frame.pixels),
        };
    }
    let (width, height): (i32, i32) = if turns % 2 == 0 {
        (frame.width, frame.height)
    } else {
        (frame.height, frame.width)
    };
    let ghost stride = width * 4;
    let mut pixels: Vec<u8> = Vec::new();
    let mut y: i32 = 0;
    while y < height
        invariant
            1 <= turns <= 3,
            frame.covered(),
            (width as int, height as int) == turned_size(
                turns as int,
                frame.width as int,
                frame.height as int,
            ),
            stride == width * 4,
            0 <= y <= height,
            pixels@.len() == y * stride,
            forall|v: int|
                0 <= v < y ==> #[trigger] row_turned(
                    turns as int,
                    pixels@,
                    stride,
                    *frame,
                    v,
                    width as int,
                ),
        decreases height - y,
    {
        let ghost done = pixels@;
        push_turned_row(&mut pixels, frame, turns, width, y);
        proof {
            assert((y + 1) * stride == y * stride + stride) by (nonlinear_arith);
            assert forall|v: int| 0 <= v < y + 1 implies #[trigger] row_turned(
                turns as int,
                pixels@,
                stride,
                *frame,
                v,
                width as int,
            ) by {
                if v < y {
                    assert(row_turned(turns as int, done, stride, *frame, v, width as int));
                    assert(v * stride + stride <= y * stride) by (nonlinear_arith)
                        requires
                            v + 1 <= y,
                            0 <= stride,
                    ;
                    lemma_rows_kept(
                        turns as int,
                        done,
                        pixels@,
                        stride,
                        *frame,
                        v,
                        width as int,
                    );
                }
            }
        }
        y = y + 1;
    }
    proof {
        assert(height * stride == width * height * 4) by (nonlinear_arith)
            requires
                stride == width * 4,
        ;
        assert forall|x: int, v: int| 0 <= x < width && 0 <= v < height implies #[trigger] pixel(
            pixels@,
            stride,
            x,
            v,
        ) == ({
            let (from_x, from_y) = turned_from(
                rotation as int,
                frame.width as int,
                frame.height as int,
                x,
                v,
            );
            pixel(frame.pixels@, frame.stride as int, from_x, from_y)
        }) by {
            assert(row_turned(turns as int, pixels@, stride, *frame, v, width as int));
        }
    }
    Texture { width, height, stride: width as usize * 4, pixels }
}

/// Whether a row shows the first `count` pixels of a frame premultiplied.
spec fn row_premultiplied(
    pixels: Seq<u8>,
    stride: int,
    frame: DecodedFrame,
    y: int,
    count: int,
) -> bool {
    forall|x: int|
        0 <= x < count ==> #[trigger] pixel(pixels, stride, x, y) == preview_pixel(
            pixel(frame.pixels@, frame.stride as int, x, y),
        )
}

/// Whether the bytes of a row behind its pixels are zero.
pub open spec fn row_padded(pixels: Seq<u8>, stride: int, width: int, y: int) -> bool {
    forall|i: int|
        y * stride + width * 4 <= i < y * stride + stride ==> #[trigger] pixels[i] == 0
}

/// Appends row `y` of the preview of a frame.
fn push_preview_row(pixels: &mut Vec<u8>, frame: &DecodedFrame, stride: usize, y: i32)
    requires
        frame.covered(),
        0 <= y < frame.height,
        frame.width * 4 <= stride,
        old(pixels)@.len() == y * stride,
    ensures
        final(pixels)@.len() == old(pixels)@.len() + stride,
        final(pixels)@.take(old(pixels)@.len() as int) == old(pixels)@,
        row_premultiplied(final(pixels)@, stride as int, *frame, y as int, frame.width as int),
        row_padded(final(pixels)@, stride as int, frame.width as int, y as int),
{
    let ghost start = pixels@;
    let mut x: i32 = 0;
    assert(start.take(start.len() as int) =~= start);
    while x < frame.width
        invariant
            frame.covered(),
            0 <= y < frame.height,
            frame.width * 4 <= stride,
            start.len() == y * stride,
            0 <= x <= frame.width,
            pixels@.len() == start.len() + x * 4,
            pixels@.take(start.len() as int) == start,
            row_premultiplied(pixels@, stride as int, *frame, y as int, x as int),
        decreases frame.width - x,
    {
        let total: usize = frame.pixels.len();
        proof {
            lemma_pixel_inside(
                frame.width as int,
                frame.height as int,
                frame.stride as int,
                total as int,
                x as int,
                y as int,
            );
        }
        let at: usize = y as usize * frame.stride + x as usize * 4;
        let ghost done = pixels@;
        let alpha: u8 = frame.pixels[at + 3];
        pixels.push(premultiply(frame.pixels[at + 2], alpha));
        pixels.push(premultiply(frame.pixels[at + 1], alpha));
        pixels.push(premultiply(frame.pixels[at], alpha));
        pixels.push(alpha);
        proof {
            assert(pixels@.take(start.len() as int) =~= done.take(start.len() as int));
            assert(pixel(pixels@, stride as int, x as int, y as int) =~= preview_pixel(
                pixel(frame.pixels@, frame.stride as int, x as int, y as int),
            ));
            assert forall|u: int| 0 <= u < x implies #[trigger] pixel(
                pixels@,
                stride as int,
                u,
                y as int,
            ) == pixel(done, stride as int, u, y as int) by {
                assert(pixel(pixels@, stride as int, u, y as int) =~= pixel(
                    done,
                    stride as int,
                    u,
                    y as int,
                ));
            }
        }
        x = x + 1;
    }
    let mut filled: usize = frame.width as usize * 4;
    let ghost row = pixels@;
    assert(row.take(row.len() as int) =~= row);
    while filled < stride
        invariant
            0 <= frame.width,
            frame.width * 4 <= filled <= stride,
            start.len() == y * stride,
            row.len() == start.len() + frame.width * 4,
            row.take(start.len() as int) == start,
            pixels@.len() == start.len() + filled,
            pixels@.take(row.len() as int) == row,
            forall|i: int| row.len() <= i < pixels@.len() ==> #[trigger] pixels@[i] == 0,
        decreases stride - filled,
    {
        let ghost done = pixels@;
        pixels.push(0);
        assert(pixels@.take(row.len() as int) =~= done.take(row.len() as int));
        filled = filled + 1;
    }
    proof {
        assert(pixels@.take(start.len() as int) =~= pixels@.take(row.len() as int).take(
            start.len() as int,
        ));
        assert forall|u: int| 0 <= u < frame.width implies #[trigger] pixel(
            pixels@,
            stride as int,
            u,
            y as int,
        ) == pixel(row, stride as int, u, y as int) by {
            assert(pixel(pixels@.take(row.len() as int), stride as int, u, y as int) =~= pixel(
                pixels@,
                stride as int,
                u,
                y as int,
            ));
        }
    }
}

/// Rows of the preview stay as they are when bytes are appended behind them.
proof fn lemma_preview_kept(
    pixels: Seq<u8>,
    longer: Seq<u8>,
    stride: int,
    frame: DecodedFrame,
    y: int,
)
    requires
        row_premultiplied(pixels, stride, frame, y, frame.width as int),
        row_padded(pixels, stride, frame.width as int, y),
        0 <= y,
        0 <= frame.width * 4 <= stride,
        y * stride + stride <= pixels.len() <= longer.len(),
        longer.take(pixels.len() as int) == pixels,
    ensures
        row_premultiplied(longer, stride, frame, y, frame.width as int),
        row_padded(longer, stride, frame.width as int, y),
{
    assert(0 <= y * stride) by (nonlinear_arith)
        requires
            0 <= y,
            0 <= stride,
    ;
    assert forall|i: int| 0 <= i < pixels.len() implies longer[i] == pixels[i] by {
        assert(longer.take(pixels.len() as int)[i] == longer[i]);
    }
    assert forall|x: int| 0 <= x < frame.width implies #[trigger] pixel(longer, stride, x, y)
        == pixel(pixels, stride, x, y) by {
        assert(pixel(longer, stride, x, y) =~= pixel(pixels, stride, x, y));
    }
    assert forall|i: int|
        y * stride + frame.width * 4 <= i < y * stride + stride implies #[trigger] longer[i] == 0 by {
        assert(pixels[i] == 0);
    }
}

/// The decoded RGBA frame as premultiplied ARGB32 in native order, in rows that start `stride`
/// bytes apart, for the preview of the print dialog.
pub fn preview_pixels(frame: &DecodedFrame, stride: usize) -> (r: Vec<u8>)
    requires
        frame.covered(),
        frame.width * 4 <= stride,
        frame.height * stride <= usize::MAX,
    ensures
        r@.len() == frame.height * stride,
        forall|x: int, y: int|
            0 <= x < frame.width && 0 <= y < frame.height ==> #[trigger] pixel(
                r@,
                stride as int,
                x,
                y,
            ) == preview_pixel(pixel(frame.pixels@, frame.stride as int, x, y)),
        forall|y: int|
            0 <= y < frame.height ==> #[trigger] row_padded(
                r@,
                stride as int,
                frame.width as int,
                y,
            ),
{
    let mut pixels: Vec<u8> = Vec::new();
    let mut y: i32 = 0;
    while y < frame.height
        invariant
            frame.covered(),
            frame.width * 4 <= stride,
            0 <= y <= frame.height,
            pixels@.len() == y * stride,
            forall|v: int|
                0 <= v < y ==> #[trigger] row_premultiplied(
                    pixels@,
                    stride as int,
                    *frame,
                    v,
                    frame.width as int,
                ),
            forall|v: int|
                0 <= v < y ==> #[trigger] row_padded(
                    pixels@,
                    stride as int,
                    frame.width as int,
                    v,
                ),
        decreases frame.height - y,
    {
        let ghost done = pixels@;
        push_preview_row(&mut pixels, frame, stride, y);
        proof {
            assert((y + 1) * stride == y * stride + stride) by (nonlinear_arith);
            assert forall|v: int| 0 <= v < y implies #[trigger] row_premultiplied(
                pixels@,
                stride as int,
                *frame,
                v,
                frame.width as int,
            ) by {
                assert(row_premultiplied(done, stride as int, *frame, v, frame.width as int));
                assert(row_padded(done, stride as int, frame.width as int, v));
                assert(v * stride + stride <= y * stride) by (nonlinear_arith)
                    requires
                        v + 1 <= y,
                        0 <= stride,
                ;
                lemma_preview_kept(done, pixels@, stride as int, *frame, v);
            }
            assert forall|v: int| 0 <= v < y implies #[trigger] row_padded(
                pixels@,
                stride as int,
                frame.width as int,
                v,
            ) by {
                assert(row_premultiplied(done, stride as int, *frame, v, frame.width as int));
                assert(row_padded(done, stride as int, frame.width as int, v));
                assert(v * stride + stride <= y * stride) by (nonlinear_arith)
                    requires
                        v + 1 <= y,
                        0 <= stride,
                ;
                lemma_preview_kept(done, pixels@, stride as int, *frame, v);
            }
        }
        y = y + 1;
    }
    proof {
        assert forall|x: int, v: int|
            0 <= x < frame.width && 0 <= v < frame.height implies #[trigger] pixel(
            pixels@,
            stride as int,
            x,
            v,
        ) == preview_pixel(pixel(frame.pixels@, frame.stride as int, x, v)) by {
            assert(row_premultiplied(pixels@, stride as int, *frame, v, frame.width as int));
        }
    }
    pixels
}

/// A turn to the right is one clockwise: what was at the top is at the right, and what was at the
/// left is at the top. Two turns put every pixel opposite, and three are one to the left.
pub proof fn right_turns_are_clockwise(
    rotation: int,
    pixels: Seq<u8>,
    stride: int,
    source: Seq<u8>,
    source_stride: int,
    width: int,
    height: int,
    x: int,
    y: int,
)
    requires
        shows_turned(rotation, pixels, stride, source, source_stride, width, height),
        0 <= x < width,
        0 <= y < height,
    ensures
        rotation % 4 == 0 ==> pixel(pixels, stride, x, y) == pixel(source, source_stride, x, y),
        rotation % 4 == 1 ==> pixel(pixels, stride, height - 1 - y, x) == pixel(
            source,
            source_stride,
            x,
            y,
        ),
        rotation % 4 == 2 ==> pixel(pixels, stride, width - 1 - x, height - 1 - y) == pixel(
            source,
            source_stride,
            x,
            y,
        ),
        rotation % 4 == 3 ==> pixel(pixels, stride, y, width - 1 - x) == pixel(
            source,
            source_stride,
            x,
            y,
        ),
{
    lemma_mod_mod(rotation, 2, 2);
    if rotation % 4 == 1 {
        assert(turned_from(rotation, width, height, height - 1 - y, x) == (x, y));
    } else if rotation % 4 == 2 {
        assert(turned_from(rotation, width, height, width - 1 - x, height - 1 - y) == (x, y));
    } else if rotation % 4 == 3 {
        assert(turned_from(rotation, width, height, y, width - 1 - x) == (x, y));
    }
}

/// An image is on its side exactly after an odd number of quarter turns.
pub proof fn quarter_turns_swap_the_size(rotation: int, width: int, height: int)
    ensures
        turned_size(rotation, width, height) == if rotation % 2 == 0 {
            (width, height)
        } else {
            (height, width)
        },
        turned_size(rotation + 1, width, height) == turned_size(rotation, height, width),
        turned_size(rotation + 2, width, height) == turned_size(rotation, width, height),
{
}

/// A pixel of the preview has its channels in the order blue, green, red and opacity. The colors
/// are multiplied by the opacity, without the fraction: full opacity leaves them as they are, and
/// none makes them black.
pub proof fn preview_pixels_are_premultiplied(red: u8, green: u8, blue: u8, alpha: u8)
    ensures
        ({
            let p = preview_pixel(seq![red, green, blue, alpha]);
            &&& p.len() == 4
            &&& p[3] == alpha
            &&& 255 * p[0] <= blue * alpha < 255 * (p[0] + 1)
            &&& 255 * p[1] <= green * alpha < 255 * (p[1] + 1)
            &&& 255 * p[2] <= red * alpha < 255 * (p[2] + 1)
        }),
        preview_pixel(seq![red, green, blue, 255]) == seq![blue, green, red, 255],
        preview_pixel(seq![red, green, blue, 0]) == seq![0u8, 0, 0, 0],
{
    lemma_premultiplied(red, alpha);
    lemma_premultiplied(green, alpha);
    lemma_premultiplied(blue, alpha);
    lemma_premultiplied(red, 255);
    lemma_premultiplied(green, 255);
    lemma_premultiplied(blue, 255);
    lemma_premultiplied(red, 0);
    lemma_premultiplied(green, 0);
    lemma_premultiplied(blue, 0);
    assert(preview_pixel(seq![red, green, blue, 255]) =~= seq![blue, green, red, 255]);
    assert(preview_pixel(seq![red, green, blue, 0]) =~= seq![0u8, 0, 0, 0]);
}

proof fn lemma_premultiplied(channel: u8, alpha: u8)
    ensures
        255 * premultiplied(channel, alpha) <= channel * alpha < 255 * (premultiplied(
            channel,
            alpha,
        ) + 1),
        alpha == 255 ==> premultiplied(channel, alpha) == channel,
        alpha == 0 ==> premultiplied(channel, alpha) == 0,
{
    assert(0 <= channel * alpha <= 255 * 255) by (nonlinear_arith)
        requires
            0 <= channel <= 255,
            0 <= alpha <= 255,
    ;
    lemma_mul_basics(channel as int);
}

/// A texture of a frame has its size, turned, and every pixel of the frame at the place to which
/// that many turns to the right bring it.
pub proof fn textures_show_every_pixel(
    texture: Texture,
    frame: DecodedFrame,
    rotation: int,
    x: int,
    y: int,
)
    requires
        texture.shows(frame, rotation),
        0 <= x < frame.width,
        0 <= y < frame.height,
    ensures
        rotation % 2 == 0 ==> texture.width == frame.width && texture.height == frame.height,
        rotation % 2 != 0 ==> texture.width == frame.height && texture.height == frame.width,
        ({
            let shown = pixel(frame.pixels@, frame.stride as int, x, y);
            let stride = texture.stride as int;
            &&& rotation % 4 == 0 ==> pixel(texture.pixels@, stride, x, y) == shown
            &&& rotation % 4 == 1 ==> pixel(texture.pixels@, stride, frame.height - 1 - y, x)
                == shown
            &&& rotation % 4 == 2 ==> pixel(
                texture.pixels@,
                stride,
                frame.width - 1 - x,
                frame.height - 1 - y,
            ) == shown
            &&& rotation % 4 == 3 ==> pixel(texture.pixels@, stride, y, frame.width - 1 - x)
                == shown
        }),
{
    right_turns_are_clockwise(
        rotation,
        texture.pixels@,
        texture.stride as int,
        frame.pixels@,
        frame.stride as int,
        frame.width as int,
        frame.height as int,
        x,
        y,
    );
}

} // verus!
