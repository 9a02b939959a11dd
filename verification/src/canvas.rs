//! The canvas that shows the current image, and its zoom.
use crate::binary64::{
    absolute, at_most, difference, fraction, lemma_rounded_exact, lemma_whole_exact, less, minimum, one,
    product, quotient, rounded_whole, single, truncated, whole, Binary64, Format, Number,
};
use crate::decimal::{fixed, format_fixed};
use crate::ordering::{
    lemma_absolute_error, lemma_divided_back, lemma_fitted_extent, lemma_less_after,
    lemma_plus_grows, lemma_quotients_ordered, lemma_rounded_again, lemma_rounded_ordered,
    lemma_single_error, lemma_single_within, lemma_units_within, lemma_within_cancel,
    lemma_within_far_chain, lemma_within_times,
};
use crate::rounding::{
    lemma_bit_length_unique, lemma_nearest_by_parts, lemma_pow2_mono, lemma_rounded_ratio,
    lemma_rounded_zero, rounded_units,
};
use vstd::arithmetic::div_mod::*;
use vstd::arithmetic::mul::*;
use vstd::arithmetic::power2::*;
use vstd::prelude::*;

verus! {

/// The zoom levels, in thousandths of the natural size of the source image.
pub const ZOOM_LEVELS: [u64; 22] = [
    125,
    167,
    250,
    333,
    500,
    667,
    750,
    1000,
    1250,
    1500,
    2000,
    3000,
    4000,
    5000,
    6000,
    8000,
    10000,
    12000,
    16000,
    20000,
    24000,
    32000,
];

/// The zoom level at a position of the table.
pub open spec fn zoom_level(i: int) -> Number {
    fraction(ZOOM_LEVELS@[i] as nat, 1000)
}

/// The distance from one to the next double, 2^-52.
pub open spec fn epsilon() -> Number {
    fraction(1, 0x10_0000_0000_0000)
}

/// The zoom at which an image of the given size fits into the view, never above its natural size.
pub open spec fn fit_zoom(
    view_width: int,
    view_height: int,
    image_width: int,
    image_height: int,
) -> Number {
    minimum(
        minimum(whole(view_width).over(whole(image_width)), whole(view_height).over(whole(image_height))),
        whole(1),
    )
}

/// Whether a level is the next one above `current`.
pub open spec fn is_next_level(i: int, current: Number) -> bool {
    &&& 0 <= i < ZOOM_LEVELS@.len()
    &&& less(current.plus(epsilon()), zoom_level(i))
    &&& forall|j: int| 0 <= j < i ==> !less(current.plus(epsilon()), #[trigger] zoom_level(j))
}

/// Whether a level is the next one below `current`.
pub open spec fn is_previous_level(i: int, current: Number) -> bool {
    &&& 0 <= i < ZOOM_LEVELS@.len()
    &&& less(zoom_level(i), current.minus(epsilon()))
    &&& forall|j: int|
        i < j < ZOOM_LEVELS@.len() ==> !less(#[trigger] zoom_level(j), current.minus(epsilon()))
}

/// The first level above `current`, or the largest level.
pub open spec fn next_level(current: Number) -> Number {
    if exists|i: int| is_next_level(i, current) {
        zoom_level(choose|i: int| is_next_level(i, current))
    } else {
        zoom_level(21)
    }
}

/// The last level below `current`, unless the fitting zoom is reached first.
pub open spec fn previous_level(current: Number, fit: Number) -> Option<Number> {
    if exists|i: int| is_previous_level(i, current) {
        let level = zoom_level(choose|i: int| is_previous_level(i, current));
        if less(fit, level) {
            Some(level)
        } else {
            None
        }
    } else {
        None
    }
}

/// The extent of an image on the canvas, in single precision.
pub open spec fn scaled_extent(extent: int, zoom: Number) -> Number {
    product(Format::Single, single(whole(extent)), single(zoom))
}

/// Where an image of the given extent starts so that it is centered.
pub open spec fn centered(available: int, extent: Number) -> Number {
    quotient(Format::Single, difference(Format::Single, single(whole(available)), extent), whole(2))
}

/// The percentage of a zoom, with one decimal place unless it is close to a whole number.
pub open spec fn zoom_text(zoom: Number) -> Seq<char> {
    let percentage = zoom.times(whole(100));
    let off = absolute(percentage.minus(rounded_whole(percentage)));
    fixed(
        percentage,
        if less(off, fraction(1, 100)) {
            0
        } else {
            1
        },
    ) + seq!['%']
}

fn level(i: usize) -> (r: Binary64)
    requires
        i < 22,
    ensures
        r@ == zoom_level(i as int),
{
    assert(forall|j: int| 0 <= j < 22 ==> ZOOM_LEVELS@[j] <= 32000);
    Binary64::from_fraction(ZOOM_LEVELS[i], 1000)
}

/// The zoom at which an image fits into the view, never above its natural size.
pub fn default_zoom(
    view_width: i32,
    view_height: i32,
    image_width: i32,
    image_height: i32,
) -> (r: Binary64)
    ensures
        r@ == fit_zoom(view_width as int, view_height as int, image_width as int, image_height as int),
{
    Binary64::from_i32(view_width).over(Binary64::from_i32(image_width)).min(
        Binary64::from_i32(view_height).over(Binary64::from_i32(image_height)),
    ).min(Binary64::from_i32(1))
}

/// Width and height of an image on the canvas.
pub fn scaled_image_size(image_width: i32, image_height: i32, zoom: Binary64) -> (r: (
    Binary64,
    Binary64,
))
    ensures
        r.0@ == scaled_extent(image_width as int, zoom@),
        r.1@ == scaled_extent(image_height as int, zoom@),
{
    let factor: Binary64 = zoom.to_single();
    (
        Binary64::from_i32(image_width).to_single().times_single(factor),
        Binary64::from_i32(image_height).to_single().times_single(factor),
    )
}

/// The first level above `current`, or the largest level.
pub fn next_zoom_level(current: Binary64) -> (r: Binary64)
    ensures
        r@ == next_level(current@),
{
    let bar: Binary64 = current.plus(Binary64::from_fraction(1, 0x10_0000_0000_0000));
    let mut i: usize = 0;
    while i < 22
        invariant
            i <= 22,
            bar@ == current@.plus(epsilon()),
            forall|j: int| 0 <= j < i ==> !less(bar@, #[trigger] zoom_level(j)),
        decreases 22 - i,
    {
        let candidate: Binary64 = level(i);
        if bar.less_than(candidate) {
            proof {
                assert(is_next_level(i as int, current@));
                let k = choose|k: int| is_next_level(k, current@);
                assert(is_next_level(k, current@));
                assert(!less(bar@, zoom_level(k)) || k >= i);
                assert(k <= i);
            }
            return candidate;
        }
        i = i + 1;
    }
    proof {
        assert forall|k: int| !is_next_level(k, current@) by {
            if 0 <= k < 22 {
                assert(!less(bar@, zoom_level(k)));
            }
        }
    }
    level(21)
}

/// The last level below `current`, unless the fitting zoom is reached first.
pub fn previous_zoom_level(current: Binary64, fit: Binary64) -> (r: Option<Binary64>)
    ensures
        match previous_level(current@, fit@) {
            Some(level) => r matches Some(x) && x@ == level,
            None => r is None,
        },
{
    let bar: Binary64 = current.minus(Binary64::from_fraction(1, 0x10_0000_0000_0000));
    let mut i: usize = 22;
    while i > 0
        invariant
            i <= 22,
            bar@ == current@.minus(epsilon()),
            forall|j: int| i <= j < 22 ==> !less(#[trigger] zoom_level(j), bar@),
        decreases i,
    {
        i = i - 1;
        let candidate: Binary64 = level(i);
        if candidate.less_than(bar) {
            proof {
                assert(is_previous_level(i as int, current@));
                let k = choose|k: int| is_previous_level(k, current@);
                assert(is_previous_level(k, current@));
                assert(!less(zoom_level(k), bar@) || k <= i);
                assert(k >= i);
            }
            if fit.less_than(candidate) {
                return Some(candidate);
            }
            return None;
        }
    }
    proof {
        assert forall|k: int| !is_previous_level(k, current@) by {
            if 0 <= k < 22 {
                assert(!less(zoom_level(k), bar@));
            }
        }
    }
    None
}

/// The percentage of a zoom.
pub fn format_zoom(zoom: Binary64) -> (s: String)
    ensures
        s@ == zoom_text(zoom@),
{
    let percentage: Binary64 = zoom.times(Binary64::from_i32(100));
    let off: Binary64 = percentage.minus(percentage.round()).abs();
    let mut s: String = if off.less_than(Binary64::from_fraction(1, 100)) {
        format_fixed(percentage, 0)
    } else {
        format_fixed(percentage, 1)
    };
    s.push('%');
    proof {
        assert(s@ =~= zoom_text(zoom@));
    }
    s
}

/// How enlarged and reduced pixels are drawn.
#[derive(Clone, Copy, PartialEq, Eq, Structural, Debug)]
pub enum ScalingFilter {
    Linear,
    Nearest,
}

/// Where the texture is drawn on the canvas, in single precision.
#[derive(Clone, Copy, Debug)]
pub struct Drawing {
    pub x: Binary64,
    pub y: Binary64,
    pub width: Binary64,
    pub height: Binary64,
    pub filter: ScalingFilter,
}

/// Width and height of the decoded image that is shown.
#[derive(Clone, Copy, PartialEq, Eq, Structural, Debug)]
pub struct TextureSize {
    pub width: i32,
    pub height: i32,
}

/// The canvas: the texture that it shows and how it is zoomed. A `zoom` that is not positive
/// stands for fitting the image into the view.
#[derive(Clone, Copy, Debug)]
pub struct ImageCanvas {
    pub texture: Option<TextureSize>,
    pub zoom: Binary64,
    pub fit_zoom: Binary64,
    pub source_width: i32,
    pub source_height: i32,
    pub decoded_scale: Binary64,
}

/// What a canvas stands for.
pub struct CanvasState {
    pub texture: Option<TextureSize>,
    pub zoom: Number,
    pub fit_zoom: Number,
    pub source_width: int,
    pub source_height: int,
    pub decoded_scale: Number,
}

impl View for ImageCanvas {
    type V = CanvasState;

    open spec fn view(&self) -> CanvasState {
        CanvasState {
            texture: self.texture,
            zoom: self.zoom@,
            fit_zoom: self.fit_zoom@,
            source_width: self.source_width as int,
            source_height: self.source_height as int,
            decoded_scale: self.decoded_scale@,
        }
    }
}

impl CanvasState {
    /// Whether the image is zoomed, not fitted into the view.
    pub open spec fn zoomed(self) -> bool {
        less(whole(0), self.zoom)
    }

    /// The zoom at which the source image fits into a view of the given size.
    pub open spec fn source_fit(self, view_width: int, view_height: int) -> Number {
        fit_zoom(view_width, view_height, self.source_width, self.source_height)
    }

    /// The zoom relative to the source image while zoomed.
    pub open spec fn source_zoom(self) -> Number {
        self.zoom.times(self.decoded_scale)
    }

    /// The zoom relative to the source image, if there is one.
    pub open spec fn shown_zoom(self, view_width: int, view_height: int) -> Option<Number> {
        if self.texture is None {
            None
        } else if self.zoomed() {
            Some(self.source_zoom())
        } else {
            Some(self.source_fit(view_width, view_height))
        }
    }

    /// With another texture, fitted into the view.
    pub open spec fn showing(
        self,
        texture: TextureSize,
        source_width: int,
        source_height: int,
    ) -> CanvasState {
        CanvasState {
            texture: Some(texture),
            zoom: whole(0),
            fit_zoom: whole(0),
            source_width,
            source_height,
            decoded_scale: whole(texture.width as int).over(whole(source_width)),
        }
    }

    /// At the next zoom level, from the fitting zoom if the image is not zoomed yet.
    pub open spec fn zoomed_in(self, view_width: int, view_height: int) -> CanvasState {
        if self.texture is None {
            self
        } else if at_most(self.zoom, whole(0)) {
            let fit = self.source_fit(view_width, view_height);
            CanvasState { fit_zoom: fit, zoom: next_level(fit).over(self.decoded_scale), ..self }
        } else {
            CanvasState {
                zoom: next_level(self.source_zoom()).over(self.decoded_scale),
                ..self
            }
        }
    }

    /// At the previous zoom level, or back at the fitting zoom.
    pub open spec fn zoomed_out(self) -> CanvasState {
        if self.texture is None {
            self
        } else {
            CanvasState {
                zoom: match previous_level(self.source_zoom(), self.fit_zoom) {
                    Some(level) => level.over(self.decoded_scale),
                    None => whole(0),
                },
                ..self
            }
        }
    }

    /// Fitted into the view.
    pub open spec fn fitted(self) -> CanvasState {
        CanvasState { zoom: whole(0), fit_zoom: whole(0), ..self }
    }

    /// The extent that the canvas asks for along one axis.
    pub open spec fn measured(self, horizontal: bool) -> int {
        match self.texture {
            None => 0,
            Some(texture) => {
                let extent = if horizontal {
                    texture.width
                } else {
                    texture.height
                };
                if at_most(self.zoom, whole(0)) {
                    0
                } else {
                    truncated(rounded_whole(whole(extent as int).times(self.zoom)))
                }
            },
        }
    }

    /// The zoom of the texture in a view of the given size.
    pub open spec fn texture_zoom(
        self,
        texture: TextureSize,
        view_width: int,
        view_height: int,
    ) -> Number {
        if at_most(self.zoom, whole(0)) {
            fit_zoom(view_width, view_height, texture.width as int, texture.height as int)
        } else {
            self.zoom
        }
    }

    /// Whether a texture is drawn as it should be: centered, with one zoom for both axes. Pixels
    /// are kept crisp where they are enlarged.
    pub open spec fn draws(
        self,
        texture: TextureSize,
        view_width: int,
        view_height: int,
        drawing: Drawing,
    ) -> bool {
        let zoom = self.texture_zoom(texture, view_width, view_height);
        &&& drawing.width@ == scaled_extent(texture.width as int, zoom)
        &&& drawing.height@ == scaled_extent(texture.height as int, zoom)
        &&& drawing.x@ == centered(view_width, drawing.width@)
        &&& drawing.y@ == centered(view_height, drawing.height@)
        &&& (drawing.filter is Nearest <==> less(whole(1), self.zoom))
    }
}

impl ImageCanvas {
    /// A canvas that shows nothing.
    pub fn new() -> (r: Self)
        ensures
            r@ == (CanvasState {
                texture: None,
                zoom: whole(0),
                fit_zoom: whole(0),
                source_width: 0,
                source_height: 0,
                decoded_scale: whole(0),
            }),
    {
        let nothing: Binary64 = Binary64::from_i32(0);
        ImageCanvas {
            texture: None,
            zoom: nothing,
            fit_zoom: nothing,
            source_width: 0,
            source_height: 0,
            decoded_scale: nothing,
        }
    }

    /// Shows another texture, fitted into the view.
    pub fn set_texture(&mut self, texture: TextureSize, source_width: i32, source_height: i32)
        ensures
            final(self)@ == old(self)@.showing(texture, source_width as int, source_height as int),
    {
        let nothing: Binary64 = Binary64::from_i32(0);
        self.texture = Some(texture);
        self.zoom = nothing;
        self.fit_zoom = nothing;
        self.source_width = source_width;
        self.source_height = source_height;
        self.decoded_scale =
        Binary64::from_i32(texture.width).over(Binary64::from_i32(source_width));
    }

    /// Goes to the next zoom level, from the fitting zoom if the image is not zoomed yet.
    pub fn zoom_in(&mut self, view_width: i32, view_height: i32)
        ensures
            final(self)@ == old(self)@.zoomed_in(view_width as int, view_height as int),
    {
        if self.texture.is_none() {
            return;
        }
        let current: Binary64 = self.zoom;
        let fit: Binary64 = default_zoom(
            view_width,
            view_height,
            self.source_width,
            self.source_height,
        );
        let scale: Binary64 = self.decoded_scale;
        let target: Binary64 = if current.is_at_most(Binary64::from_i32(0)) {
            self.fit_zoom = fit;
            next_zoom_level(fit)
        } else {
            next_zoom_level(current.times(scale))
        };
        self.zoom = target.over(scale);
    }

    /// Goes to the previous zoom level, or back to the fitting zoom.
    pub fn zoom_out(&mut self)
        ensures
            final(self)@ == old(self)@.zoomed_out(),
    {
        if self.texture.is_none() {
            return;
        }
        let scale: Binary64 = self.decoded_scale;
        self.zoom =
        match previous_zoom_level(self.zoom.times(scale), self.fit_zoom) {
            Some(level) => level.over(scale),
            None => Binary64::from_i32(0),
        };
    }

    /// Fits the image into the view.
    pub fn zoom_fit(&mut self)
        ensures
            final(self)@ == old(self)@.fitted(),
    {
        self.zoom = Binary64::from_i32(0);
        self.fit_zoom = Binary64::from_i32(0);
    }

    /// Whether the image is zoomed, not fitted into the view.
    pub fn is_zoomed(&self) -> (r: bool)
        ensures
            r == self@.zoomed(),
    {
        Binary64::from_i32(0).less_than(self.zoom)
    }

    /// The zoom relative to the source image, if there is one.
    pub fn effective_zoom(&self, view_width: i32, view_height: i32) -> (r: Option<Binary64>)
        ensures
            self@.shown_zoom(view_width as int, view_height as int) == match r {
                Some(zoom) => Some(zoom@),
                None => None,
            },
    {
        if self.texture.is_none() {
            return None;
        }
        Some(
            if self.is_zoomed() {
                self.zoom.times(self.decoded_scale)
            } else {
                default_zoom(view_width, view_height, self.source_width, self.source_height)
            },
        )
    }

    /// Minimum and natural extent of the canvas along one axis, and the baselines, of which there
    /// are none.
    pub fn measure(&self, horizontal: bool) -> (r: (i32, i32, i32, i32))
        ensures
            r.0 == self@.measured(horizontal),
            r == (r.0, r.0, -1i32, -1i32),
    {
        match self.texture {
            None => (0, 0, -1, -1),
            Some(texture) => {
                if self.zoom.is_at_most(Binary64::from_i32(0)) {
                    return (0, 0, -1, -1);
                }
                let extent: i32 = if horizontal {
                    texture.width
                } else {
                    texture.height
                };
                let size: i32 = Binary64::from_i32(extent).times(self.zoom).round().to_i32();
                (size, size, -1, -1)
            },
        }
    }

    /// Where the texture is drawn in a view of the given size.
    pub fn snapshot(&self, view_width: i32, view_height: i32) -> (r: Option<Drawing>)
        ensures
            r is None <==> self.texture is None,
            self.texture matches Some(texture) ==> (r matches Some(drawing) && self@.draws(
                texture,
                view_width as int,
                view_height as int,
                drawing,
            )),
    {
        match self.texture {
            None => None,
            Some(texture) => {
                let zoom: Binary64 = if self.zoom.is_at_most(Binary64::from_i32(0)) {
                    default_zoom(view_width, view_height, texture.width, texture.height)
                } else {
                    self.zoom
                };
                let (width, height): (Binary64, Binary64) = scaled_image_size(
                    texture.width,
                    texture.height,
                    zoom,
                );
                let two: Binary64 = Binary64::from_i32(2);
                let filter: ScalingFilter = if Binary64::from_i32(1).less_than(self.zoom) {
                    ScalingFilter::Nearest
                } else {
                    ScalingFilter::Linear
                };
                Some(
                    Drawing {
                        x: Binary64::from_i32(view_width).to_single().minus_single(width).over_single(
                            two,
                        ),
                        y: Binary64::from_i32(view_height).to_single().minus_single(
                            height,
                        ).over_single(two),
                        width,
                        height,
                        filter,
                    },
                )
            },
        }
    }
}

/// The quotient of two extents is one or more exactly where the first one is not smaller.
pub proof fn lemma_extent_ratio(a: int, b: int)
    requires
        0 < a <= i32::MAX,
        0 < b <= i32::MAX,
    ensures
        ({
            let r = whole(a).over(whole(b));
            &&& r is Finite
            &&& !r.negative()
            &&& r.signed() > 0
            &&& a >= b ==> at_most(whole(1), r)
            &&& a < b ==> less(r, whole(1))
        }),
{
    lemma_whole_exact(a);
    lemma_whole_exact(b);
    lemma_whole_exact(1);
    lemma_pow2_pos(1074);
    let u = one();
    let n = a as nat * u * u;
    let d = b as nat * u;
    assert(d > 0) by (nonlinear_arith)
        requires
            d == b as nat * u,
            b > 0,
            u > 0,
    ;
    lemma_rounded_exact(a as nat, 1074);
    lemma_rounded_exact(1, 1074);
    lemma_rounded_exact(1, 0);
    lemma2_to64();
    lemma_mul_basics(u as int);
    assert(n * 1 <= (a as nat * u) * d) by (nonlinear_arith)
        requires
            n == a as nat * u * u,
            d == b as nat * u,
            b >= 1,
            u >= 1,
    ;
    lemma_quotients_ordered(n, d, a as nat * u, 1);
    // The quotient is at least one unit.
    lemma_one_exceeds(b);
    let uu = u * u;
    lemma_mul_is_associative(a, u as int, u as int);
    assert(n == a * uu);
    assert(d <= uu) by (nonlinear_arith)
        requires
            d == b as nat * u,
            uu == u * u,
            0 < b <= u,
    ;
    assert(uu <= a * uu) by (nonlinear_arith)
        requires
            a >= 1,
            uu >= 0,
    ;
    lemma_quotients_ordered(1, 1, n, d);
    if a >= b {
        assert(u * d == b * uu) by (nonlinear_arith)
            requires
                d == b as nat * u,
                uu == u * u,
                b >= 0,
        ;
        assert(b * uu <= a * uu) by (nonlinear_arith)
            requires
                a >= b,
                uu >= 0,
        ;
        lemma_quotients_ordered(1 * u, 1, n, d);
    } else {
        let below = 0x7fff_ffff * pow2(1043);
        lemma_rounded_exact(0x7fff_ffff, 1043);
        lemma_pow2_adds(31, 1043);
        lemma_pow2_pos(1043);
        lemma2_to64_rest();
        let p = pow2(1043);
        assert(u == 0x8000_0000 * p);
        let pu = p * u;
        assert(a * uu == (a * 0x8000_0000) * pu) by (nonlinear_arith)
            requires
                uu == u * u,
                pu == p * u,
                u == 0x8000_0000 * p,
        ;
        assert(below * d == (0x7fff_ffff * b) * pu) by (nonlinear_arith)
            requires
                below == 0x7fff_ffff * p,
                d == b as nat * u,
                pu == p * u,
                b >= 0,
        ;
        assert((a * 0x8000_0000) * pu <= (0x7fff_ffff * b) * pu) by (nonlinear_arith)
            requires
                a * 0x8000_0000 <= 0x7fff_ffff * b,
                pu >= 0,
        ;
        lemma_quotients_ordered(n, d, below, 1);
    }
}

proof fn lemma_one_exceeds(b: int)
    requires
        b <= i32::MAX,
    ensures
        b <= one(),
        pow2(31) <= one(),
{
    lemma2_to64();
    lemma2_to64_rest();
    lemma_pow2_mono(31, 1074);
}

/// Fitting an image into a view never enlarges it.
pub proof fn fitting_never_enlarges(
    view_width: int,
    view_height: int,
    image_width: int,
    image_height: int,
)
    ensures
        at_most(fit_zoom(view_width, view_height, image_width, image_height), whole(1)),
{
    lemma_whole_exact(1);
}

/// An image keeps its natural size exactly where it fits into the view; else it is shrunk.
pub proof fn natural_size_where_it_fits(
    view_width: int,
    view_height: int,
    image_width: int,
    image_height: int,
)
    requires
        0 < view_width <= i32::MAX,
        0 < view_height <= i32::MAX,
        0 < image_width <= i32::MAX,
        0 < image_height <= i32::MAX,
    ensures
        ({
            let zoom = fit_zoom(view_width, view_height, image_width, image_height);
            let fits = image_width <= view_width && image_height <= view_height;
            &&& fits ==> zoom == whole(1)
            &&& !fits ==> less(zoom, whole(1))
            &&& less(whole(0), zoom)
        }),
{
    lemma_extent_ratio(view_width, image_width);
    lemma_extent_ratio(view_height, image_height);
    lemma_whole_exact(1);
    lemma_whole_exact(0);
    lemma_pow2_pos(1074);
    lemma_mul_basics(one() as int);
}

/// One side of a fitted image.
pub proof fn lemma_fitted_side(view: int, image: int, zoom: Number)
    requires
        0 < view <= i32::MAX,
        0 < image <= i32::MAX,
        zoom is Finite,
        !zoom.negative(),
        at_most(zoom, whole(view).over(whole(image))),
    ensures
        inside(whole(image).times(zoom), whole(view)),
        zoom == whole(view).over(whole(image)) ==> near(whole(image).times(zoom), whole(view)),
{
    lemma_whole_exact(view);
    lemma_whole_exact(image);
    lemma_extent_ratio(view, image);
    lemma_pow2_pos(1074);
    lemma2_to64();
    lemma2_to64_rest();
    lemma_pow2_mono(90, 1074);
    lemma_pow2_adds(31, 1074);
    lemma_pow2_strictly_increases(1105, 2090);
    let u = one();
    let space = view as nat * u;
    assert(u <= space <= 0x8000_0000 * u) by (nonlinear_arith)
        requires
            space == view as nat * u,
            1 <= view <= 0x8000_0000,
    ;
    lemma_fitted_extent(space, image as nat, zoom->units);
}

/// Whether a length stays inside another one, but for one part in 2^51 of that.
pub open spec fn inside(a: Number, b: Number) -> bool {
    &&& a is Finite
    &&& b is Finite
    &&& 0x8_0000_0000_0000 * a.signed() <= 0x8_0000_0000_0000 * b.signed() + b.signed()
}

/// A fitted image stays inside the view, but for rounding. Where it is shrunk, it fills the view
/// along one of its edges.
pub proof fn fitted_image_fills_the_view(
    view_width: int,
    view_height: int,
    image_width: int,
    image_height: int,
)
    requires
        0 < view_width <= i32::MAX,
        0 < view_height <= i32::MAX,
        0 < image_width <= i32::MAX,
        0 < image_height <= i32::MAX,
    ensures
        ({
            let zoom = fit_zoom(view_width, view_height, image_width, image_height);
            let width = whole(image_width).times(zoom);
            let height = whole(image_height).times(zoom);
            &&& inside(width, whole(view_width))
            &&& inside(height, whole(view_height))
            &&& less(zoom, whole(1)) ==> near(width, whole(view_width)) || near(
                height,
                whole(view_height),
            )
        }),
{
    lemma_extent_ratio(view_width, image_width);
    lemma_extent_ratio(view_height, image_height);
    lemma_whole_exact(1);
    let zoom = fit_zoom(view_width, view_height, image_width, image_height);
    lemma_fitted_side(view_width, image_width, zoom);
    lemma_fitted_side(view_height, image_height, zoom);
}

/// The zoom levels are positive, and none exceeds the last one.
proof fn lemma_level(i: int)
    requires
        0 <= i < 22,
    ensures
        zoom_level(i) is Finite,
        !zoom_level(i).negative(),
        zoom_level(i).signed() >= pow2(1071),
        at_most(zoom_level(i), whole(32)),
        zoom_level(21) == whole(32),
{
    let v = ZOOM_LEVELS@[i] as nat;
    assert(125 <= v <= 32000);
    let u = one();
    lemma_pow2_pos(1074);
    lemma_pow2_adds(3, 1071);
    lemma2_to64();
    lemma_whole_exact(32);
    lemma_rounded_exact(32, 1074);
    lemma_rounded_exact(1, 1071);
    let p = pow2(1071);
    lemma_mul_basics(p as int);
    assert(u == 8 * p);
    assert(v * u * 1 <= (32 * u) * 1000) by (nonlinear_arith)
        requires
            v <= 32000,
    ;
    assert((1 * p) * 1000 <= v * u * 1) by (nonlinear_arith)
        requires
            v >= 125,
            u == 8 * p,
    ;
    lemma_quotients_ordered(v * u, 1000, 32 * u, 1);
    lemma_quotients_ordered(1 * p, 1, v * u, 1000);
    assert(ZOOM_LEVELS@[21] == 32000);
    assert(32000 * u * 1 == (32 * u) * 1000) by (nonlinear_arith);
    lemma_rounded_ratio(53, 0, 32000 * u, 1000, 32 * u, 1);
}

proof fn lemma_epsilon()
    ensures
        epsilon() is Finite,
        !epsilon().negative(),
        epsilon().signed() > 0,
{
    let u = one();
    let d = 0x10_0000_0000_0000nat;
    lemma_pow2_pos(1074);
    lemma2_to64();
    lemma2_to64_rest();
    lemma_pow2_mono(52, 1074);
    lemma_whole_exact(1);
    lemma_rounded_exact(1, 1074);
    lemma_rounded_exact(1, 0);
    lemma_mul_basics(u as int);
    assert(1 * u * 1 <= (1 * u) * d) by (nonlinear_arith)
        requires
            d >= 1,
    ;
    assert(1 * d <= 1 * u * 1);
    lemma_quotients_ordered(1 * u, d, 1 * u, 1);
    lemma_quotients_ordered(1, 1, 1 * u, d);
}

/// Zooming in goes up, one level at a time, until the last level is reached.
pub proof fn zooming_in_goes_up(current: Binary64)
    requires
        at_most(current@, whole(32)),
    ensures
        at_most(current@, next_level(current@)),
        less(current@, next_level(current@)) || next_level(current@) == whole(32),
{
    lemma_whole_exact(32);
    lemma_level(0);
    lemma_epsilon();
    if current@ is Finite {
        lemma_plus_grows(current, epsilon());
    }
    if exists|i: int| is_next_level(i, current@) {
        let i = choose|i: int| is_next_level(i, current@);
        lemma_level(i);
        lemma_less_after(current@, current@.plus(epsilon()), zoom_level(i));
    }
}

/// Zooming out goes down, and never below the fitting zoom.
pub proof fn zooming_out_goes_down(current: Binary64, fit: Number)
    ensures
        previous_level(current@, fit) matches Some(level) ==> less(level, current@) && less(
            fit,
            level,
        ),
{
    lemma_epsilon();
    if exists|i: int| is_previous_level(i, current@) {
        let i = choose|i: int| is_previous_level(i, current@);
        lemma_level(i);
        if current@ is Finite {
            lemma_plus_grows(current, epsilon());
            lemma_less_after(zoom_level(i), current@.minus(epsilon()), current@);
        }
    }
}

/// Zooming in from the fitted image zooms it.
pub proof fn zooming_in_zooms(state: CanvasState, view_width: int, view_height: int)
    requires
        state.texture is Some,
        state.decoded_scale is Finite,
        0 < state.decoded_scale.signed() <= 0x8000_0000 * one(),
    ensures
        state.zoomed_in(view_width, view_height).zoomed(),
{
    let current = if at_most(state.zoom, whole(0)) {
        state.source_fit(view_width, view_height)
    } else {
        state.source_zoom()
    };
    let i = if exists|i: int| is_next_level(i, current) {
        choose|i: int| is_next_level(i, current)
    } else {
        21
    };
    assert(next_level(current) == zoom_level(i));
    lemma_level(i);
    let l = zoom_level(i)->units;
    let s = state.decoded_scale->units;
    let u = one();
    let p = pow2(1071);
    lemma_whole_exact(0);
    lemma_mul_basics(u as int);
    lemma_one_exceeds(0);
    lemma_pow2_mono(31, 1071);
    lemma2_to64();
    assert(1 * s <= l * u * 1) by (nonlinear_arith)
        requires
            s <= 0x8000_0000 * u,
            l >= p,
            p >= 0x8000_0000,
    ;
    lemma_rounded_exact(1, 0);
    lemma_quotients_ordered(1, 1, l * u, s);
}

/// Zooming out of the fitted image leaves it fitted.
pub proof fn fitted_image_stays_fitted(state: CanvasState)
    requires
        state.zoom == whole(0),
        state.decoded_scale is Finite,
        !state.decoded_scale.negative(),
    ensures
        state.zoomed_out() == state,
{
    lemma_whole_exact(0);
    lemma_mul_basics(one() as int);
    lemma_pow2_pos(1074);
    let s = state.decoded_scale->units;
    lemma_mul_basics(s as int);
    lemma_rounded_zero(53, 0, one());
    lemma_pow2_pos(2098);
    assert(state.source_zoom() == (Number::Finite { negative: false, units: 0 }));
    lemma_epsilon();
    let bar = state.source_zoom().minus(epsilon());
    assert(bar.negative());
    assert forall|i: int| !is_previous_level(i, state.source_zoom()) by {
        if 0 <= i < 22 {
            lemma_level(i);
            lemma_pow2_pos(1071);
        }
    }
}

/// A new image, and one that is fitted, is not zoomed.
pub proof fn new_image_is_fitted(
    state: CanvasState,
    texture: TextureSize,
    source_width: int,
    source_height: int,
)
    ensures
        !state.showing(texture, source_width, source_height).zoomed(),
        !state.fitted().zoomed(),
{
    lemma_whole_exact(0);
}

/// Exactly enlarged pixels are kept crisp; what is fitted or reduced is smoothed.
pub proof fn enlarged_pixels_are_crisp(
    state: CanvasState,
    texture: TextureSize,
    view_width: int,
    view_height: int,
    drawing: Drawing,
)
    requires
        state.draws(texture, view_width, view_height, drawing),
    ensures
        drawing.filter is Nearest <==> less(
            whole(1),
            state.texture_zoom(texture, view_width, view_height),
        ),
{
    fitting_never_enlarges(view_width, view_height, texture.width as int, texture.height as int);
    lemma_whole_exact(0);
    lemma_whole_exact(1);
    lemma_pow2_pos(1074);
    lemma_mul_basics(one() as int);
}

impl CanvasState {
    /// Whether the canvas shows a texture of a source, both with positive widths.
    pub open spec fn sized(self) -> bool {
        self.texture matches Some(texture) && {
            &&& texture.width > 0
            &&& 0 < self.source_width <= i32::MAX
            &&& self.decoded_scale == whole(texture.width as int).over(whole(self.source_width))
        }
    }
}

/// A canvas that shows a texture keeps its scale, however it is zoomed.
pub proof fn zooming_keeps_the_size(
    state: CanvasState,
    texture: TextureSize,
    source_width: int,
    source_height: int,
    view_width: int,
    view_height: int,
)
    requires
        texture.width > 0,
        0 < source_width <= i32::MAX,
    ensures
        state.showing(texture, source_width, source_height).sized(),
        state.sized() ==> state.zoomed_in(view_width, view_height).sized(),
        state.sized() ==> state.zoomed_out().sized(),
        state.sized() ==> state.fitted().sized(),
{
}

/// Whether two numbers are the same but for one part in 2^51 of the second one.
pub open spec fn near(a: Number, b: Number) -> bool {
    &&& a is Finite
    &&& b is Finite
    &&& 0x8_0000_0000_0000 * a.signed() <= 0x8_0000_0000_0000 * b.signed() + b.signed()
    &&& 0x8_0000_0000_0000 * b.signed() <= 0x8_0000_0000_0000 * a.signed() + b.signed()
}

/// The scale of a decoded image lies within the range of the quotients of two extents.
proof fn lemma_scale_bounds(a: int, b: int)
    requires
        0 < a <= i32::MAX,
        0 < b <= i32::MAX,
    ensures
        ({
            let r = whole(a).over(whole(b));
            &&& r is Finite
            &&& !r.negative()
            &&& pow2(1043) <= r.signed() <= pow2(1105)
        }),
{
    lemma_extent_ratio(a, b);
    lemma_whole_exact(a);
    lemma_whole_exact(b);
    lemma_pow2_pos(1074);
    lemma_pow2_adds(31, 1043);
    lemma_pow2_adds(31, 1074);
    lemma2_to64();
    lemma2_to64_rest();
    let u = one();
    let n = (a as nat * u) * u;
    let d = b as nat * u;
    let low = pow2(1043);
    let high = pow2(1105);
    lemma_mul_basics(low as int);
    lemma_mul_basics(high as int);
    lemma_rounded_exact(1, 1043);
    lemma_rounded_exact(1, 1105);
    let x = a as nat;
    let y = b as nat;
    assert(d > 0) by (nonlinear_arith)
        requires
            d == y * u,
            y > 0,
            u > 0,
    ;
    assert(low * d <= n * 1) by (nonlinear_arith)
        requires
            n == (x * u) * u,
            d == y * u,
            u == 0x8000_0000 * low,
            x >= 1,
            y <= 0x8000_0000,
    {
        assert(low * y <= u);
        assert(low * d == (low * y) * u);
        assert((low * y) * u <= u * u);
        assert(u * u <= (x * u) * u);
    }
    assert(n * 1 <= high * d) by (nonlinear_arith)
        requires
            n == (x * u) * u,
            d == y * u,
            high == 0x8000_0000 * u,
            x <= 0x8000_0000,
            y >= 1,
    {
        assert(x * u <= high);
        assert(n <= high * u);
        assert(u <= d);
        assert(high * u <= high * d);
    }
    lemma_quotients_ordered(low, 1, n, d);
    lemma_quotients_ordered(n, d, high, 1);
}

/// What the shown zoom becomes when a level is chosen.
proof fn lemma_level_shown(level: nat, scale: nat)
    requires
        pow2(1071) <= level <= pow2(1079),
        pow2(1043) <= scale <= pow2(1105),
    ensures
        ({
            let e = 0x20_0000_0000_0000int;
            let zoom = rounded_units(53, 0, level * one(), scale);
            let shown = rounded_units(53, 0, zoom * scale, one());
            &&& 0 < zoom < pow2(2098)
            &&& 0 < shown < pow2(2098)
            &&& e * e * shown <= (e + 1) * (e + 1) * level
            &&& 0x8_0000_0000_0000 * shown <= 0x8_0000_0000_0000 * level + level
            &&& 0x8_0000_0000_0000 * level <= 0x8_0000_0000_0000 * shown + level
        }),
{
    let u = one();
    lemma2_to64();
    lemma2_to64_rest();
    lemma_pow2_pos(1043);
    lemma_pow2_pos(1074);
    lemma_pow2_mono(54, 1071);
    lemma_pow2_mono(53, 1071);
    lemma_pow2_adds(53, 1105);
    lemma_pow2_adds(1071, 1074);
    lemma_pow2_mono(1158, 2145);
    let n = level * u;
    assert(n >= pow2(1071) * u) by (nonlinear_arith)
        requires
            n == level * u,
            level >= pow2(1071),
    ;
    assert(n >= scale * 0x20_0000_0000_0000) by (nonlinear_arith)
        requires
            n >= pow2(2145),
            pow2(2145) >= 0x20_0000_0000_0000 * pow2(1105),
            scale <= pow2(1105),
    ;
    lemma_divided_back(level, scale);
    let zoom = rounded_units(53, 0, n, scale);
    let shown = rounded_units(53, 0, zoom * scale, u);
    lemma_rounded_exact(1, 0);
    lemma_quotients_ordered(1, 1, n, scale);
    let top = pow2(1110);
    lemma_rounded_exact(1, 1110);
    lemma_mul_basics(top as int);
    lemma_pow2_adds(1079, 1074);
    lemma_pow2_adds(1110, 1043);
    assert(n * 1 <= top * scale) by (nonlinear_arith)
        requires
            n == level * u,
            level <= pow2(1079),
            pow2(1079) * u == pow2(2153),
            top * pow2(1043) == pow2(2153),
            scale >= pow2(1043),
    ;
    lemma_quotients_ordered(n, scale, top, 1);
    lemma_pow2_strictly_increases(1110, 2098);
    lemma_pow2_pos(1071);
    lemma_pow2_adds(1, 1079);
    lemma_pow2_strictly_increases(1080, 2098);
}

/// After zooming in, the zoom that is shown is the next level above the one that was shown before,
/// but for rounding, whether the image was fitted or at a level, and whatever the scale of its
/// texture.
pub proof fn zooming_in_shows_the_next_level(state: CanvasState, view_width: int, view_height: int)
    requires
        state.sized(),
        state.zoom !is Nan,
    ensures
        ({
            let after = state.zoomed_in(view_width, view_height);
            &&& after.zoomed()
            &&& after.shown_zoom(view_width, view_height) is Some
            &&& near(
                after.shown_zoom(view_width, view_height)->0,
                next_level(state.shown_zoom(view_width, view_height)->0),
            )
        }),
{
    let texture = state.texture->0;
    lemma_scale_bounds(texture.width as int, state.source_width);
    lemma_pow2_pos(1043);
    lemma_whole_exact(0);
    lemma_mul_basics(one() as int);
    lemma_pow2_adds(31, 1074);
    lemma2_to64();
    lemma2_to64_rest();
    zooming_in_zooms(state, view_width, view_height);
    let before = state.shown_zoom(view_width, view_height)->0;
    let i = lemma_next_level(before);
    let level = zoom_level(i)->units;
    let scale = state.decoded_scale->units;
    lemma_level_shown(level, scale);
}

/// The next level is one of the table.
proof fn lemma_next_level(current: Number) -> (i: int)
    ensures
        0 <= i < 22,
        next_level(current) == zoom_level(i),
        zoom_level(i) is Finite,
        !zoom_level(i).negative(),
        pow2(1071) <= zoom_level(i).signed() <= pow2(1079),
{
    let i = if exists|i: int| is_next_level(i, current) {
        choose|i: int| is_next_level(i, current)
    } else {
        21
    };
    lemma_level(i);
    lemma_whole_exact(32);
    lemma_pow2_adds(5, 1074);
    lemma2_to64();
    i
}

proof fn lemma_epsilon_value()
    ensures
        epsilon() == (Number::Finite { negative: false, units: pow2(1022) }),
        one() == 0x10_0000_0000_0000 * pow2(1022),
{
    let u = one();
    let d = 0x10_0000_0000_0000nat;
    let p = pow2(1022);
    lemma_pow2_pos(1022);
    lemma_pow2_adds(52, 1022);
    lemma2_to64_rest();
    lemma_mul_basics(p as int);
    lemma_mul_basics(u as int);
    lemma_rounded_exact(1, 1022);
    assert((1 * u) * 1 == p * d);
    lemma_rounded_ratio(53, 0, 1 * u, d, p, 1);
    lemma_pow2_strictly_increases(1022, 2098);
}

/// A quotient of extents that is at most one is not close below a level.
proof fn lemma_fit_apart(a: int, b: int, i: int)
    requires
        0 < a <= b <= i32::MAX,
        0 <= i < 22,
    ensures
        ({
            let fit = whole(a).over(whole(b));
            at_most(zoom_level(i), fit) || less(fit.plus(epsilon()), zoom_level(i))
        }),
{
    let u = one();
    let p = pow2(1022);
    let v = a as nat;
    let w = b as nat;
    let k = ZOOM_LEVELS@[i] as nat;
    lemma_extent_ratio(a, b);
    lemma_whole_exact(a);
    lemma_whole_exact(b);
    lemma_level(i);
    lemma_epsilon_value();
    lemma_pow2_pos(1022);
    lemma_pow2_pos(1074);
    lemma_pow2_adds(1, 1074);
    lemma2_to64();
    let n = (v * u) * u;
    let d = w * u;
    assert(d > 0) by (nonlinear_arith)
        requires
            d == w * u,
            w > 0,
            u > 0,
    ;
    assert(n * w == (v * u) * d) by (nonlinear_arith)
        requires
            n == (v * u) * u,
            d == w * u,
    ;
    lemma_rounded_ratio(53, 0, n, d, v * u, w);
    let x = rounded_units(53, 0, v * u, w);
    let fit = whole(a).over(whole(b));
    assert(fit == (Number::Finite { negative: false, units: x }));
    let level = rounded_units(53, 0, k * u, 1000);
    if v * 1000 >= k * w {
        assert((k * u) * w <= (v * u) * 1000) by (nonlinear_arith)
            requires
                v * 1000 >= k * w,
        ;
        lemma_quotients_ordered(k * u, 1000, v * u, w);
    } else {
        // The quotient is at most one.
        assert(v * u < w * (2 * u)) by (nonlinear_arith)
            requires
                v <= w,
                w > 0,
                u > 0,
        ;
        lemma_absolute_error(v * u, w);
        lemma_rounded_exact(1, 1074);
        lemma_mul_basics(u as int);
        assert((v * u) * 1 <= u * w) by (nonlinear_arith)
            requires
                v <= w,
        ;
        lemma_quotients_ordered(v * u, w, u, 1);
        assert(x <= u);
        let total = x + p;
        lemma_absolute_error(total, 1);
        let bar = rounded_units(53, 0, total, 1);
        lemma_mul_basics(bar as int);
        lemma_mul_basics(pow2(1075) as int);
        assert(2 * bar <= 2 * x + 3 * p);
        assert(bar < pow2(2098)) by {
            lemma_pow2_mono(1075, 2098);
        }
        assert(fit.plus(epsilon()) == (Number::Finite { negative: false, units: bar }));
        if k >= 1250 {
            let quarter = pow2(1072);
            lemma_pow2_adds(2, 1072);
            lemma_rounded_exact(5, 1072);
            assert((5 * quarter) * 1000 <= (k * u) * 1) by (nonlinear_arith)
                requires
                    k >= 1250,
                    u == 4 * quarter,
            ;
            lemma_quotients_ordered(5 * quarter, 1, k * u, 1000);
            assert(bar < level);
        } else {
            assert(k <= 1000);
            assert(k * u < 1000 * (2 * u)) by (nonlinear_arith)
                requires
                    k <= 1000,
                    u > 0,
            ;
            lemma_absolute_error(k * u, 1000);
            lemma_levels_apart_units(v, w, k, x, bar, level, u, p);
        }
    }
}

/// The arithmetic of the distance between a quotient and a level.
proof fn lemma_levels_apart_units(
    v: nat,
    w: nat,
    k: nat,
    x: nat,
    bar: nat,
    level: nat,
    u: nat,
    p: nat,
)
    requires
        0 < w < 0x8000_0000,
        v * 1000 < k * w,
        2 * (x * w) <= 2 * (v * u) + w * p,
        2 * bar <= 2 * x + 3 * p,
        2 * (k * u) <= 2 * (level * 1000) + 1000 * p,
        u == 0x10_0000_0000_0000 * p,
        p > 0,
    ensures
        bar < level,
{
    // Both sides times 2000 * w.
    assert(2 * (bar * w) <= 2 * (x * w) + 3 * (w * p)) by (nonlinear_arith)
        requires
            2 * bar <= 2 * x + 3 * p,
    ;
    assert(2 * ((k * w) * u) <= 2000 * (level * w) + 1000 * (w * p)) by (nonlinear_arith)
        requires
            2 * (k * u) <= 2 * (level * 1000) + 1000 * p,
    ;
    assert((k * w) * u >= 1000 * (v * u) + u) by (nonlinear_arith)
        requires
            k * w >= v * 1000 + 1,
    ;
    assert(w * p * 4000 < u) by (nonlinear_arith)
        requires
            w < 0x8000_0000,
            u == 0x10_0000_0000_0000 * p,
            p > 0,
    ;
    assert(2000 * (bar * w) < 2000 * (level * w));
    assert(bar < level) by (nonlinear_arith)
        requires
            bar * w < level * w,
            w > 0,
    ;
}

/// The zoom that is shown at a level that is next above a fitting zoom is not above that level by
/// more than the tolerance.
proof fn lemma_shown_level_bar(i: int, shown: nat)
    requires
        0 <= i <= 8,
        0 < shown < pow2(2098),
        ({
            let e = 0x20_0000_0000_0000int;
            e * e * shown <= (e + 1) * (e + 1) * (zoom_level(i)->units)
        }),
        zoom_level(i)->units + zoom_level(i)->units >= shown,
    ensures
        !less(
            zoom_level(i),
            (Number::Finite { negative: false, units: shown }).minus(epsilon()),
        ),
{
    let u = one();
    let p = pow2(1022);
    let k = ZOOM_LEVELS@[i] as nat;
    let level = zoom_level(i)->units;
    let e = 0x20_0000_0000_0000int;
    lemma_level(i);
    lemma_epsilon_value();
    lemma_pow2_pos(1022);
    lemma_pow2_pos(1074);
    lemma2_to64();
    lemma2_to64_rest();
    lemma_rounded_again(k * u, 1000);
    let above = shown - level;
    // How far the shown zoom can be above the level.
    assert(e * (e * above) <= 2 * (e * level) + level) by (nonlinear_arith)
        requires
            above == shown - level,
            e * e * shown <= (e + 1) * (e + 1) * level,
    ;
    let y = shown - p;
    let quarter = pow2(1072);
    lemma_pow2_adds(2, 1072);
    lemma_pow2_adds(50, 1022);
    if y > level {
        if k <= 750 {
            lemma_rounded_exact(3, 1072);
            assert((k * u) * 1 <= (3 * quarter) * 1000) by (nonlinear_arith)
                requires
                    k <= 750,
                    u == 4 * quarter,
            ;
            lemma_quotients_ordered(k * u, 1000, 3 * quarter, 1);
            assert(level <= 3 * quarter);
            // Then it is not above by the tolerance.
            lemma_above_small(above, level as int, p as int, 0xc_0000_0000_0000);
            assert(false);
        } else {
            // The level is a multiple of the tolerance, and the nearest one.
            let c: nat = if k == 1000 {
                0x10_0000_0000_0000
            } else {
                0x14_0000_0000_0000
            };
            assert(k == 1000 || k == 1250) by {
                assert(ZOOM_LEVELS@[7] == 1000 && ZOOM_LEVELS@[8] == 1250);
            }
            lemma_rounded_exact(c, 1022);
            assert((k * u) * 1 == (c * p) * 1000) by (nonlinear_arith)
                requires
                    u == 0x10_0000_0000_0000 * p,
                    (k == 1000 && c == 0x10_0000_0000_0000) || (k == 1250 && c
                        == 0x14_0000_0000_0000),
            ;
            lemma_rounded_ratio(53, 0, k * u, 1000, c * p, 1);
            assert(level == c * p);
            lemma_above_small(above, level as int, p as int, c as int);
            let rest = (y - level) as nat;
            assert(2 * rest < p);
            lemma_nearest_level(y as nat, c, rest);
        }
    } else if y > 0 {
        lemma_mul_basics(level as int);
        lemma_rounded_ordered(53, 0, y as nat, 1, level, 1);
    }
}

/// An excess of two parts in 2^53 of a number of up to 5/4 is less than 3/2 of 2^-52, and not more
/// than 2^-52 for a number of up to 3/4.
proof fn lemma_above_small(above: int, level: int, p: int, c: int)
    requires
        p > 0,
        0 < level <= c * p,
        0 < c <= 0x14_0000_0000_0000,
        ({
            let e = 0x20_0000_0000_0000int;
            e * (e * above) <= 2 * (e * level) + level
        }),
    ensures
        2 * above < 3 * p,
        c <= 0xc_0000_0000_0000 ==> above <= p,
{
    let e = 0x20_0000_0000_0000int;
    let most = 0x14_0000_0000_0000int;
    assert(c * p <= most * p) by (nonlinear_arith)
        requires
            c <= most,
            p > 0,
    ;
    assert(e * (2 * level + p) == 2 * (e * level) + e * p) by (nonlinear_arith);
    assert(e * above <= 2 * level + p) by (nonlinear_arith)
        requires
            e * (e * above) <= e * (2 * level + p),
            e > 0,
    ;
    if c <= 0xc_0000_0000_0000 {
        assert(c * p <= 0xc_0000_0000_0000 * p) by (nonlinear_arith)
            requires
                c <= 0xc_0000_0000_0000,
                p > 0,
        ;
    }
}

/// A number that is less than half of 2^-52 above a multiple of it, between one and two, is
/// rounded to that multiple.
proof fn lemma_nearest_level(y: nat, c: nat, rest: nat)
    requires
        0x10_0000_0000_0000 <= c < 0x1f_ffff_ffff_ffff,
        y == c * pow2(1022) + rest,
        2 * rest < pow2(1022),
    ensures
        rounded_units(53, 0, y, 1) == c * pow2(1022),
{
    let p = pow2(1022);
    lemma_pow2_pos(1022);
    lemma_pow2_adds(52, 1022);
    lemma_pow2_adds(53, 1022);
    lemma2_to64_rest();
    assert(c * p >= 0x10_0000_0000_0000 * p) by (nonlinear_arith)
        requires
            c >= 0x10_0000_0000_0000,
    ;
    assert(c * p + p <= 0x20_0000_0000_0000 * p) by (nonlinear_arith)
        requires
            c + 1 <= 0x20_0000_0000_0000,
    ;
    lemma_bit_length_unique(y, 1075);
    lemma_nearest_by_parts(y, p, c, rest);
    lemma_mul_basics(p as int);
}

/// A fitting zoom is not close below a level.
proof fn lemma_fit_apart_all(
    view_width: int,
    view_height: int,
    image_width: int,
    image_height: int,
    i: int,
)
    requires
        0 < view_width <= i32::MAX,
        0 < view_height <= i32::MAX,
        0 < image_width <= i32::MAX,
        0 < image_height <= i32::MAX,
        0 <= i < 22,
    ensures
        ({
            let fit = fit_zoom(view_width, view_height, image_width, image_height);
            at_most(zoom_level(i), fit) || less(fit.plus(epsilon()), zoom_level(i))
        }),
{
    let fit = fit_zoom(view_width, view_height, image_width, image_height);
    lemma_extent_ratio(view_width, image_width);
    lemma_extent_ratio(view_height, image_height);
    lemma_whole_exact(1);
    lemma_pow2_pos(1074);
    lemma_mul_basics(one() as int);
    lemma_extent_ratio(1, 1);
    if view_width < image_width && fit == whole(view_width).over(whole(image_width)) {
        lemma_fit_apart(view_width, image_width, i);
    } else if view_height < image_height && fit == whole(view_height).over(whole(image_height)) {
        lemma_fit_apart(view_height, image_height, i);
    } else {
        assert(fit == whole(1)) by {
            natural_size_where_it_fits(view_width, view_height, image_width, image_height);
        }
        lemma_unit_ratio();
        lemma_fit_apart(1, 1, i);
    }
}

proof fn lemma_unit_ratio()
    ensures
        whole(1).over(whole(1)) == whole(1),
{
    let u = one();
    lemma_whole_exact(1);
    lemma_pow2_pos(1074);
    lemma_mul_basics(u as int);
    lemma_rounded_exact(1, 1074);
    lemma_rounded_ratio(53, 0, u * u, u, u, 1);
}

/// The levels of the table rise.
proof fn lemma_levels_rise(i: int, j: int)
    requires
        0 <= i <= j < 22,
    ensures
        at_most(zoom_level(i), zoom_level(j)),
{
    let a = ZOOM_LEVELS@[i] as nat;
    let b = ZOOM_LEVELS@[j] as nat;
    assert(a <= b);
    let u = one();
    assert((a * u) * 1000 <= (b * u) * 1000) by (nonlinear_arith)
        requires
            a <= b,
    ;
    lemma_quotients_ordered(a * u, 1000, b * u, 1000);
}

/// Zooming out undoes the first step of zooming in: the image is fitted again, at the same zoom.
pub proof fn zooming_out_undoes_zooming_in(state: CanvasState, view_width: int, view_height: int)
    requires
        state.sized(),
        state.zoom !is Nan,
        !state.zoomed(),
        0 < view_width <= i32::MAX,
        0 < view_height <= i32::MAX,
        0 < state.source_height <= i32::MAX,
    ensures
        ({
            let after = state.zoomed_in(view_width, view_height).zoomed_out();
            &&& after.zoom == whole(0)
            &&& !after.zoomed()
            &&& after.shown_zoom(view_width, view_height) == state.shown_zoom(
                view_width,
                view_height,
            )
        }),
{
    let fit = state.source_fit(view_width, view_height);
    let texture = state.texture->0;
    lemma_whole_exact(0);
    lemma_whole_exact(1);
    lemma_mul_basics(one() as int);
    lemma_pow2_pos(1074);
    lemma_pow2_pos(1043);
    lemma_scale_bounds(texture.width as int, state.source_width);
    natural_size_where_it_fits(view_width, view_height, state.source_width, state.source_height);
    // The level that is chosen is not above 1.25.
    lemma_fit_apart_all(view_width, view_height, state.source_width, state.source_height, 8);
    assert(ZOOM_LEVELS@[8] == 1250);
    lemma_level_eight();
    fitting_never_enlarges(view_width, view_height, state.source_width, state.source_height);
    lemma_less_after(zoom_level(8), fit, whole(1));
    assert(less(fit.plus(epsilon()), zoom_level(8)));
    let i = lemma_first_level(fit, 8);
    assert(next_level(fit) == zoom_level(i));
    lemma_level(i);
    let level = zoom_level(i)->units;
    let scale = state.decoded_scale->units;
    lemma_pow2_adds(5, 1074);
    lemma2_to64();
    lemma_whole_exact(32);
    lemma_level_shown(level, scale);
    let inside = state.zoomed_in(view_width, view_height);
    let zoom = rounded_units(53, 0, level * one(), scale);
    let shown = rounded_units(53, 0, zoom * scale, one());
    assert(inside.zoom == (Number::Finite { negative: false, units: zoom }));
    assert(inside.source_zoom() == (Number::Finite { negative: false, units: shown }));
    lemma_shown_level_bar(i, shown);
    let current = inside.source_zoom();
    assert(inside.fit_zoom == fit);
    if exists|p: int| is_previous_level(p, current) {
        let p = choose|p: int| is_previous_level(p, current);
        if p >= i {
            lemma_levels_rise(i, p);
            lemma_less_after(zoom_level(i), zoom_level(p), current.minus(epsilon()));
        } else {
            lemma_fit_apart_all(
                view_width,
                view_height,
                state.source_width,
                state.source_height,
                p,
            );
            assert(!less(fit, zoom_level(p)));
        }
    }
}

proof fn lemma_level_eight()
    ensures
        less(whole(1), zoom_level(8)),
{
    let u = one();
    let quarter = pow2(1072);
    lemma_level(8);
    lemma_whole_exact(1);
    lemma_pow2_pos(1072);
    lemma_pow2_adds(2, 1072);
    lemma2_to64();
    lemma_rounded_exact(5, 1072);
    lemma_mul_basics(u as int);
    assert(ZOOM_LEVELS@[8] == 1250);
    assert((5 * quarter) * 1000 <= 1250 * u * 1);
    lemma_quotients_ordered(5 * quarter, 1, 1250 * u, 1000);
}

/// Where a level is above the tolerance, the next level is at most that one, and lower levels are
/// not above the tolerance.
proof fn lemma_first_level(current: Number, most: int) -> (i: int)
    requires
        0 <= most < 22,
        less(current.plus(epsilon()), zoom_level(most)),
    ensures
        0 <= i <= most,
        is_next_level(i, current),
        next_level(current) == zoom_level(i),
    decreases most,
{
    if exists|j: int| 0 <= j < most && less(current.plus(epsilon()), #[trigger] zoom_level(j)) {
        let j = choose|j: int|
            0 <= j < most && less(current.plus(epsilon()), #[trigger] zoom_level(j));
        lemma_first_level(current, j)
    } else {
        assert(is_next_level(most, current));
        let k = choose|k: int| is_next_level(k, current);
        assert(is_next_level(k, current));
        if k < most {
            assert(!less(current.plus(epsilon()), zoom_level(k)));
        } else if most < k {
            assert(!less(current.plus(epsilon()), zoom_level(most)));
        }
        most
    }
}

/// Zooming in skips no level: the result is a level of the table, above the current zoom by more
/// than 2^-52 where there is such a level, and no such level is lower. Where there is none, it is
/// the largest level.
pub proof fn zooming_in_skips_no_level(current: Number, i: int)
    requires
        0 <= i < 22,
    ensures
        ({
            let next = next_level(current);
            let bar = current.plus(fraction(1, 0x10_0000_0000_0000));
            &&& is_level(next)
            &&& less(bar, zoom_level(i)) ==> less(bar, next) && at_most(next, zoom_level(i))
            &&& less(bar, next) || next == whole(32)
        }),
{
    let bar = current.plus(fraction(1, 0x10_0000_0000_0000));
    lemma_level(0);
    lemma_level(i);
    assert(is_level(zoom_level(21)));
    if less(bar, zoom_level(i)) {
        let k = lemma_first_level(current, i);
        assert(is_level(zoom_level(k)));
        lemma_levels_rise(k, i);
    } else if exists|k: int| is_next_level(k, current) {
        let k = choose|k: int| is_next_level(k, current);
        assert(is_level(zoom_level(k)));
    }
}

/// Whether a zoom is a level of the table.
pub open spec fn is_level(zoom: Number) -> bool {
    exists|i: int| 0 <= i < 22 && zoom == #[trigger] zoom_level(i)
}

/// Zooming out skips no level: where a level lies below the current zoom, by more than 2^-52, and
/// above the fitting zoom, the result is a level that is at least that one. Where none lies there,
/// there is no result, and the image is fitted again.
pub proof fn zooming_out_skips_no_level(current: Number, fit: Number, i: int)
    requires
        0 <= i < 22,
    ensures
        ({
            let bar = current.minus(fraction(1, 0x10_0000_0000_0000));
            &&& less(zoom_level(i), bar) && less(fit, zoom_level(i)) ==> (previous_level(
                current,
                fit,
            ) matches Some(level) && at_most(zoom_level(i), level))
            &&& previous_level(current, fit) matches Some(level) ==> is_level(level) && less(
                level,
                bar,
            ) && less(fit, level)
        }),
{
    let bar = current.minus(fraction(1, 0x10_0000_0000_0000));
    if less(zoom_level(i), bar) {
        let k = lemma_last_level(current, i);
        lemma_levels_rise(i, k);
        lemma_less_after(fit, zoom_level(i), zoom_level(k));
    }
    if exists|k: int| is_previous_level(k, current) {
        let k = choose|k: int| is_previous_level(k, current);
        assert(is_level(zoom_level(k)));
    }
}

/// Where a level is below the tolerance, the previous level is at least that one.
proof fn lemma_last_level(current: Number, least: int) -> (i: int)
    requires
        0 <= least < 22,
        less(zoom_level(least), current.minus(epsilon())),
    ensures
        least <= i < 22,
        is_previous_level(i, current),
        i == choose|k: int| is_previous_level(k, current),
    decreases 22 - least,
{
    if exists|j: int| least < j < 22 && less(#[trigger] zoom_level(j), current.minus(epsilon())) {
        let j = choose|j: int|
            least < j < 22 && less(#[trigger] zoom_level(j), current.minus(epsilon()));
        lemma_last_level(current, j)
    } else {
        assert(is_previous_level(least, current));
        let k = choose|k: int| is_previous_level(k, current);
        assert(is_previous_level(k, current));
        if k > least {
            assert(!less(zoom_level(k), current.minus(epsilon())));
        } else if k < least {
            assert(!less(zoom_level(least), current.minus(epsilon())));
        }
        least
    }
}

/// Zooming out of a zoomed image goes to the level below what is shown: where the `i`th level of
/// the table lies below that, by more than 2^-52, and above the fitting zoom, what is shown then is
/// the `j`th level, but for rounding, which also lies below what was shown, and not below the
/// `i`th one. The image stays zoomed.
pub proof fn zooming_out_shows_the_previous_level(
    state: CanvasState,
    view_width: int,
    view_height: int,
    i: int,
) -> (j: int)
    requires
        state.sized(),
        state.zoomed(),
        0 <= i < 22,
        less(
            zoom_level(i),
            state.shown_zoom(view_width, view_height)->0.minus(
                fraction(1, 0x10_0000_0000_0000),
            ),
        ),
        less(state.fit_zoom, zoom_level(i)),
    ensures
        i <= j < 22,
        less(
            zoom_level(j),
            state.shown_zoom(view_width, view_height)->0.minus(
                fraction(1, 0x10_0000_0000_0000),
            ),
        ),
        ({
            let after = state.zoomed_out();
            &&& after.zoomed()
            &&& after.shown_zoom(view_width, view_height) matches Some(shown) && near(
                shown,
                zoom_level(j),
            )
        }),
{
    let current = state.source_zoom();
    let k = lemma_last_level(current, i);
    lemma_levels_rise(i, k);
    lemma_less_after(state.fit_zoom, zoom_level(i), zoom_level(k));
    assert(previous_level(current, state.fit_zoom) == Some(zoom_level(k)));
    let texture = state.texture->0;
    lemma_scale_bounds(texture.width as int, state.source_width);
    lemma_pow2_pos(1043);
    lemma_whole_exact(0);
    lemma_whole_exact(32);
    lemma_mul_basics(one() as int);
    lemma_pow2_adds(5, 1074);
    lemma2_to64();
    lemma_level(k);
    lemma_level_shown(zoom_level(k)->units, state.decoded_scale->units);
    k
}

/// Zooming out fits the image into the view again where no level lies between the fitting zoom and
/// what is shown.
pub proof fn zooming_out_ends_at_the_fitting_zoom(
    state: CanvasState,
    view_width: int,
    view_height: int,
)
    requires
        state.texture is Some,
        state.zoomed(),
        forall|i: int|
            0 <= i < 22 ==> !(less(
                #[trigger] zoom_level(i),
                state.shown_zoom(view_width, view_height)->0.minus(
                    fraction(1, 0x10_0000_0000_0000),
                ),
            ) && less(state.fit_zoom, zoom_level(i))),
    ensures
        ({
            let after = state.zoomed_out();
            &&& !after.zoomed()
            &&& after.shown_zoom(view_width, view_height) == Some(
                fit_zoom(view_width, view_height, state.source_width, state.source_height),
            )
        }),
{
    lemma_whole_exact(0);
    let current = state.source_zoom();
    if exists|k: int| is_previous_level(k, current) {
        let k = choose|k: int| is_previous_level(k, current);
        assert(!less(state.fit_zoom, zoom_level(k)));
    }
}

/// Zooming changes neither the texture nor the size of its source, and the fitting zoom that is
/// kept for zooming out is taken where zooming begins, and only there.
pub proof fn zooming_keeps_the_image(state: CanvasState, view_width: int, view_height: int)
    ensures
        ({
            let inside = state.zoomed_in(view_width, view_height);
            let outside = state.zoomed_out();
            let fitted = state.fitted();
            &&& inside.texture == state.texture && outside.texture == state.texture
                && fitted.texture == state.texture
            &&& inside.source_width == state.source_width && outside.source_width
                == state.source_width && fitted.source_width == state.source_width
            &&& inside.source_height == state.source_height && outside.source_height
                == state.source_height && fitted.source_height == state.source_height
            &&& outside.fit_zoom == state.fit_zoom
            &&& state.zoomed() ==> inside.fit_zoom == state.fit_zoom
            &&& state.texture is Some && state.zoom == whole(0) ==> inside.fit_zoom == fit_zoom(
                view_width,
                view_height,
                state.source_width,
                state.source_height,
            )
            &&& !fitted.zoomed()
            &&& fitted.texture is Some ==> fitted.shown_zoom(view_width, view_height) == Some(
                fit_zoom(view_width, view_height, state.source_width, state.source_height),
            )
        }),
{
    lemma_whole_exact(0);
}

/// Whether two lengths are the same but for one part in 2^20 of the second one.
pub open spec fn roughly(a: int, b: int) -> bool {
    &&& 0x10_0000 * a <= 0x10_0000 * b + b
    &&& 0x10_0000 * b <= 0x10_0000 * a + b
}

/// One extent of a drawn image.
proof fn lemma_drawn_extent(extent: int, zoom: Number)
    requires
        0 < extent <= i32::MAX,
        zoom is Finite,
        pow2(974) <= zoom.signed() <= pow2(1134),
    ensures
        ({
            let r = scaled_extent(extent, zoom);
            &&& r is Finite
            &&& 0 <= r.signed() <= pow2(1168)
            &&& roughly(r.signed(), extent * zoom.signed())
        }),
{
    let u = one();
    let w = extent as nat;
    let z = zoom->units;
    let n = w * u;
    lemma_whole_exact(extent);
    lemma_pow2_pos(974);
    lemma_pow2_pos(1074);
    lemma2_to64();
    lemma2_to64_rest();
    lemma_pow2_adds(31, 1074);
    lemma_pow2_mono(948, 974);
    lemma_pow2_mono(974, 1074);
    assert(u <= n <= 0x8000_0000 * u) by (nonlinear_arith)
        requires
            n == w * u,
            1 <= w <= 0x8000_0000,
    ;
    lemma_mul_basics(pow2(948) as int);
    lemma_single_within(n, 1);
    lemma_single_within(z, 1);
    let a = rounded_units(24, 925, n, 1);
    let f = rounded_units(24, 925, z, 1);
    lemma_mul_basics(a as int);
    lemma_mul_basics(f as int);
    assert(u <= 2 * a && a <= 2 * n);
    assert(z <= 2 * f && f <= 2 * z);
    lemma_pow2_strictly_increases(1105, 1201);
    lemma_pow2_adds(1, 1134);
    lemma_pow2_strictly_increases(1135, 1202);
    lemma_pow2_adds(1, 1105);
    lemma_pow2_strictly_increases(1106, 1202);
    let m = a * f;
    lemma_pow2_adds(2, 948);
    lemma_pow2_mono(950, 974);
    assert(m >= u * pow2(948)) by (nonlinear_arith)
        requires
            m == a * f,
            u <= 2 * a,
            4 * pow2(948) <= 2 * f,
    ;
    lemma_single_within(m, u);
    let r = rounded_units(24, 925, m, u);
    // The product of the rounded factors.
    lemma_within_times(a as int, n as int, f as int, 0x4000_0000);
    lemma_within_times(f as int, z as int, n as int, 0x4000_0000);
    lemma_within_far_chain(m as int, (n * f) as int, (n * z) as int, 0x4000_0000, 0x4000_0000);
    lemma_within_far_chain(
        (r * u) as int,
        m as int,
        (n * z) as int,
        0x4000_0000,
        0xc000_0000,
    );
    assert(n * z == (w * z) * u) by (nonlinear_arith)
        requires
            n == w * u,
    ;
    lemma_within_cancel(r as int, (w * z) as int, u as int, 0x1_c000_0000);
    lemma_pow2_adds(31, 1134);
    lemma_pow2_adds(3, 1165);
    assert(w * z <= 0x8000_0000 * pow2(1134)) by (nonlinear_arith)
        requires
            w <= 0x8000_0000,
            z <= pow2(1134),
    ;
    lemma_pow2_strictly_increases(1168, 1202);
    assert(r <= 8 * pow2(1165));
    assert(single(whole(extent)) == (Number::Finite { negative: false, units: a }));
    assert(single(zoom) == (Number::Finite { negative: false, units: f }));
}

/// The place of a drawn image along one axis.
proof fn lemma_drawn_place(available: int, extent: Number)
    requires
        0 < available <= i32::MAX,
        extent is Finite,
        0 <= extent.signed() <= pow2(1168),
    ensures
        ({
            let x = centered(available, extent);
            let view = available * one();
            let sum = view + extent.signed();
            &&& x is Finite
            &&& 0x10_0000 * (2 * x.signed() + extent.signed() - view) <= sum
            &&& 0x10_0000 * (view - 2 * x.signed() - extent.signed()) <= sum
        }),
{
    let u = one();
    let n = available as nat * u;
    let w = extent.signed();
    let tiny = pow2(948) as int;
    lemma_whole_exact(available);
    lemma_whole_exact(2);
    lemma_pow2_pos(948);
    lemma_pow2_pos(1074);
    lemma2_to64();
    lemma2_to64_rest();
    lemma_pow2_adds(31, 1074);
    lemma_pow2_adds(126, 948);
    lemma_pow2_mono(31, 126);
    assert(u <= n <= 0x8000_0000 * u) by (nonlinear_arith)
        requires
            n == available as nat * u,
            1 <= available <= 0x8000_0000,
    ;
    assert(u >= 0x8000_0000 * tiny) by (nonlinear_arith)
        requires
            u == pow2(126) * tiny,
            pow2(126) >= 0x8000_0000,
            tiny > 0,
    ;
    lemma_mul_basics(tiny);
    lemma_single_error(n, 1);
    let v = rounded_units(24, 925, n, 1);
    lemma_mul_basics(v as int);
    lemma_pow2_adds(1, 1105);
    lemma_pow2_mono(1106, 1168);
    lemma_pow2_strictly_increases(1106, 1202);
    assert(single(whole(available)) == (Number::Finite { negative: false, units: v }));
    let t = v - w;
    let free = (if t < 0 {
        -t
    } else {
        t
    }) as nat;
    lemma_single_error(free, 1);
    let f = rounded_units(24, 925, free, 1);
    lemma_mul_basics(f as int);
    lemma_mul_basics(free as int);
    lemma_pow2_adds(1, 1168);
    lemma_pow2_adds(1, 1169);
    lemma_pow2_strictly_increases(1170, 1202);
    lemma_pow2_mono(948, 1168);
    assert(f <= 2 * free + tiny);
    lemma_rounded_zero(24, 925, 1);
    let room = difference(Format::Single, single(whole(available)), extent);
    assert(room == (Number::Finite { negative: room.negative(), units: f }));
    assert(room.signed() == if t < 0 {
        -(f as int)
    } else {
        f as int
    });
    lemma_single_error(f * u, 2 * u);
    let h = rounded_units(24, 925, f * u, 2 * u);
    assert(2 * u > 0);
    assert(h * (2 * u) == (2 * h) * u && (2 * u) * tiny == (2 * tiny) * u) by (nonlinear_arith);
    let c = 0x100_0000int;
    assert(c * (2 * h) <= c * f + f + 2 * tiny && c * f <= c * (2 * h) + f + 2 * tiny)
        by (nonlinear_arith)
        requires
            c * ((2 * h) * u) <= c * (f * u) + f * u + (2 * tiny) * u,
            c * (f * u) <= c * ((2 * h) * u) + f * u + (2 * tiny) * u,
            u > 0,
    ;
    assert(h <= 2 * f + tiny);
    lemma_pow2_adds(1, 1170);
    lemma_pow2_adds(1, 1171);
    lemma_pow2_adds(1, 1172);
    lemma_pow2_strictly_increases(1173, 1202);
    let x = centered(available, extent);
    assert(x is Finite && x->units == h && x.negative() == room.negative());
}

/// The image is drawn in the middle of the view, and with the size that its texture has at the zoom:
/// where it is not zoomed, the zoom at which the texture fits into the view. Both axes have that
/// zoom. All this is so but for one part in 2^20.
pub proof fn image_is_drawn_in_the_middle(
    state: CanvasState,
    texture: TextureSize,
    view_width: int,
    view_height: int,
    drawing: Drawing,
    zoom: Number,
)
    requires
        state.draws(texture, view_width, view_height, drawing),
        state.zoom !is Nan,
        zoom == if state.zoomed() {
            state.zoom
        } else {
            fit_zoom(view_width, view_height, texture.width as int, texture.height as int)
        },
        0 < texture.width,
        0 < texture.height,
        0 < view_width <= i32::MAX,
        0 < view_height <= i32::MAX,
        state.zoomed() ==> zoom is Finite && pow2(974) <= zoom.signed() <= pow2(1134),
    ensures
        ({
            let x = drawing.x@.signed();
            let y = drawing.y@.signed();
            let width = drawing.width@.signed();
            let height = drawing.height@.signed();
            let across = view_width * one();
            let down = view_height * one();
            &&& roughly(width, texture.width * zoom.signed())
            &&& roughly(height, texture.height * zoom.signed())
            &&& 0x10_0000 * (2 * x + width - across) <= across + width
            &&& 0x10_0000 * (across - 2 * x - width) <= across + width
            &&& 0x10_0000 * (2 * y + height - down) <= down + height
            &&& 0x10_0000 * (down - 2 * y - height) <= down + height
        }),
{
    lemma_whole_exact(0);
    lemma_whole_exact(1);
    lemma_mul_basics(one() as int);
    if !state.zoomed() {
        lemma_fit_range(view_width, view_height, texture.width as int, texture.height as int);
    }
    lemma_drawn_extent(texture.width as int, zoom);
    lemma_drawn_extent(texture.height as int, zoom);
    lemma_drawn_place(view_width, drawing.width@);
    lemma_drawn_place(view_height, drawing.height@);
}

proof fn lemma_fit_range(view_width: int, view_height: int, image_width: int, image_height: int)
    requires
        0 < view_width <= i32::MAX,
        0 < view_height <= i32::MAX,
        0 < image_width <= i32::MAX,
        0 < image_height <= i32::MAX,
    ensures
        ({
            let fit = fit_zoom(view_width, view_height, image_width, image_height);
            &&& fit is Finite
            &&& pow2(974) <= fit.signed() <= pow2(1134)
        }),
{
    lemma_scale_bounds(view_width, image_width);
    lemma_scale_bounds(view_height, image_height);
    lemma_whole_exact(1);
    lemma_mul_basics(one() as int);
    lemma_pow2_mono(974, 1043);
    lemma_pow2_mono(1105, 1134);
    lemma_pow2_mono(974, 1074);
    lemma_pow2_mono(1074, 1134);
}

/// A zoomed canvas asks for the size of its texture at the zoom, rounded to whole pixels; one that
/// fits its image into the view asks for nothing.
pub proof fn zoomed_canvas_asks_for_its_size(
    state: CanvasState,
    texture: TextureSize,
    horizontal: bool,
)
    requires
        state.texture == Some(texture),
        state.zoom is Finite,
    ensures
        !state.zoomed() ==> state.measured(horizontal) == 0,
        ({
            let extent = if horizontal {
                texture.width as int
            } else {
                texture.height as int
            };
            let exact = extent * state.zoom.signed();
            let pixels = state.measured(horizontal);
            state.zoomed() && extent > 0 && exact <= 0x7fff_0000 * one() ==> {
                &&& 0x8_0000_0000_0000 * (2 * (pixels * one()) - 2 * exact) <= 0x8_0000_0000_0000
                    * one() + exact
                &&& 0x8_0000_0000_0000 * (2 * exact - 2 * (pixels * one())) <= 0x8_0000_0000_0000
                    * one() + exact
            }
        }),
{
    lemma_whole_exact(0);
    lemma_mul_basics(one() as int);
    let u = one();
    let extent = if horizontal {
        texture.width as int
    } else {
        texture.height as int
    };
    let z = state.zoom->units;
    let w = extent as nat;
    let exact = extent * state.zoom.signed();
    if state.zoomed() && extent > 0 && exact <= 0x7fff_0000 * u {
        lemma_whole_exact(extent);
        lemma_pow2_pos(1074);
        lemma2_to64();
        lemma2_to64_rest();
        let n = w * z;
        assert(n == exact);
        assert(((w * u) * z) * 1 == n * u) by (nonlinear_arith)
            requires
                n == w * z,
        ;
        lemma_rounded_ratio(53, 0, (w * u) * z, u, n, 1);
        lemma_units_within(n);
        let p = rounded_units(53, 0, n, 1);
        lemma_pow2_adds(31, 1074);
        lemma_pow2_strictly_increases(1105, 2098);
        let pixels = (2 * p + u) / (2 * u);
        lemma_fundamental_div_mod((2 * p + u) as int, (2 * u) as int);
        lemma_mod_bound((2 * p + u) as int, (2 * u) as int);
        assert((2 * u) * pixels == 2 * (pixels * u)) by (nonlinear_arith);
        lemma_div_by_multiple(pixels as int, u as int);
        assert(pixels <= 0x7fff_ffff) by (nonlinear_arith)
            requires
                2 * (pixels * u) <= 2 * p + u,
                p <= 0x7fff_8000 * u,
                u > 0,
        ;
        assert(state.measured(horizontal) == pixels);
    }
}

/// A zoom is told as the percentage that it is, in text: with one decimal place, and without any
/// where the percentage is less than a hundredth away from a whole number.
pub proof fn zoom_is_told_as_a_percentage(zoom: Number)
    ensures
        ({
            let percentage = zoom.times(whole(100));
            let off = absolute(percentage.minus(rounded_whole(percentage)));
            &&& less(off, fraction(1, 100)) ==> zoom_text(zoom) == fixed(percentage, 0) + seq!['%']
            &&& !less(off, fraction(1, 100)) ==> zoom_text(zoom) == fixed(percentage, 1) + seq!['%']
        }),
{
}

} // verus!
