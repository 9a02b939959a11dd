//! How a file becomes a decoded image.
use crate::binary64::{
    at_most, fraction, lemma_rounded_exact, lemma_whole_exact, less, one, whole, Binary64, Number,
};
use crate::decimal::{decimal, decimal_signed, format_i32, format_u64};
use crate::frame::DecodedFrame;
use crate::listing::same_letter;
use crate::metadata::{describe_metadata, field_texts, joined, metadata_lines, SourceInfo};
use crate::ordering::{
    lemma_quotient_within, lemma_quotients_ordered, lemma_within_cancel, lemma_within_chain,
    lemma_within_times, within,
};
use crate::path::{decode, extension, ImagePath};
use crate::print::lemma_inch;
use crate::rounding::{lemma_pow2_mono, rounded_units};
use crate::text::{ascii_upper, to_ascii_upper};
use vstd::arithmetic::mul::*;
use vstd::arithmetic::power2::*;
use vstd::prelude::*;
use vstd::utf8::*;

verus! {

/// The size that an image is shrunk into when it is decoded.
pub const DECODE_WIDTH: i32 = 2560;

pub const DECODE_HEIGHT: i32 = 1600;

/// What is read of a file before its pixels.
#[derive(Debug)]
pub struct Source {
    pub info: SourceInfo,
    pub file_size: Option<u64>,
    /// The values of the fields of `EXIF_FIELDS`, in their order.
    pub exif: Vec<Option<String>>,
}

/// Decoded pixels.
#[derive(Debug)]
pub struct Raster {
    pub width: i32,
    pub height: i32,
    pub pixels: Vec<u8>,
}

/// The size of a source as it is shown: the orientations from five to eight lie on their side.
pub open spec fn upright_size(source: SourceInfo) -> (i32, i32) {
    if 5 <= source.orientation <= 8 {
        (source.height, source.width)
    } else {
        (source.width, source.height)
    }
}

/// The dots per inch of a source, unless they are implausible.
pub open spec fn plausible_dpi(xres: Number) -> Option<Number> {
    let dpi = xres.times(fraction(254, 10));
    if at_most(whole(36), dpi) && at_most(dpi, whole(2400)) {
        Some(dpi)
    } else {
        None
    }
}

/// The type of a file: its extension in upper case.
pub open spec fn type_text(path: Seq<u8>) -> Seq<char> {
    match extension(path) {
        Some(bytes) => if valid_utf8(bytes) {
            decode_utf8(bytes).map_values(|c: char| ascii_upper(c))
        } else {
            "Unknown"@
        },
        None => "Unknown"@,
    }
}

/// Whether a frame is what is decoded of a file.
pub open spec fn decoded_from(
    frame: DecodedFrame,
    path: Seq<u8>,
    source: Source,
    raster: Raster,
) -> bool {
    &&& frame.path@ == path
    &&& frame.width == raster.width
    &&& frame.height == raster.height
    &&& frame.stride == raster.width * 4
    &&& frame.pixels@ == raster.pixels@
    &&& (frame.source_width, frame.source_height) == upright_size(source.info)
    &&& plausible_dpi(source.info.xres@) == match frame.source_dpi {
        Some(dpi) => Some(dpi@),
        None => None,
    }
    &&& frame.file_type@ == type_text(path)
    &&& frame.metadata@ == joined(
        metadata_lines(path, source.info, type_text(path), source.file_size, field_texts(source.exif@)),
    )
}

/// The name by which a decoder opens a file.
pub fn decoder_name(path: &ImagePath) -> (r: Result<String, String>)
    ensures
        r is Ok <==> valid_utf8(path@),
        r matches Ok(name) ==> name@ == decode_utf8(path@),
        r matches Err(message) ==> message@ == "filename is not valid UTF-8"@,
{
    match path.to_text() {
        Some(name) => Ok(name),
        None => Err("filename is not valid UTF-8".to_owned()),
    }
}

/// Whether an alpha channel has to be added to an image with the given number of bands.
pub fn ensure_rgba(bands: i32) -> (r: Result<bool, String>)
    ensures
        r is Ok <==> bands == 4 || bands == 3,
        r matches Ok(missing) ==> missing == (bands == 3),
        r matches Err(message) ==> message@ == "unsupported decoded band count: "@
            + decimal_signed(bands as int),
{
    if bands == 4 {
        Ok(false)
    } else if bands == 3 {
        Ok(true)
    } else {
        let mut message: String = "unsupported decoded band count: ".to_owned();
        message.append(format_i32(bands).as_str());
        Err(message)
    }
}

/// The type of a file: its extension in upper case.
pub fn file_type(path: &ImagePath) -> (r: String)
    ensures
        r@ == type_text(path@),
{
    match path.extension() {
        None => "Unknown".to_owned(),
        Some(bytes) => match decode(bytes.as_slice()) {
            None => "Unknown".to_owned(),
            Some(text) => to_ascii_upper(text.as_str()),
        },
    }
}

/// The dots per inch of a source, unless they are implausible.
pub fn source_dpi(xres: Binary64) -> (r: Option<Binary64>)
    ensures
        plausible_dpi(xres@) == match r {
            Some(dpi) => Some(dpi@),
            None => None,
        },
{
    let dpi: Binary64 = xres.times(Binary64::from_fraction(254, 10));
    if Binary64::from_i32(36).is_at_most(dpi) && dpi.is_at_most(Binary64::from_i32(2400)) {
        Some(dpi)
    } else {
        None
    }
}

/// The frame of a file whose source and pixels have been read.
pub fn decode_thumbnail(path: &ImagePath, source: &Source, raster: Raster) -> (r: Result<
    DecodedFrame,
    String,
>)
    requires
        raster.width >= 0,
        raster.height >= 0,
        raster.width * 4 * raster.height <= usize::MAX,
        raster.width * 4 <= usize::MAX,
    ensures
        r is Ok <==> raster.pixels@.len() == raster.width * 4 * raster.height,
        r matches Ok(frame) ==> decoded_from(frame, path@, *source, raster)
            && (raster.height * 4 <= usize::MAX ==> frame.showable()),
        r matches Err(message) ==> message@ == "unexpected decoded buffer size: got "@ + decimal(
            raster.pixels@.len(),
        ) + ", expected "@ + decimal((raster.width * 4 * raster.height) as nat),
{
    let stride: usize = raster.width as usize * 4;
    let expected: usize = stride * raster.height as usize;
    if raster.pixels.len() != expected {
        let mut message: String = "unexpected decoded buffer size: got ".to_owned();
        message.append(format_u64(raster.pixels.len() as u64).as_str());
        message.append(", expected ");
        message.append(format_u64(expected as u64).as_str());
        return Err(message);
    }
    assert((raster.height - 1) * (raster.width * 4) + raster.width * 4 == raster.width * 4
        * raster.height) by (nonlinear_arith);
    assert(raster.width * raster.height * 4 == raster.width * 4 * raster.height)
        by (nonlinear_arith);
    let info: SourceInfo = source.info;
    let (source_width, source_height): (i32, i32) = if 5 <= info.orientation && info.orientation
        <= 8 {
        (info.height, info.width)
    } else {
        (info.width, info.height)
    };
    let kind: String = file_type(path);
    let metadata: String = describe_metadata(
        path,
        &info,
        kind.as_str(),
        source.file_size,
        &source.exif,
    );
    Ok(
        DecodedFrame {
            path: path.clone(),
            width: raster.width,
            height: raster.height,
            stride,
            pixels: raster.pixels,
            source_width,
            source_height,
            source_dpi: source_dpi(info.xres),
            file_type: kind,
            metadata,
        },
    )
}

/// A decoded frame is that of its file: it is as large as the pixels that have been read, which
/// fill it without gaps.
pub proof fn decoded_frame_is_full(
    frame: DecodedFrame,
    path: Seq<u8>,
    source: Source,
    raster: Raster,
)
    requires
        raster.width > 0,
        raster.height > 0,
        raster.pixels@.len() == raster.width * 4 * raster.height,
        decoded_from(frame, path, source, raster),
    ensures
        frame.path@ == path,
        frame.width > 0,
        frame.height > 0,
        frame.stride == frame.width * 4,
        frame.pixels@.len() == frame.width * frame.height * 4,
{
    assert(raster.width * raster.height * 4 == raster.width * 4 * raster.height)
        by (nonlinear_arith);
}

/// The size of a source is told upright: the orientations from five to eight, and only these, swap
/// width and height.
pub proof fn sources_are_set_upright(source: SourceInfo)
    ensures
        source.orientation >= 5 && source.orientation <= 8 ==> upright_size(source).0
            == source.height && upright_size(source).1 == source.width,
        source.orientation < 5 || source.orientation > 8 ==> upright_size(source).0 == source.width
            && upright_size(source).1 == source.height,
{
}

/// The dots per inch of a source are its pixels per millimetre times 25.4, but for three parts in
/// 2^53. They are trusted from 36 up to 2400, and only there.
pub proof fn plausible_resolutions_are_trusted(xres: Number)
    ensures
        ({
            let dpi = xres.times(fraction(254, 10));
            &&& plausible_dpi(xres) is Some <==> !less(dpi, whole(36)) && !less(whole(2400), dpi)
                && dpi !is Nan
            &&& plausible_dpi(xres) matches Some(trusted) ==> trusted == dpi
            &&& xres is Finite && !xres.negative() && pow2(90) <= xres->units < pow2(2090) ==> {
                &&& dpi is Finite
                &&& within(10 * dpi.signed(), 254 * xres.signed(), 3)
            }
        }),
{
    lemma_whole_exact(36);
    lemma_whole_exact(2400);
    if xres is Finite && !xres.negative() && pow2(90) <= xres->units < pow2(2090) {
        let u = one();
        let d = lemma_inch();
        let n = xres->units * d;
        lemma_pow2_pos(1074);
        lemma2_to64();
        lemma2_to64_rest();
        lemma_pow2_mono(53, 90);
        let x = xres->units;
        assert(n >= u * 0x20_0000_0000_0000) by (nonlinear_arith)
            requires
                n == x * d,
                x >= 0x20_0000_0000_0000,
                d >= u,
        ;
        lemma_quotient_within(n, u);
        let r = rounded_units(53, 0, n, u);
        let top = pow2(2095);
        lemma_pow2_adds(5, 2090);
        lemma_mul_basics(top as int);
        lemma_rounded_exact(1, 2095);
        assert(n * 1 <= top * u) by (nonlinear_arith)
            requires
                n == x * d,
                d <= 26 * u,
                32 * x <= top,
        ;
        lemma_quotients_ordered(n, u, top, 1);
        lemma_pow2_strictly_increases(2095, 2098);
        lemma_within_times((r * u) as int, n as int, 10, 1);
        lemma_within_times((d * 10) as int, (254 * u) as int, x as int, 1);
        assert(x * (d * 10) == 10 * n) by (nonlinear_arith)
            requires
                n == x * d,
        ;
        assert(x * (254 * u) == (254 * x) * u && 10 * (r * u) == (10 * r) * u) by (nonlinear_arith);
        lemma_within_chain(((10 * r) * u) as int, (10 * n) as int, ((254 * x) * u) as int, 1, 1);
        lemma_within_cancel((10 * r) as int, (254 * x) as int, u as int, 3);
    }
}

/// The type of a file is its extension in capitals: the same letters, none of them small. Without an
/// extension that can be read it is unknown.
pub proof fn type_is_the_extension_in_capitals(path: Seq<u8>, ending: Seq<u8>)
    ensures
        extension(path) is None ==> type_text(path) == "Unknown"@,
        extension(path) == Some(ending) && !valid_utf8(ending) ==> type_text(path) == "Unknown"@,
        extension(path) == Some(ending) && valid_utf8(ending) ==> {
            let text = decode_utf8(ending);
            &&& type_text(path).len() == text.len()
            &&& forall|i: int|
                0 <= i < text.len() ==> same_letter(#[trigger] type_text(path)[i], text[i]) && !('a'
                    <= type_text(path)[i] && type_text(path)[i] <= 'z')
        },
{
}

/// A decoded frame tells its source: the size that it has upright, its resolution where that is
/// plausible, the type of the file, and all that is known of it.
pub proof fn decoded_frame_tells_its_source(
    frame: DecodedFrame,
    path: Seq<u8>,
    source: Source,
    raster: Raster,
)
    requires
        decoded_from(frame, path, source, raster),
    ensures
        frame.path@ == path,
        frame.width == raster.width,
        frame.height == raster.height,
        frame.pixels@ == raster.pixels@,
        5 <= source.info.orientation <= 8 ==> frame.source_width == source.info.height
            && frame.source_height == source.info.width,
        !(5 <= source.info.orientation <= 8) ==> frame.source_width == source.info.width
            && frame.source_height == source.info.height,
        frame.source_dpi is Some <==> plausible_dpi(source.info.xres@) is Some,
        frame.source_dpi matches Some(dpi) ==> Some(dpi@) == plausible_dpi(source.info.xres@),
        frame.file_type@ == type_text(path),
        frame.metadata@ == joined(
            metadata_lines(
                path,
                source.info,
                type_text(path),
                source.file_size,
                field_texts(source.exif@),
            ),
        ),
{
}

} // verus!
