//! Saving an edited copy.
use crate::binary64::{whole, Binary64, Number};
use crate::canvas::{lemma_extent_ratio, lemma_fitted_side, near};
use crate::frame::{edited_size, shrunk, turned_size};
use crate::path::{
    components, decode_lossy, extension, extension_follows_the_last_dot, file_stem, lossy,
    name_follows_the_last_slash, text_or, text_or_fallback, ImagePath,
};
use vstd::prelude::*;
use vstd::utf8::*;

verus! {

/// A turn of an image, clockwise.
#[derive(Clone, Copy, Debug, PartialEq, Eq, Structural)]
pub enum Turn {
    D0,
    D90,
    D180,
    D270,
}

/// What has become of an edited copy.
#[derive(Debug)]
pub enum SaveProgress {
    /// The chosen destination has no path.
    NotLocal,
    Started,
    Saved(ImagePath),
    Failed(String),
    /// The thread that saves has ended without a result.
    Stopped,
}

/// The name that is offered for a copy.
pub open spec fn copy_name(path: Seq<u8>) -> Seq<char> {
    text_or(file_stem(path), "image"@) + "-edited."@ + text_or(extension(path), "jpg"@)
}

/// The quarter turns of an image as an angle.
pub open spec fn turn(rotation: int) -> Turn {
    if rotation % 4 == 0 {
        Turn::D0
    } else if rotation % 4 == 1 {
        Turn::D90
    } else if rotation % 4 == 2 {
        Turn::D180
    } else {
        Turn::D270
    }
}

/// The factor by which a turned image is shrunk, where its longer edge is too long.
pub open spec fn copy_scale(width: int, height: int, maximum_edge: int) -> Option<Number> {
    let edge = if width > height {
        width
    } else {
        height
    };
    if 0 < maximum_edge < edge {
        Some(whole(maximum_edge).over(whole(edge)))
    } else {
        None
    }
}

/// What the window says of the progress.
pub open spec fn progress_text(progress: SaveProgress) -> Seq<char> {
    match progress {
        SaveProgress::NotLocal => "Choose a local destination"@,
        SaveProgress::Started => "Saving edited copy…"@,
        SaveProgress::Saved(path) => "Saved "@ + lossy(path@),
        SaveProgress::Failed(message) => "Could not save: "@ + message@,
        SaveProgress::Stopped => "Export worker stopped"@,
    }
}

/// The name that is offered for a copy.
pub fn initial_name(path: &ImagePath) -> (r: String)
    ensures
        r@ == copy_name(path@),
{
    let mut name: String = text_or_fallback(path.file_stem(), "image");
    let ending: String = text_or_fallback(path.extension(), "jpg");
    name.append("-edited.");
    name.append(ending.as_str());
    name
}

/// Whether a copy of a source may be written to a destination, where `same_file` tells whether both
/// paths lead to the same file.
pub open spec fn may_be_written(source: Seq<u8>, destination: Seq<u8>, same_file: bool) -> bool {
    &&& valid_utf8(source)
    &&& valid_utf8(destination)
    &&& components(source) != components(destination)
    &&& !same_file
}

/// The names by which the source is read and the copy is written. The source itself is no
/// destination, under whatever path: it is never changed. `same_file` tells whether both paths lead
/// to the same file.
pub fn export_names(source: &ImagePath, destination: &ImagePath, same_file: bool) -> (r: Result<
    (String, String),
    String,
>)
    ensures
        r is Ok <==> valid_utf8(source@) && valid_utf8(destination@) && source.key()
            != destination.key() && !same_file,
        r is Ok <==> may_be_written(source@, destination@, same_file),
        r matches Ok(names) ==> names.0@ == decode_utf8(source@) && names.1@ == decode_utf8(
            destination@,
        ),
        r matches Err(message) ==> message@ == if !valid_utf8(source@) {
            "source filename is not valid UTF-8"@
        } else if !valid_utf8(destination@) {
            "destination filename is not valid UTF-8"@
        } else {
            "destination is the source file"@
        },
{
    match source.to_text() {
        None => Err("source filename is not valid UTF-8".to_owned()),
        Some(source_name) => match destination.to_text() {
            None => Err("destination filename is not valid UTF-8".to_owned()),
            Some(destination_name) => {
                if same_file || source.same(destination) {
                    Err("destination is the source file".to_owned())
                } else {
                    Ok((source_name, destination_name))
                }
            },
        },
    }
}

/// The quarter turns of an image as an angle.
pub fn export_turn(rotation: u8) -> (r: Turn)
    ensures
        r == turn(rotation as int),
{
    if rotation % 4 == 0 {
        Turn::D0
    } else if rotation % 4 == 1 {
        Turn::D90
    } else if rotation % 4 == 2 {
        Turn::D180
    } else {
        Turn::D270
    }
}

/// The factor by which a turned image is shrunk, where its longer edge is too long.
pub fn export_scale(width: i32, height: i32, maximum_edge: i32) -> (r: Option<Binary64>)
    ensures
        copy_scale(width as int, height as int, maximum_edge as int) == match r {
            Some(scale) => Some(scale@),
            None => None,
        },
{
    let edge: i32 = if width > height {
        width
    } else {
        height
    };
    if maximum_edge > 0 && maximum_edge < edge {
        Some(Binary64::from_i32(maximum_edge).over(Binary64::from_i32(edge)))
    } else {
        None
    }
}

/// The size that is announced for a copy is that of the turned source at the scale of the copy.
pub proof fn copy_has_the_announced_size(
    source_width: int,
    source_height: int,
    rotation: int,
    maximum_edge: int,
)
    ensures
        ({
            let (width, height) = turned_size(rotation, source_width, source_height);
            edited_size(source_width, source_height, rotation, maximum_edge) == match copy_scale(
                width,
                height,
                maximum_edge,
            ) {
                Some(scale) => (shrunk(width, scale), shrunk(height, scale)),
                None => (width, height),
            }
        }),
{
}

/// What the window says of the progress.
pub fn save_status(progress: &SaveProgress) -> (r: String)
    ensures
        r@ == progress_text(*progress),
{
    match progress {
        SaveProgress::NotLocal => "Choose a local destination".to_owned(),
        SaveProgress::Started => "Saving edited copy…".to_owned(),
        SaveProgress::Saved(path) => {
            let mut text: String = "Saved ".to_owned();
            let shown: String = decode_lossy(path.bytes.as_slice());
            text.append(shown.as_str());
            text
        },
        SaveProgress::Failed(message) => {
            let mut text: String = "Could not save: ".to_owned();
            text.append(message.as_str());
            text
        },
        SaveProgress::Stopped => "Export worker stopped".to_owned(),
    }
}

/// The name that is offered for a copy is that of its source, with `-edited` before the same
/// extension.
pub proof fn copies_are_named_after_their_source(
    folder: Seq<u8>,
    stem: Seq<u8>,
    ending: Seq<u8>,
)
    requires
        stem.len() > 0,
        stem != seq![0x2eu8] || ending.len() > 0,
        !stem.contains(0x2f),
        !ending.contains(0x2f),
        !ending.contains(0x2e),
        valid_utf8(stem),
        valid_utf8(ending),
    ensures
        copy_name(folder + seq![0x2fu8] + (stem + seq![0x2eu8] + ending)) == decode_utf8(stem)
            + "-edited."@ + decode_utf8(ending),
{
    let name = stem + seq![0x2eu8] + ending;
    let path = folder + seq![0x2fu8] + name;
    assert forall|i: int| 0 <= i < name.len() implies name[i] != 0x2f by {
        if i < stem.len() {
            assert(stem.contains(stem[i]));
        } else if i > stem.len() {
            assert(ending.contains(ending[i - stem.len() - 1]));
        }
    }
    assert(name[stem.len() as int] == 0x2e);
    if name =~= seq![0x2eu8, 0x2eu8] {
        assert(name.len() == 2);
        assert(stem =~= seq![0x2eu8]);
    }
    name_follows_the_last_slash(folder, name);
    extension_follows_the_last_dot(path, stem, ending);
}

/// A copy is turned as its preview is, clockwise by a quarter for every turn; four turns are none.
pub proof fn copies_are_turned_as_shown(rotation: int)
    ensures
        turn(rotation) == Turn::D0 <==> rotation % 4 == 0,
        turn(rotation) == Turn::D90 <==> rotation % 4 == 1,
        turn(rotation) == Turn::D180 <==> rotation % 4 == 2,
        turn(rotation) == Turn::D270 <==> rotation % 4 == 3,
        turn(rotation + 4) == turn(rotation),
{
}

/// A copy is shrunk exactly where its longer edge is to become shorter, and then by the quotient of
/// both, which brings that edge to the wanted length, but for one part in 2^51.
pub proof fn copies_are_shrunk_to_their_edge(width: int, height: int, maximum_edge: int, edge: int)
    requires
        0 < width <= i32::MAX,
        0 < height <= i32::MAX,
        maximum_edge <= i32::MAX,
        edge == width || edge == height,
        width <= edge,
        height <= edge,
    ensures
        maximum_edge <= 0 || maximum_edge >= edge ==> copy_scale(width, height, maximum_edge)
            is None,
        0 < maximum_edge < edge ==> (copy_scale(width, height, maximum_edge) matches Some(scale)
            && near(whole(edge).times(scale), whole(maximum_edge))),
{
    if 0 < maximum_edge < edge {
        lemma_extent_ratio(maximum_edge, edge);
        lemma_fitted_side(maximum_edge, edge, whole(maximum_edge).over(whole(edge)));
    }
}

/// What is said of a copy names the destination, or the reason of the failure.
pub proof fn copies_are_reported(path: ImagePath, message: String)
    ensures
        progress_text(SaveProgress::Saved(path)) == "Saved "@ + lossy(path@),
        progress_text(SaveProgress::Failed(message)) == "Could not save: "@ + message@,
        progress_text(SaveProgress::NotLocal) == "Choose a local destination"@,
        progress_text(SaveProgress::Started) == "Saving edited copy…"@,
        progress_text(SaveProgress::Stopped) == "Export worker stopped"@,
{
}

/// The source is never overwritten, under whatever path; every other destination whose path can be
/// written as text is accepted.
pub proof fn source_is_never_overwritten(source: Seq<u8>, destination: Seq<u8>, same_file: bool)
    ensures
        same_file ==> !may_be_written(source, destination, same_file),
        components(source) == components(destination) ==> !may_be_written(
            source,
            destination,
            same_file,
        ),
        !may_be_written(source, source, same_file),
        valid_utf8(source) && valid_utf8(destination) && !same_file && components(source)
            != components(destination) ==> may_be_written(source, destination, same_file),
        !valid_utf8(source) || !valid_utf8(destination) ==> !may_be_written(
            source,
            destination,
            same_file,
        ),
{
}

/// Where a source has no name or no extension that can be read, the copy is called `image` or gets
/// the extension `jpg`.
pub proof fn copies_have_a_name_in_any_case(path: Seq<u8>)
    ensures
        copy_name(path) == text_or(file_stem(path), "image"@) + "-edited."@ + text_or(
            extension(path),
            "jpg"@,
        ),
        extension(path) is None ==> copy_name(path) == text_or(file_stem(path), "image"@)
            + "-edited."@ + "jpg"@,
        file_stem(path) is None ==> copy_name(path) == "image"@ + "-edited."@ + text_or(
            extension(path),
            "jpg"@,
        ),
{
}

} // verus!
