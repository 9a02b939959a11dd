//! What the metadata panel says of an image.
use crate::binary64::{lemma_rounded_exact, lemma_whole_exact, one, whole, Binary64, Number};
use crate::decimal::{
    decimal, decimal_signed, fixed, fixed_is_nearest, format_fixed, format_i32, format_u64,
    power_of_ten,
};
use crate::path::{file_name, text_or, ImagePath};
use crate::rounding::lemma_rounded_ratio;
use crate::text::{all_digits, number_value};
use vstd::arithmetic::mul::*;
use vstd::arithmetic::power2::*;
use vstd::prelude::*;

verus! {

/// What a decoder tells of a file.
#[derive(Clone, Copy, Debug)]
pub struct SourceInfo {
    pub width: i32,
    pub height: i32,
    pub bands: i32,
    /// Pixels per millimetre.
    pub xres: Binary64,
    pub yres: Binary64,
    pub pages: i32,
    pub orientation: i32,
}

/// The labels of the EXIF fields that are shown, each with the name of the field.
pub const EXIF_FIELDS: [(&'static str, &'static str); 15] = [
    ("Camera maker", "exif-ifd0-Make"),
    ("Camera model", "exif-ifd0-Model"),
    ("Software", "exif-ifd0-Software"),
    ("Captured", "exif-ifd0-DateTime"),
    ("Artist", "exif-ifd0-Artist"),
    ("Copyright", "exif-ifd0-Copyright"),
    ("Exposure", "exif-ifd2-ExposureTime"),
    ("Aperture", "exif-ifd2-FNumber"),
    ("ISO", "exif-ifd2-ISOSpeedRatings"),
    ("Focal length", "exif-ifd2-FocalLength"),
    ("Lens maker", "exif-ifd2-LensMake"),
    ("Lens", "exif-ifd2-LensModel"),
    ("Flash", "exif-ifd2-Flash"),
    ("GPS latitude", "exif-ifd3-GPSLatitude"),
    ("GPS longitude", "exif-ifd3-GPSLongitude"),
];

/// The number of bytes of a unit, and its name: the largest unit that fits into `bytes`.
pub open spec fn size_unit(bytes: nat) -> (int, Seq<char>) {
    if bytes < 0x400 {
        (1, "B"@)
    } else if bytes < 0x10_0000 {
        (0x400, "KiB"@)
    } else if bytes < 0x4000_0000 {
        (0x10_0000, "MiB"@)
    } else if bytes < 0x100_0000_0000 {
        (0x4000_0000, "GiB"@)
    } else {
        (0x100_0000_0000, "TiB"@)
    }
}

/// A file size for people: bytes as they are, larger units with one decimal place.
pub open spec fn size_text(bytes: nat) -> Seq<char> {
    let (size, name) = size_unit(bytes);
    if size == 1 {
        decimal(bytes) + " "@ + name
    } else {
        fixed(whole(bytes as int).over(whole(size)), 1) + " "@ + name
    }
}

/// A file size for people.
pub fn human_size(bytes: u64) -> (r: String)
    ensures
        r@ == size_text(bytes as nat),
{
    let (size, name): (u64, &str) = if bytes < 0x400 {
        (1, "B")
    } else if bytes < 0x10_0000 {
        (0x400, "KiB")
    } else if bytes < 0x4000_0000 {
        (0x10_0000, "MiB")
    } else if bytes < 0x100_0000_0000 {
        (0x4000_0000, "GiB")
    } else {
        (0x100_0000_0000, "TiB")
    };
    let mut text: String = if size == 1 {
        format_u64(bytes)
    } else {
        format_fixed(Binary64::from_u64(bytes).over(Binary64::from_u64(size)), 1)
    };
    text.append(" ");
    text.append(name);
    text
}

/// Lines of text, one below the other.
pub open spec fn joined(lines: Seq<Seq<char>>) -> Seq<char>
    decreases lines.len(),
{
    if lines.len() == 0 {
        seq![]
    } else if lines.len() == 1 {
        lines[0]
    } else {
        joined(lines.drop_last()) + "\n"@ + lines.last()
    }
}

/// The lines of the first `count` EXIF fields that have a value.
pub open spec fn exif_lines(values: Seq<Option<Seq<char>>>, count: nat) -> Seq<Seq<char>>
    decreases count,
{
    if count == 0 {
        seq![]
    } else {
        let before = exif_lines(values, (count - 1) as nat);
        if count <= values.len() && values[count - 1] is Some {
            before.push(EXIF_FIELDS@[count - 1].0@ + ": "@ + values[count - 1]->0)
        } else {
            before
        }
    }
}

/// The lines of the metadata panel.
pub open spec fn metadata_lines(
    path: Seq<u8>,
    source: SourceInfo,
    file_type: Seq<char>,
    file_size: Option<u64>,
    exif: Seq<Option<Seq<char>>>,
) -> Seq<Seq<char>> {
    let about = seq![
        "File\n"@ + text_or(file_name(path), "image"@) + "\n"@,
        "Type: "@ + file_type,
        "Dimensions: "@ + decimal_signed(source.width as int) + " × "@ + decimal_signed(
            source.height as int,
        ),
        "Bands: "@ + decimal_signed(source.bands as int),
    ];
    let size = match file_size {
        Some(bytes) => seq!["File size: "@ + size_text(bytes as nat)],
        None => seq![],
    };
    let resolution = seq![
        "Resolution: "@ + fixed(source.xres@, 2) + " × "@ + fixed(source.yres@, 2) + " px/mm"@,
    ];
    let pages = if source.pages > 1 {
        seq!["Pages: "@ + decimal_signed(source.pages as int)]
    } else {
        seq![]
    };
    let orientation = if source.orientation > 1 {
        seq!["Orientation: "@ + decimal_signed(source.orientation as int)]
    } else {
        seq![]
    };
    let fields = exif_lines(exif, EXIF_FIELDS@.len());
    let exif_part = if fields.len() > 0 {
        seq!["\nEXIF"@] + fields
    } else {
        seq![]
    };
    about + size + resolution + pages + orientation + exif_part
}

/// The texts that some values stand for.
pub open spec fn field_texts(values: Seq<Option<String>>) -> Seq<Option<Seq<char>>> {
    Seq::new(
        values.len(),
        |i: int|
            match values[i] {
                Some(text) => Some(text@),
                None => None,
            },
    )
}

spec fn texts(lines: Seq<String>) -> Seq<Seq<char>> {
    Seq::new(lines.len(), |i: int| lines[i]@)
}

proof fn lemma_texts_push(lines: Seq<String>, line: String)
    ensures
        texts(lines.push(line)) == texts(lines).push(line@),
{
    assert(texts(lines.push(line)) =~= texts(lines).push(line@));
}

fn push_line(lines: &mut Vec<String>, line: String)
    ensures
        texts(final(lines)@) == texts(old(lines)@).push(line@),
{
    proof {
        lemma_texts_push(lines@, line);
    }
    lines.push(line);
}

fn join_lines(lines: &Vec<String>) -> (r: String)
    ensures
        r@ == joined(texts(lines@)),
{
    let mut r: String = String::new();
    let mut i: usize = 0;
    while i < lines.len()
        invariant
            i <= lines.len(),
            r@ == joined(texts(lines@).take(i as int)),
        decreases lines.len() - i,
    {
        if i > 0 {
            r.append("\n");
        }
        r.append(lines[i].as_str());
        proof {
            let done = texts(lines@).take(i + 1);
            assert(done.drop_last() =~= texts(lines@).take(i as int));
            assert(done.last() == lines[i as int]@);
            if i == 0 {
                assert(texts(lines@).take(0) =~= seq![]);
                assert(r@ =~= lines[0]@);
            }
        }
        i = i + 1;
    }
    assert(texts(lines@).take(lines@.len() as int) =~= texts(lines@));
    r
}

/// A label and its value.
fn labelled(label: &str, value: &str) -> (r: String)
    ensures
        r@ == label@ + value@,
{
    let mut r: String = label.to_owned();
    r.append(value);
    r
}

/// The text of the metadata panel. `exif` holds the values of the fields of `EXIF_FIELDS`, in
/// their order.
pub fn describe_metadata(
    path: &ImagePath,
    source: &SourceInfo,
    file_type: &str,
    file_size: Option<u64>,
    exif: &Vec<Option<String>>,
) -> (r: String)
    ensures
        r@ == joined(metadata_lines(path@, *source, file_type@, file_size, field_texts(exif@))),
{
    let ghost values = field_texts(exif@);
    let mut lines: Vec<String> = Vec::new();
    assert(texts(lines@) =~= seq![]);
    let name: String = path.name_or("image");
    let mut line: String = labelled("File\n", name.as_str());
    line.append("\n");
    push_line(&mut lines, line);
    push_line(&mut lines, labelled("Type: ", file_type));
    let mut line: String = labelled("Dimensions: ", format_i32(source.width).as_str());
    line.append(" × ");
    line.append(format_i32(source.height).as_str());
    push_line(&mut lines, line);
    push_line(&mut lines, labelled("Bands: ", format_i32(source.bands).as_str()));
    match file_size {
        Some(bytes) => {
            push_line(&mut lines, labelled("File size: ", human_size(bytes).as_str()));
        },
        None => {},
    }
    let mut line: String = labelled("Resolution: ", format_fixed(source.xres, 2).as_str());
    line.append(" × ");
    line.append(format_fixed(source.yres, 2).as_str());
    line.append(" px/mm");
    push_line(&mut lines, line);
    if source.pages > 1 {
        push_line(&mut lines, labelled("Pages: ", format_i32(source.pages).as_str()));
    }
    if source.orientation > 1 {
        push_line(&mut lines, labelled("Orientation: ", format_i32(source.orientation).as_str()));
    }
    let ghost about = texts(lines@);
    let mut started: bool = false;
    let mut i: usize = 0;
    while i < 15
        invariant
            i <= 15,
            values == field_texts(exif@),
            EXIF_FIELDS@.len() == 15,
            started == (exif_lines(values, i as nat).len() > 0),
            texts(lines@) == if started {
                about + (seq!["\nEXIF"@] + exif_lines(values, i as nat))
            } else {
                about
            },
        decreases 15 - i,
    {
        if i < exif.len() {
            match &exif[i] {
                Some(value) => {
                    if !started {
                        push_line(&mut lines, "\nEXIF".to_owned());
                        started = true;
                    }
                    let mut line: String = labelled(EXIF_FIELDS[i].0, ": ");
                    line.append(value.as_str());
                    push_line(&mut lines, line);
                },
                None => {},
            }
        }
        i = i + 1;
        assert(texts(lines@) =~= if started {
            about + (seq!["\nEXIF"@] + exif_lines(values, i as nat))
        } else {
            about
        });
    }
    proof {
        assert(texts(lines@) =~= metadata_lines(path@, *source, file_type@, file_size, values));
    }
    join_lines(&lines)
}

/// The unit of a file size is the largest one that fits into it, of those that are 1024 times as
/// large as the one before.
pub proof fn sizes_have_the_largest_unit(bytes: nat)
    ensures
        ({
            let (size, name) = size_unit(bytes);
            &&& size == 1 || size <= bytes
            &&& bytes < 0x400 * size || size == 0x100_0000_0000
            &&& size == 1 && name == "B"@ || size == 0x400 && name == "KiB"@ || size == 0x10_0000
                && name == "MiB"@ || size == 0x4000_0000 && name == "GiB"@ || size
                == 0x100_0000_0000 && name == "TiB"@
        }),
{
}

/// A file size is told in its unit: bytes as they are, and more with one decimal place, the tenths
/// being those nearest to the size.
pub proof fn sizes_are_told_in_tenths(bytes: nat) -> (parts: (Seq<char>, Seq<char>))
    requires
        bytes <= 0x20_0000_0000_0000,
    ensures
        ({
            let (size, name) = size_unit(bytes);
            let (whole, tenth) = parts;
            let tenths = number_value(whole + tenth);
            &&& bytes < 0x400 ==> size_text(bytes) == decimal(bytes) + " B"@
            &&& bytes >= 0x400 ==> {
                &&& size_text(bytes) == whole + seq!['.'] + tenth + " "@ + name
                &&& all_digits(whole) && all_digits(tenth)
                &&& whole.len() > 0 && tenth.len() == 1
                &&& 2 * (tenths * size) <= 20 * bytes + size
                &&& 20 * bytes <= 2 * (tenths * size) + size
            }
        }),
{
    let (size, name) = size_unit(bytes);
    reveal_strlit(" B");
    reveal_strlit(" ");
    reveal_strlit("B");
    if bytes < 0x400 {
        assert(decimal(bytes) + " "@ + "B"@ =~= decimal(bytes) + " B"@);
        (seq![], seq![])
    } else {
        let u = one();
        let k: nat = if size == 0x400 {
            10
        } else if size == 0x10_0000 {
            20
        } else if size == 0x4000_0000 {
            30
        } else {
            40
        };
        lemma2_to64();
        lemma2_to64_rest();
        lemma_pow2_adds((1074 - k) as nat, k);
        lemma_pow2_pos(1074);
        lemma_whole_exact(bytes as int);
        lemma_whole_exact(size);
        let p = pow2((1074 - k) as nat);
        let s = size as nat;
        let q = bytes * p;
        lemma_rounded_exact(bytes, (1074 - k) as nat);
        assert(s * u > 0) by (nonlinear_arith)
            requires
                s > 0,
                u > 0,
        ;
        assert(((bytes * u) * u) * 1 == q * (s * u)) by (nonlinear_arith)
            requires
                q == bytes * p,
                p * s == u,
        ;
        lemma_rounded_ratio(53, 0, (bytes * u) * u, s * u, q, 1);
        lemma_pow2_adds(53, (1074 - k) as nat);
        lemma_pow2_strictly_increases((1127 - k) as nat, 2098);
        assert(q <= 0x20_0000_0000_0000 * p) by (nonlinear_arith)
            requires
                q == bytes * p,
                bytes <= 0x20_0000_0000_0000,
        ;
        assert(whole(bytes as int).over(whole(size)) == (Number::Finite {
            negative: false,
            units: q,
        }));
        let (first, tenth) = fixed_is_nearest(false, q, 1);
        let tenths = number_value(first + tenth);
        reveal_with_fuel(power_of_ten, 2);
        assert(power_of_ten(1) == 10);
        let text = fixed(Number::Finite { negative: false, units: q }, 1);
        assert(text =~= first + seq!['.'] + tenth);
        assert(q * s == bytes * u) by (nonlinear_arith)
            requires
                q == bytes * p,
                p * s == u,
        ;
        assert(2 * (tenths * s) <= 20 * bytes + s && 20 * bytes <= 2 * (tenths * s) + s)
            by (nonlinear_arith)
            requires
                2 * (tenths * u) <= 2 * (q * 10) + u,
                2 * (q * 10) <= 2 * (tenths * u) + u,
                q * s == bytes * u,
                s > 0,
                u > 0,
        {
            assert((2 * (tenths * u)) * s <= (2 * (q * 10) + u) * s);
            assert((2 * (q * 10)) * s <= (2 * (tenths * u) + u) * s);
            assert((2 * (tenths * u)) * s == (2 * (tenths * s)) * u);
            assert((2 * (q * 10)) * s == (20 * bytes) * u);
            assert(u * s == s * u);
            assert((2 * (tenths * s)) * u <= (20 * bytes + s) * u);
            assert((20 * bytes) * u <= (2 * (tenths * s) + s) * u);
        }
        (first, tenth)
    }
}

/// Lines stand one below the other, in their order.
pub proof fn lines_follow_each_other(lines: Seq<Seq<char>>, line: Seq<char>)
    ensures
        joined(seq![line]) == line,
        lines.len() > 0 ==> joined(lines.push(line)) == joined(lines) + "\n"@ + line,
{
    if lines.len() > 0 {
        assert(lines.push(line).drop_last() =~= lines);
    }
}

/// The metadata panel starts with the name, the type, the size in pixels and the bands of a file,
/// and then tells its size in bytes where that is known, and its resolution.
pub proof fn panel_describes_the_file(
    path: Seq<u8>,
    source: SourceInfo,
    file_type: Seq<char>,
    file_size: Option<u64>,
    exif: Seq<Option<Seq<char>>>,
)
    ensures
        ({
            let lines = metadata_lines(path, source, file_type, file_size, exif);
            let resolution = "Resolution: "@ + fixed(source.xres@, 2) + " × "@ + fixed(
                source.yres@,
                2,
            ) + " px/mm"@;
            &&& lines.len() >= 5
            &&& lines[0] == "File\n"@ + text_or(file_name(path), "image"@) + "\n"@
            &&& lines[1] == "Type: "@ + file_type
            &&& lines[2] == "Dimensions: "@ + decimal_signed(source.width as int) + " × "@
                + decimal_signed(source.height as int)
            &&& lines[3] == "Bands: "@ + decimal_signed(source.bands as int)
            &&& file_size matches Some(bytes) ==> lines.len() >= 6 && lines[4] == "File size: "@
                + size_text(bytes as nat) && lines[5] == resolution
            &&& file_size is None ==> lines[4] == resolution
        }),
{
}

/// Behind its first lines the metadata panel tells the pages where there are several, the
/// orientation where it is not the upright one, and the EXIF fields that have a value, below a
/// heading that is only there with them.
pub proof fn panel_tells_what_is_special(
    path: Seq<u8>,
    source: SourceInfo,
    file_type: Seq<char>,
    file_size: Option<u64>,
    exif: Seq<Option<Seq<char>>>,
)
    ensures
        ({
            let lines = metadata_lines(path, source, file_type, file_size, exif);
            let first: int = if file_size is Some {
                6
            } else {
                5
            };
            let pages = if source.pages > 1 {
                seq!["Pages: "@ + decimal_signed(source.pages as int)]
            } else {
                seq![]
            };
            let orientation = if source.orientation > 1 {
                seq!["Orientation: "@ + decimal_signed(source.orientation as int)]
            } else {
                seq![]
            };
            let fields = exif_lines(exif, 15);
            lines.skip(first) == pages + orientation + if fields.len() > 0 {
                seq!["\nEXIF"@] + fields
            } else {
                seq![]
            }
        }),
{
    let lines = metadata_lines(path, source, file_type, file_size, exif);
    let first: int = if file_size is Some {
        6
    } else {
        5
    };
    let pages = if source.pages > 1 {
        seq!["Pages: "@ + decimal_signed(source.pages as int)]
    } else {
        seq![]
    };
    let orientation = if source.orientation > 1 {
        seq!["Orientation: "@ + decimal_signed(source.orientation as int)]
    } else {
        seq![]
    };
    let fields = exif_lines(exif, 15);
    let rest = if fields.len() > 0 {
        seq!["\nEXIF"@] + fields
    } else {
        seq![]
    };
    assert(EXIF_FIELDS@.len() == 15);
    assert(lines.skip(first) =~= pages + orientation + rest);
}

/// Every EXIF field with a value is told once, with its label, in the order of the fields; one
/// without a value is not told.
pub proof fn fields_with_values_are_told(exif: Seq<Option<Seq<char>>>, count: nat, i: int)
    requires
        0 <= i < count <= 15,
    ensures
        i < exif.len() && exif[i] is Some ==> {
            let before = exif_lines(exif, i as nat).len() as int;
            &&& before < exif_lines(exif, count).len()
            &&& exif_lines(exif, count)[before] == EXIF_FIELDS@[i].0@ + ": "@ + exif[i]->0
            &&& exif_lines(exif, (i + 1) as nat).len() == before + 1
        },
        i >= exif.len() || exif[i] is None ==> exif_lines(exif, (i + 1) as nat) == exif_lines(
            exif,
            i as nat,
        ),
    decreases count,
{
    if i + 1 < count {
        fields_with_values_are_told(exif, (count - 1) as nat, i);
    }
}

/// The text of a field is its value as it is, where there is one.
pub proof fn fields_are_told_as_they_are(values: Seq<Option<String>>, i: int)
    requires
        0 <= i < values.len(),
    ensures
        field_texts(values).len() == values.len(),
        values[i] is None ==> field_texts(values)[i] is None,
        values[i] matches Some(text) ==> field_texts(values)[i] == Some(text@),
{
}

} // verus!
