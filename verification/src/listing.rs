//! The images of a folder, in natural order.
use crate::path::{
    decode, decode_lossy, extension, extension_follows_the_last_dot, file_name, lossy,
    name_follows_the_last_slash, ImagePath,
};
use crate::text::{
    all_digits, ascii_lower, before, characters, comes_before, first_difference, is_digit,
    lemma_before_is_total, lemma_before_is_transitive, lemma_first_difference_exists,
    lemma_first_difference_unique, number_value, same_text, text_before, text_from, to_ascii_lower,
};
use vstd::prelude::*;
use vstd::utf8::*;

verus! {

/// Whether files with an extension are shown; capitals count as lower-case letters.
pub open spec fn supported_extension(text: Seq<char>) -> bool {
    let lower = text.map_values(|c: char| ascii_lower(c));
    ||| lower == "avif"@
    ||| lower == "bmp"@
    ||| lower == "gif"@
    ||| lower == "heic"@
    ||| lower == "heif"@
    ||| lower == "jpeg"@
    ||| lower == "jpg"@
    ||| lower == "jxl"@
    ||| lower == "png"@
    ||| lower == "tif"@
    ||| lower == "tiff"@
    ||| lower == "webp"@
}

/// Whether a path names an image that can be shown.
pub open spec fn supported(path: Seq<u8>) -> bool {
    match extension(path) {
        Some(bytes) => valid_utf8(bytes) && supported_extension(decode_utf8(bytes)),
        None => false,
    }
}

/// Whether a path names an image that can be shown.
pub fn is_supported_image(path: &ImagePath) -> (r: bool)
    ensures
        r == supported(path@),
{
    match path.extension() {
        None => false,
        Some(bytes) => match decode(bytes.as_slice()) {
            None => false,
            Some(text) => {
                let lower: String = to_ascii_lower(text.as_str());
                let s: &str = lower.as_str();
                same_text(s, "avif") || same_text(s, "bmp") || same_text(s, "gif") || same_text(
                    s,
                    "heic",
                ) || same_text(s, "heif") || same_text(s, "jpeg") || same_text(s, "jpg")
                    || same_text(s, "jxl") || same_text(s, "png") || same_text(s, "tif")
                    || same_text(s, "tiff") || same_text(s, "webp")
            },
        },
    }
}

/// A run of a name: of digits, without leading zeros and with their count, or of other characters.
#[derive(PartialEq, Eq, PartialOrd, Ord, Debug)]
pub enum NaturalChunk {
    Number(usize, String),
    Text(String),
}

/// What a run of a name stands for.
pub enum Chunk {
    Number(Seq<char>),
    Text(Seq<char>),
}

impl View for NaturalChunk {
    type V = Chunk;

    open spec fn view(&self) -> Chunk {
        match self {
            NaturalChunk::Number(_, digits) => Chunk::Number(digits@),
            NaturalChunk::Text(text) => Chunk::Text(text@),
        }
    }
}

impl NaturalChunk {
    /// Whether the count of digits is right.
    pub open spec fn counted(&self) -> bool {
        self matches NaturalChunk::Number(count, digits) ==> count == digits@.len()
    }
}

/// How many characters at the start are digits, or are none.
pub open spec fn run_length(name: Seq<char>, digits: bool) -> nat
    decreases name.len(),
{
    if name.len() == 0 || is_digit(name[0]) != digits {
        0
    } else {
        1 + run_length(name.drop_first(), digits)
    }
}

/// Digits without leading zeros.
pub open spec fn stripped(digits: Seq<char>) -> Seq<char>
    decreases digits.len(),
{
    if digits.len() > 0 && digits[0] == '0' {
        stripped(digits.drop_first())
    } else {
        digits
    }
}

pub proof fn lemma_run_length(name: Seq<char>, digits: bool)
    ensures
        run_length(name, digits) <= name.len(),
        name.len() > 0 && is_digit(name[0]) == digits ==> run_length(name, digits) > 0,
        forall|i: int| 0 <= i < run_length(name, digits) ==> is_digit(#[trigger] name[i]) == digits,
        run_length(name, digits) < name.len() ==> is_digit(name[run_length(name, digits) as int])
            != digits,
    decreases name.len(),
{
    if name.len() > 0 && is_digit(name[0]) == digits {
        let rest = name.drop_first();
        lemma_run_length(rest, digits);
        assert forall|i: int| 0 <= i < run_length(name, digits) implies is_digit(#[trigger] name[i])
            == digits by {
            if i > 0 {
                assert(name[i] == rest[i - 1]);
            }
        }
    }
}

/// A name split into runs of digits and runs of other characters.
pub open spec fn chunks(name: Seq<char>) -> Seq<Chunk>
    decreases name.len(),
{
    if name.len() == 0 {
        seq![]
    } else {
        let digits = is_digit(name[0]);
        let length = run_length(name, digits) as int;
        let run = name.take(length);
        proof {
            lemma_run_length(name, digits);
        }
        seq![
            if digits {
                Chunk::Number(stripped(run))
            } else {
                Chunk::Text(run)
            },
        ] + chunks(name.skip(length))
    }
}

/// The order of runs: numbers before text; numbers by the count of their digits and then by the
/// digits.
pub open spec fn chunk_before(a: Chunk, b: Chunk) -> bool {
    match (a, b) {
        (Chunk::Number(x), Chunk::Number(y)) => x.len() < y.len() || (x.len() == y.len()
            && text_before(x, y)),
        (Chunk::Number(_), Chunk::Text(_)) => true,
        (Chunk::Text(_), Chunk::Number(_)) => false,
        (Chunk::Text(x), Chunk::Text(y)) => text_before(x, y),
    }
}

/// What a file name is sorted by: the runs of its lower-case form, then the name itself.
pub struct SortKey {
    pub chunks: Seq<Chunk>,
    pub name: Seq<char>,
}

/// The natural order of file names.
pub open spec fn key_before(a: SortKey, b: SortKey) -> bool {
    let less = |x: Chunk, y: Chunk| chunk_before(x, y);
    before(a.chunks, b.chunks, less) || (a.chunks == b.chunks && text_before(a.name, b.name))
}

pub open spec fn all_ascii(text: Seq<char>) -> bool {
    forall|i: int| 0 <= i < text.len() ==> (#[trigger] text[i] as u32) < 128
}

/// What `str::to_lowercase` of std makes of a text.
pub uninterp spec fn lowercase(text: Seq<char>) -> Seq<char>;

/// The lower-case form of a text.
pub open spec fn lowered(text: Seq<char>) -> Seq<char> {
    if all_ascii(text) {
        text.map_values(|c: char| ascii_lower(c))
    } else {
        lowercase(text)
    }
}

/// Calls `str::to_lowercase`, whose result is a function of the text. Of a text of ASCII
/// characters it is that text with its ASCII capitals replaced.
#[verifier::external_body]
fn to_lowercase(text: &str) -> (r: String)
    ensures
        r@ == lowercase(text@),
        all_ascii(text@) ==> r@ == text@.map_values(|c: char| ascii_lower(c)),
{
    text.to_lowercase()
}

pub open spec fn views(list: Seq<NaturalChunk>) -> Seq<Chunk> {
    list.map_values(|c: NaturalChunk| c@)
}

/// Splits a lower-case name into its runs.
pub fn natural_chunks(lower: &str) -> (r: Vec<NaturalChunk>)
    ensures
        views(r@) == chunks(lower@),
        forall|i: int| 0 <= i < r.len() ==> (#[trigger] r[i]).counted(),
{
    let name: Vec<char> = characters(lower);
    let mut r: Vec<NaturalChunk> = Vec::new();
    let mut start: usize = 0;
    assert(lower@.skip(0) =~= lower@);
    assert(views(r@) + chunks(lower@) =~= chunks(lower@));
    while start < name.len()
        invariant
            name@ == lower@,
            start <= name.len(),
            views(r@) + chunks(lower@.skip(start as int)) == chunks(lower@),
            forall|i: int| 0 <= i < r.len() ==> (#[trigger] r[i]).counted(),
        decreases name.len() - start,
    {
        let ghost rest = lower@.skip(start as int);
        let ghost done = views(r@);
        let first: char = name[start];
        let digits: bool = '0' <= first && first <= '9';
        let end: usize = end_of_run(&name, start, digits);
        let ghost length = run_length(rest, digits);
        let ghost run = rest.take(length as int);
        assert(run =~= lower@.subrange(start as int, end as int));
        let chunk: NaturalChunk = if digits {
            let mut from: usize = start;
            assert(lower@.subrange(from as int, end as int) =~= run);
            while from < end && name[from] == '0'
                invariant
                    start <= from <= end <= name.len(),
                    name@ == lower@,
                    stripped(lower@.subrange(from as int, end as int)) == stripped(run),
                decreases end - from,
            {
                assert(lower@.subrange(from as int, end as int).drop_first() =~= lower@.subrange(
                    from + 1,
                    end as int,
                ));
                from = from + 1;
            }
            NaturalChunk::Number(end - from, text_from(&name, from, end))
        } else {
            NaturalChunk::Text(text_from(&name, start, end))
        };
        let ghost added = chunk@;
        r.push(chunk);
        proof {
            lemma_run_length(rest, digits);
            assert(rest.skip(length as int) =~= lower@.skip(end as int));
            assert(chunks(rest) == seq![added] + chunks(lower@.skip(end as int)));
            assert(views(r@) =~= done.push(added));
            assert(views(r@) + chunks(lower@.skip(end as int)) =~= done + chunks(rest));
        }
        start = end;
    }
    assert(lower@.skip(start as int) =~= Seq::<char>::empty());
    assert(views(r@) =~= views(r@) + Seq::<Chunk>::empty());
    r
}

fn end_of_run(name: &Vec<char>, start: usize, digits: bool) -> (end: usize)
    requires
        start < name.len(),
        is_digit(name[start as int]) == digits,
    ensures
        start < end <= name.len(),
        end - start == run_length(name@.skip(start as int), digits),
{
    let mut end: usize = start;
    let ghost rest = name@.skip(start as int);
    assert(name@.skip(end as int) =~= rest);
    while end < name.len() && ('0' <= name[end] && name[end] <= '9') == digits
        invariant
            start <= end <= name.len(),
            run_length(rest, digits) == end - start + run_length(name@.skip(end as int), digits),
        decreases name.len() - end,
    {
        assert(name@.skip(end as int).drop_first() =~= name@.skip(end + 1));
        end = end + 1;
    }
    proof {
        lemma_run_length(rest, digits);
    }
    end
}

/// The sort key of a name: case does not count, and runs of digits are compared as numbers. The
/// name itself decides between names that are the same otherwise.
pub fn natural_sort_key(name: &str) -> (r: (Vec<NaturalChunk>, String))
    ensures
        views(r.0@) == chunks(lowered(name@)),
        forall|i: int| 0 <= i < r.0.len() ==> (#[trigger] r.0[i]).counted(),
        r.1@ == name@,
{
    let lower: String = to_lowercase(name);
    (natural_chunks(lower.as_str()), name.to_owned())
}

/// The key that a name is sorted by.
pub open spec fn sort_key(name: Seq<char>) -> SortKey {
    SortKey { chunks: chunks(lowered(name)), name }
}

fn chunk_comes_before(a: &NaturalChunk, b: &NaturalChunk) -> (r: bool)
    requires
        a.counted(),
        b.counted(),
    ensures
        r == chunk_before(a@, b@),
{
    match (a, b) {
        (NaturalChunk::Number(m, x), NaturalChunk::Number(n, y)) => *m < *n || (*m == *n
            && comes_before(x.as_str(), y.as_str())),
        (NaturalChunk::Number(_, _), NaturalChunk::Text(_)) => true,
        (NaturalChunk::Text(_), NaturalChunk::Number(_, _)) => false,
        (NaturalChunk::Text(x), NaturalChunk::Text(y)) => comes_before(x.as_str(), y.as_str()),
    }
}

fn same_chunk(a: &NaturalChunk, b: &NaturalChunk) -> (r: bool)
    ensures
        r == (a@ == b@),
{
    match (a, b) {
        (NaturalChunk::Number(_, x), NaturalChunk::Number(_, y)) => same_text(
            x.as_str(),
            y.as_str(),
        ),
        (NaturalChunk::Number(_, _), NaturalChunk::Text(_)) => false,
        (NaturalChunk::Text(_), NaturalChunk::Number(_, _)) => false,
        (NaturalChunk::Text(x), NaturalChunk::Text(y)) => same_text(x.as_str(), y.as_str()),
    }
}

pub open spec fn key_view(key: (Vec<NaturalChunk>, String)) -> SortKey {
    SortKey { chunks: views(key.0@), name: key.1@ }
}

/// Whether a key comes before another one in natural order.
pub fn key_comes_before(
    a: &(Vec<NaturalChunk>, String),
    b: &(Vec<NaturalChunk>, String),
) -> (r: bool)
    requires
        forall|i: int| 0 <= i < a.0.len() ==> (#[trigger] a.0[i]).counted(),
        forall|i: int| 0 <= i < b.0.len() ==> (#[trigger] b.0[i]).counted(),
    ensures
        r == key_before(key_view(*a), key_view(*b)),
{
    let ghost x = views(a.0@);
    let ghost y = views(b.0@);
    let ghost less = |x: Chunk, y: Chunk| chunk_before(x, y);
    let mut i: usize = 0;
    assert(x.take(0) =~= y.take(0));
    while i < a.0.len() && i < b.0.len() && same_chunk(&a.0[i], &b.0[i])
        invariant
            x == views(a.0@),
            y == views(b.0@),
            i <= a.0.len(),
            i <= b.0.len(),
            x.take(i as int) == y.take(i as int),
        decreases a.0.len() - i,
    {
        assert(x.take(i + 1) =~= x.take(i as int).push(x[i as int]));
        assert(y.take(i + 1) =~= y.take(i as int).push(y[i as int]));
        i = i + 1;
    }
    if i == a.0.len() && i == b.0.len() {
        proof {
            assert(x =~= x.take(i as int));
            assert(y =~= y.take(i as int));
            assert forall|j: int| !first_difference(x, y, j) by {}
        }
        return comes_before(a.1.as_str(), b.1.as_str());
    }
    proof {
        assert(first_difference(x, y, i as int));
        assert forall|j: int| first_difference(x, y, j) implies j == i by {
            lemma_first_difference_unique(x, y, i as int, j);
        }
        assert(x != y);
    }
    if i < b.0.len() {
        i == a.0.len() || chunk_comes_before(&a.0[i], &b.0[i])
    } else {
        false
    }
}

/// Text is ordered strictly and totally.
pub proof fn text_order_is_total(a: Seq<char>, b: Seq<char>)
    ensures
        a == b ==> !text_before(a, b),
        a != b ==> (text_before(a, b) <==> !text_before(b, a)),
{
    lemma_before_is_total(a, b, |x: char, y: char| x < y);
}

pub proof fn text_order_is_transitive(a: Seq<char>, b: Seq<char>, c: Seq<char>)
    requires
        text_before(a, b),
        text_before(b, c),
    ensures
        text_before(a, c),
{
    lemma_before_is_transitive(a, b, c, |x: char, y: char| x < y);
}

proof fn lemma_chunk_total(a: Chunk, b: Chunk)
    ensures
        a == b ==> !chunk_before(a, b),
        a != b ==> (chunk_before(a, b) <==> !chunk_before(b, a)),
{
    match (a, b) {
        (Chunk::Number(x), Chunk::Number(y)) => text_order_is_total(x, y),
        (Chunk::Text(x), Chunk::Text(y)) => text_order_is_total(x, y),
        _ => {},
    }
}

proof fn lemma_chunk_transitive(a: Chunk, b: Chunk, c: Chunk)
    requires
        chunk_before(a, b),
        chunk_before(b, c),
    ensures
        chunk_before(a, c),
{
    match (a, b, c) {
        (Chunk::Number(x), Chunk::Number(y), Chunk::Number(z)) => {
            if x.len() == y.len() && y.len() == z.len() {
                text_order_is_transitive(x, y, z);
            }
        },
        (Chunk::Text(x), Chunk::Text(y), Chunk::Text(z)) => {
            text_order_is_transitive(x, y, z);
        },
        _ => {},
    }
}

/// Of two different sort keys exactly one comes before the other, and none comes before itself.
pub proof fn natural_order_is_total(a: SortKey, b: SortKey)
    ensures
        a == b ==> !key_before(a, b),
        a != b ==> (key_before(a, b) <==> !key_before(b, a)),
{
    let less = |x: Chunk, y: Chunk| chunk_before(x, y);
    assert forall|x: Chunk, y: Chunk| #[trigger] less(x, y) implies !less(y, x) by {
        lemma_chunk_total(x, y);
    }
    assert forall|x: Chunk, y: Chunk| x != y implies #[trigger] less(x, y) || less(y, x) by {
        lemma_chunk_total(x, y);
    }
    lemma_before_is_total(a.chunks, b.chunks, less);
    text_order_is_total(a.name, b.name);
}

/// The natural order is transitive.
pub proof fn natural_order_is_transitive(a: SortKey, b: SortKey, c: SortKey)
    requires
        key_before(a, b),
        key_before(b, c),
    ensures
        key_before(a, c),
{
    let less = |x: Chunk, y: Chunk| chunk_before(x, y);
    assert forall|x: Chunk, y: Chunk| #[trigger] less(x, y) implies !less(y, x) by {
        lemma_chunk_total(x, y);
    }
    assert forall|x: Chunk, y: Chunk, z: Chunk|
        #![trigger less(x, y), less(y, z)]
        less(x, y) && less(y, z) implies less(x, z) by {
        lemma_chunk_transitive(x, y, z);
    }
    if before(a.chunks, b.chunks, less) && before(b.chunks, c.chunks, less) {
        lemma_before_is_transitive(a.chunks, b.chunks, c.chunks, less);
    } else if !before(a.chunks, b.chunks, less) && !before(b.chunks, c.chunks, less) {
        text_order_is_transitive(a.name, b.name, c.name);
    }
}

spec fn ten_to(n: nat) -> int
    decreases n,
{
    if n == 0 {
        1
    } else {
        10 * ten_to((n - 1) as nat)
    }
}

proof fn lemma_ten_to_grows(m: nat, n: nat)
    requires
        m <= n,
    ensures
        0 < ten_to(m) <= ten_to(n),
    decreases n,
{
    if m < n {
        lemma_ten_to_grows(m, (n - 1) as nat);
    } else if n > 0 {
        lemma_ten_to_grows((m - 1) as nat, (n - 1) as nat);
    }
}

proof fn lemma_number_bounds(digits: Seq<char>)
    requires
        all_digits(digits),
    ensures
        0 <= number_value(digits) < ten_to(digits.len()),
        digits.len() > 0 && digits[0] != '0' ==> number_value(digits) >= ten_to(
            (digits.len() - 1) as nat,
        ),
    decreases digits.len(),
{
    if digits.len() > 0 {
        let rest = digits.drop_last();
        assert forall|i: int| 0 <= i < rest.len() implies is_digit(#[trigger] rest[i]) by {
            assert(is_digit(digits[i]));
        }
        lemma_number_bounds(rest);
        assert(is_digit(digits[digits.len() - 1]));
        if digits.len() == 1 {
            assert(is_digit(digits[0]));
        } else {
            assert(rest[0] == digits[0]);
        }
    }
}

proof fn lemma_leading_zero(digits: Seq<char>)
    requires
        digits.len() > 0,
        digits[0] == '0',
    ensures
        number_value(digits.drop_first()) == number_value(digits),
    decreases digits.len(),
{
    if digits.len() == 1 {
        assert(digits.drop_last() =~= Seq::<char>::empty());
        assert(digits.drop_first() =~= Seq::<char>::empty());
    } else {
        assert(digits.drop_first().drop_last() =~= digits.drop_last().drop_first());
        lemma_leading_zero(digits.drop_last());
    }
}

proof fn lemma_stripped(digits: Seq<char>)
    requires
        all_digits(digits),
    ensures
        all_digits(stripped(digits)),
        number_value(stripped(digits)) == number_value(digits),
        stripped(digits).len() > 0 ==> stripped(digits)[0] != '0',
    decreases digits.len(),
{
    if digits.len() > 0 && digits[0] == '0' {
        lemma_leading_zero(digits);
        let rest = digits.drop_first();
        assert forall|i: int| 0 <= i < rest.len() implies is_digit(#[trigger] rest[i]) by {
            assert(is_digit(digits[i + 1]));
        }
        lemma_stripped(rest);
    }
}

/// Digit strings of one length are ordered as the numbers are.
proof fn lemma_same_length_order(x: Seq<char>, y: Seq<char>)
    requires
        all_digits(x),
        all_digits(y),
        x.len() == y.len(),
    ensures
        text_before(x, y) <==> number_value(x) < number_value(y),
        x == y <==> number_value(x) == number_value(y),
    decreases x.len(),
{
    text_order_is_total(x, y);
    if x.len() == 0 {
        assert(x =~= y);
    } else {
        let a = x.drop_last();
        let b = y.drop_last();
        let n = x.len() - 1;
        assert forall|i: int| 0 <= i < a.len() implies is_digit(#[trigger] a[i]) by {
            assert(is_digit(x[i]));
        }
        assert forall|i: int| 0 <= i < b.len() implies is_digit(#[trigger] b[i]) by {
            assert(is_digit(y[i]));
        }
        lemma_same_length_order(a, b);
        text_order_is_total(a, b);
        assert(is_digit(x[n]) && is_digit(y[n]));
        assert(x =~= a.push(x[n]));
        assert(y =~= b.push(y[n]));
        if a == b {
            if x[n] != y[n] {
                assert(x.take(n) =~= a);
                assert(y.take(n) =~= b);
                assert(first_difference(x, y, n));
                assert forall|j: int| first_difference(x, y, j) implies j == n by {
                    lemma_first_difference_unique(x, y, n, j);
                }
            }
        } else {
            let i = lemma_first_difference_exists(a, b);
            assert(x.take(i) =~= a.take(i));
            assert(y.take(i) =~= b.take(i));
            assert(first_difference(x, y, i));
            assert forall|j: int| first_difference(x, y, j) implies j == i by {
                lemma_first_difference_unique(x, y, i, j);
            }
            assert forall|j: int| first_difference(a, b, j) implies j == i by {
                lemma_first_difference_unique(a, b, i, j);
            }
            assert(text_before(x, y) <==> x[i] < y[i]);
            assert(text_before(a, b) <==> a[i] < b[i]);
        }
    }
}

/// Runs of digits are ordered as the numbers that they stand for, however many leading zeros they
/// have and however long they are.
pub proof fn digit_runs_are_ordered_by_value(x: Seq<char>, y: Seq<char>)
    requires
        all_digits(x),
        all_digits(y),
    ensures
        chunk_before(Chunk::Number(stripped(x)), Chunk::Number(stripped(y))) <==> number_value(x)
            < number_value(y),
        stripped(x) == stripped(y) <==> number_value(x) == number_value(y),
{
    lemma_stripped(x);
    lemma_stripped(y);
    let a = stripped(x);
    let b = stripped(y);
    lemma_number_bounds(a);
    lemma_number_bounds(b);
    if a.len() < b.len() {
        lemma_ten_to_grows(a.len(), (b.len() - 1) as nat);
    } else if b.len() < a.len() {
        lemma_ten_to_grows(b.len(), (a.len() - 1) as nat);
    } else {
        lemma_same_length_order(a, b);
    }
}

proof fn lemma_run_length_unique(name: Seq<char>, digits: bool, length: int)
    requires
        0 <= length <= name.len(),
        forall|i: int| 0 <= i < length ==> is_digit(#[trigger] name[i]) == digits,
        length < name.len() ==> is_digit(name[length]) != digits,
    ensures
        run_length(name, digits) == length,
{
    lemma_run_length(name, digits);
    let other = run_length(name, digits) as int;
    if other < length {
        assert(is_digit(name[other]) == digits);
    }
}

/// Where a run ends between two texts, the runs of both texts together are those of each.
proof fn lemma_chunks_split(x: Seq<char>, y: Seq<char>)
    requires
        x.len() > 0 && y.len() > 0 ==> is_digit(x.last()) != is_digit(y[0]),
    ensures
        chunks(x + y) == chunks(x) + chunks(y),
    decreases x.len(),
{
    let all = x + y;
    if x.len() == 0 {
        assert(all =~= y);
        assert(chunks(x) + chunks(y) =~= chunks(y));
    } else {
        let digits = is_digit(x[0]);
        let length = run_length(x, digits) as int;
        lemma_run_length(x, digits);
        assert forall|i: int| 0 <= i < length implies is_digit(#[trigger] all[i]) == digits by {
            assert(all[i] == x[i]);
        }
        if length < x.len() {
            assert(all[length] == x[length]);
        } else if y.len() > 0 {
            assert(all[length] == y[0]);
            assert(is_digit(x[length - 1]) == digits);
        }
        lemma_run_length_unique(all, digits, length);
        let rest = x.skip(length);
        assert(all.take(length) =~= x.take(length));
        assert(all.skip(length) =~= rest + y);
        if rest.len() > 0 {
            assert(rest.last() == x.last());
        }
        lemma_chunks_split(rest, y);
        assert(chunks(all) =~= chunks(x) + chunks(y));
    }
}

proof fn lemma_digit_chunk(digits: Seq<char>)
    requires
        digits.len() > 0,
        all_digits(digits),
    ensures
        chunks(digits) == seq![Chunk::Number(stripped(digits))],
{
    assert(is_digit(digits[0]));
    lemma_run_length_unique(digits, true, digits.len() as int);
    assert(digits.take(digits.len() as int) =~= digits);
    assert(digits.skip(digits.len() as int) =~= Seq::<char>::empty());
    assert(chunks(digits.skip(digits.len() as int)) == Seq::<Chunk>::empty());
    assert(chunks(digits) =~= seq![Chunk::Number(stripped(digits))]);
}

/// The runs of a text of three parts, of which the middle one is a run of digits.
proof fn lemma_name_chunks(start: Seq<char>, digits: Seq<char>, end: Seq<char>)
    requires
        digits.len() > 0,
        all_digits(digits),
        start.len() > 0 ==> !is_digit(start.last()),
        end.len() > 0 ==> !is_digit(end[0]),
    ensures
        chunks(start + digits + end) == chunks(start) + seq![Chunk::Number(stripped(digits))]
            + chunks(end),
{
    let name = start + digits + end;
    assert(name =~= start + (digits + end));
    assert(is_digit(digits[0]));
    assert(is_digit(digits[digits.len() - 1]));
    lemma_chunks_split(digits, end);
    lemma_chunks_split(start, digits + end);
    lemma_digit_chunk(digits);
    assert(chunks(name) =~= chunks(start) + seq![Chunk::Number(stripped(digits))] + chunks(end));
}

/// Names whose lowercase forms have the same start are ordered by the number that follows it,
/// whatever comes behind, and however long the numbers are and however many leading zeros they
/// have.
pub proof fn names_are_ordered_by_number(
    x: Seq<char>,
    y: Seq<char>,
    start: Seq<char>,
    a: Seq<char>,
    a_end: Seq<char>,
    b: Seq<char>,
    b_end: Seq<char>,
)
    requires
        lowered(x) == start + a + a_end,
        lowered(y) == start + b + b_end,
        a.len() > 0,
        b.len() > 0,
        all_digits(a),
        all_digits(b),
        start.len() > 0 ==> !is_digit(start.last()),
        a_end.len() > 0 ==> !is_digit(a_end[0]),
        b_end.len() > 0 ==> !is_digit(b_end[0]),
        number_value(a) < number_value(b),
    ensures
        key_before(sort_key(x), sort_key(y)),
{
    lemma_name_chunks(start, a, a_end);
    lemma_name_chunks(start, b, b_end);
    digit_runs_are_ordered_by_value(a, b);
    let first = chunks(start);
    let s = sort_key(x).chunks;
    let t = sort_key(y).chunks;
    let n = first.len() as int;
    assert(s.take(n) =~= first);
    assert(t.take(n) =~= first);
    assert(s[n] == Chunk::Number(stripped(a)));
    assert(t[n] == Chunk::Number(stripped(b)));
    assert(first_difference(s, t, n));
    let less = |x: Chunk, y: Chunk| chunk_before(x, y);
    assert(before(s, t, less));
}

/// The lowercase form of an ASCII name of three parts, of which the middle one is a run of digits.
proof fn lemma_lowered_parts(start: Seq<char>, digits: Seq<char>, end: Seq<char>)
    requires
        all_digits(digits),
        all_ascii(start + digits + end),
    ensures
        lowered(start + digits + end) == start.map_values(|c: char| ascii_lower(c)) + digits
            + end.map_values(|c: char| ascii_lower(c)),
{
    let first = start.map_values(|c: char| ascii_lower(c));
    let last = end.map_values(|c: char| ascii_lower(c));
    assert forall|i: int| 0 <= i < digits.len() implies ascii_lower(#[trigger] digits[i])
        == digits[i] by {
        assert(is_digit(digits[i]));
    }
    assert(lowered(start + digits + end) =~= first + digits + last);
}

/// ASCII names with the same start, in letters of either case, are ordered by the number that
/// follows it.
pub proof fn ascii_names_are_ordered_by_number(
    a_start: Seq<char>,
    a: Seq<char>,
    a_end: Seq<char>,
    b_start: Seq<char>,
    b: Seq<char>,
    b_end: Seq<char>,
)
    requires
        a_start.map_values(|c: char| ascii_lower(c)) == b_start.map_values(
            |c: char| ascii_lower(c),
        ),
        a.len() > 0,
        b.len() > 0,
        all_digits(a),
        all_digits(b),
        a_start.len() > 0 ==> !is_digit(a_start.last()),
        a_end.len() > 0 ==> !is_digit(a_end[0]),
        b_end.len() > 0 ==> !is_digit(b_end[0]),
        all_ascii(a_start + a + a_end),
        all_ascii(b_start + b + b_end),
        number_value(a) < number_value(b),
    ensures
        key_before(sort_key(a_start + a + a_end), sort_key(b_start + b + b_end)),
{
    lemma_lowered_parts(a_start, a, a_end);
    lemma_lowered_parts(b_start, b, b_end);
    let start = a_start.map_values(|c: char| ascii_lower(c));
    names_are_ordered_by_number(
        a_start + a + a_end,
        b_start + b + b_end,
        start,
        a,
        a_end.map_values(|c: char| ascii_lower(c)),
        b,
        b_end.map_values(|c: char| ascii_lower(c)),
    );
}

/// The key by which a path is listed: that of its file name.
pub open spec fn listed_key(path: Seq<u8>) -> SortKey {
    sort_key(
        match file_name(path) {
            Some(name) => lossy(name),
            None => seq![],
        },
    )
}

/// Whether `output` holds the paths of `input`, at the positions of `order`, in natural order;
/// paths with equal keys stay in the order in which they came.
pub open spec fn natural_arrangement(
    input: Seq<Seq<u8>>,
    output: Seq<Seq<u8>>,
    order: Seq<int>,
) -> bool {
    &&& order.len() == input.len()
    &&& output.len() == input.len()
    &&& forall|i: int|
        0 <= i < order.len() ==> 0 <= #[trigger] order[i] < input.len() && output[i]
            == input[order[i]]
    &&& forall|k: int| 0 <= k < input.len() ==> #[trigger] order.contains(k)
    &&& forall|i: int, j: int|
        0 <= i < j < order.len() ==> listed_before(input, #[trigger] order[i], #[trigger] order[j])
}

/// Whether `output` holds the paths of `input` in natural order.
pub open spec fn naturally_sorted(input: Seq<Seq<u8>>, output: Seq<Seq<u8>>) -> bool {
    exists|order: Seq<int>| natural_arrangement(input, output, order)
}

/// Whether one position of a listing goes before another one.
pub open spec fn listed_before(input: Seq<Seq<u8>>, a: int, b: int) -> bool {
    key_before(listed_key(input[a]), listed_key(input[b])) || (listed_key(input[a]) == listed_key(
        input[b],
    ) && a < b)
}

pub open spec fn path_views(paths: Seq<ImagePath>) -> Seq<Seq<u8>> {
    paths.map_values(|p: ImagePath| p@)
}

/// There is only one natural arrangement of a listing.
pub proof fn natural_arrangement_is_unique(
    input: Seq<Seq<u8>>,
    first: Seq<Seq<u8>>,
    order1: Seq<int>,
    second: Seq<Seq<u8>>,
    order2: Seq<int>,
)
    requires
        natural_arrangement(input, first, order1),
        natural_arrangement(input, second, order2),
    ensures
        first == second,
        order1 == order2,
{
    if order1 != order2 {
        let i = lemma_first_difference_exists(order1, order2);
        let a = order1[i];
        let b = order2[i];
        assert(order2.contains(a));
        let p = choose|p: int| 0 <= p < order2.len() && order2[p] == a;
        assert(order1.contains(b));
        let q = choose|q: int| 0 <= q < order1.len() && order1[q] == b;
        if p < i {
            assert(order1.take(i)[p] == order2.take(i)[p]);
            assert(order1[p] == a);
            natural_order_is_total(listed_key(input[a]), listed_key(input[a]));
            assert(listed_before(input, order1[p], order1[i]));
        }
        if q < i {
            assert(order1.take(i)[q] == order2.take(i)[q]);
            assert(order2[q] == b);
            natural_order_is_total(listed_key(input[b]), listed_key(input[b]));
            assert(listed_before(input, order2[q], order2[i]));
        }
        assert(listed_before(input, order2[i], order2[p]));
        assert(listed_before(input, order1[i], order1[q]));
        natural_order_is_total(listed_key(input[a]), listed_key(input[b]));
        natural_order_is_total(listed_key(input[b]), listed_key(input[a]));
    }
    assert forall|i: int| 0 <= i < first.len() implies first[i] == second[i] by {
        assert(first[i] == input[order1[i]]);
        assert(second[i] == input[order2[i]]);
    }
    assert(first =~= second);
}

fn key_of(path: &ImagePath) -> (r: (Vec<NaturalChunk>, String))
    ensures
        key_view(r) == listed_key(path@),
        forall|i: int| 0 <= i < r.0.len() ==> (#[trigger] r.0[i]).counted(),
{
    let name: String = match path.file_name() {
        Some(bytes) => decode_lossy(bytes.as_slice()),
        None => String::new(),
    };
    natural_sort_key(name.as_str())
}

/// Sorts paths naturally by their file names.
pub fn sort_naturally(paths: &Vec<ImagePath>) -> (r: Vec<ImagePath>)
    ensures
        naturally_sorted(path_views(paths@), path_views(r@)),
{
    let ghost input = path_views(paths@);
    let mut sorted: Vec<ImagePath> = Vec::new();
    let mut keys: Vec<(Vec<NaturalChunk>, String)> = Vec::new();
    let ghost mut order: Seq<int> = seq![];
    let mut i: usize = 0;
    while i < paths.len()
        invariant
            i <= paths.len(),
            input == path_views(paths@),
            sorted.len() == i,
            keys.len() == i,
            order.len() == i,
            forall|j: int|
                0 <= j < i ==> 0 <= #[trigger] order[j] < i && sorted[j]@ == input[order[j]],
            forall|j: int| 0 <= j < i ==> key_view(#[trigger] keys[j]) == listed_key(input[order[j]]),
            forall|j: int, c: int|
                0 <= j < i && 0 <= c < keys[j].0.len() ==> (#[trigger] keys[j].0[c]).counted(),
            forall|k: int| 0 <= k < i ==> #[trigger] order.contains(k),
            forall|j: int, k: int|
                0 <= j < k < i ==> listed_before(input, #[trigger] order[j], #[trigger] order[k]),
        decreases paths.len() - i,
    {
        let key: (Vec<NaturalChunk>, String) = key_of(&paths[i]);
        let ghost mine = listed_key(input[i as int]);
        let mut low: usize = 0;
        let mut high: usize = i;
        while low < high
            invariant
                low <= high <= i < paths.len(),
                input == path_views(paths@),
                keys.len() == i,
                order.len() == i,
                mine == listed_key(input[i as int]),
                key_view(key) == mine,
                forall|c: int| 0 <= c < key.0.len() ==> (#[trigger] key.0[c]).counted(),
                forall|j: int|
                    0 <= j < i ==> key_view(#[trigger] keys[j]) == listed_key(input[order[j]]),
                forall|j: int, c: int|
                    0 <= j < i && 0 <= c < keys[j].0.len() ==> (#[trigger] keys[j].0[c]).counted(),
                forall|j: int, k: int|
                    0 <= j < k < i ==> listed_before(
                        input,
                        #[trigger] order[j],
                        #[trigger] order[k],
                    ),
                forall|j: int|
                    0 <= j < low ==> !key_before(mine, listed_key(input[#[trigger] order[j]])),
                forall|j: int|
                    high <= j < i ==> key_before(mine, listed_key(input[#[trigger] order[j]])),
            decreases high - low,
        {
            let middle: usize = low + (high - low) / 2;
            let ghost pivot = listed_key(input[order[middle as int]]);
            assert(key_view(keys[middle as int]) == pivot);
            if key_comes_before(&key, &keys[middle]) {
                proof {
                    assert forall|j: int| middle <= j < i implies key_before(
                        mine,
                        listed_key(input[#[trigger] order[j]]),
                    ) by {
                        if j > middle {
                            assert(listed_before(input, order[middle as int], order[j]));
                            if key_before(pivot, listed_key(input[order[j]])) {
                                natural_order_is_transitive(
                                    mine,
                                    pivot,
                                    listed_key(input[order[j]]),
                                );
                            }
                        }
                    }
                }
                high = middle;
            } else {
                proof {
                    assert forall|j: int| 0 <= j <= middle implies !key_before(
                        mine,
                        listed_key(input[#[trigger] order[j]]),
                    ) by {
                        if j < middle {
                            assert(listed_before(input, order[j], order[middle as int]));
                            let other = listed_key(input[order[j]]);
                            if key_before(mine, other) && key_before(other, pivot) {
                                natural_order_is_transitive(mine, other, pivot);
                            }
                        }
                    }
                }
                low = middle + 1;
            }
        }
        let ghost old_order = order;
        let ghost old_sorted = sorted@;
        let ghost old_keys = keys@;
        sorted.insert(low, paths[i].clone());
        keys.insert(low, key);
        proof {
            order = old_order.insert(low as int, i as int);
            assert forall|k: int| 0 <= k < i + 1 implies #[trigger] order.contains(k) by {
                if k == i {
                    assert(order[low as int] == k);
                } else {
                    assert(old_order.contains(k));
                    let p = choose|p: int| 0 <= p < old_order.len() && old_order[p] == k;
                    if p < low {
                        assert(order[p] == k);
                    } else {
                        assert(order[p + 1] == k);
                    }
                }
            }
            assert forall|j: int, k: int| 0 <= j < k < i + 1 implies listed_before(
                input,
                #[trigger] order[j],
                #[trigger] order[k],
            ) by {
                let j0 = if j < low {
                    j
                } else {
                    j - 1
                };
                let k0 = if k < low {
                    k
                } else {
                    k - 1
                };
                if j == low {
                    assert(order[k] == old_order[k0]);
                    assert(key_before(mine, listed_key(input[old_order[k0]])));
                } else if k == low {
                    assert(order[j] == old_order[j0]);
                    assert(!key_before(mine, listed_key(input[old_order[j0]])));
                    natural_order_is_total(mine, listed_key(input[old_order[j0]]));
                    assert(old_order[j0] < i);
                } else {
                    assert(listed_before(input, old_order[j0], old_order[k0]));
                }
            }
            assert forall|j: int| 0 <= j < i + 1 implies 0 <= #[trigger] order[j] < i + 1
                && sorted[j]@ == input[order[j]] by {
                if j < low {
                    assert(order[j] == old_order[j]);
                } else if j > low {
                    assert(order[j] == old_order[j - 1]);
                }
            }
            assert forall|j: int| 0 <= j < i + 1 implies key_view(#[trigger] keys[j])
                == listed_key(input[order[j]]) by {
                if j < low {
                    assert(keys[j] == old_keys[j]);
                } else if j > low {
                    assert(keys[j] == old_keys[j - 1]);
                }
            }
            assert forall|j: int, c: int|
                0 <= j < i + 1 && 0 <= c < keys[j].0.len() implies (#[trigger] keys[j].0[c]).counted() by {
                if j < low {
                    assert(keys[j] == old_keys[j]);
                    assert(old_keys[j].0[c].counted());
                } else if j > low {
                    assert(keys[j] == old_keys[j - 1]);
                    assert(old_keys[j - 1].0[c].counted());
                }
            }
        }
        i = i + 1;
    }
    proof {
        assert(natural_arrangement(input, path_views(sorted@), order));
    }
    sorted
}

/// An entry of a folder.
#[derive(Debug)]
pub struct FolderEntry {
    pub path: ImagePath,
    pub is_file: bool,
}

/// What looking at the folder of an image has given.
#[derive(Debug)]
pub enum FolderListing {
    /// The given path is not a file.
    NotAFile,
    /// The given path has no parent.
    NoParent,
    /// The folder could not be read, for a reason.
    Unreadable { parent: ImagePath, reason: String },
    Entries { parent: ImagePath, entries: Vec<FolderEntry> },
}

/// Whether an entry is listed.
pub open spec fn listed(entry: FolderEntry) -> bool {
    entry.is_file && supported(entry.path@)
}

/// The paths of the entries that are listed, as they came.
pub open spec fn listed_paths(entries: Seq<FolderEntry>) -> Seq<Seq<u8>>
    decreases entries.len(),
{
    if entries.len() == 0 {
        seq![]
    } else if listed(entries.last()) {
        listed_paths(entries.drop_last()).push(entries.last().path@)
    } else {
        listed_paths(entries.drop_last())
    }
}

/// A message that ends in a path.
pub open spec fn about_path(message: Seq<char>, path: Seq<u8>) -> Seq<char> {
    message + lossy(path)
}

/// The supported images of a folder in natural order, or why there are none.
pub fn sibling_images(initial_path: &ImagePath, listing: &FolderListing) -> (r: Result<
    Vec<ImagePath>,
    String,
>)
    ensures
        listing is NotAFile ==> (r matches Err(message) && message@ == about_path(
            "not a file: "@,
            initial_path@,
        )),
        listing is NoParent ==> (r matches Err(message) && message@
            == "image has no parent directory"@),
        listing matches FolderListing::Unreadable { parent, reason } ==> (r matches Err(message)
            && message@ == about_path("cannot read "@, parent@) + ": "@ + reason@),
        listing matches FolderListing::Entries { parent, entries } ==> {
            let found = listed_paths(entries@);
            if found.len() == 0 {
                r matches Err(message) && message@ == about_path(
                    "no supported images in "@,
                    parent@,
                )
            } else {
                r matches Ok(paths) && naturally_sorted(found, path_views(paths@))
            }
        },
{
    match listing {
        FolderListing::NotAFile => Err(message_about("not a file: ", initial_path)),
        FolderListing::NoParent => Err("image has no parent directory".to_owned()),
        FolderListing::Unreadable { parent, reason } => {
            let mut message: String = message_about("cannot read ", parent);
            message.append(": ");
            message.append(reason.as_str());
            Err(message)
        },
        FolderListing::Entries { parent, entries } => {
            let mut found: Vec<ImagePath> = Vec::new();
            let mut i: usize = 0;
            assert(path_views(found@) =~= seq![]);
            while i < entries.len()
                invariant
                    i <= entries.len(),
                    path_views(found@) == listed_paths(entries@.take(i as int)),
                decreases entries.len() - i,
            {
                let entry: &FolderEntry = &entries[i];
                let ghost before_entry = found@;
                assert(entries@.take(i + 1).drop_last() =~= entries@.take(i as int));
                if entry.is_file && is_supported_image(&entry.path) {
                    found.push(entry.path.clone());
                    assert(path_views(found@) =~= path_views(before_entry).push(entry.path@));
                }
                i = i + 1;
            }
            assert(entries@.take(i as int) =~= entries@);
            assert(path_views(found@).len() == found@.len());
            if found.len() == 0 {
                Err(message_about("no supported images in ", parent))
            } else {
                Ok(sort_naturally(&found))
            }
        },
    }
}

fn message_about(message: &str, path: &ImagePath) -> (r: String)
    ensures
        r@ == about_path(message@, path@),
{
    let mut r: String = message.to_owned();
    let shown: String = decode_lossy(path.bytes.as_slice());
    r.append(shown.as_str());
    r
}

/// Where a path stands in a listing.
pub fn position_of(paths: &Vec<ImagePath>, path: &ImagePath) -> (r: Option<usize>)
    ensures
        match r {
            Some(i) => {
                &&& i < paths.len()
                &&& paths[i as int].key() == path.key()
                &&& forall|j: int| 0 <= j < i ==> (#[trigger] paths[j]).key() != path.key()
            },
            None => forall|j: int| 0 <= j < paths.len() ==> (#[trigger] paths[j]).key() != path.key(),
        },
{
    let mut i: usize = 0;
    while i < paths.len()
        invariant
            i <= paths.len(),
            forall|j: int| 0 <= j < i ==> (#[trigger] paths[j]).key() != path.key(),
        decreases paths.len() - i,
    {
        if paths[i].same(path) {
            return Some(i);
        }
        i = i + 1;
    }
    None
}

/// The extensions of images are supported, in letters of either case, and no other ones.
pub proof fn image_types_are_supported(text: Seq<char>)
    ensures
        supported_extension(text) <==> seq![
            "avif"@,
            "bmp"@,
            "gif"@,
            "heic"@,
            "heif"@,
            "jpeg"@,
            "jpg"@,
            "jxl"@,
            "png"@,
            "tif"@,
            "tiff"@,
            "webp"@,
        ].contains(text.map_values(|c: char| ascii_lower(c))),
{
    let lower = text.map_values(|c: char| ascii_lower(c));
    let types = seq![
        "avif"@,
        "bmp"@,
        "gif"@,
        "heic"@,
        "heif"@,
        "jpeg"@,
        "jpg"@,
        "jxl"@,
        "png"@,
        "tif"@,
        "tiff"@,
        "webp"@,
    ];
    assert(types[0] == "avif"@ && types[1] == "bmp"@ && types[2] == "gif"@ && types[3] == "heic"@);
    assert(types[4] == "heif"@ && types[5] == "jpeg"@ && types[6] == "jpg"@ && types[7] == "jxl"@);
    assert(types[8] == "png"@ && types[9] == "tif"@ && types[10] == "tiff"@ && types[11]
        == "webp"@);
}

/// Whether an extension is supported does not depend on the case of its letters.
pub proof fn case_does_not_matter(a: Seq<char>, b: Seq<char>)
    requires
        a.len() == b.len(),
        forall|i: int| 0 <= i < a.len() ==> same_letter(#[trigger] a[i], b[i]),
    ensures
        supported_extension(a) == supported_extension(b),
{
    assert forall|i: int| 0 <= i < a.len() implies ascii_lower(#[trigger] a[i]) == ascii_lower(
        b[i],
    ) by {
        assert(same_letter(a[i], b[i]));
    }
    assert(a.map_values(|c: char| ascii_lower(c)) =~= b.map_values(|c: char| ascii_lower(c)));
}

/// Whether two characters are the same but for the case of an ASCII letter.
pub open spec fn same_letter(a: char, b: char) -> bool {
    ||| a == b
    ||| 'A' <= a && a <= 'Z' && b as int == a as int + 32
    ||| 'A' <= b && b <= 'Z' && a as int == b as int + 32
}

/// A file is an image by what follows the last dot of its name, in whatever folder it lies. A file
/// whose name has no dot, or one at its start only, is none.
pub proof fn images_are_told_by_their_extension(
    folder: Seq<u8>,
    stem: Seq<u8>,
    ending: Seq<u8>,
)
    requires
        stem.len() > 0,
        !stem.contains(0x2f),
        !ending.contains(0x2f),
        !ending.contains(0x2e),
        stem != seq![0x2eu8] || ending.len() > 0,
    ensures
        supported(folder + seq![0x2fu8] + (stem + seq![0x2eu8] + ending)) <==> valid_utf8(ending)
            && supported_extension(decode_utf8(ending)),
        ending.len() > 0 ==> !supported(folder + seq![0x2fu8] + ending),
        ending.len() > 0 ==> !supported(folder + seq![0x2fu8] + (seq![0x2eu8] + ending)),
{
    let name = stem + seq![0x2eu8] + ending;
    let path = folder + seq![0x2fu8] + name;
    assert forall|i: int| 0 <= i < name.len() implies name[i] != 0x2f by {
        if i < stem.len() {
            assert(stem.contains(stem[i]));
        } else if i > stem.len() {
            assert(ending.contains(ending[i - stem.len() - 1]));
        }
    }
    assert(name[stem.len() as int] == 0x2e);
    if name =~= seq![0x2eu8, 0x2eu8] {
        assert(name.len() == 2);
        assert(stem =~= seq![0x2eu8]);
    }
    name_follows_the_last_slash(folder, name);
    extension_follows_the_last_dot(path, stem, ending);
    if ending.len() > 0 {
        let bare = folder + seq![0x2fu8] + ending;
        assert(ending.contains(ending[0]));
        name_follows_the_last_slash(folder, ending);
        extension_follows_the_last_dot(bare, stem, ending);
        let hidden = seq![0x2eu8] + ending;
        assert forall|i: int| 0 <= i < hidden.len() implies hidden[i] != 0x2f by {
            if i > 0 {
                assert(ending.contains(ending[i - 1]));
            }
        }
        assert(hidden[1] == ending[0]);
        name_follows_the_last_slash(folder, hidden);
        extension_follows_the_last_dot(folder + seq![0x2fu8] + hidden, stem, ending);
    }
}

/// The files of a folder are listed entry by entry: one that is a file and an image is listed once,
/// any other one not, and what is listed of some entries does not depend on the others.
pub proof fn every_image_is_listed(
    entries: Seq<FolderEntry>,
    more: Seq<FolderEntry>,
    entry: FolderEntry,
)
    ensures
        listed_paths(entries + more) == listed_paths(entries) + listed_paths(more),
        listed_paths(seq![entry]) == if entry.is_file && supported(entry.path@) {
            seq![entry.path@]
        } else {
            Seq::<Seq<u8>>::empty()
        },
    decreases more.len(),
{
    reveal_with_fuel(listed_paths, 2);
    assert(seq![entry].drop_last() =~= Seq::<FolderEntry>::empty());
    assert(Seq::<Seq<u8>>::empty().push(entry.path@) =~= seq![entry.path@]);
    let all = entries + more;
    if more.len() == 0 {
        assert(all =~= entries);
        assert(listed_paths(entries) + listed_paths(more) =~= listed_paths(entries));
    } else {
        every_image_is_listed(entries, more.drop_last(), entry);
        assert(all.drop_last() =~= entries + more.drop_last());
        assert(all.last() == more.last());
        assert(listed_paths(all) =~= listed_paths(entries) + listed_paths(more));
    }
}

/// Names without digits are ordered by their letters, whatever their case. Names that differ in
/// case alone are ordered as they are written.
pub proof fn words_are_ordered_by_their_letters(x: Seq<char>, y: Seq<char>)
    requires
        lowered(x).len() > 0,
        lowered(y).len() > 0,
        forall|i: int| 0 <= i < lowered(x).len() ==> !is_digit(#[trigger] lowered(x)[i]),
        forall|i: int| 0 <= i < lowered(y).len() ==> !is_digit(#[trigger] lowered(y)[i]),
    ensures
        key_before(sort_key(x), sort_key(y)) <==> text_before(lowered(x), lowered(y)) || (lowered(x)
            == lowered(y) && text_before(x, y)),
{
    lemma_word_chunk(lowered(x));
    lemma_word_chunk(lowered(y));
    let a = sort_key(x).chunks;
    let b = sort_key(y).chunks;
    let less = |x: Chunk, y: Chunk| chunk_before(x, y);
    text_order_is_total(lowered(x), lowered(y));
    if lowered(x) != lowered(y) {
        assert(a.take(0) =~= b.take(0));
        assert(a[0] != b[0]);
        assert(first_difference(a, b, 0));
        if before(a, b, less) {
            let i = choose|i: int|
                first_difference(a, b, i) && (i == a.len() || (i < b.len() && less(a[i], b[i])));
            lemma_first_difference_unique(a, b, 0, i);
        }
    } else {
        assert(a == b);
        if before(a, b, less) {
            let i = choose|i: int|
                first_difference(a, b, i) && (i == a.len() || (i < b.len() && less(a[i], b[i])));
            assert(a[i] != b[i]);
        }
    }
}

proof fn lemma_word_chunk(word: Seq<char>)
    requires
        word.len() > 0,
        forall|i: int| 0 <= i < word.len() ==> !is_digit(#[trigger] word[i]),
    ensures
        chunks(word) == seq![Chunk::Text(word)],
{
    assert(!is_digit(word[0]));
    lemma_run_length_unique(word, false, word.len() as int);
    assert(word.take(word.len() as int) =~= word);
    assert(word.skip(word.len() as int) =~= Seq::<char>::empty());
    assert(chunks(word.skip(word.len() as int)) == Seq::<Chunk>::empty());
    assert(chunks(word) =~= seq![Chunk::Text(word)]);
}

/// A name that starts with a number comes before one that starts with anything else.
pub proof fn numbers_come_before_words(x: Seq<char>, y: Seq<char>)
    requires
        lowered(x).len() > 0,
        lowered(y).len() > 0,
        is_digit(lowered(x)[0]),
        !is_digit(lowered(y)[0]),
    ensures
        key_before(sort_key(x), sort_key(y)),
        !key_before(sort_key(y), sort_key(x)),
{
    let a = sort_key(x).chunks;
    let b = sort_key(y).chunks;
    assert(a[0] is Number);
    assert(b[0] is Text);
    assert(a.take(0) =~= b.take(0));
    assert(first_difference(a, b, 0));
    let less = |x: Chunk, y: Chunk| chunk_before(x, y);
    assert(before(a, b, less));
    natural_order_is_total(sort_key(x), sort_key(y));
}

/// Names whose lowercase forms have the same start, which is empty or ends in a digit, are ordered
/// by the word that follows it, that is the run of other characters than digits, whatever comes
/// behind.
pub proof fn names_are_ordered_by_word(
    x: Seq<char>,
    y: Seq<char>,
    start: Seq<char>,
    a: Seq<char>,
    a_end: Seq<char>,
    b: Seq<char>,
    b_end: Seq<char>,
)
    requires
        lowered(x) == start + a + a_end,
        lowered(y) == start + b + b_end,
        a.len() > 0,
        b.len() > 0,
        forall|i: int| 0 <= i < a.len() ==> !is_digit(#[trigger] a[i]),
        forall|i: int| 0 <= i < b.len() ==> !is_digit(#[trigger] b[i]),
        start.len() > 0 ==> is_digit(start.last()),
        a_end.len() > 0 ==> is_digit(a_end[0]),
        b_end.len() > 0 ==> is_digit(b_end[0]),
        text_before(a, b),
    ensures
        key_before(sort_key(x), sort_key(y)),
        !key_before(sort_key(y), sort_key(x)),
{
    lemma_word_chunks(start, a, a_end);
    lemma_word_chunks(start, b, b_end);
    text_order_is_total(a, b);
    let first = chunks(start);
    let s = sort_key(x).chunks;
    let t = sort_key(y).chunks;
    let n = first.len() as int;
    assert(s.take(n) =~= first);
    assert(t.take(n) =~= first);
    assert(s[n] == Chunk::Text(a));
    assert(t[n] == Chunk::Text(b));
    assert(first_difference(s, t, n));
    let less = |x: Chunk, y: Chunk| chunk_before(x, y);
    assert(before(s, t, less));
    natural_order_is_total(sort_key(x), sort_key(y));
}

/// The runs of a text of three parts, of which the middle one is a word.
proof fn lemma_word_chunks(start: Seq<char>, word: Seq<char>, end: Seq<char>)
    requires
        word.len() > 0,
        forall|i: int| 0 <= i < word.len() ==> !is_digit(#[trigger] word[i]),
        start.len() > 0 ==> is_digit(start.last()),
        end.len() > 0 ==> is_digit(end[0]),
    ensures
        chunks(start + word + end) == chunks(start) + seq![Chunk::Text(word)] + chunks(end),
{
    let name = start + word + end;
    assert(name =~= start + (word + end));
    assert(!is_digit(word[0]));
    assert(!is_digit(word[word.len() - 1]));
    lemma_chunks_split(word, end);
    lemma_chunks_split(start, word + end);
    lemma_word_chunk(word);
    assert(chunks(name) =~= chunks(start) + seq![Chunk::Text(word)] + chunks(end));
}

/// A name comes before one whose lowercase form goes on behind its own with another run. Where the
/// lowercase forms are the same, or only leading zeros differ, the names themselves decide.
pub proof fn shorter_names_come_first(x: Seq<char>, y: Seq<char>, rest: Seq<char>)
    ensures
        lowered(y) == lowered(x) + rest && rest.len() > 0 && (lowered(x).len() > 0 ==> is_digit(
            lowered(x).last(),
        ) != is_digit(rest[0])) ==> key_before(sort_key(x), sort_key(y)) && !key_before(
            sort_key(y),
            sort_key(x),
        ),
        chunks(lowered(x)) == chunks(lowered(y)) ==> (key_before(sort_key(x), sort_key(y))
            <==> text_before(x, y)),
{
    let s = sort_key(x).chunks;
    let t = sort_key(y).chunks;
    let less = |x: Chunk, y: Chunk| chunk_before(x, y);
    if lowered(y) == lowered(x) + rest && rest.len() > 0 && (lowered(x).len() > 0 ==> is_digit(
        lowered(x).last(),
    ) != is_digit(rest[0])) {
        lemma_chunks_split(lowered(x), rest);
        assert(chunks(rest).len() > 0);
        let n = s.len() as int;
        assert(t.take(n) =~= s);
        assert(s.take(n) =~= s);
        assert(first_difference(s, t, n));
        assert(before(s, t, less));
        natural_order_is_total(sort_key(x), sort_key(y));
    }
    if s == t {
        if before(s, t, less) {
            let i = choose|i: int|
                first_difference(s, t, i) && (i == s.len() || (i < t.len() && less(s[i], t[i])));
            assert(s[i] != t[i]);
        }
    }
}

/// Files are listed by their names, whatever folder they lie in.
pub proof fn files_are_listed_by_name(folder: Seq<u8>, name: Seq<u8>)
    requires
        name.len() > 0,
        !name.contains(0x2f),
        name != seq![0x2eu8],
        name != seq![0x2eu8, 0x2eu8],
    ensures
        listed_key(folder + seq![0x2fu8] + name) == sort_key(lossy(name)),
        listed_key(name) == sort_key(lossy(name)),
{
    name_follows_the_last_slash(folder, name);
}

/// In a sorted listing no path comes before an earlier one, and it holds the same paths.
pub proof fn sorted_listing_is_in_order(input: Seq<Seq<u8>>, output: Seq<Seq<u8>>, i: int, j: int)
    requires
        naturally_sorted(input, output),
        0 <= i < j < output.len(),
    ensures
        output.len() == input.len(),
        !key_before(listed_key(output[j]), listed_key(output[i])),
        input.contains(output[i]) && input.contains(output[j]),
        output.contains(input[i]) && output.contains(input[j]),
{
    let order = choose|order: Seq<int>| natural_arrangement(input, output, order);
    assert(natural_arrangement(input, output, order));
    assert(output[i] == input[order[i]]);
    assert(output[j] == input[order[j]]);
    assert(listed_before(input, order[i], order[j]));
    natural_order_is_total(listed_key(output[i]), listed_key(output[j]));
    assert(order.contains(i) && order.contains(j));
    let p = choose|p: int| 0 <= p < order.len() && order[p] == i;
    let q = choose|q: int| 0 <= q < order.len() && order[q] == j;
    assert(output[p] == input[i]);
    assert(output[q] == input[j]);
}

/// The case of ASCII letters decides last: names of the same letters have the same runs, without
/// capitals, and only among themselves they are ordered as they are written.
pub proof fn case_decides_last(x: Seq<char>, y: Seq<char>)
    requires
        all_ascii(x),
        all_ascii(y),
        x.len() == y.len(),
        forall|i: int| 0 <= i < x.len() ==> same_letter(#[trigger] x[i], y[i]),
    ensures
        lowered(x) == lowered(y),
        lowered(x).len() == x.len(),
        forall|i: int|
            0 <= i < x.len() ==> same_letter(#[trigger] lowered(x)[i], x[i]) && !('A' <= lowered(
                x,
            )[i] && lowered(x)[i] <= 'Z'),
        sort_key(x).chunks == sort_key(y).chunks,
        key_before(sort_key(x), sort_key(y)) <==> text_before(x, y),
{
    assert forall|i: int| 0 <= i < x.len() implies ascii_lower(#[trigger] x[i]) == ascii_lower(
        y[i],
    ) by {
        assert(same_letter(x[i], y[i]));
    }
    assert(lowered(x) =~= lowered(y));
    shorter_names_come_first(x, y, seq![]);
}

/// The lowercase form of a name that is not all ASCII is that of std.
pub proof fn other_names_are_lowered_by_std(x: Seq<char>)
    ensures
        !all_ascii(x) ==> lowered(x) == lowercase(x),
        sort_key(x).chunks == chunks(lowered(x)),
        sort_key(x).name == x,
{
}

} // verus!
