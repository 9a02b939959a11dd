//! Paths of image files, as the bytes that the system uses for them.
use vstd::prelude::*;
use vstd::utf8::*;

verus! {

/// A path.
#[derive(Debug)]
pub struct ImagePath {
    pub bytes: Vec<u8>,
}

impl View for ImagePath {
    type V = Seq<u8>;

    open spec fn view(&self) -> Seq<u8> {
        self.bytes@
    }
}

/// How many bytes precede the first slash, or there are.
pub open spec fn segment_length(path: Seq<u8>) -> nat
    decreases path.len(),
{
    if path.len() == 0 || path[0] == 0x2f {
        0
    } else {
        1 + segment_length(path.drop_first())
    }
}

/// What stands between the slashes of a path, without empty parts and single dots.
pub open spec fn names(path: Seq<u8>) -> Seq<Seq<u8>>
    decreases path.len(),
{
    if path.len() == 0 {
        seq![]
    } else {
        proof {
            lemma_segment_length(path);
        }
        let end = segment_length(path) as int;
        let first = path.take(end);
        let rest = if end < path.len() {
            names(path.skip(end + 1))
        } else {
            seq![]
        };
        if first.len() == 0 || first =~= seq![0x2eu8] {
            rest
        } else {
            seq![first] + rest
        }
    }
}

/// A path by its components. Repeated slashes, a slash at the end, and single dots do not count,
/// but for a dot at the start of a relative path.
pub struct Components {
    pub rooted: bool,
    pub here: bool,
    pub names: Seq<Seq<u8>>,
}

pub open spec fn components(path: Seq<u8>) -> Components {
    Components {
        rooted: path.len() > 0 && path[0] == 0x2f,
        here: path.len() > 0 && path[0] == 0x2e && segment_length(path) == 1,
        names: names(path),
    }
}

impl ImagePath {
    /// By what paths are told apart.
    pub open spec fn key(&self) -> Components {
        components(self@)
    }
}

pub proof fn lemma_segment_length(path: Seq<u8>)
    ensures
        segment_length(path) <= path.len(),
        segment_length(path) < path.len() ==> path[segment_length(path) as int] == 0x2f,
    decreases path.len(),
{
    if path.len() > 0 && path[0] != 0x2f {
        lemma_segment_length(path.drop_first());
    }
}

/// Where the last component starts: behind the last slash.
pub open spec fn component_start(path: Seq<u8>) -> nat
    decreases path.len(),
{
    if path.len() == 0 {
        0
    } else if path.last() == 0x2f {
        path.len()
    } else {
        component_start(path.drop_last())
    }
}

/// The last component of a path, not counting empty ones and single dots. There is none where a
/// path leads to the parent of another one.
pub open spec fn file_name(path: Seq<u8>) -> Option<Seq<u8>>
    decreases path.len(),
{
    proof {
        lemma_component_start(path);
    }
    let start = component_start(path);
    let last = path.skip(start as int);
    if last.len() == 0 || last =~= seq![0x2eu8] {
        if start == 0 {
            None
        } else {
            file_name(path.take(start - 1))
        }
    } else if last =~= seq![0x2eu8, 0x2eu8] {
        None
    } else {
        Some(last)
    }
}

/// The position of the last dot of a file name.
pub open spec fn last_dot(name: Seq<u8>) -> Option<nat>
    decreases name.len(),
{
    if name.len() == 0 {
        None
    } else if name.last() == 0x2e {
        Some((name.len() - 1) as nat)
    } else {
        last_dot(name.drop_last())
    }
}

/// What follows the last dot of the file name, unless nothing precedes that dot.
pub open spec fn extension(path: Seq<u8>) -> Option<Seq<u8>> {
    match file_name(path) {
        None => None,
        Some(name) => match last_dot(name) {
            Some(dot) => if dot > 0 {
                Some(name.skip(dot as int + 1))
            } else {
                None
            },
            None => None,
        },
    }
}

/// What precedes the extension in the file name.
pub open spec fn file_stem(path: Seq<u8>) -> Option<Seq<u8>> {
    match file_name(path) {
        None => None,
        Some(name) => match last_dot(name) {
            Some(dot) => if dot > 0 {
                Some(name.take(dot as int))
            } else {
                Some(name)
            },
            None => Some(name),
        },
    }
}

/// The text of bytes that are valid UTF-8, else a fallback.
pub open spec fn text_or(bytes: Option<Seq<u8>>, fallback: Seq<char>) -> Seq<char> {
    match bytes {
        Some(b) => if valid_utf8(b) {
            decode_utf8(b)
        } else {
            fallback
        },
        None => fallback,
    }
}

/// What `String::from_utf8_lossy` of std makes of bytes.
pub uninterp spec fn lossy(bytes: Seq<u8>) -> Seq<char>;

/// Calls `std::str::from_utf8`, which accepts exactly the valid UTF-8 sequences and gives the text
/// that they encode.
#[verifier::external_body]
pub(crate) fn decode(bytes: &[u8]) -> (r: Option<String>)
    ensures
        r is Some <==> valid_utf8(bytes@),
        r matches Some(text) ==> text@ == decode_utf8(bytes@),
{
    match std::str::from_utf8(bytes) {
        Ok(text) => Some(text.to_owned()),
        Err(_) => None,
    }
}

/// Calls `String::from_utf8_lossy`, which replaces what is not valid UTF-8. Valid UTF-8 is left as
/// it is.
#[verifier::external_body]
pub(crate) fn decode_lossy(bytes: &[u8]) -> (r: String)
    ensures
        r@ == lossy(bytes@),
        valid_utf8(bytes@) ==> r@ == decode_utf8(bytes@),
{
    String::from_utf8_lossy(bytes).into_owned()
}

pub proof fn lemma_component_start(path: Seq<u8>)
    ensures
        component_start(path) <= path.len(),
        component_start(path) > 0 ==> path[component_start(path) - 1] == 0x2f,
    decreases path.len(),
{
    if path.len() > 0 {
        lemma_component_start(path.drop_last());
    }
}

/// The bytes from `start` up to `end`.
pub(crate) fn part(bytes: &Vec<u8>, start: usize, end: usize) -> (r: Vec<u8>)
    requires
        start <= end <= bytes.len(),
    ensures
        r@ == bytes@.subrange(start as int, end as int),
{
    let mut r: Vec<u8> = Vec::new();
    let mut i: usize = start;
    while i < end
        invariant
            start <= i <= end <= bytes.len(),
            r@ == bytes@.subrange(start as int, i as int),
        decreases end - i,
    {
        r.push(bytes[i]);
        i = i + 1;
        assert(r@ =~= bytes@.subrange(start as int, i as int));
    }
    r
}

/// Whether two byte sequences are the same.
pub(crate) fn same_bytes(a: &Vec<u8>, b: &Vec<u8>) -> (r: bool)
    ensures
        r == (a@ == b@),
{
    if a.len() != b.len() {
        return false;
    }
    let mut i: usize = 0;
    while i < a.len()
        invariant
            i <= a.len(),
            a.len() == b.len(),
            forall|j: int| 0 <= j < i ==> a[j] == b[j],
        decreases a.len() - i,
    {
        if a[i] != b[i] {
            return false;
        }
        i = i + 1;
    }
    assert(a@ =~= b@);
    true
}

spec fn name_views(list: Seq<Vec<u8>>) -> Seq<Seq<u8>> {
    list.map_values(|name: Vec<u8>| name@)
}

/// Whether a path starts with a single dot.
fn starts_here(bytes: &Vec<u8>) -> (r: bool)
    ensures
        r == (bytes@.len() > 0 && bytes@[0] == 0x2e && segment_length(bytes@) == 1),
{
    if bytes.len() == 0 || bytes[0] != 0x2e {
        return false;
    }
    proof {
        lemma_segment_length(bytes@.drop_first());
    }
    bytes.len() == 1 || bytes[1] == 0x2f
}

/// What stands between the slashes of a path.
fn names_of(bytes: &Vec<u8>) -> (r: Vec<Vec<u8>>)
    ensures
        name_views(r@) == names(bytes@),
{
    let mut r: Vec<Vec<u8>> = Vec::new();
    let mut start: usize = 0;
    assert(bytes@.skip(0) =~= bytes@);
    assert(name_views(r@) + names(bytes@) =~= names(bytes@));
    while start < bytes.len()
        invariant
            start <= bytes.len(),
            name_views(r@) + names(bytes@.skip(start as int)) == names(bytes@),
        decreases bytes.len() - start,
    {
        let ghost rest = bytes@.skip(start as int);
        let ghost done = name_views(r@);
        let mut end: usize = start;
        assert(bytes@.skip(end as int) =~= rest);
        while end < bytes.len() && bytes[end] != 0x2f
            invariant
                start <= end <= bytes.len(),
                segment_length(rest) == end - start + segment_length(bytes@.skip(end as int)),
            decreases bytes.len() - end,
        {
            assert(bytes@.skip(end as int).drop_first() =~= bytes@.skip(end + 1));
            end = end + 1;
        }
        let ghost first = rest.take(end - start);
        assert(first =~= bytes@.subrange(start as int, end as int));
        let plain: bool = end > start && !(end == start + 1 && bytes[start] == 0x2e);
        assert(plain == !(first.len() == 0 || first =~= seq![0x2eu8])) by {
            if first.len() == 1 {
                assert(first[0] == bytes[start as int]);
            }
        }
        if plain {
            let name: Vec<u8> = part(bytes, start, end);
            r.push(name);
            assert(name_views(r@) =~= done.push(first));
        }
        if end == bytes.len() {
            assert(names(rest) == if plain {
                seq![first]
            } else {
                seq![]
            });
            assert(name_views(r@) =~= names(bytes@));
            return r;
        }
        assert(rest.skip(end - start + 1) =~= bytes@.skip(end + 1));
        assert(name_views(r@) + names(bytes@.skip(end + 1)) =~= done + names(rest));
        start = end + 1;
    }
    assert(name_views(r@) + names(bytes@.skip(start as int)) =~= name_views(r@));
    r
}

impl Clone for ImagePath {
    fn clone(&self) -> (r: Self)
        ensures
            r@ == self@,
    {
        let copy = ImagePath { bytes: part(&self.bytes, 0, self.bytes.len()) };
        assert(copy@ =~= self@);
        copy
    }
}

impl ImagePath {
    /// The path with the given bytes.
    pub fn new(bytes: Vec<u8>) -> (r: Self)
        ensures
            r@ == bytes@,
    {
        ImagePath { bytes }
    }

    /// Whether two paths have the same components.
    pub fn same(&self, other: &ImagePath) -> (r: bool)
        ensures
            r == (self.key() == other.key()),
    {
        let rooted: bool = self.bytes.len() > 0 && self.bytes[0] == 0x2f;
        let other_rooted: bool = other.bytes.len() > 0 && other.bytes[0] == 0x2f;
        if rooted != other_rooted || starts_here(&self.bytes) != starts_here(&other.bytes) {
            return false;
        }
        let own: Vec<Vec<u8>> = names_of(&self.bytes);
        let others: Vec<Vec<u8>> = names_of(&other.bytes);
        if own.len() != others.len() {
            assert(name_views(own@).len() != name_views(others@).len());
            return false;
        }
        let mut i: usize = 0;
        while i < own.len()
            invariant
                i <= own.len(),
                own.len() == others.len(),
                name_views(own@) == names(self@),
                name_views(others@) == names(other@),
                forall|j: int| 0 <= j < i ==> own[j]@ == others[j]@,
            decreases own.len() - i,
        {
            if !same_bytes(&own[i], &others[i]) {
                assert(name_views(own@)[i as int] != name_views(others@)[i as int]);
                return false;
            }
            i = i + 1;
        }
        assert(name_views(own@) =~= name_views(others@));
        true
    }

    /// The last component of the path.
    pub fn file_name(&self) -> (r: Option<Vec<u8>>)
        ensures
            match file_name(self@) {
                Some(name) => r matches Some(x) && x@ == name,
                None => r is None,
            },
    {
        let mut end: usize = self.bytes.len();
        assert(self@.take(end as int) =~= self@);
        loop
            invariant
                end <= self.bytes.len(),
                file_name(self@.take(end as int)) == file_name(self@),
            decreases end,
        {
            let ghost whole = self@.take(end as int);
            let mut start: usize = end;
            assert(whole.take(start as int) =~= whole);
            while start > 0 && self.bytes[start - 1] != 0x2f
                invariant
                    start <= end <= self.bytes.len(),
                    whole == self@.take(end as int),
                    component_start(whole) == component_start(whole.take(start as int)),
                decreases start,
            {
                start = start - 1;
                assert(whole.take(start + 1).drop_last() =~= whole.take(start as int));
            }
            proof {
                lemma_component_start(whole);
                assert(component_start(whole) == start);
                assert(whole.skip(start as int) =~= self@.subrange(start as int, end as int));
            }
            let ghost last = whole.skip(start as int);
            if start == end || (end - start == 1 && self.bytes[start] == 0x2e) {
                assert(last.len() == 0 || last =~= seq![0x2eu8]);
                if start == 0 {
                    return None;
                }
                assert(whole.take(start - 1) =~= self@.take(start - 1));
                end = start - 1;
            } else if end - start == 2 && self.bytes[start] == 0x2e && self.bytes[start + 1] == 0x2e {
                assert(last =~= seq![0x2eu8, 0x2eu8]);
                return None;
            } else {
                assert(last.len() != 0);
                assert(last != seq![0x2eu8]) by {
                    assert(last.len() == 1 ==> last[0] != 0x2e);
                }
                assert(last != seq![0x2eu8, 0x2eu8]) by {
                    assert(last.len() == 2 ==> last[0] != 0x2e || last[1] != 0x2e);
                }
                return Some(part(&self.bytes, start, end));
            }
        }
    }

    /// What follows the last dot of the file name.
    pub fn extension(&self) -> (r: Option<Vec<u8>>)
        ensures
            match extension(self@) {
                Some(name) => r matches Some(x) && x@ == name,
                None => r is None,
            },
    {
        match self.file_name() {
            None => None,
            Some(name) => match find_last_dot(&name) {
                None => None,
                Some(dot) => if dot > 0 {
                    let tail: Vec<u8> = part(&name, dot + 1, name.len());
                    assert(tail@ =~= name@.skip(dot + 1));
                    Some(tail)
                } else {
                    None
                },
            },
        }
    }

    /// The file name without its extension.
    pub fn file_stem(&self) -> (r: Option<Vec<u8>>)
        ensures
            match file_stem(self@) {
                Some(name) => r matches Some(x) && x@ == name,
                None => r is None,
            },
    {
        match self.file_name() {
            None => None,
            Some(name) => match find_last_dot(&name) {
                None => Some(name),
                Some(dot) => if dot > 0 {
                    let head: Vec<u8> = part(&name, 0, dot);
                    assert(head@ =~= name@.take(dot as int));
                    Some(head)
                } else {
                    Some(name)
                },
            },
        }
    }

    /// The path as text, if it is valid UTF-8.
    pub fn to_text(&self) -> (r: Option<String>)
        ensures
            r is Some <==> valid_utf8(self@),
            r matches Some(text) ==> text@ == decode_utf8(self@),
    {
        decode(self.bytes.as_slice())
    }

    /// The file name as text, else a fallback.
    pub fn name_or(&self, fallback: &str) -> (r: String)
        ensures
            r@ == text_or(file_name(self@), fallback@),
    {
        text_or_fallback(self.file_name(), fallback)
    }
}

/// The text of bytes that are valid UTF-8, else a fallback.
pub(crate) fn text_or_fallback(bytes: Option<Vec<u8>>, fallback: &str) -> (r: String)
    ensures
        r@ == text_or(
            match bytes {
                Some(b) => Some(b@),
                None => None,
            },
            fallback@,
        ),
{
    match bytes {
        None => fallback.to_owned(),
        Some(b) => match decode(b.as_slice()) {
            Some(text) => text,
            None => fallback.to_owned(),
        },
    }
}

fn find_last_dot(name: &Vec<u8>) -> (r: Option<usize>)
    ensures
        match last_dot(name@) {
            Some(dot) => r matches Some(i) && i == dot,
            None => r is None,
        },
        r matches Some(i) ==> i < name.len(),
{
    let mut i: usize = name.len();
    assert(name@.take(i as int) =~= name@);
    while i > 0
        invariant
            i <= name.len(),
            last_dot(name@) == last_dot(name@.take(i as int)),
        decreases i,
    {
        let ghost head = name@.take(i as int);
        i = i - 1;
        assert(head.drop_last() =~= name@.take(i as int));
        if name[i] == 0x2e {
            return Some(i);
        }
    }
    None
}

proof fn lemma_start_behind(folder: Seq<u8>, name: Seq<u8>)
    requires
        !name.contains(0x2f),
    ensures
        component_start(folder + seq![0x2fu8] + name) == folder.len() + 1,
        component_start(name) == 0,
    decreases name.len(),
{
    let path = folder + seq![0x2fu8] + name;
    if name.len() > 0 {
        let rest = name.drop_last();
        assert(name.contains(name[name.len() - 1]));
        assert forall|i: int| 0 <= i < rest.len() implies rest[i] != 0x2f by {
            assert(name.contains(name[i]));
        }
        lemma_start_behind(folder, rest);
        assert(path.drop_last() =~= folder + seq![0x2fu8] + rest);
        assert(path.last() == name.last());
    }
}

/// The file name of a path is what follows its last slash. Slashes and single dots at the end do not
/// count.
pub proof fn name_follows_the_last_slash(folder: Seq<u8>, name: Seq<u8>)
    requires
        name.len() > 0,
        !name.contains(0x2f),
        name != seq![0x2eu8],
        name != seq![0x2eu8, 0x2eu8],
    ensures
        file_name(name) == Some(name),
        file_name(folder + seq![0x2fu8] + name) == Some(name),
        file_name(folder + seq![0x2fu8]) == file_name(folder),
        file_name(folder + seq![0x2fu8, 0x2eu8]) == file_name(folder),
        file_name(folder + seq![0x2fu8, 0x2eu8, 0x2eu8]) is None,
{
    let path = folder + seq![0x2fu8] + name;
    lemma_start_behind(folder, name);
    assert(name.skip(0) =~= name);
    assert(path.skip(folder.len() as int + 1) =~= name);
    let none = Seq::<u8>::empty();
    lemma_start_behind(folder, none);
    assert(folder + seq![0x2fu8] + none =~= folder + seq![0x2fu8]);
    assert((folder + seq![0x2fu8]).skip(folder.len() as int + 1) =~= none);
    assert((folder + seq![0x2fu8]).take(folder.len() as int) =~= folder);
    let here = seq![0x2eu8];
    lemma_start_behind(folder, here);
    assert(folder + seq![0x2fu8] + here =~= folder + seq![0x2fu8, 0x2eu8]);
    assert((folder + seq![0x2fu8, 0x2eu8]).skip(folder.len() as int + 1) =~= here);
    assert((folder + seq![0x2fu8, 0x2eu8]).take(folder.len() as int) =~= folder);
    let parent = seq![0x2eu8, 0x2eu8];
    lemma_start_behind(folder, parent);
    assert(folder + seq![0x2fu8] + parent =~= folder + seq![0x2fu8, 0x2eu8, 0x2eu8]);
    assert((folder + seq![0x2fu8, 0x2eu8, 0x2eu8]).skip(folder.len() as int + 1) =~= parent);
}

proof fn lemma_last_dot(stem: Seq<u8>, ending: Seq<u8>)
    requires
        !ending.contains(0x2e),
    ensures
        last_dot(stem + seq![0x2eu8] + ending) == Some(stem.len()),
        last_dot(ending) is None,
    decreases ending.len(),
{
    let name = stem + seq![0x2eu8] + ending;
    if ending.len() > 0 {
        let rest = ending.drop_last();
        assert(ending.contains(ending[ending.len() - 1]));
        assert forall|i: int| 0 <= i < rest.len() implies rest[i] != 0x2e by {
            assert(ending.contains(ending[i]));
        }
        lemma_last_dot(stem, rest);
        assert(name.drop_last() =~= stem + seq![0x2eu8] + rest);
        assert(name.last() == ending.last());
    }
}

/// The extension of a path is what follows the last dot of its file name, and the stem is what
/// precedes that dot. A dot at the start of the name does not count.
pub proof fn extension_follows_the_last_dot(path: Seq<u8>, stem: Seq<u8>, ending: Seq<u8>)
    requires
        !ending.contains(0x2e),
    ensures
        file_name(path) == Some(stem + seq![0x2eu8] + ending) && stem.len() > 0 ==> extension(path)
            == Some(ending) && file_stem(path) == Some(stem),
        file_name(path) == Some(seq![0x2eu8] + ending) ==> extension(path) is None && file_stem(
            path,
        ) == Some(seq![0x2eu8] + ending),
        file_name(path) == Some(ending) ==> extension(path) is None && file_stem(path) == Some(
            ending,
        ),
        file_name(path) is None ==> extension(path) is None && file_stem(path) is None,
{
    let name = stem + seq![0x2eu8] + ending;
    lemma_last_dot(stem, ending);
    assert(name.skip(stem.len() as int + 1) =~= ending);
    assert(name.take(stem.len() as int) =~= stem);
    let none = Seq::<u8>::empty();
    lemma_last_dot(none, ending);
    assert(none + seq![0x2eu8] + ending =~= seq![0x2eu8] + ending);
}

proof fn lemma_segment(name: Seq<u8>, rest: Seq<u8>)
    requires
        !name.contains(0x2f),
    ensures
        segment_length(name + seq![0x2fu8] + rest) == name.len(),
        segment_length(name) == name.len(),
    decreases name.len(),
{
    let path = name + seq![0x2fu8] + rest;
    if name.len() > 0 {
        let tail = name.drop_first();
        assert(name.contains(name[0]));
        assert forall|i: int| 0 <= i < tail.len() implies tail[i] != 0x2f by {
            assert(name.contains(name[i + 1]));
        }
        lemma_segment(tail, rest);
        assert(path.drop_first() =~= tail + seq![0x2fu8] + rest);
    }
}

/// The components of a path are those of its parts on both sides of a slash, and a part without a
/// slash is a component of its own, unless it is empty or a single dot.
pub proof fn slashes_separate_components(a: Seq<u8>, b: Seq<u8>, name: Seq<u8>)
    requires
        !name.contains(0x2f),
    ensures
        names(a + seq![0x2fu8] + b) == names(a) + names(b),
        names(name) == if name.len() == 0 || name == seq![0x2eu8] {
            Seq::<Seq<u8>>::empty()
        } else {
            seq![name]
        },
{
    lemma_names_split(a, b);
    lemma_segment(name, name);
    assert(name.take(name.len() as int) =~= name);
    assert(seq![name] + Seq::<Seq<u8>>::empty() =~= seq![name]);
}

proof fn lemma_names_split(a: Seq<u8>, b: Seq<u8>)
    ensures
        names(a + seq![0x2fu8] + b) == names(a) + names(b),
    decreases a.len(),
{
    let path = a + seq![0x2fu8] + b;
    lemma_segment_length(a);
    lemma_no_slash_before(a);
    let end = segment_length(a) as int;
    let first = a.take(end);
    if end < a.len() {
        let rest = a.skip(end + 1);
        assert(a =~= first + seq![0x2fu8] + rest);
        assert(path =~= first + seq![0x2fu8] + (rest + seq![0x2fu8] + b));
        lemma_segment(first, rest + seq![0x2fu8] + b);
        assert(path.take(end) =~= first);
        assert(path.skip(end + 1) =~= rest + seq![0x2fu8] + b);
        lemma_names_split(rest, b);
        assert(names(path) =~= names(a) + names(b));
    } else {
        assert(first =~= a);
        lemma_segment(a, b);
        assert(path.take(end) =~= a);
        assert(path.skip(end + 1) =~= b);
        assert(names(path) =~= names(a) + names(b));
    }
}

proof fn lemma_no_slash_before(path: Seq<u8>)
    ensures
        !path.take(segment_length(path) as int).contains(0x2f),
    decreases path.len(),
{
    lemma_segment_length(path);
    let first = path.take(segment_length(path) as int);
    if path.len() > 0 && path[0] != 0x2f {
        let tail = path.drop_first();
        lemma_segment_length(tail);
        lemma_no_slash_before(tail);
        let others = tail.take(segment_length(tail) as int);
        assert forall|i: int| 0 <= i < first.len() implies first[i] != 0x2f by {
            if i > 0 {
                assert(others.contains(others[i - 1]));
                assert(first[i] == others[i - 1]);
            }
        }
    }
}

/// The text of a name is what its bytes encode; where they encode none, or there are none, it is
/// the fallback.
pub proof fn names_are_read_as_they_are_written(bytes: Seq<u8>, fallback: Seq<char>)
    ensures
        valid_utf8(bytes) ==> encode_utf8(text_or(Some(bytes), fallback)) == bytes,
        !valid_utf8(bytes) ==> text_or(Some(bytes), fallback) == fallback,
        text_or(None, fallback) == fallback,
{
    if valid_utf8(bytes) {
        decode_utf8_encode_utf8(bytes);
    }
}

/// A path is absolute where it starts with a slash, and relative to the current folder by name
/// where its first part is a single dot.
pub proof fn starts_of_paths_count(path: Seq<u8>)
    ensures
        components(path).rooted <==> path.len() > 0 && path[0] == 0x2f,
        components(path).here <==> path.len() > 0 && path[0] == 0x2e && (path.len() == 1 || path[1]
            == 0x2f),
        components(path).names == names(path),
{
    if path.len() > 0 && path[0] == 0x2e {
        let rest = path.drop_first();
        lemma_segment_length(rest);
        assert(segment_length(path) == 1 + segment_length(rest));
        if rest.len() > 0 {
            assert(rest[0] == path[1]);
        }
    }
}

} // verus!
