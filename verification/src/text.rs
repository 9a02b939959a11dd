//! Text as sequences of characters.
use vstd::prelude::*;

verus! {

/// Whether `a` comes before `b` where the items are ordered by `less`: at the first difference, or
/// because `a` ends there.
pub open spec fn before<A>(a: Seq<A>, b: Seq<A>, less: spec_fn(A, A) -> bool) -> bool {
    exists|i: int| first_difference(a, b, i) && (i == a.len() || (i < b.len() && less(a[i], b[i])))
}

/// Whether two sequences agree up to `i` and no further.
pub open spec fn first_difference<A>(a: Seq<A>, b: Seq<A>, i: int) -> bool {
    &&& 0 <= i <= a.len()
    &&& i <= b.len()
    &&& a.take(i) == b.take(i)
    &&& i < a.len() || i < b.len()
    &&& i < a.len() && i < b.len() ==> a[i] != b[i]
}

/// The order of text: by code points.
pub open spec fn text_before(a: Seq<char>, b: Seq<char>) -> bool {
    before(a, b, |x: char, y: char| x < y)
}

pub open spec fn is_digit(c: char) -> bool {
    '0' <= c && c <= '9'
}

/// The lower-case letter of an ASCII capital; any other character as it is.
pub open spec fn ascii_lower(c: char) -> char {
    if 'A' <= c && c <= 'Z' {
        (c as u8 + 32) as char
    } else {
        c
    }
}

/// The capital of an ASCII lower-case letter; any other character as it is.
pub open spec fn ascii_upper(c: char) -> char {
    if 'a' <= c && c <= 'z' {
        (c as u8 - 32) as char
    } else {
        c
    }
}

/// The number that a digit stands for.
pub open spec fn digit_value(c: char) -> int {
    c as int - '0' as int
}

/// The number that digits stand for.
pub open spec fn number_value(digits: Seq<char>) -> int
    decreases digits.len(),
{
    if digits.len() == 0 {
        0
    } else {
        10 * number_value(digits.drop_last()) + digit_value(digits.last())
    }
}

pub open spec fn all_digits(digits: Seq<char>) -> bool {
    forall|i: int| 0 <= i < digits.len() ==> is_digit(#[trigger] digits[i])
}

/// The characters of a text.
pub(crate) fn characters(s: &str) -> (r: Vec<char>)
    ensures
        r@ == s@,
{
    let mut r: Vec<char> = Vec::new();
    for c in iter: s.chars()
        invariant
            r@ == iter.seq().take(iter.index() as int),
            iter.seq() == s@,
    {
        r.push(c);
        assert(iter.seq().take(iter.index() + 1) =~= iter.seq().take(iter.index() as int).push(c));
    }
    assert(s@.take(s@.len() as int) =~= s@);
    r
}

/// The text of some characters.
pub(crate) fn text_from(characters: &Vec<char>, start: usize, end: usize) -> (r: String)
    requires
        start <= end <= characters.len(),
    ensures
        r@ == characters@.subrange(start as int, end as int),
{
    let mut r: String = String::new();
    let mut i: usize = start;
    while i < end
        invariant
            start <= i <= end <= characters.len(),
            r@ == characters@.subrange(start as int, i as int),
        decreases end - i,
    {
        r.push(characters[i]);
        i = i + 1;
        assert(r@ =~= characters@.subrange(start as int, i as int));
    }
    r
}

/// Whether two texts are the same.
pub(crate) fn same_text(a: &str, b: &str) -> (r: bool)
    ensures
        r == (a@ == b@),
{
    a.to_owned() == b.to_owned()
}

pub(crate) fn to_ascii_lower(s: &str) -> (r: String)
    ensures
        r@ == s@.map_values(|c: char| ascii_lower(c)),
{
    let all: Vec<char> = characters(s);
    let mut r: String = String::new();
    let mut i: usize = 0;
    while i < all.len()
        invariant
            i <= all.len(),
            all@ == s@,
            r@ == s@.take(i as int).map_values(|c: char| ascii_lower(c)),
        decreases all.len() - i,
    {
        let c: char = all[i];
        let lower: char = if 'A' <= c && c <= 'Z' {
            (c as u8 + 32) as char
        } else {
            c
        };
        r.push(lower);
        i = i + 1;
        assert(r@ =~= s@.take(i as int).map_values(|c: char| ascii_lower(c)));
    }
    assert(s@.take(s@.len() as int) =~= s@);
    r
}

pub(crate) fn to_ascii_upper(s: &str) -> (r: String)
    ensures
        r@ == s@.map_values(|c: char| ascii_upper(c)),
{
    let all: Vec<char> = characters(s);
    let mut r: String = String::new();
    let mut i: usize = 0;
    while i < all.len()
        invariant
            i <= all.len(),
            all@ == s@,
            r@ == s@.take(i as int).map_values(|c: char| ascii_upper(c)),
        decreases all.len() - i,
    {
        let c: char = all[i];
        let upper: char = if 'a' <= c && c <= 'z' {
            (c as u8 - 32) as char
        } else {
            c
        };
        r.push(upper);
        i = i + 1;
        assert(r@ =~= s@.take(i as int).map_values(|c: char| ascii_upper(c)));
    }
    assert(s@.take(s@.len() as int) =~= s@);
    r
}

/// Whether `a` comes before `b` by code points.
pub(crate) fn comes_before(a: &str, b: &str) -> (r: bool)
    ensures
        r == text_before(a@, b@),
{
    let x: Vec<char> = characters(a);
    let y: Vec<char> = characters(b);
    let ghost less = |x: char, y: char| x < y;
    let mut i: usize = 0;
    assert(a@.take(0) =~= b@.take(0));
    while i < x.len() && i < y.len() && x[i] == y[i]
        invariant
            x@ == a@,
            y@ == b@,
            i <= x.len(),
            i <= y.len(),
            a@.take(i as int) == b@.take(i as int),
        decreases x.len() - i,
    {
        assert(a@.take(i + 1) =~= a@.take(i as int).push(a@[i as int]));
        assert(b@.take(i + 1) =~= b@.take(i as int).push(b@[i as int]));
        i = i + 1;
    }
    proof {
        if i < x.len() || i < y.len() {
            assert(first_difference(a@, b@, i as int));
            assert forall|j: int| first_difference(a@, b@, j) implies j == i by {
                lemma_first_difference_unique(a@, b@, i as int, j);
            }
        } else {
            assert(a@ =~= b@) by {
                assert(a@.take(i as int) =~= a@);
                assert(b@.take(i as int) =~= b@);
            }
            assert forall|j: int| !first_difference(a@, b@, j) by {}
        }
    }
    if i < y.len() {
        i == x.len() || x[i] < y[i]
    } else {
        false
    }
}

/// Two sequences have at most one first difference.
pub proof fn lemma_first_difference_unique<A>(a: Seq<A>, b: Seq<A>, i: int, j: int)
    requires
        first_difference(a, b, i),
        first_difference(a, b, j),
    ensures
        i == j,
{
    if i < j {
        assert(a.take(j)[i] == b.take(j)[i]);
    } else if j < i {
        assert(a.take(i)[j] == b.take(i)[j]);
    }
}

/// Different sequences have a first difference.
pub proof fn lemma_first_difference_exists<A>(a: Seq<A>, b: Seq<A>) -> (i: int)
    requires
        a != b,
    ensures
        first_difference(a, b, i),
{
    assert(a.take(0) =~= b.take(0));
    lemma_difference_from(a, b, 0)
}

proof fn lemma_difference_from<A>(a: Seq<A>, b: Seq<A>, i: int) -> (r: int)
    requires
        a != b,
        0 <= i <= a.len(),
        i <= b.len(),
        a.take(i) == b.take(i),
    ensures
        first_difference(a, b, r),
    decreases a.len() - i,
{
    if i < a.len() && i < b.len() && a[i] == b[i] {
        assert(a.take(i + 1) =~= a.take(i).push(a[i]));
        assert(b.take(i + 1) =~= b.take(i).push(b[i]));
        lemma_difference_from(a, b, i + 1)
    } else {
        if i == a.len() && i == b.len() {
            assert(a =~= a.take(i));
            assert(b =~= b.take(i));
        }
        i
    }
}

/// A strict total order of the items orders the sequences strictly and totally.
pub proof fn lemma_before_is_total<A>(a: Seq<A>, b: Seq<A>, less: spec_fn(A, A) -> bool)
    requires
        forall|x: A, y: A| #[trigger] less(x, y) ==> !less(y, x),
        forall|x: A, y: A| x != y ==> #[trigger] less(x, y) || less(y, x),
    ensures
        a == b ==> !before(a, b, less),
        a != b ==> (before(a, b, less) <==> !before(b, a, less)),
{
    if a == b {
        assert forall|i: int| !first_difference(a, b, i) by {}
    } else {
        let i = lemma_first_difference_exists(a, b);
        assert(first_difference(b, a, i));
        assert forall|j: int| first_difference(a, b, j) implies j == i by {
            lemma_first_difference_unique(a, b, i, j);
        }
        assert forall|j: int| first_difference(b, a, j) implies j == i by {
            lemma_first_difference_unique(b, a, i, j);
        }
    }
}

/// A transitive order of the items orders the sequences transitively.
pub proof fn lemma_before_is_transitive<A>(
    a: Seq<A>,
    b: Seq<A>,
    c: Seq<A>,
    less: spec_fn(A, A) -> bool,
)
    requires
        forall|x: A, y: A, z: A|
            #![trigger less(x, y), less(y, z)]
            less(x, y) && less(y, z) ==> less(x, z),
        forall|x: A, y: A| #[trigger] less(x, y) ==> !less(y, x),
        before(a, b, less),
        before(b, c, less),
    ensures
        before(a, c, less),
{
    let i = choose|i: int|
        first_difference(a, b, i) && (i == a.len() || (i < b.len() && less(a[i], b[i])));
    let j = choose|j: int|
        first_difference(b, c, j) && (j == b.len() || (j < c.len() && less(b[j], c[j])));
    let k = if i < j {
        i
    } else {
        j
    };
    assert(a.take(k) =~= a.take(i).take(k));
    assert(b.take(k) =~= b.take(i).take(k));
    assert(b.take(k) =~= b.take(j).take(k));
    assert(c.take(k) =~= c.take(j).take(k));
    if i < j {
        assert(b.take(j)[i] == c.take(j)[i]);
    } else if j < i {
        assert(a.take(i)[j] == b.take(i)[j]);
    }
    assert(first_difference(a, c, k));
}

/// Texts are ordered by the first character in which they differ, and a text comes before one that
/// it is the start of.
pub proof fn texts_are_ordered_by_their_first_difference(
    start: Seq<char>,
    a: char,
    a_end: Seq<char>,
    b: char,
    b_end: Seq<char>,
)
    ensures
        a != b ==> (text_before(start + seq![a] + a_end, start + seq![b] + b_end) <==> a < b),
        text_before(start, start + seq![a] + a_end),
        !text_before(start + seq![a] + a_end, start),
        !text_before(start, start),
{
    let x = start + seq![a] + a_end;
    let y = start + seq![b] + b_end;
    let n = start.len() as int;
    assert(x.take(n) =~= start);
    assert(y.take(n) =~= start);
    assert(start.take(n) =~= start);
    assert(x[n] == a && y[n] == b);
    assert(first_difference(start, x, n));
    assert(first_difference(x, start, n));
    if text_before(x, start) {
        let i = choose|i: int|
            first_difference(x, start, i) && (i == x.len() || (i < start.len() && x[i] < start[i]));
        lemma_first_difference_unique(x, start, n, i);
    }
    if a != b {
        assert(first_difference(x, y, n));
        if text_before(x, y) {
            let i = choose|i: int|
                first_difference(x, y, i) && (i == x.len() || (i < y.len() && x[i] < y[i]));
            lemma_first_difference_unique(x, y, n, i);
        }
    }
}

/// Capitals and small letters of the ASCII alphabet belong together in pairs, 32 places apart; all
/// other characters are neither.
pub proof fn letters_come_in_pairs(c: char)
    ensures
        'A' <= c && c <= 'Z' ==> ascii_lower(c) as int == c as int + 32 && ascii_upper(c) == c,
        'a' <= c && c <= 'z' ==> ascii_upper(c) as int == c as int - 32 && ascii_lower(c) == c,
        !('A' <= c && c <= 'Z') && !('a' <= c && c <= 'z') ==> ascii_lower(c) == c && ascii_upper(c)
            == c,
{
}

} // verus!
