//! What keys, the wheel and settings ask for.
use crate::binary64::{
    absolute, at_most, lemma_whole_exact, less, one, whole, Binary64, Number,
};
use crate::decimal::{decimal, decimal_is_read_back};
use crate::text::{all_digits, characters, is_digit, number_value};
use vstd::arithmetic::mul::*;
use vstd::arithmetic::power2::*;
use vstd::prelude::*;

verus! {

/// The keys that mean something.
#[derive(Clone, Copy, Debug, PartialEq, Eq, Structural)]
pub enum Key {
    PageDown,
    Space,
    PageUp,
    BackSpace,
    Right,
    Left,
    Down,
    Up,
    Home,
    End,
    Plus,
    KeypadAdd,
    Equal,
    Minus,
    KeypadSubtract,
    Zero,
    KeypadZero,
    F,
    I,
    E,
    P,
    Delete,
    Escape,
    Q,
    Other,
}

/// What the viewer does.
#[derive(Clone, Copy, Debug, PartialEq, Eq, Structural)]
pub enum Command {
    Print,
    MoveBy(i32),
    /// Moves the view over a zoomed image, by pixels to the right and down.
    PanBy(i32, i32),
    MoveToFirst,
    MoveToLast,
    ZoomIn,
    ZoomOut,
    ZoomFit,
    ToggleFullscreen,
    ToggleInfo,
    ToggleEdit,
    ToggleMetadata,
    Delete,
    Quit,
}

/// The meaning of a key. The arrow keys pan over a zoomed image; else left and right move through
/// the folder, and up and down mean nothing.
pub open spec fn meaning(key: Key, control: bool, zoomed: bool) -> Option<Command> {
    match key {
        Key::P => if control {
            Some(Command::Print)
        } else {
            Some(Command::ToggleMetadata)
        },
        Key::PageDown | Key::Space => Some(Command::MoveBy(1)),
        Key::PageUp | Key::BackSpace => Some(Command::MoveBy(-1i32)),
        Key::Right => if zoomed {
            Some(Command::PanBy(80, 0))
        } else {
            Some(Command::MoveBy(1))
        },
        Key::Left => if zoomed {
            Some(Command::PanBy(-80i32, 0))
        } else {
            Some(Command::MoveBy(-1i32))
        },
        Key::Down => if zoomed {
            Some(Command::PanBy(0, 80))
        } else {
            None
        },
        Key::Up => if zoomed {
            Some(Command::PanBy(0, -80i32))
        } else {
            None
        },
        Key::Home => Some(Command::MoveToFirst),
        Key::End => Some(Command::MoveToLast),
        Key::Plus | Key::KeypadAdd | Key::Equal => Some(Command::ZoomIn),
        Key::Minus | Key::KeypadSubtract => Some(Command::ZoomOut),
        Key::Zero | Key::KeypadZero => Some(Command::ZoomFit),
        Key::F => Some(Command::ToggleFullscreen),
        Key::I => Some(Command::ToggleInfo),
        Key::E => Some(Command::ToggleEdit),
        Key::Delete => Some(Command::Delete),
        Key::Escape | Key::Q => Some(Command::Quit),
        Key::Other => None,
    }
}

/// What a key asks for.
pub fn command_for(key: Key, control: bool, zoomed: bool) -> (r: Option<Command>)
    ensures
        r == meaning(key, control, zoomed),
{
    match key {
        Key::P => if control {
            Some(Command::Print)
        } else {
            Some(Command::ToggleMetadata)
        },
        Key::PageDown | Key::Space => Some(Command::MoveBy(1)),
        Key::PageUp | Key::BackSpace => Some(Command::MoveBy(-1)),
        Key::Right => if zoomed {
            Some(Command::PanBy(80, 0))
        } else {
            Some(Command::MoveBy(1))
        },
        Key::Left => if zoomed {
            Some(Command::PanBy(-80, 0))
        } else {
            Some(Command::MoveBy(-1))
        },
        Key::Down => if zoomed {
            Some(Command::PanBy(0, 80))
        } else {
            None
        },
        Key::Up => if zoomed {
            Some(Command::PanBy(0, -80))
        } else {
            None
        },
        Key::Home => Some(Command::MoveToFirst),
        Key::End => Some(Command::MoveToLast),
        Key::Plus | Key::KeypadAdd | Key::Equal => Some(Command::ZoomIn),
        Key::Minus | Key::KeypadSubtract => Some(Command::ZoomOut),
        Key::Zero | Key::KeypadZero => Some(Command::ZoomFit),
        Key::F => Some(Command::ToggleFullscreen),
        Key::I => Some(Command::ToggleInfo),
        Key::E => Some(Command::ToggleEdit),
        Key::Delete => Some(Command::Delete),
        Key::Escape | Key::Q => Some(Command::Quit),
        Key::Other => None,
    }
}

/// What is left of the movements of the wheel, and the step that they make, if they do.
pub open spec fn wheel(accumulated: Number, dy: Number) -> (Number, Option<int>) {
    let total = accumulated.plus(dy);
    if at_most(whole(1), absolute(total)) {
        (
            whole(0),
            Some(
                if less(whole(0), total) {
                    1
                } else {
                    -1
                },
            ),
        )
    } else {
        (total, None)
    }
}

/// Takes a movement of the wheel. Movements add up until they make a whole step; the result is
/// what is left of them, and the step, if there is one.
pub fn scrolled(accumulated: Binary64, dy: Binary64) -> (r: (Binary64, Option<i32>))
    ensures
        ({
            let total = accumulated@.plus(dy@);
            if at_most(whole(1), absolute(total)) {
                r.0@ == whole(0) && r.1 == Some(
                    if less(whole(0), total) {
                        1i32
                    } else {
                        -1i32
                    },
                )
            } else {
                r.0@ == total && r.1 is None
            }
        }),
        (
            r.0@,
            match r.1 {
                Some(step) => Some(step as int),
                None => None,
            },
        ) == wheel(accumulated@, dy@),
{
    let total: Binary64 = accumulated.plus(dy);
    if Binary64::from_i32(1).is_at_most(total.abs()) {
        let step: i32 = if Binary64::from_i32(0).less_than(total) {
            1
        } else {
            -1
        };
        (Binary64::from_i32(0), Some(step))
    } else {
        (total, None)
    }
}

/// A number inside of bounds.
pub open spec fn clamped(value: Number, low: Number, high: Number) -> Number {
    if less(value, low) {
        low
    } else if less(high, value) {
        high
    } else {
        value
    }
}

/// Where a scrolled view starts after it has been moved along one axis.
pub fn panned(
    value: Binary64,
    delta: i32,
    lower: Binary64,
    upper: Binary64,
    page_size: Binary64,
) -> (r: Binary64)
    requires
        at_most(lower@, upper@.minus(page_size@)),
    ensures
        r@ == clamped(value@.plus(whole(delta as int)), lower@, upper@.minus(page_size@)),
        value@.plus(whole(delta as int)) !is Nan ==> at_most(lower@, r@) && at_most(
            r@,
            upper@.minus(page_size@),
        ),
{
    let target: Binary64 = value.plus(Binary64::from_i32(delta));
    let high: Binary64 = upper.minus(page_size);
    if target.less_than(lower) {
        lower
    } else if high.less_than(target) {
        high
    } else {
        target
    }
}

/// The number of megabytes of the cache unless a setting says otherwise.
pub const DEFAULT_CACHE_MB: usize = 512;

/// A setting without its plus sign, if there is one.
pub open spec fn unsigned(text: Seq<char>) -> Seq<char> {
    if text.len() > 0 && text[0] == '+' {
        text.drop_first()
    } else {
        text
    }
}

/// The number that a setting stands for: digits, behind a plus sign if there is one.
pub open spec fn setting_value(text: Seq<char>) -> Option<int> {
    let digits = unsigned(text);
    if digits.len() > 0 && all_digits(digits) && number_value(digits) <= usize::MAX {
        Some(number_value(digits))
    } else {
        None
    }
}

/// The number of megabytes that a setting asks for.
pub open spec fn megabytes(setting: Option<Seq<char>>) -> int {
    match setting {
        Some(text) => match setting_value(text) {
            Some(value) => if value > 0 {
                value
            } else {
                DEFAULT_CACHE_MB as int
            },
            None => DEFAULT_CACHE_MB as int,
        },
        None => DEFAULT_CACHE_MB as int,
    }
}

proof fn lemma_digits_not_negative(digits: Seq<char>)
    requires
        all_digits(digits),
    ensures
        number_value(digits) >= 0,
    decreases digits.len(),
{
    if digits.len() > 0 {
        let rest = digits.drop_last();
        assert forall|i: int| 0 <= i < rest.len() implies is_digit(#[trigger] rest[i]) by {
            assert(is_digit(digits[i]));
        }
        lemma_digits_not_negative(rest);
        assert(is_digit(digits[digits.len() - 1]));
    }
}

proof fn lemma_digits_grow(digits: Seq<char>, count: int)
    requires
        0 <= count <= digits.len(),
        all_digits(digits),
    ensures
        number_value(digits.take(count)) <= number_value(digits),
    decreases digits.len() - count,
{
    if count < digits.len() {
        lemma_digits_grow(digits, count + 1);
        let part = digits.take(count);
        assert(digits.take(count + 1).drop_last() =~= part);
        assert(is_digit(digits[count]));
        assert forall|i: int| 0 <= i < part.len() implies is_digit(#[trigger] part[i]) by {
            assert(is_digit(digits[i]));
        }
        lemma_digits_not_negative(part);
    } else {
        assert(digits.take(count) =~= digits);
    }
}

fn parse_setting(text: &str) -> (r: Option<usize>)
    ensures
        setting_value(text@) == match r {
            Some(value) => Some(value as int),
            None => None,
        },
{
    let all: Vec<char> = characters(text);
    let start: usize = if all.len() > 0 && all[0] == '+' {
        1
    } else {
        0
    };
    let ghost digits = unsigned(text@);
    assert(digits =~= all@.skip(start as int));
    if start == all.len() {
        return None;
    }
    let mut value: usize = 0;
    let mut i: usize = start;
    assert(digits.take(0) =~= seq![]);
    while i < all.len()
        invariant
            start <= i <= all.len(),
            start < all.len(),
            digits == all@.skip(start as int),
            forall|j: int| 0 <= j < i - start ==> is_digit(#[trigger] digits[j]),
            value == number_value(digits.take(i - start)),
            digits == unsigned(text@),
        decreases all.len() - i,
    {
        let c: char = all[i];
        let ghost k = i - start;
        assert(digits[k] == c);
        if c < '0' || c > '9' {
            assert(!is_digit(digits[k]));
            return None;
        }
        let d: usize = (c as u8 - 48) as usize;
        assert(digits.take(k + 1).drop_last() =~= digits.take(k));
        assert(number_value(digits.take(k + 1)) == 10 * value + d);
        if value > usize::MAX / 10 || value * 10 > usize::MAX - d {
            proof {
                if setting_value(text@) is Some {
                    lemma_digits_grow(digits, k + 1);
                }
            }
            return None;
        }
        value = value * 10 + d;
        i = i + 1;
    }
    assert(digits.take(digits.len() as int) =~= digits);
    Some(value)
}

/// The number of megabytes of the cache that a setting asks for.
pub fn cache_megabytes(setting: Option<String>) -> (r: usize)
    ensures
        r == megabytes(
            match setting {
                Some(text) => Some(text@),
                None => None,
            },
        ),
{
    match setting {
        None => DEFAULT_CACHE_MB,
        Some(text) => match parse_setting(text.as_str()) {
            None => DEFAULT_CACHE_MB,
            Some(value) => if value > 0 {
                value
            } else {
                DEFAULT_CACHE_MB
            },
        },
    }
}

/// The number of bytes of the cache.
pub fn cache_bytes(megabytes: usize) -> (r: usize)
    requires
        megabytes * 0x10_0000 <= usize::MAX,
    ensures
        r == megabytes * 0x10_0000,
{
    megabytes * 1024 * 1024
}

/// Left and right, and up and down, are opposites, over a zoomed image as in the folder. The other
/// keys that move through the folder do so whether the image is zoomed or not.
pub proof fn keys_move_as_they_point(control: bool, zoomed: bool)
    ensures
        ({
            let next = meaning(Key::PageDown, control, zoomed);
            let previous = meaning(Key::PageUp, control, zoomed);
            &&& next == Some(Command::MoveBy(1)) && previous == Some(Command::MoveBy(-1i32))
            &&& meaning(Key::Space, control, zoomed) == next
            &&& meaning(Key::BackSpace, control, zoomed) == previous
            &&& meaning(Key::Home, control, zoomed) == Some(Command::MoveToFirst)
            &&& meaning(Key::End, control, zoomed) == Some(Command::MoveToLast)
            &&& !zoomed ==> {
                &&& meaning(Key::Right, control, zoomed) == next
                &&& meaning(Key::Left, control, zoomed) == previous
                &&& meaning(Key::Up, control, zoomed) is None
                &&& meaning(Key::Down, control, zoomed) is None
            }
            &&& zoomed ==> {
                &&& meaning(Key::Right, control, zoomed) matches Some(Command::PanBy(x, y)) && x
                    == 80 && y == 0
                &&& meaning(Key::Left, control, zoomed) matches Some(Command::PanBy(x, y)) && x
                    == -80 && y == 0
                &&& meaning(Key::Down, control, zoomed) matches Some(Command::PanBy(x, y)) && x == 0
                    && y == 80
                &&& meaning(Key::Up, control, zoomed) matches Some(Command::PanBy(x, y)) && x == 0
                    && y == -80
            }
        }),
{
}

/// The keys that do not move mean the same whether the image is zoomed or not, and only one of them
/// depends on the control key.
pub proof fn keys_have_their_meaning(control: bool, zoomed: bool)
    ensures
        meaning(Key::P, true, zoomed) == Some(Command::Print),
        meaning(Key::P, false, zoomed) == Some(Command::ToggleMetadata),
        meaning(Key::Plus, control, zoomed) == Some(Command::ZoomIn),
        meaning(Key::KeypadAdd, control, zoomed) == Some(Command::ZoomIn),
        meaning(Key::Equal, control, zoomed) == Some(Command::ZoomIn),
        meaning(Key::Minus, control, zoomed) == Some(Command::ZoomOut),
        meaning(Key::KeypadSubtract, control, zoomed) == Some(Command::ZoomOut),
        meaning(Key::Zero, control, zoomed) == Some(Command::ZoomFit),
        meaning(Key::KeypadZero, control, zoomed) == Some(Command::ZoomFit),
        meaning(Key::F, control, zoomed) == Some(Command::ToggleFullscreen),
        meaning(Key::I, control, zoomed) == Some(Command::ToggleInfo),
        meaning(Key::E, control, zoomed) == Some(Command::ToggleEdit),
        meaning(Key::Delete, control, zoomed) == Some(Command::Delete),
        meaning(Key::Escape, control, zoomed) == Some(Command::Quit),
        meaning(Key::Q, control, zoomed) == Some(Command::Quit),
        meaning(Key::Other, control, zoomed) is None,
{
}

/// A number brought into bounds lies between them, and it is kept where it does so already.
pub proof fn clamped_number_is_in_bounds(value: Number, low: Number, high: Number)
    requires
        at_most(low, high),
        value !is Nan,
    ensures
        at_most(low, clamped(value, low, high)) && at_most(clamped(value, low, high), high),
        at_most(low, value) && at_most(value, high) ==> clamped(value, low, high) == value,
        less(value, low) ==> clamped(value, low, high) == low,
        less(high, value) ==> clamped(value, low, high) == high,
{
}

/// A setting that is a positive number is taken as it is written, with a plus sign or without one.
/// Without a setting, and with any other one, the cache has 512 megabytes.
pub proof fn cache_settings_are_taken(n: nat, text: Seq<char>)
    ensures
        0 < n <= usize::MAX ==> megabytes(Some(decimal(n))) == n && megabytes(
            Some(seq!['+'] + decimal(n)),
        ) == n,
        megabytes(Some(decimal(0))) == 512,
        megabytes(None) == 512,
        text.len() == 0 ==> megabytes(Some(text)) == 512,
        text.len() > 0 && text[0] != '+' && !all_digits(text) ==> megabytes(Some(text)) == 512,
        text.len() > 0 && text[0] == '+' && !all_digits(text.drop_first()) ==> megabytes(Some(text))
            == 512,
        n > usize::MAX ==> megabytes(Some(decimal(n))) == 512,
{
    decimal_is_read_back(n);
    decimal_is_read_back(0);
    assert(is_digit(decimal(n)[0]));
    assert(is_digit(decimal(0)[0]));
    assert((seq!['+'] + decimal(n)).drop_first() =~= decimal(n));
}

/// Movements of the wheel add up until they make a whole step: down to the next image, up to the
/// one before it. A step takes all of them, and without a step none is lost.
pub proof fn wheel_movements_add_up(accumulated: Number, dy: Number)
    requires
        accumulated.plus(dy) is Finite,
    ensures
        ({
            let total = accumulated.plus(dy).signed();
            let (left, step) = wheel(accumulated, dy);
            &&& total >= one() ==> step == Some(1int) && left == whole(0)
            &&& total <= -(one() as int) ==> step == Some(-1int) && left == whole(0)
            &&& -(one() as int) < total < one() ==> step is None && left == accumulated.plus(dy)
        }),
{
    lemma_whole_exact(0);
    lemma_whole_exact(1);
    lemma_pow2_pos(1074);
    lemma_mul_basics(one() as int);
}

} // verus!
