//! Numbers in decimal text.
use crate::binary64::{one, Binary64, Number};
use crate::ordering::lemma_nearest_error;
use crate::rounding::{lemma_nearest_scale, lemma_nearest_whole, nearest};
use crate::text::{all_digits, is_digit, number_value};
use vstd::arithmetic::div_mod::*;
use vstd::arithmetic::mul::*;
use vstd::arithmetic::power2::*;
use vstd::prelude::*;

verus! {

/// `String::push` of std appends one character.
pub assume_specification[ String::push ](s: &mut String, c: char)
    ensures
        final(s)@ == old(s)@.push(c),
;

pub open spec fn digit(d: nat) -> char {
    if d == 0 {
        '0'
    } else if d == 1 {
        '1'
    } else if d == 2 {
        '2'
    } else if d == 3 {
        '3'
    } else if d == 4 {
        '4'
    } else if d == 5 {
        '5'
    } else if d == 6 {
        '6'
    } else if d == 7 {
        '7'
    } else if d == 8 {
        '8'
    } else {
        '9'
    }
}

/// A natural number in decimal digits, without leading zeros.
pub open spec fn decimal(n: nat) -> Seq<char>
    decreases n,
{
    if n < 10 {
        seq![digit(n)]
    } else {
        decimal(n / 10).push(digit(n % 10))
    }
}

/// An integer in decimal digits, with a minus sign where it is negative.
pub open spec fn decimal_signed(n: int) -> Seq<char> {
    if n < 0 {
        seq!['-'] + decimal((-n) as nat)
    } else {
        decimal(n as nat)
    }
}

/// The last `places` digits of `n`, with leading zeros.
pub open spec fn padded(n: nat, places: nat) -> Seq<char>
    decreases places,
{
    if places == 0 {
        seq![]
    } else {
        padded(n / 10, (places - 1) as nat).push(digit(n % 10))
    }
}

pub open spec fn power_of_ten(places: nat) -> nat
    decreases places,
{
    if places == 0 {
        1
    } else {
        10 * power_of_ten((places - 1) as nat)
    }
}

/// A number rounded to `places` decimal places, to the even digit where two are equally near.
pub open spec fn fixed(a: Number, places: nat) -> Seq<char> {
    match a {
        Number::Nan => seq!['N', 'a', 'N'],
        Number::Infinite { negative } => if negative {
            seq!['-', 'i', 'n', 'f']
        } else {
            seq!['i', 'n', 'f']
        },
        Number::Finite { negative, units } => {
            let shown = nearest(units * power_of_ten(places), one());
            let sign = if negative {
                seq!['-']
            } else {
                seq![]
            };
            let whole = decimal(shown / power_of_ten(places));
            if places == 0 {
                sign + whole
            } else {
                sign + whole + seq!['.'] + padded(shown, places)
            }
        },
    }
}

fn digit_of(d: u8) -> (c: char)
    requires
        d < 10,
    ensures
        c == digit(d as nat),
{
    if d == 0 {
        '0'
    } else if d == 1 {
        '1'
    } else if d == 2 {
        '2'
    } else if d == 3 {
        '3'
    } else if d == 4 {
        '4'
    } else if d == 5 {
        '5'
    } else if d == 6 {
        '6'
    } else if d == 7 {
        '7'
    } else if d == 8 {
        '8'
    } else {
        '9'
    }
}

/// The number that digits stand for, the least one first.
spec fn value(digits: Seq<u8>) -> nat
    decreases digits.len(),
{
    if digits.len() == 0 {
        0
    } else {
        digits[0] as nat + 10 * value(digits.drop_first())
    }
}

/// Digits below ten without a leading zero.
spec fn proper(digits: Seq<u8>) -> bool {
    &&& digits.len() > 0
    &&& forall|i: int| 0 <= i < digits.len() ==> digits[i] < 10
    &&& digits.len() > 1 ==> digits.last() > 0
}

proof fn lemma_proper_is_decimal(digits: Seq<u8>)
    requires
        proper(digits),
    ensures
        decimal(value(digits)) == digits.reverse().map_values(|d: u8| digit(d as nat)),
        digits.len() > 1 ==> value(digits) > 0,
        digits.last() > 0 ==> value(digits) > 0,
    decreases digits.len(),
{
    let rest = digits.drop_first();
    let text = digits.reverse().map_values(|d: u8| digit(d as nat));
    if digits.len() == 1 {
        assert(value(rest) == 0);
        assert(text =~= seq![digit(digits[0] as nat)]);
    } else {
        assert(rest.last() == digits.last());
        lemma_proper_is_decimal(rest);
        let n = value(digits);
        assert(n / 10 == value(rest));
        assert(n % 10 == digits[0]);
        assert(text =~= rest.reverse().map_values(|d: u8| digit(d as nat)).push(
            digit(digits[0] as nat),
        ));
    }
}

proof fn lemma_value_push(digits: Seq<u8>, d: u8)
    ensures
        value(digits.push(d)) == value(digits) + d * power_of_ten(digits.len()),
    decreases digits.len(),
{
    if digits.len() == 0 {
        assert(digits.push(d).drop_first() =~= Seq::<u8>::empty());
        assert(value(digits.push(d).drop_first()) == 0);
        assert(power_of_ten(0) == 1);
        lemma_mul_basics(d as int);
    } else {
        lemma_value_push(digits.drop_first(), d);
        assert(digits.push(d).drop_first() =~= digits.drop_first().push(d));
        let p = power_of_ten((digits.len() - 1) as nat);
        assert(d * (10 * p) == 10 * (d * p)) by (nonlinear_arith);
    }
}

/// The digits of `n`, the least one first.
fn digits_of(n: u128) -> (r: Vec<u8>)
    ensures
        proper(r@),
        value(r@) == n,
{
    let mut digits: Vec<u8> = Vec::new();
    let mut rest: u128 = n;
    proof {
        assert(power_of_ten(0) == 1);
        lemma_mul_basics(n as int);
    }
    while rest >= 10
        invariant
            forall|i: int| 0 <= i < digits.len() ==> digits[i] < 10,
            n == value(digits@) + rest * power_of_ten(digits@.len()),
            digits.len() > 0 ==> rest > 0,
        decreases rest,
    {
        let d: u8 = (rest % 10) as u8;
        proof {
            lemma_value_push(digits@, d);
            let p = power_of_ten(digits@.len());
            assert(rest * p == (rest % 10) * p + (rest / 10) * (10 * p)) by (nonlinear_arith)
                requires
                    rest == 10 * (rest / 10) + rest % 10,
            ;
        }
        digits.push(d);
        rest = rest / 10;
    }
    proof {
        lemma_value_push(digits@, rest as u8);
    }
    digits.push(rest as u8);
    digits
}

/// Doubles the number that the digits stand for.
fn double(digits: &mut Vec<u8>)
    requires
        proper(old(digits)@),
    ensures
        proper(final(digits)@),
        value(final(digits)@) == 2 * value(old(digits)@),
{
    let ghost before = digits@;
    let mut done: Vec<u8> = Vec::new();
    let mut carry: u8 = 0;
    let mut i: usize = 0;
    while i < digits.len()
        invariant
            before == digits@,
            proper(before),
            i <= digits.len(),
            carry <= 1,
            done@.len() == i,
            forall|j: int| 0 <= j < i ==> done[j] < 10,
            value(done@) + carry * power_of_ten(i as nat) == 2 * value(before.take(i as int)),
            i > 0 ==> done@.last() + 10 * carry >= 2 * before[i - 1],
        decreases digits.len() - i,
    {
        let total: u8 = digits[i] * 2 + carry;
        proof {
            lemma_value_push(before.take(i as int), before[i as int]);
            assert(before.take(i + 1) =~= before.take(i as int).push(before[i as int]));
            lemma_value_push(done@, total % 10);
            let p = power_of_ten(i as nat);
            assert((total % 10) * p + (total / 10) * (10 * p) == 2 * (before[i as int] * p) + carry
                * p) by (nonlinear_arith)
                requires
                    total == 10 * (total / 10) + total % 10,
                    total == before[i as int] * 2 + carry,
            ;
        }
        done.push(total % 10);
        carry = total / 10;
        i = i + 1;
    }
    assert(before.take(before.len() as int) =~= before);
    if carry > 0 {
        proof {
            lemma_value_push(done@, carry);
        }
        done.push(carry);
    }
    *digits = done;
}

/// The digits in reading order.
fn text_of(digits: &Vec<u8>) -> (s: String)
    requires
        proper(digits@),
    ensures
        s@ == decimal(value(digits@)),
{
    let mut s: String = String::new();
    let mut i: usize = digits.len();
    let ghost text = digits@.reverse().map_values(|d: u8| digit(d as nat));
    while i > 0
        invariant
            proper(digits@),
            i <= digits.len(),
            text == digits@.reverse().map_values(|d: u8| digit(d as nat)),
            s@ == text.take(digits.len() - i),
        decreases i,
    {
        i = i - 1;
        let c: char = digit_of(digits[i]);
        assert(text.take(digits.len() - i) =~= text.take(digits.len() - i - 1).push(c));
        s.push(c);
    }
    proof {
        assert(text.take(digits.len() as int) =~= text);
        lemma_proper_is_decimal(digits@);
    }
    s
}

/// A natural number in decimal digits.
pub fn format_u64(n: u64) -> (s: String)
    ensures
        s@ == decimal(n as nat),
{
    text_of(&digits_of(n as u128))
}

/// An integer in decimal digits.
pub fn format_i32(n: i32) -> (s: String)
    ensures
        s@ == decimal_signed(n as int),
{
    if n < 0 {
        let magnitude: String = format_u64((-(n as i64)) as u64);
        let mut s: String = String::new();
        s.push('-');
        s.append(magnitude.as_str());
        s
    } else {
        format_u64(n as u64)
    }
}

/// The last `places` digits of `n`, with leading zeros.
fn format_padded(n: u128, places: u32) -> (s: String)
    ensures
        s@ == padded(n as nat, places as nat),
    decreases places,
{
    if places == 0 {
        String::new()
    } else {
        let mut s: String = format_padded(n / 10, places - 1);
        s.push(digit_of((n % 10) as u8));
        s
    }
}

proof fn lemma_padded_zero(n: nat, places: nat)
    ensures
        padded(n * power_of_ten(places), places) == padded(0, places),
    decreases places,
{
    if places > 0 {
        let p = power_of_ten((places - 1) as nat);
        assert(n * (10 * p) == 10 * (n * p)) by (nonlinear_arith);
        lemma_padded_zero(n, (places - 1) as nat);
    }
}

proof fn lemma_power_of_ten_pos(places: nat)
    ensures
        power_of_ten(places) > 0,
    decreases places,
{
    if places > 0 {
        lemma_power_of_ten_pos((places - 1) as nat);
    }
}

/// A number rounded to at most two decimal places.
pub fn format_fixed(x: Binary64, places: u32) -> (s: String)
    requires
        places <= 2,
    ensures
        s@ == fixed(x@, places as nat),
{
    match x.finite_parts() {
        None => {
            let mut s: String = String::new();
            if x.is_nan() {
                s.push('N');
                s.push('a');
                s.push('N');
            } else {
                if x.less_than(Binary64::from_i32(0)) {
                    s.push('-');
                }
                s.push('i');
                s.push('n');
                s.push('f');
            }
            s
        },
        Some((negative, mantissa, shift)) => {
            let ghost units = mantissa as nat * pow2(shift as nat);
            let scale: u128 = if places == 0 {
                1
            } else if places == 1 {
                10
            } else {
                100
            };
            proof {
                reveal_with_fuel(power_of_ten, 3);
                lemma_pow2_pos(1074);
            }
            let ghost shown = nearest(units * power_of_ten(places as nat), one());
            let mut s: String = String::new();
            if negative {
                s.push('-');
            }
            let ghost sign = s@;
            assert(sign =~= if negative {
                seq!['-']
            } else {
                seq![]
            });
            if shift >= 1074 {
                let mut digits: Vec<u8> = digits_of(mantissa as u128);
                let mut left: u32 = shift - 1074;
                proof {
                    lemma2_to64();
                    lemma_mul_basics(mantissa as int);
                }
                while left > 0
                    invariant
                        proper(digits@),
                        1074 + left <= shift,
                        value(digits@) == mantissa as nat * pow2((shift - 1074 - left) as nat),
                    decreases left,
                {
                    proof {
                        lemma_pow2_unfold((shift - 1074 - left + 1) as nat);
                        let p = pow2((shift - 1074 - left) as nat);
                        assert(2 * (mantissa as nat * p) == mantissa as nat * (2 * p))
                            by (nonlinear_arith);
                    }
                    double(&mut digits);
                    left = left - 1;
                }
                let text: String = text_of(&digits);
                s.append(text.as_str());
                proof {
                    let w = mantissa as nat * pow2((shift - 1074) as nat);
                    let t = power_of_ten(places as nat);
                    lemma_pow2_adds((shift - 1074) as nat, 1074);
                    lemma_mul_is_associative(
                        mantissa as int,
                        pow2((shift - 1074) as nat) as int,
                        one() as int,
                    );
                    assert(units == w * one());
                    assert(units * t == (w * t) * one()) by (nonlinear_arith)
                        requires
                            units == w * one(),
                    ;
                    lemma_nearest_whole(w * t, one());
                    assert(shown == w * t);
                    lemma_div_by_multiple(w as int, t as int);
                    lemma_padded_zero(w, places as nat);
                }
                if places > 0 {
                    s.push('.');
                    let zeros: String = format_padded(0, places);
                    s.append(zeros.as_str());
                }
                proof {
                    assert(s@ =~= fixed(x@, places as nat));
                }
                s
            } else {
                let fine: u32 = 1074 - shift;
                let n: u128 = mantissa as u128 * scale;
                proof {
                    lemma_pow2_adds(shift as nat, fine as nat);
                    lemma_pow2_pos(shift as nat);
                    lemma_pow2_pos(fine as nat);
                    let p = pow2(shift as nat);
                    assert(units * scale as nat == n as nat * p) by (nonlinear_arith)
                        requires
                            units == mantissa as nat * p,
                            n == mantissa as nat * scale as nat,
                    ;
                    lemma_nearest_scale(n as nat, pow2(fine as nat), p);
                    lemma_mul_is_commutative(pow2(fine as nat) as int, p as int);
                }
                let rounded: u128 = crate::binary64::nearest_multiple(n, fine);
                assert(rounded == shown);
                let whole: String = text_of(&digits_of(rounded / scale));
                s.append(whole.as_str());
                if places > 0 {
                    s.push('.');
                    let rest: String = format_padded(rounded, places);
                    s.append(rest.as_str());
                }
                proof {
                    assert(s@ =~= fixed(x@, places as nat));
                }
                s
            }
        },
    }
}

/// The digits of a number stand for that number, and do not start with a zero that could be left
/// out.
pub proof fn decimal_is_read_back(n: nat)
    ensures
        decimal(n).len() > 0,
        all_digits(decimal(n)),
        number_value(decimal(n)) == n,
        decimal(n)[0] == '0' ==> n == 0,
    decreases n,
{
    let text = decimal(n);
    if n < 10 {
        assert(text.drop_last() =~= Seq::<char>::empty());
        assert(number_value(text.drop_last()) == 0);
        assert(is_digit(text[0]));
    } else {
        decimal_is_read_back(n / 10);
        let before = decimal(n / 10);
        assert(text.drop_last() =~= before);
        assert forall|i: int| 0 <= i < text.len() implies is_digit(#[trigger] text[i]) by {
            if i < before.len() {
                assert(is_digit(before[i]));
            }
        }
    }
}

/// The digits of an integer behind its sign stand for its magnitude; there is a sign exactly where
/// it is negative.
pub proof fn signed_decimal_is_read_back(n: int)
    ensures
        n >= 0 ==> all_digits(decimal_signed(n)) && number_value(decimal_signed(n)) == n,
        n < 0 ==> decimal_signed(n).len() > 1 && decimal_signed(n)[0] == '-' && number_value(
            decimal_signed(n).drop_first(),
        ) == -n,
{
    if n < 0 {
        decimal_is_read_back((-n) as nat);
        assert(decimal_signed(n).drop_first() =~= decimal((-n) as nat));
    } else {
        decimal_is_read_back(n as nat);
    }
}

proof fn lemma_padded_value(n: nat, places: nat)
    ensures
        padded(n, places).len() == places,
        all_digits(padded(n, places)),
        number_value(padded(n, places)) == n % power_of_ten(places),
    decreases places,
{
    lemma_power_of_ten_pos(places);
    if places > 0 {
        let before = (places - 1) as nat;
        let p = power_of_ten(before);
        lemma_power_of_ten_pos(before);
        lemma_padded_value(n / 10, before);
        let text = padded(n, places);
        let start = padded(n / 10, before);
        assert(text.drop_last() =~= start);
        assert forall|i: int| 0 <= i < text.len() implies is_digit(#[trigger] text[i]) by {
            if i < start.len() {
                assert(is_digit(start[i]));
            }
        }
        lemma_mod_breakdown(n as int, 10, p as int);
    } else {
        assert(padded(n, places).len() == 0);
    }
}

proof fn lemma_joined_value(a: Seq<char>, b: Seq<char>)
    ensures
        number_value(a + b) == number_value(a) * power_of_ten(b.len()) + number_value(b),
    decreases b.len(),
{
    if b.len() == 0 {
        assert(a + b =~= a);
        lemma_mul_basics(number_value(a));
    } else {
        let rest = b.drop_last();
        lemma_joined_value(a, rest);
        assert((a + b).drop_last() =~= a + rest);
        let v = number_value(a);
        let p = power_of_ten(rest.len());
        assert(10 * (v * p) == v * (10 * p)) by (nonlinear_arith);
    }
}

/// A number with a fixed number of decimal places is the nearest one with these places: read
/// without its sign and its point it is no more than half of the last place away. The point stands
/// before the last `places` digits, and there is none without places.
pub proof fn fixed_is_nearest(negative: bool, units: nat, places: nat) -> (parts: (
    Seq<char>,
    Seq<char>,
))
    ensures
        ({
            let (whole, rest) = parts;
            let sign = if negative {
                seq!['-']
            } else {
                seq![]
            };
            let point = if places > 0 {
                seq!['.']
            } else {
                seq![]
            };
            let shown = number_value(whole + rest);
            let exact = units * power_of_ten(places);
            &&& fixed(Number::Finite { negative, units }, places) == sign + whole + point + rest
            &&& whole.len() > 0 && all_digits(whole)
            &&& rest.len() == places && all_digits(rest)
            &&& 2 * (shown * one()) <= 2 * exact + one()
            &&& 2 * exact <= 2 * (shown * one()) + one()
        }),
{
    let p = power_of_ten(places);
    let n = units * p;
    let u = one();
    let shown = nearest(n, u);
    let whole = decimal(shown / p);
    let rest = padded(shown, places);
    let sign = if negative {
        seq!['-']
    } else {
        seq![]
    };
    lemma_power_of_ten_pos(places);
    lemma_pow2_pos(1074);
    lemma_nearest_error(n, u);
    decimal_is_read_back(shown / p);
    lemma_padded_value(shown, places);
    lemma_joined_value(whole, rest);
    lemma_fundamental_div_mod(shown as int, p as int);
    assert(p * (shown / p) == (shown / p) * p) by (nonlinear_arith);
    assert(number_value(whole + rest) == shown);
    if places == 0 {
        assert(sign + whole =~= sign + whole + seq![] + rest);
    }
    (whole, rest)
}

} // verus!
