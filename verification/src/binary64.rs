//! IEEE 754 double-precision arithmetic on integers.
//!
//! A [`Binary64`] carries the bits of a double. Its view is the number that the bits stand for:
//! every finite double is a whole number of units of 2^-1074, so the view holds that natural
//! number and the sign. Each operation returns the exact result, rounded once, to nearest with
//! ties to even. Operations that end in `_single` round to single precision instead.
use crate::rounding::{
    bit_length, lemma_bit_length_bounds, lemma_nearest_by_parts, lemma_nearest_monotone,
    lemma_nearest_scale, lemma_nearest_scaled, lemma_nearest_whole, lemma_pow2_mono, lemma_rounded_ratio,
    lemma_rounded_sticky, lemma_rounded_zero, lemma_rounding_shift_scaled, nearest, rounded_units, rounding_shift,
};
use vstd::arithmetic::div_mod::*;
use vstd::arithmetic::mul::*;
use vstd::arithmetic::power2::*;
use vstd::prelude::*;

verus! {

/// What the bits of a double stand for.
pub enum Number {
    Nan,
    Infinite { negative: bool },
    /// `units` times 2^-1074.
    Finite { negative: bool, units: nat },
}

/// The precisions to which a result can be rounded.
#[derive(Clone, Copy)]
pub enum Format {
    Single,
    Double,
}

impl Format {
    /// The number of binary digits that are kept.
    pub open spec fn precision(self) -> nat {
        match self {
            Format::Single => 24,
            Format::Double => 53,
        }
    }

    /// The smallest positive number of the format is `2^min_shift` units.
    pub open spec fn min_shift(self) -> nat {
        match self {
            Format::Single => 925,
            Format::Double => 0,
        }
    }

    /// From `2^limit` units on a magnitude is infinite.
    pub open spec fn limit(self) -> nat {
        match self {
            Format::Single => 1202,
            Format::Double => 2098,
        }
    }
}

/// The number one, in units.
pub open spec fn one() -> nat {
    pow2(1074)
}

/// `n / d` units with a sign, rounded to the format.
pub open spec fn rounded(format: Format, negative: bool, n: nat, d: nat) -> Number {
    let units = rounded_units(format.precision(), format.min_shift(), n, d);
    if units >= pow2(format.limit()) {
        Number::Infinite { negative }
    } else {
        Number::Finite { negative, units }
    }
}

/// The number that the bits of a double stand for.
pub open spec fn decode(bits: u64) -> Number {
    let negative = bits >= 0x8000_0000_0000_0000;
    let magnitude = (bits as nat) % 0x8000_0000_0000_0000;
    let exponent = magnitude / 0x10_0000_0000_0000;
    let fraction = magnitude % 0x10_0000_0000_0000;
    if exponent == 2047 {
        if fraction == 0 {
            Number::Infinite { negative }
        } else {
            Number::Nan
        }
    } else if exponent == 0 {
        Number::Finite { negative, units: fraction }
    } else {
        Number::Finite {
            negative,
            units: (0x10_0000_0000_0000 + fraction) * pow2((exponent - 1) as nat),
        }
    }
}

impl Number {
    /// The signed number of units of a finite number.
    pub open spec fn signed(self) -> int {
        match self {
            Number::Finite { negative, units } => if negative {
                -(units as int)
            } else {
                units as int
            },
            _ => 0,
        }
    }

    /// `self + other` in double precision.
    pub open spec fn plus(self, other: Number) -> Number {
        sum(Format::Double, self, other)
    }

    /// `self - other` in double precision.
    pub open spec fn minus(self, other: Number) -> Number {
        difference(Format::Double, self, other)
    }

    /// `self * other` in double precision.
    pub open spec fn times(self, other: Number) -> Number {
        product(Format::Double, self, other)
    }

    /// `self / other` in double precision.
    pub open spec fn over(self, other: Number) -> Number {
        quotient(Format::Double, self, other)
    }

    pub open spec fn is_zero(self) -> bool {
        self matches Number::Finite { units, .. } && units == 0
    }

    pub open spec fn negative(self) -> bool {
        match self {
            Number::Nan => false,
            Number::Infinite { negative } => negative,
            Number::Finite { negative, .. } => negative,
        }
    }
}

/// A whole number as a double.
pub open spec fn whole(n: int) -> Number {
    rounded(
        Format::Double,
        n < 0,
        (if n < 0 {
            -n
        } else {
            n
        }) as nat * one(),
        1,
    )
}

/// The double nearest to the fraction `n / d`.
pub open spec fn fraction(n: nat, d: nat) -> Number {
    rounded(Format::Double, false, n * one(), d)
}

pub open spec fn negation(a: Number) -> Number {
    match a {
        Number::Nan => Number::Nan,
        Number::Infinite { negative } => Number::Infinite { negative: !negative },
        Number::Finite { negative, units } => Number::Finite { negative: !negative, units },
    }
}

pub open spec fn absolute(a: Number) -> Number {
    match a {
        Number::Nan => Number::Nan,
        Number::Infinite { .. } => Number::Infinite { negative: false },
        Number::Finite { units, .. } => Number::Finite { negative: false, units },
    }
}

/// The exact sum, rounded. A sum of zero is negative only where both terms are.
pub open spec fn sum(format: Format, a: Number, b: Number) -> Number {
    match (a, b) {
        (Number::Nan, _) => Number::Nan,
        (_, Number::Nan) => Number::Nan,
        (Number::Infinite { negative: p }, Number::Infinite { negative: q }) => if p == q {
            a
        } else {
            Number::Nan
        },
        (Number::Infinite { .. }, _) => a,
        (_, Number::Infinite { .. }) => b,
        (Number::Finite { negative: p, .. }, Number::Finite { negative: q, .. }) => {
            let total = a.signed() + b.signed();
            if total == 0 {
                Number::Finite { negative: p && q, units: 0 }
            } else if total < 0 {
                rounded(format, true, (-total) as nat, 1)
            } else {
                rounded(format, false, total as nat, 1)
            }
        },
    }
}

pub open spec fn difference(format: Format, a: Number, b: Number) -> Number {
    sum(format, a, negation(b))
}

/// The exact product, rounded.
pub open spec fn product(format: Format, a: Number, b: Number) -> Number {
    match (a, b) {
        (Number::Nan, _) => Number::Nan,
        (_, Number::Nan) => Number::Nan,
        (
            Number::Finite { negative: p, units: u },
            Number::Finite { negative: q, units: v },
        ) => rounded(format, p != q, u * v, one()),
        _ => if a.is_zero() || b.is_zero() {
            Number::Nan
        } else {
            Number::Infinite { negative: a.negative() != b.negative() }
        },
    }
}

/// The exact quotient, rounded.
pub open spec fn quotient(format: Format, a: Number, b: Number) -> Number {
    let negative = a.negative() != b.negative();
    match (a, b) {
        (Number::Nan, _) => Number::Nan,
        (_, Number::Nan) => Number::Nan,
        (Number::Infinite { .. }, Number::Infinite { .. }) => Number::Nan,
        (Number::Infinite { .. }, _) => Number::Infinite { negative },
        (_, Number::Infinite { .. }) => Number::Finite { negative, units: 0 },
        (Number::Finite { units: u, .. }, Number::Finite { units: v, .. }) => if v == 0 {
            if u == 0 {
                Number::Nan
            } else {
                Number::Infinite { negative }
            }
        } else {
            rounded(format, negative, u * one(), v)
        },
    }
}

/// The number in single precision.
pub open spec fn single(a: Number) -> Number {
    match a {
        Number::Finite { negative, units } => rounded(Format::Single, negative, units, 1),
        _ => a,
    }
}

/// Whether `a < b`; never where one of them is not a number.
pub open spec fn less(a: Number, b: Number) -> bool {
    match (a, b) {
        (Number::Nan, _) => false,
        (_, Number::Nan) => false,
        (Number::Infinite { negative: p }, Number::Infinite { negative: q }) => p && !q,
        (Number::Infinite { negative }, _) => negative,
        (_, Number::Infinite { negative }) => !negative,
        (Number::Finite { .. }, Number::Finite { .. }) => a.signed() < b.signed(),
    }
}

/// Whether `a <= b`; never where one of them is not a number.
pub open spec fn at_most(a: Number, b: Number) -> bool {
    a !is Nan && b !is Nan && !less(b, a)
}

/// The smaller one; the other one where one of them is not a number.
pub open spec fn minimum(a: Number, b: Number) -> Number {
    if a is Nan || less(b, a) {
        b
    } else {
        a
    }
}

/// The larger one; the other one where one of them is not a number.
pub open spec fn maximum(a: Number, b: Number) -> Number {
    if a is Nan || less(a, b) {
        b
    } else {
        a
    }
}

/// The nearest whole number, away from zero where two are equally near.
pub open spec fn rounded_whole(a: Number) -> Number {
    match a {
        Number::Finite { negative, units } => Number::Finite {
            negative,
            units: (2 * units + one()) / (2 * one()) * one(),
        },
        _ => a,
    }
}

/// The smallest whole number that is not below the number.
pub open spec fn ceiling(a: Number) -> Number {
    match a {
        Number::Finite { negative, units } => Number::Finite {
            negative,
            units: (if negative || units % one() == 0 {
                units / one()
            } else {
                units / one() + 1
            }) * one(),
        },
        _ => a,
    }
}

/// The number without its fraction, brought into the range of `i32`; zero where it is not a
/// number.
pub open spec fn truncated(a: Number) -> int {
    match a {
        Number::Nan => 0,
        Number::Infinite { negative } => if negative {
            i32::MIN as int
        } else {
            i32::MAX as int
        },
        Number::Finite { negative, units } => {
            let whole = (units / one()) as int;
            if negative {
                if whole > 0x8000_0000 {
                    i32::MIN as int
                } else {
                    -whole
                }
            } else if whole > i32::MAX {
                i32::MAX as int
            } else {
                whole
            }
        },
    }
}

/// A double, held by its bits.
#[derive(Clone, Copy, Debug)]
pub struct Binary64 {
    bits: u64,
}

/// A double taken apart: a finite one is `mantissa * 2^shift` units.
#[derive(Clone, Copy)]
enum Parts {
    Nan,
    Infinite { negative: bool },
    Finite { negative: bool, mantissa: u64, shift: u32 },
}

impl View for Binary64 {
    type V = Number;

    open spec fn view(&self) -> Number {
        decode(self.spec_bits())
    }
}

proof fn lemma_powers_cross(m: nat, w: nat, a: nat, b: nat, c: nat, d: nat)
    requires
        a + b == c + d,
    ensures
        (m * pow2(a)) * (w * pow2(b)) == (m * pow2(c)) * (w * pow2(d)),
{
    lemma_pow2_adds(a, b);
    lemma_pow2_adds(c, d);
    assert((m * pow2(a)) * (w * pow2(b)) == (m * w) * (pow2(a) * pow2(b))) by (nonlinear_arith);
    assert((m * pow2(c)) * (w * pow2(d)) == (m * w) * (pow2(c) * pow2(d))) by (nonlinear_arith);
}

proof fn lemma_zero_mantissa(mantissa: nat, shift: nat)
    ensures
        mantissa * pow2(shift) == 0 <==> mantissa == 0,
        pow2(shift) > 0,
{
    lemma_pow2_pos(shift);
    let p = pow2(shift);
    assert(mantissa * p == 0 <==> mantissa == 0) by (nonlinear_arith)
        requires
            p > 0,
    ;
}

/// Equal quotients round to equal numbers.
proof fn lemma_rounded_equal(
    format: Format,
    negative: bool,
    n1: nat,
    d1: nat,
    n2: nat,
    d2: nat,
)
    requires
        d1 > 0,
        d2 > 0,
        n1 * d2 == n2 * d1,
    ensures
        rounded(format, negative, n1, d1) == rounded(format, negative, n2, d2),
{
    lemma_rounded_ratio(format.precision(), format.min_shift(), n1, d1, n2, d2);
}

fn power_of_two(exponent: u32) -> (r: u128)
    requires
        exponent < 128,
    ensures
        r == pow2(exponent as nat),
        r > 0,
{
    let mut power: u128 = 1;
    let mut done: u32 = 0;
    proof {
        lemma2_to64();
    }
    while done < exponent
        invariant
            done <= exponent < 128,
            power == pow2(done as nat),
        decreases exponent - done,
    {
        proof {
            lemma_pow2_unfold((done + 1) as nat);
            lemma_pow2_mono((done + 1) as nat, 127);
            assert(pow2(127) == 0x8000_0000_0000_0000_0000_0000_0000_0000) by {
                lemma2_to64();
                lemma2_to64_rest();
                lemma_pow2_adds(63, 64);
            }
        }
        power = power * 2;
        done = done + 1;
    }
    proof {
        lemma_pow2_pos(exponent as nat);
    }
    power
}

fn binary_digits(n: u128) -> (r: u32)
    ensures
        r == bit_length(n as nat),
        r <= 128,
{
    let mut rest: u128 = n;
    let mut digits: u32 = 0;
    proof {
        lemma_bit_length_bounds(n as nat);
        assert(bit_length(n as nat) <= 128) by {
            if bit_length(n as nat) > 128 {
                lemma_pow2_mono(128, (bit_length(n as nat) - 1) as nat);
                lemma2_to64();
                lemma_pow2_adds(64, 64);
            }
        }
    }
    while rest > 0
        invariant
            bit_length(n as nat) == digits + bit_length(rest as nat),
            bit_length(n as nat) <= 128,
        decreases rest,
    {
        rest = rest / 2;
        digits = digits + 1;
    }
    digits
}

/// The whole number nearest to `n / 2^shift`.
pub(crate) fn nearest_multiple(n: u128, shift: u32) -> (r: u128)
    requires
        n < 0x8000_0000_0000_0000_0000_0000_0000_0000,
    ensures
        r == nearest(n as nat, pow2(shift as nat)),
{
    proof {
        lemma2_to64();
        lemma2_to64_rest();
        lemma_pow2_adds(64, 64);
    }
    if shift >= 128 {
        proof {
            lemma_pow2_mono(128, shift as nat);
            lemma_nearest_by_parts(n as nat, pow2(shift as nat), 0, n as nat);
        }
        0
    } else {
        let power: u128 = power_of_two(shift);
        let quotient: u128 = n / power;
        let remainder: u128 = n % power;
        proof {
            assert(quotient == n as nat / pow2(shift as nat));
            assert(remainder == n as nat % pow2(shift as nat));
            lemma_div_nonincreasing(n as int, power as int);
        }
        if remainder < power - remainder || (remainder == power - remainder && quotient % 2 == 0) {
            quotient
        } else {
            quotient + 1
        }
    }
}

impl Binary64 {
    pub closed spec fn spec_bits(&self) -> u64 {
        self.bits
    }

    /// The double with the given bits.
    pub fn from_bits(bits: u64) -> (r: Self)
        ensures
            r.spec_bits() == bits,
            r@ == decode(bits),
    {
        Binary64 { bits }
    }

    /// The bits of the double.
    pub fn to_bits(self) -> (r: u64)
        ensures
            r == self.spec_bits(),
            decode(r) == self@,
    {
        self.bits
    }

    fn parts(self) -> (r: Parts)
        ensures
            match r {
                Parts::Nan => self@ is Nan,
                Parts::Infinite { negative } => self@ == (Number::Infinite { negative }),
                Parts::Finite { negative, mantissa, shift } => {
                    &&& self@ == (Number::Finite {
                        negative,
                        units: mantissa as nat * pow2(shift as nat),
                    })
                    &&& mantissa < 0x20_0000_0000_0000
                    &&& shift <= 2045
                    &&& shift == 0 || mantissa >= 0x10_0000_0000_0000
                },
            },
    {
        let negative: bool = self.bits >= 0x8000_0000_0000_0000;
        let magnitude: u64 = self.bits % 0x8000_0000_0000_0000;
        let exponent: u64 = magnitude / 0x10_0000_0000_0000;
        let fraction: u64 = magnitude % 0x10_0000_0000_0000;
        if exponent == 2047 {
            if fraction == 0 {
                Parts::Infinite { negative }
            } else {
                Parts::Nan
            }
        } else if exponent == 0 {
            proof {
                lemma2_to64();
                assert(fraction as nat * pow2(0) == fraction) by (nonlinear_arith)
                    requires
                        pow2(0) == 1,
                ;
            }
            Parts::Finite { negative, mantissa: fraction, shift: 0 }
        } else {
            Parts::Finite {
                negative,
                mantissa: 0x10_0000_0000_0000 + fraction,
                shift: (exponent - 1) as u32,
            }
        }
    }

    fn not_a_number() -> (r: Self)
        ensures
            r@ is Nan,
    {
        Binary64 { bits: 0x7ff8_0000_0000_0000 }
    }

    fn infinity(negative: bool) -> (r: Self)
        ensures
            r@ == (Number::Infinite { negative }),
    {
        if negative {
            Binary64 { bits: 0xfff0_0000_0000_0000 }
        } else {
            Binary64 { bits: 0x7ff0_0000_0000_0000 }
        }
    }

    fn zero(negative: bool) -> (r: Self)
        ensures
            r@ == (Number::Finite { negative, units: 0 }),
    {
        if negative {
            Binary64 { bits: 0x8000_0000_0000_0000 }
        } else {
            Binary64 { bits: 0 }
        }
    }

    /// Puts the bits of a finite double together.
    fn assemble(negative: bool, mantissa: u64, shift: u32) -> (r: Self)
        requires
            mantissa < 0x20_0000_0000_0000,
            shift <= 2045,
            shift == 0 || mantissa >= 0x10_0000_0000_0000,
        ensures
            r@ == (Number::Finite { negative, units: mantissa as nat * pow2(shift as nat) }),
    {
        let magnitude: u64 = shift as u64 * 0x10_0000_0000_0000 + mantissa;
        let bits: u64 = if negative {
            magnitude + 0x8000_0000_0000_0000
        } else {
            magnitude
        };
        proof {
            lemma2_to64();
            assert(bits as nat % 0x8000_0000_0000_0000 == magnitude);
            if mantissa >= 0x10_0000_0000_0000 {
                assert(magnitude as nat / 0x10_0000_0000_0000 == shift + 1);
                assert(magnitude as nat % 0x10_0000_0000_0000 == mantissa - 0x10_0000_0000_0000);
            } else {
                assert(magnitude as nat / 0x10_0000_0000_0000 == 0);
                assert(magnitude as nat % 0x10_0000_0000_0000 == mantissa);
            }
        }
        Binary64 { bits }
    }

    /// The double of `mantissa * 2^shift` units, which has to be one.
    fn encode(negative: bool, mantissa: u64, shift: u32) -> (r: Self)
        requires
            mantissa <= 0x20_0000_0000_0000,
            shift < 5000,
            mantissa as nat * pow2(shift as nat) < pow2(2098),
        ensures
            r@ == (Number::Finite { negative, units: mantissa as nat * pow2(shift as nat) }),
    {
        if mantissa == 0 {
            return Self::zero(negative);
        }
        let mut m: u64 = mantissa;
        let mut k: u32 = shift;
        if m == 0x20_0000_0000_0000 {
            m = 0x10_0000_0000_0000;
            k = k + 1;
            proof {
                lemma_pow2_unfold(k as nat);
            }
        }
        while m < 0x10_0000_0000_0000 && k > 0
            invariant
                0 < m < 0x20_0000_0000_0000,
                k <= 5000,
                m as nat * pow2(k as nat) == mantissa as nat * pow2(shift as nat),
            decreases k,
        {
            proof {
                lemma_pow2_unfold(k as nat);
                let p = pow2((k - 1) as nat);
                assert((2 * m) * p == m * (2 * p)) by (nonlinear_arith);
            }
            m = m * 2;
            k = k - 1;
        }
        proof {
            if k > 2045 {
                lemma2_to64_rest();
                lemma_pow2_adds(52, k as nat);
                lemma_pow2_mono(2098, (52 + k) as nat);
                let p = pow2(k as nat);
                assert(m * p >= 0x10_0000_0000_0000 * p) by (nonlinear_arith)
                    requires
                        m >= 0x10_0000_0000_0000,
                ;
            }
        }
        Self::assemble(negative, m, k)
    }

    /// `n * 2^shift` units, rounded to the format.
    fn round_scaled(format: Format, negative: bool, n: u128, shift: i32) -> (r: Self)
        requires
            n < 0x8000_0000_0000_0000_0000_0000_0000_0000,
            -4500 < shift < 4500,
        ensures
            shift >= 0 ==> r@ == rounded(format, negative, n as nat * pow2(shift as nat), 1),
            shift <= 0 ==> r@ == rounded(format, negative, n as nat, pow2((-shift) as nat)),
    {
        let (precision, min_shift, limit): (i32, i32, i32) = match format {
            Format::Single => (24, 925, 1202),
            Format::Double => (53, 0, 2098),
        };
        let ghost prec = format.precision();
        let ghost low = format.min_shift();
        let ghost a: nat = if shift >= 0 {
            shift as nat
        } else {
            0
        };
        let ghost b: nat = if shift >= 0 {
            0
        } else {
            (-shift) as nat
        };
        let ghost num = n as nat * pow2(a);
        let ghost den = 1 * pow2(b);
        proof {
            lemma2_to64();
            lemma_pow2_pos(b);
            lemma_pow2_pos(limit as nat);
        }
        if n == 0 {
            proof {
                lemma_rounded_zero(prec, low, pow2(b));
                lemma_rounded_zero(prec, low, 1);
                lemma_mul_basics(pow2(a) as int);
            }
            return Self::zero(negative);
        }
        let digits: i32 = binary_digits(n) as i32;
        let wanted: i32 = digits + shift - precision;
        let k: i32 = if wanted > min_shift {
            wanted
        } else {
            min_shift
        };
        proof {
            lemma_rounding_shift_scaled(prec, low, n as nat, 1, a, b);
            assert(rounding_shift(prec, low, num, den) == k);
            lemma_nearest_scaled(n as nat, 1, a, b, k as nat);
            lemma_bit_length_bounds(n as nat);
        }
        let mantissa: u128 = if k >= shift {
            proof {
                assert(b + k - a == k - shift);
            }
            nearest_multiple(n, (k - shift) as u32)
        } else {
            let up: u32 = (shift - k) as u32;
            proof {
                assert(a - b - k == shift - k);
                lemma_pow2_adds(digits as nat, up as nat);
                lemma_pow2_mono((digits + up) as nat, prec);
                lemma2_to64_rest();
                lemma_pow2_pos(up as nat);
                let p = pow2(up as nat);
                assert(n as nat * p < pow2(digits as nat) * p) by (nonlinear_arith)
                    requires
                        p > 0,
                        n < pow2(digits as nat),
                ;
                assert(p <= pow2(prec)) by {
                    lemma_pow2_mono(up as nat, prec);
                }
                assert(up < 128) by {
                    if up >= 128 {
                        lemma_pow2_mono(128, up as nat);
                        lemma_pow2_adds(64, 64);
                    }
                }
                lemma_nearest_whole(n as nat * p, 1);
                assert(1 * pow2(0) == 1);
            }
            n * power_of_two(up)
        };
        let ghost exact: nat = nearest(num, den * pow2(k as nat));
        assert(mantissa == exact);
        // The rounded number of digits is at most the precision, or the next power of two.
        proof {
            let q = num / den;
            let m = pow2(k as nat);
            lemma_pow2_pos(k as nat);
            lemma2_to64_rest();
            // num < 2^prec * den * 2^k
            lemma_bit_length_bounds(q);
            lemma_pow2_adds(prec, k as nat);
            lemma_pow2_mono(bit_length(q), (prec + k) as nat);
            lemma_fundamental_div_mod(num as int, den as int);
            lemma_mod_bound(num as int, den as int);
            assert(num < pow2(prec) * (den * m)) by (nonlinear_arith)
                requires
                    num < den * q + den,
                    q + 1 <= pow2(prec) * m,
                    den > 0,
            ;
            assert(den * m > 0) by (nonlinear_arith)
                requires
                    den > 0,
                    m > 0,
            ;
            lemma_nearest_monotone(num, den * m, pow2(prec), 1);
            lemma_nearest_whole(pow2(prec), 1);
            assert(exact <= pow2(prec));
            if k > min_shift {
                // 2^(prec - 1) * den * 2^k <= num
                let h = pow2((prec - 1) as nat);
                lemma_pow2_adds((prec - 1) as nat, k as nat);
                assert((bit_length(q) - 1) as nat == (prec - 1) as nat + k);
                assert(num >= h * (den * m)) by (nonlinear_arith)
                    requires
                        num >= den * q,
                        q >= h * m,
                        den > 0,
                ;
                lemma_nearest_monotone(h, 1, num, den * m);
                lemma_nearest_whole(h, 1);
                assert(exact >= h);
            }
        }
        let ghost units: nat = exact * pow2(k as nat);
        assert(units == rounded_units(prec, low, num, den));
        let full: u128 = if precision == 24 {
            0x100_0000
        } else {
            0x20_0000_0000_0000
        };
        if k + precision > limit || (k + precision == limit && mantissa == full) {
            proof {
                let m = pow2(k as nat);
                lemma2_to64();
                lemma2_to64_rest();
                if mantissa == full {
                    lemma_pow2_adds(prec, k as nat);
                    lemma_pow2_mono(limit as nat, prec + k as nat);
                } else {
                    let h = pow2((prec - 1) as nat);
                    lemma_pow2_adds((prec - 1) as nat, k as nat);
                    lemma_pow2_mono(limit as nat, (prec - 1) as nat + k as nat);
                    assert(exact * m >= h * m) by (nonlinear_arith)
                        requires
                            exact >= h,
                    ;
                }
            }
            Self::infinity(negative)
        } else {
            proof {
                let m = pow2(k as nat);
                lemma2_to64();
                lemma2_to64_rest();
                lemma_pow2_pos(k as nat);
                lemma_pow2_adds(prec, k as nat);
                lemma_pow2_mono(prec + k as nat, limit as nat);
                lemma_pow2_mono(limit as nat, 2098);
                if mantissa < full {
                    assert(exact * m < pow2(prec) * m) by (nonlinear_arith)
                        requires
                            exact < pow2(prec),
                            m > 0,
                    ;
                } else {
                    lemma_pow2_strictly_increases(prec + k as nat, limit as nat);
                }
            }
            Self::encode(negative, mantissa as u64, k as u32)
        }
    }
}

/// The magnitude of a sum whose smaller term lies far below the last digit of the larger one
/// rounds as the larger term with one digit changed far behind its last.
proof fn lemma_far_sum(format: Format, negative: bool, m: nat, k: nat, t: nat, plus: bool)
    requires
        k >= 65,
        0x10_0000_0000_0000 <= m < 0x20_0000_0000_0000,
        0 < t < pow2((k - 12) as nat),
    ensures
        ({
            let x: int = if plus {
                m * pow2(k) as int + t
            } else {
                m * pow2(k) - t
            };
            let near: int = if plus {
                2048 * m as int + 1
            } else {
                2048 * m - 1
            };
            &&& x > 0
            &&& rounded(format, negative, x as nat, 1) == rounded(
                format,
                negative,
                near as nat * pow2((k - 11) as nat),
                1,
            )
        }),
{
    let e = (k - 10) as nat;
    let y = pow2(e);
    lemma2_to64();
    lemma2_to64_rest();
    lemma_pow2_pos(e);
    lemma_pow2_mono((k - 12) as nat, e);
    lemma_pow2_adds(10, e);
    assert(m * pow2(k) == (1024 * m) * y) by (nonlinear_arith)
        requires
            pow2(k) == 1024 * y,
    ;
    let q: nat = if plus {
        1024 * m
    } else {
        (1024 * m - 1) as nat
    };
    let r: nat = if plus {
        t
    } else {
        (y - t) as nat
    };
    let x: nat = q * y + r;
    assert(!plus ==> (1024 * m - 1) * y == (1024 * m) * y - y) by (nonlinear_arith);
    assert(0 < r < y);
    assert(x > 0) by (nonlinear_arith)
        requires
            x == q * y + r,
            r > 0,
    ;
    lemma_nearest_by_parts(x, y, q, r);
    lemma_bit_length_bounds(q);
    assert(bit_length(q) > 53) by {
        if bit_length(q) <= 53 {
            lemma_pow2_mono(bit_length(q), 53);
        }
    }
    lemma_rounded_sticky(format.precision(), format.min_shift(), x, y, e, 0);
    let near: nat = 2 * q + 1;
    assert(x * (y * pow2(0)) == (x * pow2(e)) * 1) by (nonlinear_arith)
        requires
            pow2(0) == 1,
            y == pow2(e),
    ;
    assert(y * pow2(0) > 0) by (nonlinear_arith)
        requires
            y > 0,
            pow2(0) == 1,
    ;
    lemma_rounded_ratio(
        format.precision(),
        format.min_shift(),
        x,
        1,
        x * pow2(e),
        y * pow2(0),
    );
    lemma_pow2_unfold(e);
    let h = pow2((e - 1) as nat);
    assert((near * h) * (2 * pow2(0)) == (near * pow2(e)) * 1) by (nonlinear_arith)
        requires
            pow2(0) == 1,
            pow2(e) == 2 * h,
    ;
    lemma_rounded_ratio(
        format.precision(),
        format.min_shift(),
        near * h,
        1,
        near * pow2(e),
        2 * pow2(0),
    );
}

impl Binary64 {
    /// The sum of two finite doubles of which the first is the coarser one.
    fn plus_finer(
        format: Format,
        p: bool,
        m: u64,
        k: u32,
        q: bool,
        w: u64,
        j: u32,
    ) -> (r: Self)
        requires
            m < 0x20_0000_0000_0000,
            w < 0x20_0000_0000_0000,
            j <= k <= 2045,
            k == 0 || m >= 0x10_0000_0000_0000,
        ensures
            r@ == sum(
                format,
                Number::Finite { negative: p, units: m as nat * pow2(k as nat) },
                Number::Finite { negative: q, units: w as nat * pow2(j as nat) },
            ),
    {
        let ghost a = Number::Finite { negative: p, units: m as nat * pow2(k as nat) };
        let ghost b = Number::Finite { negative: q, units: w as nat * pow2(j as nat) };
        let ghost u = m as nat * pow2(k as nat);
        let ghost v = w as nat * pow2(j as nat);
        proof {
            lemma2_to64();
            lemma_zero_mantissa(m as nat, k as nat);
            lemma_zero_mantissa(w as nat, j as nat);
        }
        if w == 0 {
            if m == 0 {
                Self::zero(p && q)
            } else {
                Self::round_scaled(format, p, m as u128, k as i32)
            }
        } else if k - j <= 64 {
            let gap: u32 = k - j;
            proof {
                lemma_pow2_adds(gap as nat, j as nat);
                lemma_pow2_mono(gap as nat, 64);
                let g = pow2(gap as nat);
                let h = pow2(j as nat);
                assert(m * g < 0x20_0000_0000_0000 * 0x1_0000_0000_0000_0000) by (nonlinear_arith)
                    requires
                        m < 0x20_0000_0000_0000,
                        g <= 0x1_0000_0000_0000_0000,
                ;
                assert(u == (m * g) * h) by (nonlinear_arith)
                    requires
                        u == m * (g * h),
                ;
                assert(u + v == (m * g + w) * h && u - v == (m * g - w) * h && v - u == (w - m * g)
                    * h) by (nonlinear_arith)
                    requires
                        u == (m * g) * h,
                        v == w * h,
                ;
                assert((m * g > w <==> u > v) && (m * g < w <==> u < v)) by (nonlinear_arith)
                    requires
                        u == (m * g) * h,
                        v == w * h,
                        h > 0,
                ;
            }
            let coarse: u128 = m as u128 * power_of_two(gap);
            let fine: u128 = w as u128;
            if p == q {
                Self::round_scaled(format, p, coarse + fine, j as i32)
            } else if coarse > fine {
                Self::round_scaled(format, p, coarse - fine, j as i32)
            } else if coarse < fine {
                Self::round_scaled(format, q, fine - coarse, j as i32)
            } else {
                Self::zero(false)
            }
        } else {
            proof {
                lemma2_to64_rest();
                lemma_pow2_adds(53, j as nat);
                lemma_pow2_mono((53 + j) as nat, (k - 12) as nat);
                let h = pow2(j as nat);
                assert(v < 0x20_0000_0000_0000 * h) by (nonlinear_arith)
                    requires
                        v == w * h,
                        w < 0x20_0000_0000_0000,
                        h > 0,
                ;
                lemma_far_sum(format, p, m as nat, k as nat, v, p == q);
            }
            let near: u128 = if p == q {
                2048 * (m as u128) + 1
            } else {
                2048 * (m as u128) - 1
            };
            Self::round_scaled(format, p, near, k as i32 - 11)
        }
    }

    fn plus_in(self, format: Format, other: Self) -> (r: Self)
        ensures
            r@ == sum(format, self@, other@),
    {
        match (self.parts(), other.parts()) {
            (Parts::Nan, _) => Self::not_a_number(),
            (_, Parts::Nan) => Self::not_a_number(),
            (Parts::Infinite { negative: p }, Parts::Infinite { negative: q }) => if p == q {
                Self::infinity(p)
            } else {
                Self::not_a_number()
            },
            (Parts::Infinite { negative }, Parts::Finite { .. }) => Self::infinity(negative),
            (Parts::Finite { .. }, Parts::Infinite { negative }) => Self::infinity(negative),
            (
                Parts::Finite { negative: p, mantissa: m, shift: k },
                Parts::Finite { negative: q, mantissa: w, shift: j },
            ) => if k >= j {
                Self::plus_finer(format, p, m, k, q, w, j)
            } else {
                Self::plus_finer(format, q, w, j, p, m, k)
            },
        }
    }

    fn times_in(self, format: Format, other: Self) -> (r: Self)
        ensures
            r@ == product(format, self@, other@),
    {
        match (self.parts(), other.parts()) {
            (Parts::Nan, _) => Self::not_a_number(),
            (_, Parts::Nan) => Self::not_a_number(),
            (
                Parts::Finite { negative: p, mantissa: m, shift: k },
                Parts::Finite { negative: q, mantissa: w, shift: j },
            ) => {
                assert(m * w < 0x20_0000_0000_0000 * 0x20_0000_0000_0000) by (nonlinear_arith)
                    requires
                        m < 0x20_0000_0000_0000,
                        w < 0x20_0000_0000_0000,
                ;
                let n: u128 = m as u128 * w as u128;
                let shift: i32 = k as i32 + j as i32 - 1074;
                proof {
                    let u = m as nat * pow2(k as nat);
                    let v = w as nat * pow2(j as nat);
                    lemma2_to64();
                    lemma_pow2_pos(1074);
                    lemma_pow2_adds(k as nat, j as nat);
                    assert(u * v == n * pow2((k + j) as nat)) by (nonlinear_arith)
                        requires
                            u == m as nat * pow2(k as nat),
                            v == w as nat * pow2(j as nat),
                            n == m as nat * w as nat,
                            pow2((k + j) as nat) == pow2(k as nat) * pow2(j as nat),
                    ;
                    if shift >= 0 {
                        lemma_powers_cross(n as nat, 1, shift as nat, 1074, (k + j) as nat, 0);
                        lemma_rounded_equal(
                            format,
                            p != q,
                            n as nat * pow2(shift as nat),
                            1,
                            u * v,
                            one(),
                        );
                    } else {
                        lemma_pow2_pos((-shift) as nat);
                        lemma_powers_cross(
                            n as nat,
                            1,
                            0,
                            1074,
                            (k + j) as nat,
                            (-shift) as nat,
                        );
                        lemma_rounded_equal(
                            format,
                            p != q,
                            n as nat,
                            pow2((-shift) as nat),
                            u * v,
                            one(),
                        );
                    }
                }
                Self::round_scaled(format, p != q, n, shift)
            },
            (Parts::Infinite { negative: p }, Parts::Infinite { negative: q }) => Self::infinity(
                p != q,
            ),
            (
                Parts::Infinite { negative: p },
                Parts::Finite { negative: q, mantissa, shift },
            ) => {
                proof {
                    lemma_zero_mantissa(mantissa as nat, shift as nat);
                }
                if mantissa == 0 {
                    Self::not_a_number()
                } else {
                    Self::infinity(p != q)
                }
            },
            (
                Parts::Finite { negative: p, mantissa, shift },
                Parts::Infinite { negative: q },
            ) => {
                proof {
                    lemma_zero_mantissa(mantissa as nat, shift as nat);
                }
                if mantissa == 0 {
                    Self::not_a_number()
                } else {
                    Self::infinity(p != q)
                }
            },
        }
    }
}

/// The quotient of two mantissas, brought to enough digits to round it.
proof fn lemma_long_division(
    format: Format,
    negative: bool,
    m: nat,
    k: nat,
    i: nat,
    w: nat,
    j: nat,
    l: nat,
    x: nat,
    y: nat,
    near: nat,
    shift: int,
)
    requires
        m > 0,
        w > 0,
        y == w * pow2(l),
        x == m * pow2(i) * pow2(74),
        x / y >= 0x20_0000_0000_0000,
        near == 2 * (x / y) + if x % y > 0 {
            1nat
        } else {
            0nat
        },
        shift == k + 1074 + l - i - 74 - j - 1,
    ensures
        w * pow2(j) > 0,
        shift >= 0 ==> rounded(format, negative, near * pow2(shift as nat), 1) == rounded(
            format,
            negative,
            m * pow2(k) * one(),
            w * pow2(j),
        ),
        shift <= 0 ==> rounded(format, negative, near, pow2((-shift) as nat)) == rounded(
            format,
            negative,
            m * pow2(k) * one(),
            w * pow2(j),
        ),
{
    lemma2_to64();
    lemma2_to64_rest();
    lemma_zero_mantissa(w, j);
    lemma_zero_mantissa(w, l);
    let e = shift + 1;
    let a: nat = if e >= 0 {
        e as nat
    } else {
        0
    };
    let b: nat = if e >= 0 {
        0
    } else {
        (-e) as nat
    };
    lemma_bit_length_bounds(x / y);
    assert(bit_length(x / y) > 53) by {
        if bit_length(x / y) <= 53 {
            lemma_pow2_mono(bit_length(x / y), 53);
        }
    }
    lemma_rounded_sticky(format.precision(), format.min_shift(), x, y, a, b);
    lemma_pow2_pos(b);
    // m * 2^k * 2^1074 over w * 2^j is x * 2^a over y * 2^b
    let n1 = m * pow2(k) * one();
    let d1 = w * pow2(j);
    let n2 = x * pow2(a);
    let d2 = y * pow2(b);
    assert(d2 > 0) by (nonlinear_arith)
        requires
            d2 == y * pow2(b),
            y > 0,
            pow2(b) > 0,
    ;
    lemma_pow2_adds(k, 1074);
    lemma_pow2_adds(l, b);
    lemma_pow2_adds(i, 74);
    lemma_pow2_adds(i + 74, a);
    lemma_mul_is_associative(m as int, pow2(k) as int, one() as int);
    lemma_mul_is_associative(w as int, pow2(l) as int, pow2(b) as int);
    lemma_mul_is_associative(m as int, pow2(i) as int, pow2(74) as int);
    lemma_mul_is_associative(m as int, pow2(i + 74) as int, pow2(a) as int);
    assert(n1 == m * pow2(k + 1074));
    assert(d2 == w * pow2(l + b));
    assert(n2 == m * pow2(i + 74 + a));
    lemma_powers_cross(m, w, k + 1074, l + b, i + 74 + a, j);
    lemma_rounded_equal(format, negative, n1, d1, n2, d2);
    // near * 2^a over 2 * 2^b is near * 2^shift
    lemma_pow2_unfold(b + 1);
    assert(2 * pow2(b) == 1 * pow2(b + 1)) by (nonlinear_arith)
        requires
            pow2(b + 1) == 2 * pow2(b),
    ;
    if shift >= 0 {
        lemma_powers_cross(near, 1, shift as nat, b + 1, a, 0);
        lemma_rounded_equal(
            format,
            negative,
            near * pow2(shift as nat),
            1,
            near * pow2(a),
            2 * pow2(b),
        );
    }
    if shift <= 0 {
        let c = (-shift) as nat;
        lemma_pow2_pos(c);
        lemma_powers_cross(near, 1, 0, b + 1, a, c);
        lemma_rounded_equal(format, negative, near, pow2(c), near * pow2(a), 2 * pow2(b));
    }
}

/// A larger exponent or, at the same exponent, a larger fraction makes a larger number.
proof fn lemma_magnitude_order(x: nat, y: nat)
    requires
        x < y,
        y < 2047 * 0x10_0000_0000_0000,
    ensures
        magnitude_units(x) < magnitude_units(y),
{
    let e = x / 0x10_0000_0000_0000;
    let f = x % 0x10_0000_0000_0000;
    let g = y / 0x10_0000_0000_0000;
    let h = y % 0x10_0000_0000_0000;
    lemma2_to64();
    if e == g {
        if e > 0 {
            let p = pow2((e - 1) as nat);
            lemma_pow2_pos((e - 1) as nat);
            assert((0x10_0000_0000_0000 + f) * p < (0x10_0000_0000_0000 + h) * p)
                by (nonlinear_arith)
                requires
                    f < h,
                    p > 0,
            ;
        }
    } else {
        let q = pow2((g - 1) as nat);
        lemma_pow2_pos((g - 1) as nat);
        assert((0x10_0000_0000_0000 + h) * q >= 0x10_0000_0000_0000 * q) by (nonlinear_arith);
        if e == 0 {
            assert(0x10_0000_0000_0000 * q >= 0x10_0000_0000_0000) by (nonlinear_arith)
                requires
                    q >= 1,
            ;
        } else {
            let p = pow2((e - 1) as nat);
            lemma_pow2_pos((e - 1) as nat);
            lemma_pow2_unfold(e);
            lemma_pow2_mono(e, (g - 1) as nat);
            assert((0x10_0000_0000_0000 + f) * p < 0x10_0000_0000_0000 * (2 * p))
                by (nonlinear_arith)
                requires
                    f < 0x10_0000_0000_0000,
                    p > 0,
            ;
        }
    }
}

/// The units of a finite double without its sign.
spec fn magnitude_units(magnitude: nat) -> nat {
    let exponent = magnitude / 0x10_0000_0000_0000;
    let fraction = magnitude % 0x10_0000_0000_0000;
    if exponent == 0 {
        fraction
    } else {
        (0x10_0000_0000_0000 + fraction) * pow2((exponent - 1) as nat)
    }
}

/// Shifts a mantissa left until its leading digit is in place; returns it and the distance.
fn normalize(mantissa: u64) -> (r: (u64, u32))
    requires
        0 < mantissa < 0x20_0000_0000_0000,
    ensures
        0x10_0000_0000_0000 <= r.0 < 0x20_0000_0000_0000,
        r.0 == mantissa as nat * pow2(r.1 as nat),
        r.1 <= 52,
{
    let mut m: u64 = mantissa;
    let mut i: u32 = 0;
    proof {
        lemma2_to64();
        lemma2_to64_rest();
        assert(mantissa as nat * pow2(0) == mantissa) by (nonlinear_arith)
            requires
                pow2(0) == 1,
        ;
    }
    while m < 0x10_0000_0000_0000
        invariant
            0 < mantissa,
            0 < m < 0x20_0000_0000_0000,
            m == mantissa as nat * pow2(i as nat),
            i <= 52,
            pow2(52) == 0x10_0000_0000_0000,
        decreases 0x20_0000_0000_0000 - m,
    {
        proof {
            if i == 52 {
                assert(mantissa as nat * pow2(52) >= pow2(52)) by (nonlinear_arith)
                    requires
                        mantissa >= 1,
                ;
            }
            lemma_pow2_unfold((i + 1) as nat);
            let p = pow2(i as nat);
            assert((mantissa as nat * p) * 2 == mantissa as nat * (2 * p)) by (nonlinear_arith);
        }
        m = m * 2;
        i = i + 1;
    }
    (m, i)
}

impl Binary64 {
    fn over_in(self, format: Format, other: Self) -> (r: Self)
        ensures
            r@ == quotient(format, self@, other@),
    {
        match (self.parts(), other.parts()) {
            (Parts::Nan, _) => Self::not_a_number(),
            (_, Parts::Nan) => Self::not_a_number(),
            (Parts::Infinite { .. }, Parts::Infinite { .. }) => Self::not_a_number(),
            (Parts::Infinite { negative: p }, Parts::Finite { negative: q, .. }) => Self::infinity(
                p != q,
            ),
            (Parts::Finite { negative: p, .. }, Parts::Infinite { negative: q }) => Self::zero(
                p != q,
            ),
            (
                Parts::Finite { negative: p, mantissa: m, shift: k },
                Parts::Finite { negative: q, mantissa: w, shift: j },
            ) => {
                proof {
                    lemma_zero_mantissa(m as nat, k as nat);
                    lemma_zero_mantissa(w as nat, j as nat);
                }
                if w == 0 {
                    if m == 0 {
                        Self::not_a_number()
                    } else {
                        Self::infinity(p != q)
                    }
                } else if m == 0 {
                    proof {
                        let d = w as nat * pow2(j as nat);
                        lemma_rounded_equal(format, p != q, 0 * one(), d, 0, 1);
                        lemma2_to64();
                        assert(0 * pow2(0) == 0);
                    }
                    Self::round_scaled(format, p != q, 0, 0)
                } else {
                    let (dividend, i): (u64, u32) = normalize(m);
                    let (divisor, l): (u64, u32) = normalize(w);
                    let power: u128 = power_of_two(74);
                    proof {
                        lemma2_to64();
                        lemma2_to64_rest();
                        lemma_pow2_adds(10, 64);
                    }
                    let x: u128 = dividend as u128 * power;
                    let y: u128 = divisor as u128;
                    let long: u128 = x / y;
                    proof {
                        lemma_fundamental_div_mod(x as int, y as int);
                        lemma_mod_bound(x as int, y as int);
                        assert(long >= 0x20_0000_0000_0000) by (nonlinear_arith)
                            requires
                                x >= 0x10_0000_0000_0000 * 0x400_0000_0000_0000_0000,
                                y < 0x20_0000_0000_0000,
                                x < y * long + y,
                        ;
                        assert(long <= 0x1000_0000_0000_0000_0000) by (nonlinear_arith)
                            requires
                                x < 0x20_0000_0000_0000 * 0x400_0000_0000_0000_0000,
                                y >= 0x10_0000_0000_0000,
                                y * long <= x,
                        ;
                    }
                    let near: u128 = if x % y > 0 {
                        2 * long + 1
                    } else {
                        2 * long
                    };
                    let shift: i32 = k as i32 + 999 + l as i32 - i as i32 - j as i32;
                    proof {
                        lemma_long_division(
                            format,
                            p != q,
                            m as nat,
                            k as nat,
                            i as nat,
                            w as nat,
                            j as nat,
                            l as nat,
                            x as nat,
                            y as nat,
                            near as nat,
                            shift as int,
                        );
                    }
                    Self::round_scaled(format, p != q, near, shift)
                }
            },
        }
    }

    /// `self + other`.
    pub fn plus(self, other: Self) -> (r: Self)
        ensures
            r@ == self@.plus(other@),
    {
        self.plus_in(Format::Double, other)
    }

    /// `-self`.
    pub fn negated(self) -> (r: Self)
        ensures
            r@ == negation(self@),
    {
        match self.parts() {
            Parts::Nan => Self::not_a_number(),
            Parts::Infinite { negative } => Self::infinity(!negative),
            Parts::Finite { negative, mantissa, shift } => Self::assemble(
                !negative,
                mantissa,
                shift,
            ),
        }
    }

    /// `self - other`.
    pub fn minus(self, other: Self) -> (r: Self)
        ensures
            r@ == self@.minus(other@),
    {
        self.plus_in(Format::Double, other.negated())
    }

    /// `self * other`.
    pub fn times(self, other: Self) -> (r: Self)
        ensures
            r@ == self@.times(other@),
    {
        self.times_in(Format::Double, other)
    }

    /// `self / other`.
    pub fn over(self, other: Self) -> (r: Self)
        ensures
            r@ == self@.over(other@),
    {
        self.over_in(Format::Double, other)
    }

    /// The number rounded to single precision.
    pub fn to_single(self) -> (r: Self)
        ensures
            r@ == single(self@),
    {
        match self.parts() {
            Parts::Nan => Self::not_a_number(),
            Parts::Infinite { negative } => Self::infinity(negative),
            Parts::Finite { negative, mantissa, shift } => Self::round_scaled(
                Format::Single,
                negative,
                mantissa as u128,
                shift as i32,
            ),
        }
    }

    /// `self - other` in single precision.
    pub fn minus_single(self, other: Self) -> (r: Self)
        ensures
            r@ == difference(Format::Single, self@, other@),
    {
        self.plus_in(Format::Single, other.negated())
    }

    /// `self * other` in single precision.
    pub fn times_single(self, other: Self) -> (r: Self)
        ensures
            r@ == product(Format::Single, self@, other@),
    {
        self.times_in(Format::Single, other)
    }

    /// `self / other` in single precision.
    pub fn over_single(self, other: Self) -> (r: Self)
        ensures
            r@ == quotient(Format::Single, self@, other@),
    {
        self.over_in(Format::Single, other)
    }

    /// The magnitude without a sign.
    pub fn abs(self) -> (r: Self)
        ensures
            r@ == absolute(self@),
    {
        match self.parts() {
            Parts::Nan => Self::not_a_number(),
            Parts::Infinite { .. } => Self::infinity(false),
            Parts::Finite { mantissa, shift, .. } => Self::assemble(false, mantissa, shift),
        }
    }

    /// `self < other`.
    pub fn less_than(self, other: Self) -> (r: bool)
        ensures
            r == less(self@, other@),
    {
        let x: u64 = self.bits % 0x8000_0000_0000_0000;
        let y: u64 = other.bits % 0x8000_0000_0000_0000;
        let p: bool = self.bits >= 0x8000_0000_0000_0000;
        let q: bool = other.bits >= 0x8000_0000_0000_0000;
        proof {
            let top = 2047 * 0x10_0000_0000_0000nat;
            lemma2_to64();
            if x < y && y < top {
                lemma_magnitude_order(x as nat, y as nat);
            }
            if y < x && x < top {
                lemma_magnitude_order(y as nat, x as nat);
            }
            if 0 < x && x < top {
                lemma_magnitude_order(0, x as nat);
            }
            if 0 < y && y < top {
                lemma_magnitude_order(0, y as nat);
            }
            assert(x < top ==> self@ == (Number::Finite {
                negative: p,
                units: magnitude_units(x as nat),
            }));
            assert(y < top ==> other@ == (Number::Finite {
                negative: q,
                units: magnitude_units(y as nat),
            }));
            assert(x == top ==> self@ == (Number::Infinite { negative: p }));
            assert(y == top ==> other@ == (Number::Infinite { negative: q }));
            assert(x > top ==> self@ is Nan);
            assert(y > top ==> other@ is Nan);
            assert(magnitude_units(0) == 0);
        }
        if x > 0x7ff0_0000_0000_0000 || y > 0x7ff0_0000_0000_0000 {
            false
        } else if p {
            if q {
                x > y
            } else {
                x > 0 || y > 0
            }
        } else {
            !q && x < y
        }
    }

    /// Whether the number is none.
    pub fn is_nan(self) -> (r: bool)
        ensures
            r == (self@ is Nan),
    {
        match self.parts() {
            Parts::Nan => true,
            _ => false,
        }
    }

    /// Whether the number is neither infinite nor none.
    pub fn is_finite(self) -> (r: bool)
        ensures
            r == (self@ is Finite),
    {
        match self.parts() {
            Parts::Finite { .. } => true,
            _ => false,
        }
    }

    /// `self <= other`.
    pub fn is_at_most(self, other: Self) -> (r: bool)
        ensures
            r == at_most(self@, other@),
    {
        !self.is_nan() && !other.is_nan() && !other.less_than(self)
    }

    /// The smaller one of two numbers.
    pub fn min(self, other: Self) -> (r: Self)
        ensures
            r@ == minimum(self@, other@),
    {
        if self.is_nan() || other.less_than(self) {
            other
        } else {
            self
        }
    }

    /// The larger one of two numbers.
    pub fn max(self, other: Self) -> (r: Self)
        ensures
            r@ == maximum(self@, other@),
    {
        if self.is_nan() || self.less_than(other) {
            other
        } else {
            self
        }
    }

    /// A 32-bit integer, which is exact.
    pub fn from_i32(n: i32) -> (r: Self)
        ensures
            r@ == whole(n as int),
    {
        let magnitude: u128 = if n < 0 {
            (-(n as i64)) as u128
        } else {
            n as u128
        };
        Self::round_scaled(Format::Double, n < 0, magnitude, 1074)
    }

    /// The double nearest to an unsigned integer.
    pub fn from_u64(n: u64) -> (r: Self)
        ensures
            r@ == whole(n as int),
    {
        Self::round_scaled(Format::Double, false, n as u128, 1074)
    }
}

/// A mantissa of units, taken apart into whole ones and a remainder.
proof fn lemma_whole_ones(m: nat, k: nat, s: nat)
    requires
        k + s == 1074,
    ensures
        (m * pow2(k)) / one() == m / pow2(s),
        (m * pow2(k)) % one() == (m % pow2(s)) * pow2(k),
        (m * pow2(k)) % one() == 0 <==> m % pow2(s) == 0,
        s > 0 ==> (2 * (m * pow2(k)) + one()) / (2 * one()) == (m + pow2((s - 1) as nat)) / pow2(s),
{
    let p = pow2(k);
    let w = pow2(s);
    lemma_pow2_pos(k);
    lemma_pow2_pos(s);
    lemma_pow2_adds(k, s);
    lemma_fundamental_div_mod(m as int, w as int);
    lemma_mod_bound(m as int, w as int);
    let q = m / w;
    let r = m % w;
    assert(m * p == q * (p * w) + r * p) by (nonlinear_arith)
        requires
            m == w * q + r,
    ;
    assert(r * p < p * w && (r * p == 0 <==> r == 0)) by (nonlinear_arith)
        requires
            r < w,
            p > 0,
    ;
    lemma_fundamental_div_mod_converse((m * p) as int, (p * w) as int, q as int, (r * p) as int);
    if s > 0 {
        let h = pow2((s - 1) as nat);
        lemma_pow2_unfold(s);
        lemma_pow2_pos((k + 1) as nat);
        lemma_pow2_unfold((k + 1) as nat);
        let two = 2 * p;
        assert(2 * (m * p) + p * w == two * (m + h) && 2 * (p * w) == two * w && two > 0)
            by (nonlinear_arith)
            requires
                w == 2 * h,
                two == 2 * p,
                p > 0,
        ;
        lemma_nearest_scale(m + h, w, two);
        assert((m + h) * two == two * (m + h) && w * two == two * w) by (nonlinear_arith);
    }
}

proof fn lemma_one_is_below_limit(t: nat)
    requires
        t <= 0x20_0000_0000_0000,
    ensures
        t * one() < pow2(2098),
{
    lemma2_to64_rest();
    lemma_pow2_adds(53, 1074);
    lemma_pow2_strictly_increases(53 + 1074, 2098);
    lemma_pow2_pos(1074);
    assert(t * one() <= pow2(53) * one()) by (nonlinear_arith)
        requires
            t <= pow2(53),
    ;
}

/// Whole multiples of one have no remainder.
proof fn lemma_coarse_is_whole(m: nat, k: nat)
    requires
        k >= 1074,
    ensures
        (m * pow2(k)) % one() == 0,
        (m * pow2(k)) / one() * one() == m * pow2(k),
        (2 * (m * pow2(k)) + one()) / (2 * one()) * one() == m * pow2(k),
{
    let c = m * pow2((k - 1074) as nat);
    lemma_pow2_pos(1074);
    lemma_pow2_adds((k - 1074) as nat, 1074);
    lemma_mul_is_associative(m as int, pow2((k - 1074) as nat) as int, one() as int);
    lemma_fundamental_div_mod_converse((c * one()) as int, one() as int, c as int, 0);
    assert(2 * (c * one()) + one() == c * (2 * one()) + one()) by (nonlinear_arith);
    lemma_fundamental_div_mod_converse(
        (2 * (c * one()) + one()) as int,
        (2 * one()) as int,
        c as int,
        one() as int,
    );
}

impl Binary64 {
    /// The nearest whole number, away from zero where two are equally near.
    pub fn round(self) -> (r: Self)
        ensures
            r@ == rounded_whole(self@),
    {
        match self.parts() {
            Parts::Nan => Self::not_a_number(),
            Parts::Infinite { negative } => Self::infinity(negative),
            Parts::Finite { negative, mantissa, shift } => {
                if shift >= 1074 {
                    proof {
                        lemma_coarse_is_whole(mantissa as nat, shift as nat);
                    }
                    self
                } else {
                    let s: u32 = 1074 - shift;
                    proof {
                        lemma_whole_ones(mantissa as nat, shift as nat, s as nat);
                        lemma2_to64();
                        lemma2_to64_rest();
                        lemma_mul_basics(one() as int);
                    }
                    if s > 60 {
                        proof {
                            lemma_pow2_mono(60, (s - 1) as nat);
                            lemma_pow2_unfold(s as nat);
                            lemma_basic_div(
                                mantissa + pow2((s - 1) as nat),
                                pow2(s as nat) as int,
                            );
                        }
                        Self::zero(negative)
                    } else {
                        let half: u128 = power_of_two(s - 1);
                        let power: u128 = power_of_two(s);
                        proof {
                            lemma_pow2_mono((s - 1) as nat, 60);
                            lemma_pow2_unfold(s as nat);
                            let t = (mantissa as nat + half as nat) / (power as nat);
                            lemma_pow2_pos(s as nat);
                            lemma_fundamental_div_mod(
                                mantissa as int + half as int,
                                power as int,
                            );
                            lemma_mod_bound(mantissa as int + half as int, power as int);
                            assert(t <= 0x20_0000_0000_0000) by (nonlinear_arith)
                                requires
                                    power == 2 * half,
                                    half >= 1,
                                    mantissa < 0x20_0000_0000_0000,
                                    power * t <= mantissa + half,
                            ;
                            lemma_one_is_below_limit(t);
                        }
                        let t: u128 = (mantissa as u128 + half) / power;
                        Self::encode(negative, t as u64, 1074)
                    }
                }
            },
        }
    }

    /// The smallest whole number that is not below the number.
    pub fn ceil(self) -> (r: Self)
        ensures
            r@ == ceiling(self@),
    {
        match self.parts() {
            Parts::Nan => Self::not_a_number(),
            Parts::Infinite { negative } => Self::infinity(negative),
            Parts::Finite { negative, mantissa, shift } => {
                if shift >= 1074 {
                    proof {
                        lemma_coarse_is_whole(mantissa as nat, shift as nat);
                    }
                    self
                } else {
                    let s: u32 = 1074 - shift;
                    proof {
                        lemma_whole_ones(mantissa as nat, shift as nat, s as nat);
                        lemma2_to64();
                        lemma2_to64_rest();
                        lemma_one_is_below_limit(1);
                        lemma_mul_basics(one() as int);
                    }
                    if s > 60 {
                        proof {
                            lemma_pow2_mono(60, s as nat);
                            lemma_basic_div(mantissa as int, pow2(s as nat) as int);
                            lemma_small_mod(mantissa as nat, pow2(s as nat));
                        }
                        if negative || mantissa == 0 {
                            Self::zero(negative)
                        } else {
                            Self::encode(negative, 1, 1074)
                        }
                    } else {
                        let power: u128 = power_of_two(s);
                        let t: u128 = mantissa as u128 / power;
                        proof {
                            lemma_pow2_pos(s as nat);
                            lemma_pow2_mono(1, s as nat);
                            lemma_fundamental_div_mod(mantissa as int, power as int);
                            lemma_mod_bound(mantissa as int, power as int);
                            assert(t < 0x10_0000_0000_0000) by (nonlinear_arith)
                                requires
                                    power >= 2,
                                    mantissa < 0x20_0000_0000_0000,
                                    power * t <= mantissa,
                            ;
                            lemma_one_is_below_limit(t as nat);
                            lemma_one_is_below_limit((t + 1) as nat);
                        }
                        if negative || mantissa as u128 % power == 0 {
                            Self::encode(negative, t as u64, 1074)
                        } else {
                            Self::encode(negative, (t + 1) as u64, 1074)
                        }
                    }
                }
            },
        }
    }

    /// The number without its fraction, brought into the range of `i32`.
    pub fn to_i32(self) -> (r: i32)
        ensures
            r == truncated(self@),
    {
        match self.parts() {
            Parts::Nan => 0,
            Parts::Infinite { negative } => if negative {
                i32::MIN
            } else {
                i32::MAX
            },
            Parts::Finite { negative, mantissa, shift } => {
                let whole: u64 = if shift >= 1074 {
                    proof {
                        lemma_coarse_is_whole(mantissa as nat, shift as nat);
                        let c = (mantissa as nat * pow2(shift as nat)) / one();
                        lemma_pow2_pos(1074);
                        lemma_pow2_adds((shift - 1074) as nat, 1074);
                        lemma_pow2_pos((shift - 1074) as nat);
                        let p = pow2((shift - 1074) as nat);
                        lemma_mul_is_associative(mantissa as int, p as int, one() as int);
                        assert(c >= mantissa) by (nonlinear_arith)
                            requires
                                c * one() == (mantissa * p) * one(),
                                one() > 0,
                                p >= 1,
                        ;
                    }
                    0x1_0000_0000
                } else {
                    let s: u32 = 1074 - shift;
                    proof {
                        lemma_whole_ones(mantissa as nat, shift as nat, s as nat);
                        lemma2_to64_rest();
                    }
                    if s > 60 {
                        proof {
                            lemma_pow2_mono(60, s as nat);
                            lemma_basic_div(mantissa as int, pow2(s as nat) as int);
                        }
                        0
                    } else {
                        proof {
                            lemma_pow2_pos(s as nat);
                            lemma_div_nonincreasing(mantissa as int, pow2(s as nat) as int);
                        }
                        (mantissa as u128 / power_of_two(s)) as u64
                    }
                };
                if negative {
                    if whole > 0x8000_0000 {
                        i32::MIN
                    } else {
                        (-(whole as i64)) as i32
                    }
                } else if whole > 0x7fff_ffff {
                    i32::MAX
                } else {
                    whole as i32
                }
            },
        }
    }
}

/// A magnitude with no more digits than a double has is not changed by rounding.
pub proof fn lemma_rounded_exact(m: nat, k: nat)
    requires
        m <= 0x20_0000_0000_0000,
    ensures
        rounded_units(53, 0, m * pow2(k), 1) == m * pow2(k),
    decreases m,
{
    lemma2_to64();
    lemma2_to64_rest();
    lemma_mul_basics(pow2(k) as int);
    if m == 0 {
        lemma_rounded_zero(53, 0, 1);
    } else if m == 0x20_0000_0000_0000 {
        lemma_rounded_exact(0x10_0000_0000_0000, k + 1);
        lemma_pow2_unfold(k + 1);
    } else {
        lemma_bit_length_bounds(m);
        assert(bit_length(m) <= 53) by {
            if bit_length(m) > 53 {
                lemma_pow2_mono(53, (bit_length(m) - 1) as nat);
            }
        }
        lemma_rounding_shift_scaled(53, 0, m, 1, k, 0);
        assert(1 * pow2(0) == 1);
        let j = rounding_shift(53, 0, m * pow2(k), 1);
        assert(j <= k);
        let c = m * pow2((k - j) as nat);
        lemma_pow2_pos(j);
        lemma_pow2_adds((k - j) as nat, j);
        lemma_mul_is_associative(m as int, pow2((k - j) as nat) as int, pow2(j) as int);
        lemma_nearest_whole(c, pow2(j));
        lemma_mul_basics(pow2(j) as int);
    }
}

/// Whole numbers of up to 53 binary digits are doubles.
pub proof fn lemma_whole_exact(n: int)
    requires
        -0x20_0000_0000_0000 <= n <= 0x20_0000_0000_0000,
    ensures
        whole(n) == (Number::Finite {
            negative: n < 0,
            units: (if n < 0 {
                -n
            } else {
                n
            }) as nat * one(),
        }),
{
    let m = (if n < 0 {
        -n
    } else {
        n
    }) as nat;
    lemma_rounded_exact(m, 1074);
    lemma_one_is_below_limit(m);
}

/// A whole number in the range of `i32` comes back from its double.
pub proof fn lemma_truncated_whole(n: int)
    requires
        i32::MIN <= n <= i32::MAX,
    ensures
        truncated(whole(n)) == n,
{
    lemma_whole_exact(n);
    lemma_pow2_pos(1074);
    let m = if n < 0 {
        -n
    } else {
        n
    };
    lemma_div_by_multiple(m, one() as int);
}

impl Binary64 {
    /// The double nearest to `n / d`.
    pub fn from_fraction(n: u64, d: u64) -> (r: Self)
        requires
            n <= 0x20_0000_0000_0000,
            0 < d <= 0x20_0000_0000_0000,
        ensures
            r@ == fraction(n as nat, d as nat),
    {
        proof {
            lemma_whole_exact(n as int);
            lemma_whole_exact(d as int);
            lemma_pow2_pos(1074);
            let a = n as nat * one();
            assert((a * one()) * d == a * (d * one()) && d * one() > 0) by (nonlinear_arith)
                requires
                    d > 0,
                    one() > 0,
            ;
            lemma_rounded_equal(Format::Double, false, a * one(), d as nat * one(), a, d as nat);
        }
        Self::from_u64(n).over(Self::from_u64(d))
    }

    /// Sign, mantissa and shift of a finite double of `mantissa * 2^shift` units.
    pub(crate) fn finite_parts(self) -> (r: Option<(bool, u64, u32)>)
        ensures
            match r {
                None => self@ !is Finite,
                Some((negative, mantissa, shift)) => {
                    &&& self@ == (Number::Finite {
                        negative,
                        units: mantissa as nat * pow2(shift as nat),
                    })
                    &&& mantissa < 0x20_0000_0000_0000
                    &&& shift <= 2045
                },
            },
    {
        match self.parts() {
            Parts::Finite { negative, mantissa, shift } => Some((negative, mantissa, shift)),
            _ => None,
        }
    }
}

/// Rounding to a whole number goes to the nearest one, and away from zero where two are equally
/// near.
pub proof fn rounding_goes_to_the_nearest_whole(negative: bool, units: nat)
    ensures
        ({
            let r = rounded_whole(Number::Finite { negative, units });
            &&& r is Finite
            &&& r.negative() == negative
            &&& r->units == r->units / one() * one()
            &&& 2 * r->units <= 2 * units + one()
            &&& 2 * units < 2 * r->units + one()
        }),
{
    let u = one();
    lemma_pow2_pos(1074);
    let n = 2 * units + u;
    let q = n / (2 * u);
    lemma_fundamental_div_mod(n as int, (2 * u) as int);
    lemma_mod_bound(n as int, (2 * u) as int);
    assert((2 * u) * q == 2 * (q * u)) by (nonlinear_arith);
    lemma_div_by_multiple(q as int, u as int);
}

/// The ceiling of a number is the smallest whole number that is not below it.
pub proof fn ceiling_is_the_next_whole(negative: bool, units: nat)
    ensures
        ({
            let r = ceiling(Number::Finite { negative, units });
            &&& r is Finite
            &&& r.negative() == negative
            &&& r->units == r->units / one() * one()
            &&& !negative ==> units <= r->units < units + one()
            &&& negative ==> r->units <= units < r->units + one()
        }),
{
    let u = one();
    lemma_pow2_pos(1074);
    let q = units / u;
    lemma_fundamental_div_mod(units as int, u as int);
    lemma_mod_bound(units as int, u as int);
    assert(u * q == q * u && (q + 1) * u == q * u + u) by (nonlinear_arith);
    lemma_div_by_multiple(q as int, u as int);
    lemma_div_by_multiple((q + 1) as int, u as int);
}

/// A number without its fraction is the whole number next to it towards zero, brought into the
/// range of `i32`.
pub proof fn truncation_drops_the_fraction(negative: bool, units: nat)
    ensures
        ({
            let r = truncated(Number::Finite { negative, units });
            &&& !negative && units < 0x8000_0000 * one() ==> 0 <= r && r * one() <= units < (r + 1)
                * one()
            &&& !negative && units >= 0x8000_0000 * one() ==> r == i32::MAX
            &&& negative && units < 0x8000_0001 * one() ==> r <= 0 && -r * one() <= units < (-r + 1)
                * one()
            &&& negative && units >= 0x8000_0001 * one() ==> r == i32::MIN
        }),
{
    let u = one();
    lemma_pow2_pos(1074);
    let q = units / u;
    lemma_fundamental_div_mod(units as int, u as int);
    lemma_mod_bound(units as int, u as int);
    assert(u * q == q * u && (q + 1) * u == q * u + u) by (nonlinear_arith);
    assert(units < 0x8000_0000 * u ==> q < 0x8000_0000) by (nonlinear_arith)
        requires
            units >= q * u,
            u > 0,
    ;
    assert(units >= 0x8000_0000 * u ==> q >= 0x8000_0000) by (nonlinear_arith)
        requires
            units < (q + 1) * u,
            u > 0,
    ;
    assert(units < 0x8000_0001 * u ==> q < 0x8000_0001) by (nonlinear_arith)
        requires
            units >= q * u,
            u > 0,
    ;
    assert(units >= 0x8000_0001 * u ==> q >= 0x8000_0001) by (nonlinear_arith)
        requires
            units < (q + 1) * u,
            u > 0,
    ;
}

/// The smaller and the larger of two numbers are one of both, and lie in their order. What is not a
/// number does not count.
pub proof fn smaller_and_larger_are_in_order(a: Number, b: Number)
    ensures
        minimum(a, b) == a || minimum(a, b) == b,
        maximum(a, b) == a || maximum(a, b) == b,
        a !is Nan && b !is Nan ==> at_most(minimum(a, b), a) && at_most(minimum(a, b), b)
            && at_most(a, maximum(a, b)) && at_most(b, maximum(a, b)),
        a is Nan ==> minimum(a, b) == b && maximum(a, b) == b,
        b is Nan && a !is Nan ==> minimum(a, b) == a && maximum(a, b) == a,
{
}

} // verus!
