//! How rounding keeps the order of numbers, and how far it moves them.
use crate::binary64::{
    at_most, lemma_rounded_exact, less, one, rounded, Binary64, Format, Number,
};
use crate::rounding::{
    bit_length, lemma_bit_length_bounds, lemma_nearest_monotone, lemma_nearest_whole,
    lemma_pow2_mono, lemma_rounded_zero, nearest, rounded_units, rounding_shift,
};
use vstd::arithmetic::div_mod::*;
use vstd::arithmetic::mul::*;
use vstd::arithmetic::power2::*;
use vstd::prelude::*;

verus! {

proof fn lemma_bit_length_ordered(a: nat, b: nat)
    requires
        a <= b,
    ensures
        bit_length(a) <= bit_length(b),
{
    lemma_bit_length_bounds(a);
    lemma_bit_length_bounds(b);
    if bit_length(a) > bit_length(b) {
        lemma_pow2_mono(bit_length(b), (bit_length(a) - 1) as nat);
    }
}

/// The nearest whole number is at most one half away.
pub proof fn lemma_nearest_error(n: nat, d: nat)
    requires
        d > 0,
    ensures
        2 * n <= 2 * (nearest(n, d) * d) + d,
        2 * (nearest(n, d) * d) <= 2 * n + d,
{
    let q = n / d;
    let r = n % d;
    lemma_fundamental_div_mod(n as int, d as int);
    lemma_mod_bound(n as int, d as int);
    assert(q * d == d * q) by (nonlinear_arith);
    assert((q + 1) * d == d * q + d) by (nonlinear_arith);
}

/// A rounded magnitude has at most the given precision, and it is at most half a step away.
pub proof fn lemma_rounded_range(precision: nat, min_shift: nat, n: nat, d: nat)
    requires
        precision > 0,
        d > 0,
    ensures
        ({
            let k = rounding_shift(precision, min_shift, n, d);
            let r = rounded_units(precision, min_shift, n, d);
            &&& min_shift <= k
            &&& r <= pow2(precision + k)
            &&& k > min_shift ==> pow2((precision - 1 + k) as nat) <= r
            &&& k > min_shift ==> pow2((precision - 1 + k) as nat) * d <= n
            &&& 2 * n <= 2 * (r * d) + d * pow2(k)
            &&& 2 * (r * d) <= 2 * n + d * pow2(k)
        }),
{
    let k = rounding_shift(precision, min_shift, n, d);
    let r = rounded_units(precision, min_shift, n, d);
    let q = n / d;
    let step = pow2(k);
    lemma_pow2_pos(k);
    let w = d * step;
    assert(w > 0) by (nonlinear_arith)
        requires
            w == d * step,
            d > 0,
            step > 0,
    ;
    lemma_bit_length_bounds(q);
    lemma_fundamental_div_mod(n as int, d as int);
    lemma_mod_bound(n as int, d as int);
    lemma_pow2_mono(bit_length(q), precision + k);
    lemma_pow2_adds(precision, k);
    let top = pow2(precision);
    assert(d * (q + 1) == d * q + d) by (nonlinear_arith);
    assert(d * (q + 1) <= top * w) by (nonlinear_arith)
        requires
            q + 1 <= top * step,
            w == d * step,
    ;
    assert(n * w <= (top * w) * w) by (nonlinear_arith)
        requires
            n <= top * w,
            w > 0,
    ;
    lemma_nearest_monotone(n, w, top * w, w);
    lemma_nearest_whole(top, w);
    let m = nearest(n, w);
    assert(m * step <= top * step) by (nonlinear_arith)
        requires
            m <= top,
    ;
    if k > min_shift {
        let half = pow2((precision - 1) as nat);
        lemma_pow2_adds((precision - 1) as nat, k);
        assert(half * step <= q);
        assert(half * w <= n) by (nonlinear_arith)
            requires
                half * step <= q,
                n >= d * q,
                w == d * step,
        ;
        assert((half * w) * w <= n * w) by (nonlinear_arith)
            requires
                half * w <= n,
        ;
        lemma_nearest_monotone(half * w, w, n, w);
        lemma_nearest_whole(half, w);
        assert(half * step <= m * step) by (nonlinear_arith)
            requires
                half <= m,
        ;
        assert((half * step) * d == half * w) by (nonlinear_arith)
            requires
                w == d * step,
        ;
    }
    lemma_nearest_error(n, w);
    assert(m * w == (m * step) * d) by (nonlinear_arith)
        requires
            w == d * step,
    ;
}

/// A larger quotient is not rounded to a smaller number.
pub proof fn lemma_rounded_ordered(
    precision: nat,
    min_shift: nat,
    n1: nat,
    d1: nat,
    n2: nat,
    d2: nat,
)
    requires
        precision > 0,
        d1 > 0,
        d2 > 0,
        n1 * d2 <= n2 * d1,
    ensures
        rounded_units(precision, min_shift, n1, d1) <= rounded_units(precision, min_shift, n2, d2),
{
    lemma_nearest_monotone(n1, d1, n2, d2);
    lemma_bit_length_ordered(n1 / d1, n2 / d2);
    let k1 = rounding_shift(precision, min_shift, n1, d1);
    let k2 = rounding_shift(precision, min_shift, n2, d2);
    assert(k1 <= k2);
    lemma_pow2_pos(k1);
    lemma_pow2_pos(k2);
    if k1 == k2 {
        let p = pow2(k1);
        assert(d1 * p > 0 && d2 * p > 0 && n1 * (d2 * p) <= n2 * (d1 * p)) by (nonlinear_arith)
            requires
                d1 > 0,
                d2 > 0,
                p > 0,
                n1 * d2 <= n2 * d1,
        ;
        lemma_nearest_monotone(n1, d1 * p, n2, d2 * p);
        let a = nearest(n1, d1 * p);
        let b = nearest(n2, d2 * p);
        assert(a * p <= b * p) by (nonlinear_arith)
            requires
                a <= b,
        ;
    } else {
        lemma_rounded_range(precision, min_shift, n1, d1);
        lemma_rounded_range(precision, min_shift, n2, d2);
        lemma_pow2_mono(precision + k1, (precision - 1 + k2) as nat);
    }
}

/// A double is not changed by rounding.
pub proof fn lemma_representable(x: Binary64)
    ensures
        x@ matches Number::Finite { negative, units } ==> {
            &&& rounded_units(53, 0, units, 1) == units
            &&& units < pow2(2098)
        },
{
    let bits = x.spec_bits();
    let magnitude = (bits as nat) % 0x8000_0000_0000_0000;
    let exponent = magnitude / 0x10_0000_0000_0000;
    let fraction = magnitude % 0x10_0000_0000_0000;
    lemma2_to64();
    lemma2_to64_rest();
    if exponent == 0 {
        lemma_rounded_exact(fraction, 0);
        lemma_mul_basics(fraction as int);
        lemma_pow2_mono(53, 2098);
    } else if exponent < 2047 {
        let k = (exponent - 1) as nat;
        lemma_rounded_exact(0x10_0000_0000_0000 + fraction, k);
        lemma_pow2_pos(k);
        lemma_pow2_adds(53, k);
        lemma_pow2_mono(53 + k, 2098);
        let p = pow2(k);
        assert((0x10_0000_0000_0000 + fraction) * p < 0x20_0000_0000_0000 * p) by (nonlinear_arith)
            requires
                fraction < 0x10_0000_0000_0000,
                p > 0,
        ;
    }
}

/// Numbers that are not negative keep their order when they are rounded.
pub proof fn lemma_quotients_ordered(n1: nat, d1: nat, n2: nat, d2: nat)
    requires
        d1 > 0,
        d2 > 0,
        n1 * d2 <= n2 * d1,
    ensures
        at_most(rounded(Format::Double, false, n1, d1), rounded(Format::Double, false, n2, d2)),
        rounded_units(53, 0, n1, d1) <= rounded_units(53, 0, n2, d2),
{
    lemma_rounded_ordered(53, 0, n1, d1, n2, d2);
}

/// Adding does not take away, and taking away does not add.
pub proof fn lemma_plus_grows(x: Binary64, step: Number)
    requires
        x@ is Finite,
        step is Finite,
        !step.negative(),
    ensures
        at_most(x@, x@.plus(step)),
        at_most(x@.minus(step), x@),
{
    lemma_representable(x);
    let a = x@.signed();
    let b = step.signed();
    let units = x@->units;
    lemma_mul_basics(units as int);
    let up = a + b;
    if up > 0 {
        if a >= 0 {
            lemma_rounded_ordered(53, 0, units, 1, up as nat, 1);
        }
    } else if up < 0 {
        lemma_rounded_ordered(53, 0, (-up) as nat, 1, units, 1);
    }
    let down = a - b;
    if down > 0 {
        lemma_rounded_ordered(53, 0, down as nat, 1, units, 1);
    } else if down < 0 {
        if a < 0 {
            lemma_rounded_ordered(53, 0, units, 1, (-down) as nat, 1);
        }
    }
}

pub proof fn lemma_less_after(a: Number, b: Number, c: Number)
    ensures
        at_most(a, b) && less(b, c) ==> less(a, c),
        less(a, b) && at_most(b, c) ==> less(a, c),
        at_most(a, b) && at_most(b, c) ==> at_most(a, c),
{
}

/// A number that is not too small is moved by no more than one part in 2^53.
pub proof fn lemma_relative_error(n: nat, d: nat)
    requires
        d > 0,
        n >= d * 0x20_0000_0000_0000,
    ensures
        ({
            let r = rounded_units(53, 0, n, d);
            &&& 0x20_0000_0000_0000 * (r * d) <= 0x20_0000_0000_0000 * n + n
            &&& 0x20_0000_0000_0000 * n <= 0x20_0000_0000_0000 * (r * d) + n
        }),
{
    let k = rounding_shift(53, 0, n, d);
    let q = n / d;
    lemma_rounded_range(53, 0, n, d);
    lemma2_to64_rest();
    assert(q >= 0x20_0000_0000_0000) by {
        lemma_div_is_ordered(0x20_0000_0000_0000 * d as int, n as int, d as int);
        lemma_div_by_multiple(0x20_0000_0000_0000, d as int);
    }
    lemma_bit_length_bounds(q);
    if bit_length(q) <= 53 {
        lemma_pow2_mono(bit_length(q), 53);
    }
    lemma_pow2_adds(52, k);
    let p = pow2(k);
    assert(0x10_0000_0000_0000 * (d * p) == (0x10_0000_0000_0000 * p) * d) by (nonlinear_arith);
}

/// Dividing a number and multiplying the quotient with the divisor again moves the number by no
/// more than two parts in 2^53.
pub proof fn lemma_divided_back(target: nat, divisor: nat)
    requires
        divisor > 0,
        target >= 0x40_0000_0000_0000,
        target * one() >= divisor * 0x20_0000_0000_0000,
    ensures
        ({
            let e = 0x20_0000_0000_0000int;
            let quotient = rounded_units(53, 0, target * one(), divisor);
            let back = rounded_units(53, 0, quotient * divisor, one());
            &&& e * e * back <= (e + 1) * (e + 1) * target
            &&& (e - 1) * (e - 1) * target <= e * e * back
            &&& 0x8_0000_0000_0000 * back <= 0x8_0000_0000_0000 * target + target
            &&& 0x8_0000_0000_0000 * target <= 0x8_0000_0000_0000 * back + target
        }),
{
    let e = 0x20_0000_0000_0000int;
    let u = one();
    lemma_pow2_pos(1074);
    let n = target * u;
    let quotient = rounded_units(53, 0, n, divisor);
    lemma_relative_error(n, divisor);
    let v = quotient * divisor;
    assert(e * v >= (e - 1) * n && e * v <= (e + 1) * n) by (nonlinear_arith)
        requires
            e * v <= e * n + n,
            e * n <= e * v + n,
    ;
    assert(n >= 0x40_0000_0000_0000 * u) by (nonlinear_arith)
        requires
            n == target * u,
            target >= 0x40_0000_0000_0000,
    ;
    assert(v >= u * 0x20_0000_0000_0000);
    let back = rounded_units(53, 0, v, u);
    lemma_relative_error(v, u);
    let w = back * u;
    assert(e * w <= (e + 1) * v && e * w >= (e - 1) * v) by (nonlinear_arith)
        requires
            e * w <= e * v + v,
            e * v <= e * w + v,
    ;
    assert(e * e * w <= (e + 1) * (e + 1) * n) by (nonlinear_arith)
        requires
            e * w <= (e + 1) * v,
            e * v <= (e + 1) * n,
            e > 0,
    ;
    assert((e - 1) * (e - 1) * n <= e * e * w) by (nonlinear_arith)
        requires
            e * w >= (e - 1) * v,
            e * v >= (e - 1) * n,
            e > 1,
    ;
    assert(e * e * back <= (e + 1) * (e + 1) * target) by (nonlinear_arith)
        requires
            e * e * w <= (e + 1) * (e + 1) * n,
            w == back * u,
            n == target * u,
            u > 0,
    ;
    assert((e - 1) * (e - 1) * target <= e * e * back) by (nonlinear_arith)
        requires
            (e - 1) * (e - 1) * n <= e * e * w,
            w == back * u,
            n == target * u,
            u > 0,
    ;
    lemma_parts(back as int, target as int);
}

proof fn lemma_parts(back: int, target: int)
    requires
        target >= 0,
        ({
            let e = 0x20_0000_0000_0000int;
            &&& e * e * back <= (e + 1) * (e + 1) * target
            &&& (e - 1) * (e - 1) * target <= e * e * back
        }),
    ensures
        0x8_0000_0000_0000 * back <= 0x8_0000_0000_0000 * target + target,
        0x8_0000_0000_0000 * target <= 0x8_0000_0000_0000 * back + target,
{
    let e = 0x20_0000_0000_0000int;
    let above = back - target;
    assert(e * e * back == e * (e * above) + e * e * target) by (nonlinear_arith)
        requires
            above == back - target,
    ;
    assert((e + 1) * (e + 1) * target == e * e * target + 2 * (e * target) + target)
        by (nonlinear_arith);
    assert((e - 1) * (e - 1) * target == e * e * target - 2 * (e * target) + target)
        by (nonlinear_arith);
    assert(e * (4 * target) == 4 * (e * target)) by (nonlinear_arith);
    assert(e * (-4 * target) == -4 * (e * target)) by (nonlinear_arith);
    assert(target <= e * target) by (nonlinear_arith)
        requires
            target >= 0,
            e >= 1,
    ;
    assert(e * above <= 4 * target && -4 * target <= e * above) by (nonlinear_arith)
        requires
            e * (e * above) <= e * (4 * target),
            e * (-4 * target) <= e * (e * above),
            e > 0,
    ;
}

/// Dividing a number by an extent and multiplying the quotient with it gives the number again, but
/// for one part in 2^51.
pub proof fn lemma_scaled_back(target: nat, extent: nat)
    requires
        0 < extent <= 0x8000_0000,
        target >= pow2(90),
    ensures
        ({
            let scale = rounded_units(53, 0, target * one(), extent * one());
            let back = rounded_units(53, 0, (extent * one()) * scale, one());
            &&& 0x8_0000_0000_0000 * back <= 0x8_0000_0000_0000 * target + target
            &&& 0x8_0000_0000_0000 * target <= 0x8_0000_0000_0000 * back + target
        }),
{
    let u = one();
    let w = extent * u;
    lemma_pow2_pos(1074);
    lemma2_to64();
    lemma2_to64_rest();
    lemma_pow2_adds(31, 59);
    assert(w > 0) by (nonlinear_arith)
        requires
            w == extent * u,
            extent > 0,
            u > 0,
    ;
    assert(target * u >= w * 0x20_0000_0000_0000) by (nonlinear_arith)
        requires
            w == extent * u,
            target >= 0x8000_0000 * 0x800_0000_0000_0000,
            extent <= 0x8000_0000,
    ;
    lemma_divided_back(target, w);
    let scale = rounded_units(53, 0, target * u, w);
    lemma_mul_is_commutative(scale as int, w as int);
}

/// An extent that is scaled by no more than what fits it into a space stays inside that space, but
/// for one part in 2^51, and fills it where it is scaled by just that.
pub proof fn lemma_fitted_extent(space: nat, extent: nat, scale: nat)
    requires
        space == 0 || pow2(90) <= space < pow2(2090),
        0 < extent <= 0x8000_0000,
        scale <= rounded_units(53, 0, space * one(), extent * one()),
    ensures
        ({
            let own = rounded_units(53, 0, space * one(), extent * one());
            let r = rounded_units(53, 0, (extent * one()) * scale, one());
            &&& own < pow2(2098)
            &&& r < pow2(2098)
            &&& 0x8_0000_0000_0000 * r <= 0x8_0000_0000_0000 * space + space
            &&& scale == own ==> 0x8_0000_0000_0000 * space <= 0x8_0000_0000_0000 * r + space
        }),
{
    let u = one();
    let own = rounded_units(53, 0, space * u, extent * u);
    lemma_pow2_pos(1074);
    lemma_pow2_pos(2090);
    assert(extent * u > 0) by (nonlinear_arith)
        requires
            extent > 0,
            u > 0,
    ;
    if space == 0 {
        lemma_mul_basics(u as int);
        lemma_mul_basics((extent * u) as int);
        lemma_rounded_zero(53, 0, extent * u);
        lemma_rounded_zero(53, 0, u);
        lemma_pow2_pos(2098);
    } else {
        lemma_scaled_back(space, extent);
        let top = pow2(2090);
        lemma_rounded_exact(1, 2090);
        lemma_mul_basics(top as int);
        assert((space * u) * 1 <= top * (extent * u)) by (nonlinear_arith)
            requires
                space <= top,
                extent >= 1,
        ;
        lemma_quotients_ordered(space * u, extent * u, top, 1);
        lemma_pow2_strictly_increases(2090, 2098);
        assert(((extent * u) * scale) * u <= ((extent * u) * own) * u) by (nonlinear_arith)
            requires
                scale <= own,
        ;
        lemma_quotients_ordered((extent * u) * scale, u, (extent * u) * own, u);
        lemma_pow2_adds(1, 2090);
        lemma2_to64();
        lemma_pow2_strictly_increases(2091, 2098);
    }
}

/// A number below two is moved by no more than 2^-53.
pub proof fn lemma_absolute_error(n: nat, d: nat)
    requires
        d > 0,
        n < d * pow2(1075),
    ensures
        ({
            let r = rounded_units(53, 0, n, d);
            &&& 2 * (r * d) <= 2 * n + d * pow2(1022)
            &&& 2 * n <= 2 * (r * d) + d * pow2(1022)
        }),
{
    let k = rounding_shift(53, 0, n, d);
    lemma_rounded_range(53, 0, n, d);
    let top = pow2(1075);
    lemma_fundamental_div_mod(n as int, d as int);
    lemma_mod_bound(n as int, d as int);
    assert(n / d < top) by (nonlinear_arith)
        requires
            n == d * (n / d) + n % d,
            n % d >= 0,
            n < d * top,
            d > 0,
    ;
    lemma_bit_length_bounds(n / d);
    if bit_length(n / d) > 1075 {
        lemma_pow2_mono(1075, (bit_length(n / d) - 1) as nat);
    }
    lemma_pow2_mono(k, 1022);
    let p = pow2(k);
    let q = pow2(1022);
    assert(d * p <= d * q) by (nonlinear_arith)
        requires
            p <= q,
    ;
}

/// Rounding twice is rounding once.
pub proof fn lemma_rounded_again(n: nat, d: nat)
    requires
        d > 0,
    ensures
        rounded_units(53, 0, rounded_units(53, 0, n, d), 1) == rounded_units(53, 0, n, d),
{
    let k = rounding_shift(53, 0, n, d);
    lemma_rounded_range(53, 0, n, d);
    lemma2_to64_rest();
    lemma_pow2_adds(53, k);
    lemma_pow2_pos(k);
    let m = nearest(n, d * pow2(k));
    let p = pow2(k);
    assert(m <= 0x20_0000_0000_0000) by (nonlinear_arith)
        requires
            m * p <= 0x20_0000_0000_0000 * p,
            p > 0,
    ;
    lemma_rounded_exact(m, k);
}

/// Twice a rounded number needs no rounding.
pub proof fn lemma_rounded_doubled(n: nat, d: nat)
    requires
        d > 0,
    ensures
        rounded_units(53, 0, 2 * rounded_units(53, 0, n, d), 1) == 2 * rounded_units(53, 0, n, d),
{
    let k = rounding_shift(53, 0, n, d);
    lemma_rounded_range(53, 0, n, d);
    lemma2_to64_rest();
    lemma_pow2_adds(53, k);
    lemma_pow2_pos(k);
    lemma_pow2_unfold(k + 1);
    let m = nearest(n, d * pow2(k));
    let p = pow2(k);
    assert(m <= 0x20_0000_0000_0000) by (nonlinear_arith)
        requires
            m * p <= 0x20_0000_0000_0000 * p,
            p > 0,
    ;
    lemma_rounded_exact(m, k + 1);
    assert(m * (2 * p) == 2 * (m * p)) by (nonlinear_arith);
}

/// The half of a number is moved by no more than one part in 2^53, or half of a unit.
pub proof fn lemma_half(n: nat)
    ensures
        ({
            let r = rounded_units(53, 0, n, 2);
            &&& 0x20_0000_0000_0000 * (2 * r) <= 0x20_0000_0000_0000 * n + n + 0x20_0000_0000_0000
            &&& 0x20_0000_0000_0000 * n <= 0x20_0000_0000_0000 * (2 * r) + n + 0x20_0000_0000_0000
        }),
{
    let r = rounded_units(53, 0, n, 2);
    if n >= 2 * 0x20_0000_0000_0000 {
        lemma_relative_error(n, 2);
    } else {
        lemma2_to64();
        lemma2_to64_rest();
        lemma_rounded_range(53, 0, n, 2);
        lemma_bit_length_bounds(n / 2);
        if bit_length(n / 2) > 53 {
            lemma_pow2_mono(53, (bit_length(n / 2) - 1) as nat);
        }
    }
}

/// A whole number of units is moved by no more than one part in 2^53.
pub proof fn lemma_whole_units_error(n: nat)
    ensures
        ({
            let r = rounded_units(53, 0, n, 1);
            &&& 0x20_0000_0000_0000 * r <= 0x20_0000_0000_0000 * n + n
            &&& 0x20_0000_0000_0000 * n <= 0x20_0000_0000_0000 * r + n
        }),
{
    lemma2_to64();
    lemma_mul_basics(n as int);
    if n >= 0x20_0000_0000_0000 {
        lemma_relative_error(n, 1);
        lemma_mul_basics(rounded_units(53, 0, n, 1) as int);
    } else {
        lemma_rounded_exact(n, 0);
    }
}

/// A sum is moved by no more than one part in 2^53, and it needs no further rounding.
pub proof fn lemma_sum_error(a: Number, b: Number)
    requires
        a is Finite,
        b is Finite,
        -(pow2(2097) as int) <= a.signed() + b.signed() <= pow2(2097),
    ensures
        ({
            let r = a.plus(b);
            let t = a.signed() + b.signed();
            &&& r is Finite
            &&& rounded_units(53, 0, r->units, 1) == r->units
            &&& t >= 0 ==> 0 <= r.signed()
            &&& t <= 0 ==> r.signed() <= 0
            &&& t >= 0 ==> 0x20_0000_0000_0000 * r.signed() <= 0x20_0000_0000_0000 * t + t
            &&& t >= 0 ==> 0x20_0000_0000_0000 * t <= 0x20_0000_0000_0000 * r.signed() + t
            &&& t <= 0 ==> 0x20_0000_0000_0000 * r.signed() >= 0x20_0000_0000_0000 * t + t
            &&& t <= 0 ==> 0x20_0000_0000_0000 * t >= 0x20_0000_0000_0000 * r.signed() + t
        }),
{
    let t = a.signed() + b.signed();
    let n = (if t < 0 {
        -t
    } else {
        t
    }) as nat;
    lemma2_to64();
    lemma2_to64_rest();
    let top = pow2(2097);
    lemma_mul_basics(top as int);
    lemma_mul_basics(n as int);
    lemma_rounded_exact(1, 2097);
    lemma_rounded_ordered(53, 0, n, 1, top, 1);
    lemma_pow2_strictly_increases(2097, 2098);
    lemma_rounded_again(n, 1);
    lemma_rounded_zero(53, 0, 1);
    lemma_whole_units_error(n);
}

/// Whether two amounts are the same but for some parts in 2^53 of the second one.
pub open spec fn within(a: int, b: int, parts: int) -> bool {
    &&& 0x20_0000_0000_0000 * a <= 0x20_0000_0000_0000 * b + parts * b
    &&& 0x20_0000_0000_0000 * b <= 0x20_0000_0000_0000 * a + parts * b
}

/// What is near to a near amount is near.
pub proof fn lemma_within_chain(a: int, b: int, c: int, j: int, k: int)
    requires
        0 <= c,
        0 <= j <= 0x10_0000,
        0 <= k <= 0x10_0000,
        within(a, b, j),
        within(b, c, k),
    ensures
        within(a, c, j + k + 1),
{
    let e = 0x20_0000_0000_0000int;
    assert(j * k <= e) by (nonlinear_arith)
        requires
            0 <= j <= 0x10_0000,
            0 <= k <= 0x10_0000,
            e == 0x20_0000_0000_0000,
    ;
    let jk = j * k;
    assert((e + j) * b == e * b + j * b && (e - j) * b == e * b - j * b) by (nonlinear_arith);
    assert((e + k) * c == e * c + k * c && (e - k) * c == e * c - k * c) by (nonlinear_arith);
    assert(e * (e * a) <= e * (e * c + (j + k + 1) * c)) by (nonlinear_arith)
        requires
            e * a <= (e + j) * b,
            e * b <= (e + k) * c,
            jk == j * k,
            jk <= e,
            0 <= j,
            0 <= c,
            e > 0,
    {
        assert((e + j) * (e * b) <= (e + j) * ((e + k) * c));
        assert(e * (e * a) <= e * ((e + j) * b));
        assert((e + j) * ((e + k) * c) == e * (e * c) + (j + k) * (e * c) + jk * c);
        assert(jk * c <= e * c);
    }
    assert(e * (e * c) <= e * (e * a + (j + k + 1) * c)) by (nonlinear_arith)
        requires
            e * a >= (e - j) * b,
            e * b >= (e - k) * c,
            jk == j * k,
            jk >= 0,
            0 <= j < e,
            0 <= c,
            e > 0,
    {
        assert((e - j) * (e * b) >= (e - j) * ((e - k) * c));
        assert(e * (e * a) >= e * ((e - j) * b));
        assert((e - j) * ((e - k) * c) == e * (e * c) - (j + k) * (e * c) + jk * c);
        assert(jk * c >= 0);
    }
    assert(e * a <= e * c + (j + k + 1) * c) by (nonlinear_arith)
        requires
            e * (e * a) <= e * (e * c + (j + k + 1) * c),
            e > 0,
    ;
    assert(e * c <= e * a + (j + k + 1) * c) by (nonlinear_arith)
        requires
            e * (e * c) <= e * (e * a + (j + k + 1) * c),
            e > 0,
    ;
}

/// Near amounts stay near when both are multiplied.
pub proof fn lemma_within_times(a: int, b: int, m: int, k: int)
    requires
        0 <= m,
        within(a, b, k),
    ensures
        within(a * m, b * m, k),
        within(m * a, m * b, k),
{
    let e = 0x20_0000_0000_0000int;
    assert(e * (a * m) <= e * (b * m) + k * (b * m) && e * (b * m) <= e * (a * m) + k * (b * m))
        by (nonlinear_arith)
        requires
            e * a <= e * b + k * b,
            e * b <= e * a + k * b,
            0 <= m,
    ;
    lemma_mul_is_commutative(a, m);
    lemma_mul_is_commutative(b, m);
}

/// A common factor can be left out.
pub proof fn lemma_within_cancel(a: int, b: int, m: int, k: int)
    requires
        0 < m,
        within(a * m, b * m, k),
    ensures
        within(a, b, k),
{
    let e = 0x20_0000_0000_0000int;
    assert(e * a <= e * b + k * b) by (nonlinear_arith)
        requires
            e * (a * m) <= e * (b * m) + k * (b * m),
            0 < m,
    ;
    assert(e * b <= e * a + k * b) by (nonlinear_arith)
        requires
            e * (b * m) <= e * (a * m) + k * (b * m),
            0 < m,
    ;
}

/// Being near is mutual, but for one part.
pub proof fn lemma_within_back(a: int, b: int, k: int)
    requires
        0 <= b,
        0 <= k <= 0x10_0000,
        within(a, b, k),
    ensures
        within(b, a, k + 1),
{
    let e = 0x20_0000_0000_0000int;
    assert(k * (k + 1) <= e) by (nonlinear_arith)
        requires
            0 <= k <= 0x10_0000,
            e == 0x20_0000_0000_0000,
    ;
    assert((e - k) * b == e * b - k * b) by (nonlinear_arith);
    assert(k * b <= (k + 1) * a) by (nonlinear_arith)
        requires
            (e - k) * b <= e * a,
            k * (k + 1) <= e,
            0 <= k < e,
            0 <= b,
            e > 0,
    {
        assert((k + 1) * ((e - k) * b) <= (k + 1) * (e * a));
        assert((k + 1) * ((e - k) * b) == e * (k * b) + (e - k * (k + 1)) * b);
        assert((e - k * (k + 1)) * b >= 0);
        assert(e * (k * b) <= e * ((k + 1) * a));
    }
    assert((k + 1) * a == k * a + a) by (nonlinear_arith);
}

/// A rounded quotient, times its divisor.
pub proof fn lemma_quotient_within(n: nat, d: nat)
    requires
        d > 0,
        n >= d * 0x20_0000_0000_0000,
    ensures
        within((rounded_units(53, 0, n, d) * d) as int, n as int, 1),
{
    lemma_relative_error(n, d);
}

/// A rounded whole number of units.
pub proof fn lemma_units_within(n: nat)
    ensures
        within(rounded_units(53, 0, n, 1) as int, n as int, 1),
{
    lemma_whole_units_error(n);
}

/// What is near to a near amount is near, where the parts may be many.
pub proof fn lemma_within_far_chain(a: int, b: int, c: int, j: int, k: int)
    requires
        0 <= c,
        0 <= j <= 0x100_0000_0000,
        0 <= k <= 0x100_0000_0000,
        within(a, b, j),
        within(b, c, k),
    ensures
        within(a, c, j + 2 * k),
{
    let e = 0x20_0000_0000_0000int;
    assert((e + j) * b == e * b + j * b && (e - j) * b == e * b - j * b) by (nonlinear_arith);
    assert((e + k) * c == e * c + k * c && (e - k) * c == e * c - k * c) by (nonlinear_arith);
    assert(e * (e * a) <= e * (e * c + (j + 2 * k) * c)) by (nonlinear_arith)
        requires
            e * a <= (e + j) * b,
            e * b <= (e + k) * c,
            0 <= j <= e,
            0 <= k,
            0 <= c,
            e > 0,
    {
        assert((e + j) * (e * b) <= (e + j) * ((e + k) * c));
        assert(e * (e * a) <= e * ((e + j) * b));
        assert((e + j) * ((e + k) * c) == e * (e * c) + (j + k) * (e * c) + j * (k * c));
        assert(j * (k * c) <= e * (k * c));
    }
    assert(e * (e * c) <= e * (e * a + (j + 2 * k) * c)) by (nonlinear_arith)
        requires
            e * a >= (e - j) * b,
            e * b >= (e - k) * c,
            0 <= j < e,
            0 <= k,
            0 <= c,
            e > 0,
    {
        assert((e - j) * (e * b) >= (e - j) * ((e - k) * c));
        assert(e * (e * a) >= e * ((e - j) * b));
        assert((e - j) * ((e - k) * c) == e * (e * c) - (j + k) * (e * c) + j * (k * c));
        assert(j * (k * c) >= 0);
        assert(k * (e * c) >= 0);
    }
    assert(e * a <= e * c + (j + 2 * k) * c) by (nonlinear_arith)
        requires
            e * (e * a) <= e * (e * c + (j + 2 * k) * c),
            e > 0,
    ;
    assert(e * c <= e * a + (j + 2 * k) * c) by (nonlinear_arith)
        requires
            e * (e * c) <= e * (e * a + (j + 2 * k) * c),
            e > 0,
    ;
}

/// In single precision a number is moved by no more than one part in 2^24, or 2^-150.
pub proof fn lemma_single_error(n: nat, d: nat)
    requires
        d > 0,
    ensures
        ({
            let r = rounded_units(24, 925, n, d);
            &&& 0x100_0000 * (r * d) <= 0x100_0000 * n + n + d * pow2(948)
            &&& 0x100_0000 * n <= 0x100_0000 * (r * d) + n + d * pow2(948)
        }),
{
    let k = rounding_shift(24, 925, n, d);
    lemma_rounded_range(24, 925, n, d);
    lemma2_to64();
    lemma_pow2_adds(23, k);
    lemma_pow2_adds(23, 925);
    let p = pow2(k);
    let least = pow2(925);
    assert(0x80_0000 * (d * p) == (0x80_0000 * p) * d) by (nonlinear_arith);
    assert(0x80_0000 * (d * least) == d * (0x80_0000 * least)) by (nonlinear_arith);
    assert(0 <= d * pow2(948)) by (nonlinear_arith);
}

/// In single precision a number that is not small is moved by no more than one part in 2^23.
pub proof fn lemma_single_within(n: nat, d: nat)
    requires
        d > 0,
        n >= d * pow2(948),
    ensures
        within((rounded_units(24, 925, n, d) * d) as int, n as int, 0x4000_0000),
{
    lemma_single_error(n, d);
}

} // verus!
