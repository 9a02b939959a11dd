//! Exact rounding of rational numbers to a fixed number of binary digits.
//!
//! Every finite floating-point number is a whole multiple of the smallest positive one. A
//! magnitude is therefore a natural number of those units, and the result of an arithmetic
//! operation is a quotient of two natural numbers, counted in the same units, that still has to
//! be rounded.
use vstd::arithmetic::div_mod::*;
use vstd::arithmetic::mul::*;
use vstd::arithmetic::power2::*;
use vstd::prelude::*;

verus! {

/// The number of binary digits of `n`, none for zero.
pub open spec fn bit_length(n: nat) -> nat
    decreases n,
{
    if n == 0 {
        0
    } else {
        1 + bit_length(n / 2)
    }
}

/// The whole number nearest to `n / d`; the even one of two that are equally near.
pub open spec fn nearest(n: nat, d: nat) -> nat {
    let q = n / d;
    let r = n % d;
    if 2 * r < d || (2 * r == d && q % 2 == 0) {
        q
    } else {
        q + 1
    }
}

/// The power of two, counted in units, on whose multiples `n / d` has to fall when `precision`
/// binary digits are kept and nothing finer than `2^min_shift` units exists.
pub open spec fn rounding_shift(precision: nat, min_shift: nat, n: nat, d: nat) -> nat {
    let digits = bit_length(n / d);
    if digits > precision + min_shift {
        (digits - precision) as nat
    } else {
        min_shift
    }
}

/// `n / d` units, rounded to the nearest multiple of the power of two that `rounding_shift` gives.
pub open spec fn rounded_units(precision: nat, min_shift: nat, n: nat, d: nat) -> nat {
    let k = rounding_shift(precision, min_shift, n, d);
    nearest(n, d * pow2(k)) * pow2(k)
}

pub proof fn lemma_bit_length_bounds(n: nat)
    ensures
        n < pow2(bit_length(n)),
        n > 0 ==> bit_length(n) > 0 && pow2((bit_length(n) - 1) as nat) <= n,
    decreases n,
{
    lemma2_to64();
    if n > 0 {
        lemma_bit_length_bounds(n / 2);
        let l = bit_length(n / 2);
        lemma_pow2_unfold(l + 1);
        if n / 2 > 0 {
            lemma_pow2_unfold(l);
        }
    }
}

/// The number of digits is the only one whose powers of two enclose the number.
pub proof fn lemma_bit_length_unique(n: nat, l: nat)
    requires
        l > 0,
        pow2((l - 1) as nat) <= n < pow2(l),
    ensures
        bit_length(n) == l,
{
    lemma_pow2_pos((l - 1) as nat);
    lemma_bit_length_bounds(n);
    let b = bit_length(n);
    if b < l {
        if b < l - 1 {
            lemma_pow2_strictly_increases(b, (l - 1) as nat);
        }
    } else if b > l {
        if l < b - 1 {
            lemma_pow2_strictly_increases(l, (b - 1) as nat);
        }
    }
}

pub proof fn lemma_pow2_mono(a: nat, b: nat)
    requires
        a <= b,
    ensures
        pow2(a) <= pow2(b),
{
    if a < b {
        lemma_pow2_strictly_increases(a, b);
    }
}

/// Dividing by a power of two drops that many digits.
pub proof fn lemma_bit_length_div(n: nat, b: nat)
    ensures
        bit_length(n / pow2(b)) == if bit_length(n) > b {
            bit_length(n) - b
        } else {
            0
        },
{
    let l = bit_length(n);
    lemma_bit_length_bounds(n);
    lemma_pow2_pos(b);
    if l <= b {
        lemma_pow2_mono(l, b);
        lemma_basic_div(n as int, pow2(b) as int);
    } else {
        let q = n / pow2(b);
        lemma_pow2_adds((l - b) as nat, b);
        lemma_pow2_adds((l - 1 - b) as nat, b);
        lemma_fundamental_div_mod(n as int, pow2(b) as int);
        lemma_mod_bound(n as int, pow2(b) as int);
        let p = pow2(b) as int;
        assert(q < pow2((l - b) as nat)) by (nonlinear_arith)
            requires
                p > 0,
                p * q <= n,
                n < pow2((l - b) as nat) * p,
        ;
        assert(q + 1 > pow2((l - 1 - b) as nat)) by (nonlinear_arith)
            requires
                p > 0,
                p * q + p > n,
                n >= pow2((l - 1 - b) as nat) * p,
        ;
        lemma_bit_length_unique(q, (l - b) as nat);
    }
}

/// A number between `q * 2^a` and `(q + 1) * 2^a` has the digits of `q` and `a` more.
pub proof fn lemma_bit_length_between(q: nat, a: nat, v: nat)
    requires
        q > 0,
        q * pow2(a) <= v < (q + 1) * pow2(a),
    ensures
        bit_length(v) == bit_length(q) + a,
{
    let l = bit_length(q);
    lemma_bit_length_bounds(q);
    lemma_pow2_pos(a);
    lemma_pow2_adds(l, a);
    lemma_pow2_adds((l - 1) as nat, a);
    let p = pow2(a) as int;
    assert((q + 1) * p <= pow2(l) * p) by (nonlinear_arith)
        requires
            p > 0,
            q + 1 <= pow2(l),
    ;
    assert(q * p >= pow2((l - 1) as nat) * p) by (nonlinear_arith)
        requires
            p > 0,
            q >= pow2((l - 1) as nat),
    ;
    assert((l - 1) as nat + a == (l + a - 1) as nat);
    lemma_bit_length_unique(v, l + a);
}

pub proof fn lemma_nearest_by_parts(n: nat, d: nat, q: nat, r: nat)
    requires
        d > 0,
        n == q * d + r,
        r < d,
    ensures
        nearest(n, d) == if 2 * r < d || (2 * r == d && q % 2 == 0) {
            q
        } else {
            q + 1
        },
        n / d == q,
        n % d == r,
{
    lemma_fundamental_div_mod_converse(n as int, d as int, q as int, r as int);
}

/// Numerator and denominator may be multiplied by the same number.
pub proof fn lemma_nearest_scale(n: nat, d: nat, c: nat)
    requires
        d > 0,
        c > 0,
    ensures
        nearest(n * c, d * c) == nearest(n, d),
        (n * c) / (d * c) == n / d,
        d * c > 0,
{
    let q = n / d;
    let r = n % d;
    lemma_fundamental_div_mod(n as int, d as int);
    lemma_mod_bound(n as int, d as int);
    assert(n == d * q + r);
    assert(n * c == q * (d * c) + r * c) by (nonlinear_arith)
        requires
            n == d * q + r,
    ;
    assert(r * c < d * c && d * c > 0 && (2 * r < d <==> 2 * (r * c) < d * c) && (2 * r == d <==> 2
        * (r * c) == d * c)) by (nonlinear_arith)
        requires
            r < d,
            c > 0,
            d > 0,
    ;
    lemma_nearest_by_parts(n * c, d * c, q, r * c);
}

/// Equal quotients have equal floors and equal nearest whole numbers.
pub proof fn lemma_nearest_ratio(n1: nat, d1: nat, n2: nat, d2: nat)
    requires
        d1 > 0,
        d2 > 0,
        n1 * d2 == n2 * d1,
    ensures
        nearest(n1, d1) == nearest(n2, d2),
        n1 / d1 == n2 / d2,
{
    lemma_nearest_scale(n1, d1, d2);
    lemma_nearest_scale(n2, d2, d1);
    assert(d1 * d2 == d2 * d1) by (nonlinear_arith);
}

/// Equal quotients round alike.
pub proof fn lemma_rounded_ratio(
    precision: nat,
    min_shift: nat,
    n1: nat,
    d1: nat,
    n2: nat,
    d2: nat,
)
    requires
        d1 > 0,
        d2 > 0,
        n1 * d2 == n2 * d1,
    ensures
        rounded_units(precision, min_shift, n1, d1) == rounded_units(precision, min_shift, n2, d2),
{
    lemma_nearest_ratio(n1, d1, n2, d2);
    let k = rounding_shift(precision, min_shift, n1, d1);
    let p = pow2(k);
    lemma_pow2_pos(k);
    assert(d1 * p > 0 && d2 * p > 0 && n1 * (d2 * p) == n2 * (d1 * p)) by (nonlinear_arith)
        requires
            d1 > 0,
            d2 > 0,
            p > 0,
            n1 * d2 == n2 * d1,
    ;
    lemma_nearest_ratio(n1, d1 * p, n2, d2 * p);
}

/// Where the floor of `x / y` has digits, the rounding position of `x / y * 2^(a - b)` is found
/// by counting them.
pub proof fn lemma_rounding_shift_scaled(
    precision: nat,
    min_shift: nat,
    x: nat,
    y: nat,
    a: nat,
    b: nat,
)
    requires
        y > 0,
        x / y > 0,
        a == 0 || b == 0,
    ensures
        ({
            let wanted = bit_length(x / y) + a - b - precision;
            rounding_shift(precision, min_shift, x * pow2(a), y * pow2(b)) == if wanted > min_shift {
                wanted
            } else {
                min_shift as int
            }
        }),
        y * pow2(b) > 0,
{
    let q = x / y;
    lemma2_to64();
    lemma_pow2_pos(a);
    lemma_pow2_pos(b);
    assert(y * pow2(b) > 0) by (nonlinear_arith)
        requires
            y > 0,
            pow2(b) > 0,
    ;
    if b == 0 {
        let v = (x * pow2(a)) / y;
        let p = pow2(a) as int;
        lemma_fundamental_div_mod(x as int, y as int);
        lemma_mod_bound(x as int, y as int);
        lemma_fundamental_div_mod((x * pow2(a)) as int, y as int);
        lemma_mod_bound((x * pow2(a)) as int, y as int);
        assert(q * p <= v) by (nonlinear_arith)
            requires
                p > 0,
                y > 0,
                y * q <= x,
                x * p < y * v + y,
        ;
        assert(v < (q + 1) * p) by (nonlinear_arith)
            requires
                p > 0,
                y > 0,
                x < y * q + y,
                y * v <= x * p,
        ;
        lemma_bit_length_between(q, a, v);
        assert(y * pow2(b) == y) by (nonlinear_arith)
            requires
                pow2(b) == 1,
        ;
    } else {
        lemma_div_denominator(x as int, y as int, pow2(b) as int);
        assert(x * pow2(a) == x) by (nonlinear_arith)
            requires
                pow2(a) == 1,
        ;
        lemma_bit_length_div(q, b);
    }
}

/// The nearest whole number of `x / y * 2^(a - b)` over `2^k`, with the powers of two brought
/// together.
pub proof fn lemma_nearest_scaled(x: nat, y: nat, a: nat, b: nat, k: nat)
    requires
        y > 0,
    ensures
        a <= b + k ==> nearest(x * pow2(a), y * pow2(b) * pow2(k)) == nearest(
            x,
            y * pow2((b + k - a) as nat),
        ),
        a >= b + k ==> nearest(x * pow2(a), y * pow2(b) * pow2(k)) == nearest(
            x * pow2((a - b - k) as nat),
            y,
        ),
{
    lemma_pow2_pos(a);
    lemma_pow2_pos(b + k);
    lemma_pow2_adds(b, k);
    lemma_mul_is_associative(y as int, pow2(b) as int, pow2(k) as int);
    if a <= b + k {
        let p = pow2((b + k - a) as nat);
        lemma_pow2_pos((b + k - a) as nat);
        lemma_pow2_adds((b + k - a) as nat, a);
        assert(y * p > 0) by (nonlinear_arith)
            requires
                y > 0,
                p > 0,
        ;
        lemma_nearest_scale(x, y * p, pow2(a));
        lemma_mul_is_associative(y as int, p as int, pow2(a) as int);
    }
    if a >= b + k {
        let p = pow2((a - b - k) as nat);
        lemma_pow2_adds((a - b - k) as nat, b + k);
        lemma_nearest_scale(x * p, y, pow2(b + k));
        lemma_mul_is_associative(x as int, p as int, pow2(b + k) as int);
    }
}

/// A quotient with a remainder rounds as its floor with one more digit, which is set where the
/// remainder is not zero.
pub proof fn lemma_nearest_sticky(x: nat, y: nat, p: nat)
    requires
        y > 0,
        p >= 1,
    ensures
        nearest(x, y * pow2(p)) == nearest(
            2 * (x / y) + if x % y > 0 {
                1nat
            } else {
                0nat
            },
            2 * pow2(p),
        ),
{
    let q = x / y;
    let r = x % y;
    let s = if r > 0 {
        1nat
    } else {
        0nat
    };
    let w = pow2(p);
    lemma_pow2_pos(p);
    lemma_pow2_unfold(p);
    let half = pow2((p - 1) as nat);
    lemma_fundamental_div_mod(x as int, y as int);
    lemma_mod_bound(x as int, y as int);
    let h = q / w;
    let t = q % w;
    lemma_fundamental_div_mod(q as int, w as int);
    lemma_mod_bound(q as int, w as int);
    let rem = t * y + r;
    assert(x == h * (y * w) + rem) by (nonlinear_arith)
        requires
            x == y * q + r,
            q == w * h + t,
            rem == t * y + r,
    ;
    assert(rem < y * w && y * w > 0) by (nonlinear_arith)
        requires
            rem == t * y + r,
            t < w,
            r < y,
            y > 0,
            w > 0,
    ;
    lemma_nearest_by_parts(x, y * w, h, rem);
    assert(2 * q + s == h * (2 * w) + (2 * t + s)) by (nonlinear_arith)
        requires
            q == w * h + t,
    ;
    lemma_nearest_by_parts(2 * q + s, 2 * w, h, 2 * t + s);
    if t < half {
        assert(2 * rem < y * w) by (nonlinear_arith)
            requires
                rem == t * y + r,
                t + 1 <= half,
                w == 2 * half,
                r < y,
        ;
    } else if t == half {
        assert(2 * rem == y * w + 2 * r) by (nonlinear_arith)
            requires
                rem == t * y + r,
                t == half,
                w == 2 * half,
        ;
    } else {
        assert(2 * rem > y * w) by (nonlinear_arith)
            requires
                rem == t * y + r,
                t >= half + 1,
                w == 2 * half,
                y > 0,
        ;
    }
}

/// Keeping two digits more than the precision, and one that stands for the rest, is enough to
/// round correctly.
pub proof fn lemma_rounded_sticky(
    precision: nat,
    min_shift: nat,
    x: nat,
    y: nat,
    a: nat,
    b: nat,
)
    requires
        y > 0,
        a == 0 || b == 0,
        bit_length(x / y) > precision,
    ensures
        ({
            let s = if x % y > 0 {
                1nat
            } else {
                0nat
            };
            rounded_units(precision, min_shift, x * pow2(a), y * pow2(b)) == rounded_units(
                precision,
                min_shift,
                (2 * (x / y) + s) * pow2(a),
                2 * pow2(b),
            )
        }),
{
    let q = x / y;
    let s = if x % y > 0 {
        1nat
    } else {
        0nat
    };
    assert(q > 0);
    let jam = 2 * q + s;
    assert(jam / 2 == q);
    lemma_rounding_shift_scaled(precision, min_shift, x, y, a, b);
    lemma_rounding_shift_scaled(precision, min_shift, jam, 2, a, b);
    let k = rounding_shift(precision, min_shift, x * pow2(a), y * pow2(b));
    assert(b + k - a >= 1);
    let p = (b + k - a) as nat;
    lemma_nearest_scaled(x, y, a, b, k);
    lemma_nearest_scaled(jam, 2, a, b, k);
    lemma_nearest_sticky(x, y, p);
}

/// A quotient that is a whole number is its own nearest.
pub proof fn lemma_nearest_whole(m: nat, d: nat)
    requires
        d > 0,
    ensures
        nearest(m * d, d) == m,
{
    lemma_nearest_by_parts(m * d, d, m, 0);
}

pub proof fn lemma_rounded_zero(precision: nat, min_shift: nat, d: nat)
    requires
        d > 0,
    ensures
        rounded_units(precision, min_shift, 0, d) == 0,
{
    let k = rounding_shift(precision, min_shift, 0, d);
    let w = d * pow2(k);
    lemma_pow2_pos(k);
    assert(w > 0) by (nonlinear_arith)
        requires
            w == d * pow2(k),
            d > 0,
            pow2(k) > 0,
    ;
    lemma_mul_basics(w as int);
    lemma_nearest_by_parts(0, w, 0, 0);
    lemma_mul_basics(pow2(k) as int);
}

/// Rounding is monotone in the quotient.
pub proof fn lemma_nearest_monotone(n1: nat, d1: nat, n2: nat, d2: nat)
    requires
        d1 > 0,
        d2 > 0,
        n1 * d2 <= n2 * d1,
    ensures
        nearest(n1, d1) <= nearest(n2, d2),
        n1 / d1 <= n2 / d2,
{
    lemma_nearest_scale(n1, d1, d2);
    lemma_nearest_scale(n2, d2, d1);
    assert(d1 * d2 == d2 * d1) by (nonlinear_arith);
    let d = d1 * d2;
    let a = n1 * d2;
    let b = n2 * d1;
    lemma_div_is_ordered(a as int, b as int, d as int);
    lemma_fundamental_div_mod(a as int, d as int);
    lemma_fundamental_div_mod(b as int, d as int);
    lemma_mod_bound(a as int, d as int);
    lemma_mod_bound(b as int, d as int);
    if a / d == b / d {
        assert(d * (a / d) == d * (b / d));
    }
}

} // verus!
