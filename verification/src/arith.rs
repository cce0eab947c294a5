//! Exact integer arithmetic shared by the clippers and the rasterizers:
//! division rounded to the nearest integer, division truncated toward zero,
//! and the facts about them that the geometric proofs rest on.

use vstd::prelude::*;
use vstd::arithmetic::div_mod::{lemma_fundamental_div_mod, lemma_fundamental_div_mod_converse, lemma_mod_bound};

verus! {

/// The integer nearest to `n / d` for a positive `d`; a tie goes to the
/// larger neighbour.
pub open spec fn round_div(n: int, d: int) -> int {
    (2 * n + d) / (2 * d)
}

/// The integer nearest to `n / d` for any non-zero `d`.
pub open spec fn round_ratio(n: int, d: int) -> int {
    if d > 0 {
        round_div(n, d)
    } else {
        round_div(-n, -d)
    }
}

/// `n / d` with the fractional part dropped, for a positive `d`.
pub open spec fn trunc_div(n: int, d: int) -> int {
    if n >= 0 {
        n / d
    } else {
        -((-n) / d)
    }
}

/// The magnitude of an integer.
pub open spec fn abs(v: int) -> int {
    if v >= 0 {
        v
    } else {
        -v
    }
}

/// Whether `v` lies between `a` and `b`, whichever of the two is smaller.
pub open spec fn between(a: int, v: int, b: int) -> bool {
    (a <= v <= b) || (b <= v <= a)
}

/// The product of an integer of magnitude at most `ma` and one of magnitude
/// at most `mb` has magnitude at most `ma * mb`.
pub proof fn lemma_product_bound(a: int, ma: int, b: int, mb: int)
    by (nonlinear_arith)
    requires
        -ma <= a <= ma,
        -mb <= b <= mb,
    ensures
        -(ma * mb) <= a * b <= ma * mb,
{
}

/// A quotient is the one integer `q` with `q * d <= x < (q + 1) * d`.
pub proof fn lemma_div_bounds(x: int, d: int)
    requires
        d > 0,
    ensures
        (x / d) * d <= x < (x / d + 1) * d,
{
    lemma_fundamental_div_mod(x, d);
    lemma_mod_bound(x, d);
    assert(d * (x / d) == (x / d) * d) by (nonlinear_arith);
    assert((x / d + 1) * d == (x / d) * d + d) by (nonlinear_arith);
}

/// An integer `q` with `q * d <= x < (q + 1) * d` is the quotient.
pub proof fn lemma_div_unique(x: int, d: int, q: int)
    requires
        d > 0,
        q * d <= x < (q + 1) * d,
    ensures
        x / d == q,
{
    assert((q + 1) * d == q * d + d) by (nonlinear_arith);
    assert(d * q == q * d) by (nonlinear_arith);
    lemma_fundamental_div_mod_converse(x, d, q, x - q * d);
}

/// The rounded quotient `q` is the one integer with
/// `2 * q * d - d <= 2 * n < 2 * q * d + d`.
pub proof fn lemma_round_div_bounds(n: int, d: int)
    requires
        d > 0,
    ensures
        2 * round_div(n, d) * d - d <= 2 * n < 2 * round_div(n, d) * d + d,
{
    let q = round_div(n, d);
    lemma_div_bounds(2 * n + d, 2 * d);
    assert(q * (2 * d) == 2 * q * d) by (nonlinear_arith);
    assert((q + 1) * (2 * d) == 2 * q * d + 2 * d) by (nonlinear_arith);
}

/// An integer within half a unit of `n / d` (the upper half excluded) is the
/// rounded quotient.
pub proof fn lemma_round_div_unique(n: int, d: int, q: int)
    requires
        d > 0,
        2 * q * d - d <= 2 * n < 2 * q * d + d,
    ensures
        round_div(n, d) == q,
{
    assert(q * (2 * d) == 2 * q * d) by (nonlinear_arith);
    assert((q + 1) * (2 * d) == 2 * q * d + 2 * d) by (nonlinear_arith);
    lemma_div_unique(2 * n + d, 2 * d, q);
}

/// A multiple of the divisor is divided exactly.
pub proof fn lemma_round_div_multiple(k: int, d: int)
    requires
        d > 0,
    ensures
        round_div(k * d, d) == k,
{
    assert(2 * (k * d) == 2 * k * d) by (nonlinear_arith);
    lemma_round_div_unique(k * d, d, k);
}

/// Adding a multiple of the divisor to the numerator adds the factor to the
/// rounded quotient.
pub proof fn lemma_round_div_shift(n: int, d: int, k: int)
    requires
        d > 0,
    ensures
        round_div(n + k * d, d) == round_div(n, d) + k,
{
    let q = round_div(n, d);
    lemma_round_div_bounds(n, d);
    assert(2 * (q + k) * d == 2 * q * d + 2 * (k * d)) by (nonlinear_arith);
    lemma_round_div_unique(n + k * d, d, q + k);
}

/// Rounded division is monotone in the numerator.
pub proof fn lemma_round_div_monotone(n1: int, n2: int, d: int)
    requires
        d > 0,
        n1 <= n2,
    ensures
        round_div(n1, d) <= round_div(n2, d),
{
    let q1 = round_div(n1, d);
    let q2 = round_div(n2, d);
    lemma_round_div_bounds(n1, d);
    lemma_round_div_bounds(n2, d);
    assert(q1 <= q2) by (nonlinear_arith)
        requires
            d > 0,
            2 * q1 * d - d <= 2 * n1,
            2 * n2 < 2 * q2 * d + d,
            n1 <= n2,
    {
        if q1 > q2 {
            assert(q1 >= q2 + 1);
            assert(2 * q1 * d >= 2 * (q2 + 1) * d);
            assert(2 * (q2 + 1) * d == 2 * q2 * d + 2 * d);
        }
    }
}

/// The rounded quotient of a numerator between two multiples of the divisor
/// lies between the two factors.
pub proof fn lemma_round_div_between(n: int, d: int, lo: int, hi: int)
    requires
        d > 0,
        lo * d <= n <= hi * d,
    ensures
        lo <= round_div(n, d) <= hi,
{
    lemma_round_div_monotone(lo * d, n, d);
    lemma_round_div_monotone(n, hi * d, d);
    lemma_round_div_multiple(lo, d);
    lemma_round_div_multiple(hi, d);
}

/// Of two fractions the smaller has the smaller rounded quotient, or the
/// same.
pub proof fn lemma_round_div_ordered(a: int, b: int, c: int, d: int)
    requires
        b > 0,
        d > 0,
        a * d <= c * b,
    ensures
        round_div(a, b) <= round_div(c, d),
{
    let p = round_div(a, b);
    let q = round_div(c, d);
    lemma_round_div_bounds(a, b);
    lemma_round_div_bounds(c, d);
    if p > q {
        assert((2 * a) * d >= ((2 * q + 1) * b) * d) by (nonlinear_arith)
            requires
                2 * p * b - b <= 2 * a,
                p >= q + 1,
                b > 0,
                d > 0,
        ;
        assert((2 * c) * b < ((2 * q + 1) * d) * b) by (nonlinear_arith)
            requires
                2 * c < 2 * q * d + d,
                b > 0,
        ;
        assert(((2 * q + 1) * b) * d == ((2 * q + 1) * d) * b) by (nonlinear_arith);
        assert((2 * a) * d == 2 * (a * d) && (2 * c) * b == 2 * (c * b)) by (nonlinear_arith);
    }
}

/// Two fractions of the same value have the same rounded quotient.
pub proof fn lemma_round_div_same_ratio(a: int, b: int, c: int, d: int)
    requires
        b > 0,
        d > 0,
        a * d == c * b,
    ensures
        round_div(a, b) == round_div(c, d),
{
    let q = round_div(a, b);
    lemma_round_div_bounds(a, b);
    assert(2 * q * d - d <= 2 * c < 2 * q * d + d) by (nonlinear_arith)
        requires
            2 * q * b - b <= 2 * a < 2 * q * b + b,
            a * d == c * b,
            b > 0,
            d > 0,
    ;
    lemma_round_div_unique(c, d, q);
}

/// A rounded quotient is no larger in magnitude than its numerator.
pub proof fn lemma_round_div_magnitude(n: int, d: int)
    requires
        d > 0,
    ensures
        -abs(n) <= round_div(n, d) <= abs(n),
{
    let m = abs(n);
    assert((-m) * d <= n <= m * d) by (nonlinear_arith)
        requires
            d >= 1,
            -m <= n <= m,
    ;
    lemma_round_div_between(n, d, -m, m);
}

/// A displacement `v` taken at a parameter `n / d` within `[0, 1]` and
/// rounded lies between zero and `v`.
pub proof fn lemma_round_ratio_between(v: int, n: int, d: int)
    requires
        d != 0,
        between(0, n, d),
    ensures
        between(0, round_ratio(v * n, d), v),
{
    let (nn, dd) = if d > 0 {
        (n, d)
    } else {
        (-n, -d)
    };
    assert(0 <= nn <= dd);
    assert(round_ratio(v * n, d) == round_div(v * nn, dd)) by {
        assert(-(v * n) == v * (-n)) by (nonlinear_arith);
    }
    if v >= 0 {
        assert(0 * dd <= v * nn <= v * dd) by (nonlinear_arith)
            requires
                0 <= nn <= dd,
                v >= 0,
        ;
        lemma_round_div_between(v * nn, dd, 0, v);
    } else {
        assert(v * dd <= v * nn <= 0 * dd) by (nonlinear_arith)
            requires
                0 <= nn <= dd,
                v < 0,
        ;
        lemma_round_div_between(v * nn, dd, v, 0);
    }
}

/// The remainder of a successor: one more than the remainder, or zero where
/// that reaches the divisor.
pub proof fn lemma_successor_mod(m: int, n: int)
    requires
        n > 0,
    ensures
        0 <= m % n < n,
        (m + 1) % n == if m % n + 1 == n {
            0
        } else {
            m % n + 1
        },
{
    lemma_fundamental_div_mod(m, n);
    lemma_mod_bound(m, n);
    let q = m / n;
    let r = m % n;
    assert(q * n == n * q) by (nonlinear_arith);
    if r + 1 == n {
        assert((q + 1) * n == q * n + n) by (nonlinear_arith);
        lemma_fundamental_div_mod_converse(m + 1, n, q + 1, 0);
    } else {
        lemma_fundamental_div_mod_converse(m + 1, n, q, r + 1);
    }
}

/// The truncated quotient times the divisor lies between zero and the
/// numerator and misses the numerator by less than the divisor.
pub proof fn lemma_trunc_div_bounds(n: int, d: int)
    requires
        d > 0,
    ensures
        n >= 0 ==> 0 <= trunc_div(n, d) * d <= n < trunc_div(n, d) * d + d,
        n >= 0 ==> 0 <= trunc_div(n, d) <= n,
        n <= 0 ==> n <= trunc_div(n, d) * d <= 0 && trunc_div(n, d) * d - d < n,
        n <= 0 ==> n <= trunc_div(n, d) <= 0,
{
    if n >= 0 {
        lemma_div_bounds(n, d);
        let q = n / d;
        assert((q + 1) * d == q * d + d) by (nonlinear_arith);
        assert(0 <= q <= n) by (nonlinear_arith)
            requires
                q * d <= n < q * d + d,
                d >= 1,
                n >= 0,
        ;
        assert(0 <= q * d) by (nonlinear_arith)
            requires
                0 <= q,
                d > 0,
        ;
    } else {
        lemma_div_bounds(-n, d);
        let q = (-n) / d;
        assert((q + 1) * d == q * d + d) by (nonlinear_arith);
        assert((-q) * d == -(q * d)) by (nonlinear_arith);
        assert(0 <= q <= -n) by (nonlinear_arith)
            requires
                q * d <= -n < q * d + d,
                d >= 1,
                -n >= 0,
        ;
        assert(0 <= q * d) by (nonlinear_arith)
            requires
                0 <= q,
                d > 0,
        ;
    }
}

/// Truncated division splits over a sum of a multiple of the divisor and a
/// rest of the same sign.
pub proof fn lemma_trunc_div_add(q: int, t: int, d: int)
    requires
        d > 0,
        (q >= 0 && t >= 0) || (q <= 0 && t <= 0),
    ensures
        trunc_div(q * d + t, d) == q + trunc_div(t, d),
{
    if q >= 0 && t >= 0 {
        let u = t / d;
        lemma_div_bounds(t, d);
        assert(q * d >= 0) by (nonlinear_arith)
            requires
                q >= 0,
                d > 0,
        ;
        assert((q + u) * d == q * d + u * d) by (nonlinear_arith);
        assert((q + u + 1) * d == q * d + (u + 1) * d) by (nonlinear_arith);
        lemma_div_unique(q * d + t, d, q + u);
    } else {
        let u = (-t) / d;
        lemma_div_bounds(-t, d);
        assert(q * d <= 0) by (nonlinear_arith)
            requires
                q <= 0,
                d > 0,
        ;
        assert((-q + u) * d == -(q * d) + u * d) by (nonlinear_arith);
        assert((-q + u + 1) * d == -(q * d) + (u + 1) * d) by (nonlinear_arith);
        lemma_div_unique(-(q * d + t), d, -q + u);
        if q * d + t == 0 {
            assert(u * d <= 0);
            assert(u == 0) by (nonlinear_arith)
                requires
                    u * d <= -t,
                    -t < (u + 1) * d,
                    -t <= 0,
                    0 <= -t,
                    d > 0,
            ;
            assert(q == 0) by (nonlinear_arith)
                requires
                    q * d + t == 0,
                    t == 0,
                    d > 0,
            ;
        }
    }
}

/// Two fractions of the same value have the same truncated quotient.
pub proof fn lemma_trunc_div_same_ratio(a: int, b: int, c: int, d: int)
    requires
        b > 0,
        d > 0,
        a * d == c * b,
    ensures
        trunc_div(a, b) == trunc_div(c, d),
{
    if a >= 0 {
        assert(c >= 0) by (nonlinear_arith)
            requires
                a * d == c * b,
                a >= 0,
                b > 0,
                d > 0,
        ;
        let q = a / b;
        lemma_div_bounds(a, b);
        assert(q * d <= c < (q + 1) * d) by (nonlinear_arith)
            requires
                q * b <= a < (q + 1) * b,
                a * d == c * b,
                b > 0,
                d > 0,
        ;
        lemma_div_unique(c, d, q);
    } else {
        assert(c < 0) by (nonlinear_arith)
            requires
                a * d == c * b,
                a < 0,
                b > 0,
                d > 0,
        ;
        let q = (-a) / b;
        lemma_div_bounds(-a, b);
        assert(q * d <= -c < (q + 1) * d) by (nonlinear_arith)
            requires
                q * b <= -a < (q + 1) * b,
                a * d == c * b,
                b > 0,
                d > 0,
        ;
        lemma_div_unique(-c, d, q);
    }
}

/// Rounds `n / d` to the nearest integer.
pub fn div_round(n: i128, d: i128) -> (q: i128)
    requires
        d > 0,
        -0x2000_0000_0000_0000_0000_0000_0000_0000 <= n <= 0x2000_0000_0000_0000_0000_0000_0000_0000,
        d <= 0x2000_0000_0000_0000_0000_0000_0000_0000,
    ensures
        q == round_div(n as int, d as int),
{
    let num: i128 = 2 * n + d;
    let den: i128 = 2 * d;
    if num >= 0 {
        let q: u128 = (num as u128) / (den as u128);
        proof {
            lemma_div_bounds(num as int, den as int);
            assert(q <= num) by (nonlinear_arith)
                requires
                    q * den <= num,
                    den >= 1,
                    q >= 0,
            ;
        }
        q as i128
    } else {
        let m: u128 = (-num) as u128;
        let c: u128 = (m + (den as u128) - 1) / (den as u128);
        proof {
            lemma_div_bounds(m + den - 1, den as int);
            assert((c + 1) * den == c * den + den) by (nonlinear_arith);
            assert(c <= m + den - 1) by (nonlinear_arith)
                requires
                    c * den <= m + den - 1,
                    den >= 1,
                    c >= 0,
            ;
            assert((-c) * den == -(c * den)) by (nonlinear_arith);
            assert((-c + 1) * den == -(c * den) + den) by (nonlinear_arith);
            lemma_div_unique(num as int, den as int, -(c as int));
        }
        -(c as i128)
    }
}

/// Divides `n` by `d`, dropping the fractional part.
pub fn div_trunc(n: i64, d: i64) -> (q: i64)
    requires
        d > 0,
    ensures
        q == trunc_div(n as int, d as int),
{
    if n >= 0 {
        let q: u64 = (n as u64) / (d as u64);
        proof {
            lemma_div_bounds(n as int, d as int);
            assert(q <= n) by (nonlinear_arith)
                requires
                    q * d <= n,
                    d >= 1,
                    q >= 0,
            ;
        }
        q as i64
    } else {
        let m: u64 = (-(n as i128)) as u64;
        let q: u64 = m / (d as u64);
        proof {
            lemma_div_bounds(m as int, d as int);
            assert(q <= m) by (nonlinear_arith)
                requires
                    q * d <= m,
                    d >= 1,
                    q >= 0,
            ;
        }
        (-(q as i128)) as i64
    }
}

/// The product of two numbers below `2^66`, as a high part and a low part
/// of 64 bits: the product is `high * 2^64 + low`.
pub fn mul_wide(a: u128, b: u128) -> (r: (u128, u128))
    requires
        a < 0x4_0000_0000_0000_0000,
        b < 0x4_0000_0000_0000_0000,
    ensures
        r.1 < 0x1_0000_0000_0000_0000,
        r.0 * 0x1_0000_0000_0000_0000 + r.1 == a * b,
{
    let a1: u128 = a / 0x1_0000_0000_0000_0000;
    let a0: u128 = a % 0x1_0000_0000_0000_0000;
    let b1: u128 = b / 0x1_0000_0000_0000_0000;
    let b0: u128 = b % 0x1_0000_0000_0000_0000;
    proof {
        assert(0 <= a0 * b0 <= 0xffff_ffff_ffff_ffff * 0xffff_ffff_ffff_ffff) by (nonlinear_arith)
            requires
                0 <= a0 <= 0xffff_ffff_ffff_ffff,
                0 <= b0 <= 0xffff_ffff_ffff_ffff,
        ;
        assert(0 <= a1 * b0 <= 3 * 0xffff_ffff_ffff_ffff) by (nonlinear_arith)
            requires
                0 <= a1 <= 3,
                0 <= b0 <= 0xffff_ffff_ffff_ffff,
        ;
        assert(0 <= a0 * b1 <= 3 * 0xffff_ffff_ffff_ffff) by (nonlinear_arith)
            requires
                0 <= b1 <= 3,
                0 <= a0 <= 0xffff_ffff_ffff_ffff,
        ;
        assert(0 <= a1 * b1 <= 9) by (nonlinear_arith)
            requires
                0 <= a1 <= 3,
                0 <= b1 <= 3,
        ;
    }
    let low_product: u128 = a0 * b0;
    let low: u128 = low_product % 0x1_0000_0000_0000_0000;
    let carry: u128 = low_product / 0x1_0000_0000_0000_0000;
    let high: u128 = carry + a1 * b0 + a0 * b1 + (a1 * b1) * 0x1_0000_0000_0000_0000;
    proof {
        let w: int = 0x1_0000_0000_0000_0000;
        assert(a * b == (a1 * b1) * (w * w) + (a1 * b0 + a0 * b1) * w + a0 * b0) by (nonlinear_arith)
            requires
                a == a1 * w + a0,
                b == b1 * w + b0,
        ;
        assert(high * w == carry * w + (a1 * b0 + a0 * b1) * w + (a1 * b1) * (w * w))
            by (nonlinear_arith)
            requires
                high == carry + a1 * b0 + a0 * b1 + (a1 * b1) * w,
        ;
    }
    (high, low)
}

/// Whether `a * b < c * d`, for numbers below `2^66`.
pub fn product_lt(a: u128, b: u128, c: u128, d: u128) -> (r: bool)
    requires
        a < 0x4_0000_0000_0000_0000,
        b < 0x4_0000_0000_0000_0000,
        c < 0x4_0000_0000_0000_0000,
        d < 0x4_0000_0000_0000_0000,
    ensures
        r == (a * b < c * d),
{
    let (left_high, left_low) = mul_wide(a, b);
    let (right_high, right_low) = mul_wide(c, d);
    left_high < right_high || (left_high == right_high && left_low < right_low)
}

/// Whether the fraction `an / ad` is smaller than `bn / bd`, for positive
/// denominators and numbers of magnitude below `2^66`.
pub fn fraction_lt(an: i128, ad: i128, bn: i128, bd: i128) -> (r: bool)
    requires
        0 < ad < 0x4_0000_0000_0000_0000,
        0 < bd < 0x4_0000_0000_0000_0000,
        -0x4_0000_0000_0000_0000 < an < 0x4_0000_0000_0000_0000,
        -0x4_0000_0000_0000_0000 < bn < 0x4_0000_0000_0000_0000,
    ensures
        r == (an * bd < bn * ad),
{
    if an >= 0 {
        if bn >= 0 {
            product_lt(an as u128, bd as u128, bn as u128, ad as u128)
        } else {
            proof {
                assert(an * bd >= 0 > bn * ad) by (nonlinear_arith)
                    requires
                        an >= 0,
                        bd > 0,
                        bn < 0,
                        ad > 0,
                ;
            }
            false
        }
    } else {
        if bn >= 0 {
            proof {
                assert(an * bd < 0 <= bn * ad) by (nonlinear_arith)
                    requires
                        an < 0,
                        bd > 0,
                        bn >= 0,
                        ad > 0,
                ;
            }
            true
        } else {
            proof {
                assert((-bn) * ad == -(bn * ad)) by (nonlinear_arith);
                assert((-an) * bd == -(an * bd)) by (nonlinear_arith);
            }
            product_lt((-bn) as u128, ad as u128, (-an) as u128, bd as u128)
        }
    }
}

} // verus!
