//! Estimates of how many access units a run of unframed bytes held.
//!
//! An estimate divides the bytes by the average access-unit length so far in double precision
//! and rounds to the nearest integer. Both divisions are carried out on integers here, to the
//! exact result that binary64 arithmetic gives.

use vstd::arithmetic::power2::{lemma_pow2_adds, lemma_pow2_pos, lemma_pow2_unfold, pow2};
use vstd::prelude::*;

verus! {

/// Average access-unit length assumed before any was framed.
pub const DEFAULT_AU_LEN: u64 = 1024;

/// A positive double: `significand * 2^exponent`.
#[derive(Clone, Copy, PartialEq, Eq, Debug)]
pub struct Double {
    pub significand: u128,
    pub exponent: i128,
}

/// The quotient `p / q` rounded to the nearest integer, ties to even.
pub open spec fn nearest_even(p: nat, q: nat) -> nat {
    let whole = p / q;
    let rest = p % q;
    if 2 * rest < q || (2 * rest == q && whole % 2 == 0) {
        whole
    } else {
        whole + 1
    }
}

/// The double nearest to `(p / q) * 2^e`, ties to even, as significand and exponent: the
/// quotient is scaled by powers of two until it has 53 bits, then rounded to an integer.
pub open spec fn nearest(p: nat, q: nat, e: int) -> (nat, int)
    decreases
            (if p < q * 0x10_0000_0000_0000 {
                q * 0x10_0000_0000_0000 - p
            } else if p >= q * 0x20_0000_0000_0000 {
                p - q * 0x20_0000_0000_0000 + 1
            } else {
                0
            }),
{
    if p == 0 || q == 0 {
        (0, 0)
    } else if p < q * 0x10_0000_0000_0000 {
        nearest(2 * p, q, e - 1)
    } else if p >= q * 0x20_0000_0000_0000 {
        nearest(p, 2 * q, e + 1)
    } else {
        (nearest_even(p, q), e)
    }
}

/// The double nearest to an integer.
pub open spec fn double_of(n: nat) -> (nat, int) {
    nearest(n, 1, 0)
}

/// The double nearest to the quotient of two doubles.
pub open spec fn double_quotient(x: (nat, int), y: (nat, int)) -> (nat, int) {
    nearest(x.0, y.0, x.1 - y.1)
}

/// The integer nearest to a double, ties away from zero.
pub open spec fn rounded(x: (nat, int)) -> nat {
    if x.1 >= 0 {
        x.0 * pow2(x.1 as nat)
    } else {
        (x.0 / pow2((-x.1 - 1) as nat) + 1) / 2
    }
}

/// The average length of the access units framed so far.
pub open spec fn average_len(framed_aus: nat, framed_bytes: nat) -> (nat, int) {
    if framed_aus == 0 {
        double_of(DEFAULT_AU_LEN as nat)
    } else {
        double_quotient(double_of(framed_bytes), double_of(framed_aus))
    }
}

/// The number of access units that `bytes` bytes are taken to hold.
pub open spec fn estimated_aus(bytes: nat, framed_aus: nat, framed_bytes: nat) -> nat {
    rounded(double_quotient(double_of(bytes), average_len(framed_aus, framed_bytes)))
}

/// `x` in units of `2^-k`.
spec fn scaled(x: (nat, int), k: int) -> nat {
    x.0 * pow2((x.1 + k) as nat)
}

/// A rounded quotient is within a factor of two of the exact one.
proof fn lemma_nearest_bounds(p: nat, q: nat, e: int, k: int)
    requires
        p > 0,
        q > 0,
        e + k >= 0,
        nearest(p, q, e).1 + k >= 0,
    ensures
        nearest(p, q, e).0 >= 0x10_0000_0000_0000,
        nearest(p, q, e).0 <= 0x20_0000_0000_0000,
        q * scaled(nearest(p, q, e), k) <= 2 * (p * pow2((e + k) as nat)),
        2 * (q * scaled(nearest(p, q, e), k)) >= p * pow2((e + k) as nat),
    decreases
            (if p < q * 0x10_0000_0000_0000 {
                q * 0x10_0000_0000_0000 - p
            } else if p >= q * 0x20_0000_0000_0000 {
                p - q * 0x20_0000_0000_0000 + 1
            } else {
                0
            }),
{
    let r = nearest(p, q, e);
    if p < q * 0x10_0000_0000_0000 {
        lemma_exponent_falls(2 * p, q, e - 1);
        lemma_nearest_bounds(2 * p, q, e - 1, k);
        lemma_pow2_unfold((e + k) as nat);
        let w = pow2((e - 1 + k) as nat);
        assert((2 * p) * w == p * (2 * w)) by (nonlinear_arith);
    } else if p >= q * 0x20_0000_0000_0000 {
        lemma_nearest_bounds(p, 2 * q, e + 1, k);
        lemma_pow2_unfold((e + 1 + k) as nat);
        let w = pow2((e + k) as nat);
        let s = scaled(r, k);
        assert((2 * q) * s == 2 * (q * s)) by (nonlinear_arith);
        assert(p * (2 * w) == 2 * (p * w)) by (nonlinear_arith);
    } else {
        let m = nearest_even(p, q);
        let w = pow2((e + k) as nat);
        assert(p == q * (p / q) + p % q && p % q < q) by (nonlinear_arith)
            requires
                q > 0,
        ;
        assert(q * m <= p + q) by (nonlinear_arith)
            requires
                m <= p / q + 1,
                p >= q * (p / q),
                q > 0,
        ;
        assert(q * m > p - q) by (nonlinear_arith)
            requires
                m >= p / q,
                p < q * (p / q) + q,
                q > 0,
        ;
        assert(q * (m * w) <= 2 * (p * w)) by (nonlinear_arith)
            requires
                q * m <= 2 * p,
                w >= 0,
        ;
        assert(2 * (q * (m * w)) >= p * w) by (nonlinear_arith)
            requires
                2 * (q * m) >= p,
                w >= 0,
        ;
        assert(m >= 0x10_0000_0000_0000) by {
            assert(p / q >= 0x10_0000_0000_0000 as nat) by (nonlinear_arith)
                requires
                    p >= q * 0x10_0000_0000_0000,
                    q > 0,
            ;
        }
        assert(m <= 0x20_0000_0000_0000) by {
            assert(p / q < 0x20_0000_0000_0000) by (nonlinear_arith)
                requires
                    p < q * 0x20_0000_0000_0000,
                    q > 0,
            ;
        }
    }
}

/// While a quotient is being scaled up its exponent only falls.
proof fn lemma_exponent_falls(p: nat, q: nat, e: int)
    requires
        p > 0,
        q > 0,
        p < q * 0x20_0000_0000_0000,
    ensures
        nearest(p, q, e).1 <= e,
    decreases
            (if p < q * 0x10_0000_0000_0000 {
                q * 0x10_0000_0000_0000 - p
            } else {
                0
            }),
{
    if p < q * 0x10_0000_0000_0000 {
        lemma_exponent_falls(2 * p, q, e - 1);
    }
}

/// `double_quotient` bounds in fixed point: numerator, denominator and result all scaled alike.
proof fn lemma_quotient_bounds(x: (nat, int), y: (nat, int), k: int)
    requires
        x.0 > 0,
        y.0 > 0,
        x.1 + k >= 0,
        y.1 + k >= 0,
        x.1 - y.1 + k >= 0,
        k >= 0,
        double_quotient(x, y).1 + k >= 0,
    ensures
        scaled(y, k) * scaled(double_quotient(x, y), k) <= 2 * (scaled(x, k) * pow2(k as nat)),
        2 * (scaled(y, k) * scaled(double_quotient(x, y), k)) >= scaled(x, k) * pow2(k as nat),
        double_quotient(x, y).0 > 0,
{
    let r = double_quotient(x, y);
    let one = pow2(k as nat);
    let wx = pow2((x.1 + k) as nat);
    let wy = pow2((y.1 + k) as nat);
    let wd = pow2((x.1 - y.1 + k) as nat);
    let s = scaled(r, k);
    lemma_nearest_bounds(x.0, y.0, x.1 - y.1, k);
    lemma_pow2_adds((x.1 - y.1 + k) as nat, (y.1 + k) as nat);
    lemma_pow2_adds((x.1 + k) as nat, k as nat);
    assert(wd * wy == wx * one);
    assert(y.0 * wy * s <= 2 * (x.0 * wx * one)) by (nonlinear_arith)
        requires
            y.0 * s <= 2 * (x.0 * wd),
            wd * wy == wx * one,
            wy >= 0,
    ;
    assert(2 * (y.0 * wy * s) >= x.0 * wx * one) by (nonlinear_arith)
        requires
            2 * (y.0 * s) >= x.0 * wd,
            wd * wy == wx * one,
            wy >= 0,
    ;
}

spec fn magnitude(e: int) -> int {
    if e < 0 {
        -e
    } else {
        e
    }
}

/// The quotient behind an estimate is at most four times the byte count.
proof fn lemma_estimate_quotient(bytes: nat, framed_aus: nat, framed_bytes: nat, k: int)
    requires
        bytes > 0,
        framed_bytes >= 8 * framed_aus,
        ({
            let b = double_of(framed_bytes);
            let a = double_of(framed_aus);
            let v = average_len(framed_aus, framed_bytes);
            let x = double_of(bytes);
            let w = double_quotient(x, v);
            k == 1 + 2 * magnitude(b.1) + 2 * magnitude(a.1) + 2 * magnitude(v.1) + 2 * magnitude(
                x.1,
            ) + magnitude(w.1)
        }),
    ensures
        scaled(double_quotient(double_of(bytes), average_len(framed_aus, framed_bytes)), k) <= 4 * (
        bytes * pow2(k as nat)),
        average_len(framed_aus, framed_bytes).0 > 0,
        double_of(bytes).0 > 0,
{
    let one = pow2(k as nat);
    lemma_pow2_pos(k as nat);
    let v = average_len(framed_aus, framed_bytes);
    let sv = scaled(v, k);
    if framed_aus == 0 {
        lemma_nearest_bounds(DEFAULT_AU_LEN as nat, 1, 0, k);
        assert(sv >= one);
    } else {
        let b = double_of(framed_bytes);
        let a = double_of(framed_aus);
        lemma_nearest_bounds(framed_bytes, 1, 0, k);
        lemma_nearest_bounds(framed_aus, 1, 0, k);
        lemma_quotient_bounds(b, a, k);
        let sa = scaled(a, k);
        let sb = scaled(b, k);
        assert(sb >= 4 * (framed_aus * one)) by (nonlinear_arith)
            requires
                2 * sb >= framed_bytes * one,
                framed_bytes >= 8 * framed_aus,
                one > 0,
        ;
        let u = framed_aus * one;
        assert(u > 0) by (nonlinear_arith)
            requires
                framed_aus > 0,
                one > 0,
                u == framed_aus * one,
        ;
        assert(sb * one >= 4 * (u * one)) by (nonlinear_arith)
            requires
                sb >= 4 * u,
                one > 0,
        ;
        assert(sa * sv <= 2 * (u * sv)) by (nonlinear_arith)
            requires
                sa <= 2 * u,
                sv >= 0,
        ;
        assert(sv >= one) by (nonlinear_arith)
            requires
                u * sv >= u * one,
                u > 0,
        ;
    }
    let x = double_of(bytes);
    let w = double_quotient(x, v);
    lemma_nearest_bounds(bytes, 1, 0, k);
    lemma_quotient_bounds(x, v, k);
    let sw = scaled(w, k);
    let sx = scaled(x, k);
    let u = bytes * one;
    assert(one * sw <= sv * sw) by (nonlinear_arith)
        requires
            sv >= one,
            sw >= 0,
    ;
    assert(sx * one <= 2 * (u * one)) by (nonlinear_arith)
        requires
            sx <= 2 * u,
            one > 0,
    ;
    assert(sw <= 4 * u) by (nonlinear_arith)
        requires
            one * sw <= 2 * (2 * (u * one)),
            one > 0,
    ;
}

/// An estimate is at most four times the byte count.
pub proof fn lemma_estimate_bound(bytes: nat, framed_aus: nat, framed_bytes: nat)
    requires
        bytes > 0,
        framed_bytes >= 8 * framed_aus,
    ensures
        estimated_aus(bytes, framed_aus, framed_bytes) <= 4 * bytes,
{
    let b = double_of(framed_bytes);
    let a = double_of(framed_aus);
    let v = average_len(framed_aus, framed_bytes);
    let x = double_of(bytes);
    let w = double_quotient(x, v);
    let k = 1 + 2 * magnitude(b.1) + 2 * magnitude(a.1) + 2 * magnitude(v.1) + 2 * magnitude(x.1)
        + magnitude(w.1);
    lemma_estimate_quotient(bytes, framed_aus, framed_bytes, k);
    lemma_pow2_pos(k as nat);
    if w.1 >= 0 {
        let r = pow2(w.1 as nat);
        let one = pow2(k as nat);
        lemma_pow2_adds(w.1 as nat, k as nat);
        assert(w.0 * r <= 4 * bytes) by (nonlinear_arith)
            requires
                w.0 * (r * one) <= 4 * (bytes * one),
                one > 0,
        ;
    } else {
        let t = (-w.1 - 1) as nat;
        let d = pow2(t);
        let low = pow2((w.1 + k) as nat);
        lemma_pow2_pos(t);
        lemma_pow2_pos((w.1 + k) as nat);
        lemma_pow2_adds((w.1 + k) as nat, (t + 1) as nat);
        lemma_pow2_unfold((t + 1) as nat);
        assert(w.0 <= 8 * bytes * d) by (nonlinear_arith)
            requires
                w.0 * low <= 4 * (bytes * (low * (2 * d))),
                low > 0,
        ;
        assert(w.0 / d <= 8 * bytes) by (nonlinear_arith)
            requires
                w.0 <= 8 * bytes * d,
                d > 0,
        ;
    }
}

impl Double {
    /// Significand and exponent.
    pub open spec fn parts(self) -> (nat, int) {
        (self.significand as nat, self.exponent as int)
    }
}

/// The double nearest to `(p / q) * 2^e`.
fn nearest_double(p: u128, q: u128, e: i128) -> (r: Double)
    requires
        1 <= p <= 0x1_0000_0000_0000_0000,
        1 <= q <= 0x20_0000_0000_0000,
        -0x10_0000_0000_0000_0000_0000_0000_0000 <= e,
        e <= 0x10_0000_0000_0000_0000_0000_0000_0000,
    ensures
        r.parts() == nearest(p as nat, q as nat, e as int),
        e - 0x1000_0000_0000_0000_0000_0000_0000 <= r.exponent <= e
            + 0x1000_0000_0000_0000_0000_0000_0000,
        0x10_0000_0000_0000 <= r.significand <= 0x20_0000_0000_0000,
{
    let mut num: u128 = p;
    let mut den: u128 = q;
    let mut exp: i128 = e;
    while num < den * 0x10_0000_0000_0000
        invariant
            1 <= num,
            1 <= den <= 0x20_0000_0000_0000,
            den == q,
            num <= 0x1_0000_0000_0000_0000 || num < den * 0x20_0000_0000_0000,
            e - exp < num,
            exp <= e,
            -0x10_0000_0000_0000_0000_0000_0000_0000 <= e,
            nearest(num as nat, den as nat, exp as int) == nearest(p as nat, q as nat, e as int),
        decreases den * 0x20_0000_0000_0000 - num,
    {
        num = num * 2;
        exp = exp - 1;
    }
    let ghost start = exp;
    while num >= den * (0x20_0000_0000_0000)
        invariant
            1 <= num,
            1 <= den,
            den * 0x10_0000_0000_0000 <= num,
            num <= 0x1_0000_0000_0000_0000 || (num < den * 0x20_0000_0000_0000 && den == q),
            den <= 0x20_0000_0000_0000,
            start <= e,
            e - start <= 0x1000_0000_0000_0000_0000_0000_0000,
            exp - start < den,
            start <= exp,
            -0x10_0000_0000_0000_0000_0000_0000_0000 <= e,
            e <= 0x10_0000_0000_0000_0000_0000_0000_0000,
            nearest(num as nat, den as nat, exp as int) == nearest(p as nat, q as nat, e as int),
        decreases num - den,
    {
        den = den * 2;
        exp = exp + 1;
    }
    let whole: u128 = num / den;
    let rest: u128 = num % den;
    proof {
        assert(0x10_0000_0000_0000 <= whole < 0x20_0000_0000_0000) by (nonlinear_arith)
            requires
                whole == num / den,
                den * 0x10_0000_0000_0000 <= num < den * (0x20_0000_0000_0000),
                den > 0,
        ;
    }
    let up: bool = !(2 * rest < den || (2 * rest == den && whole % 2 == 0));
    Double { significand: if up { whole + 1 } else { whole }, exponent: exp }
}

/// The integer nearest to a double, ties away from zero.
fn round(x: Double, Ghost(limit): Ghost<nat>) -> (r: u128)
    requires
        rounded(x.parts()) <= limit,
        limit <= 0xFFFF_FFFF_FFFF_FFFF_FFFF,
        1 <= x.significand <= 0x20_0000_0000_0000,
        x.exponent > -0x1000_0000_0000_0000_0000_0000_0000_0000,
    ensures
        r == rounded(x.parts()),
{
    let mut m: u128 = x.significand;
    if x.exponent >= 0 {
        let mut left: i128 = x.exponent;
        while left > 0
            invariant
                left >= 0,
                m * pow2(left as nat) == rounded(x.parts()),
                rounded(x.parts()) <= limit,
                limit <= 0xFFFF_FFFF_FFFF_FFFF_FFFF,
            decreases left,
        {
            proof {
                lemma_pow2_unfold(left as nat);
                let w = pow2((left - 1) as nat);
                lemma_pow2_pos((left - 1) as nat);
                assert(m * (2 * w) == (2 * m) * w) by (nonlinear_arith);
                assert(2 * m <= (2 * m) * w) by (nonlinear_arith)
                    requires
                        w >= 1,
                        m >= 0,
                ;
            }
            m = m * 2;
            left = left - 1;
        }
        proof {
            assert(pow2(0) == 1) by {
                vstd::arithmetic::power2::lemma2_to64();
            }
            assert(m * pow2(0) == m) by (nonlinear_arith)
                requires
                    pow2(0) == 1,
            ;
        }
        m
    } else {
        let mut left: i128 = -x.exponent - 1;
        let ghost target = x.significand as nat / pow2((-x.exponent - 1) as nat);
        while left > 0
            invariant
                left >= 0,
                m as nat / pow2(left as nat) == target,
                m <= 0x20_0000_0000_0000,
            decreases left,
        {
            proof {
                lemma_pow2_unfold(left as nat);
                lemma_pow2_pos((left - 1) as nat);
                vstd::arithmetic::div_mod::lemma_div_denominator(
                    m as int,
                    2,
                    pow2((left - 1) as nat) as int,
                );
            }
            m = m / 2;
            left = left - 1;
        }
        proof {
            assert(pow2(0) == 1) by {
                vstd::arithmetic::power2::lemma2_to64();
            }
            assert(m as nat / pow2(0) == m) by (nonlinear_arith)
                requires
                    pow2(0) == 1,
            ;
        }
        (m + 1) / 2
    }
}

/// Estimates how many access units `bytes` bytes held, from the average length of those framed
/// so far: the double-precision quotient, rounded to the nearest integer.
pub fn estimate_aus(bytes: u64, framed_aus: u64, framed_bytes: u64) -> (n: u64)
    requires
        0 < bytes <= 0x1000_0000_0000_0000,
        framed_bytes >= 8 * framed_aus,
    ensures
        n == estimated_aus(bytes as nat, framed_aus as nat, framed_bytes as nat),
        n <= 4 * bytes,
{
    let average: Double = if framed_aus == 0 {
        nearest_double(DEFAULT_AU_LEN as u128, 1, 0)
    } else {
        let total: Double = nearest_double(framed_bytes as u128, 1, 0);
        let count: Double = nearest_double(framed_aus as u128, 1, 0);
        nearest_double(total.significand, count.significand, total.exponent - count.exponent)
    };
    let length: Double = nearest_double(bytes as u128, 1, 0);
    let quotient: Double = nearest_double(
        length.significand,
        average.significand,
        length.exponent - average.exponent,
    );
    proof {
        lemma_estimate_bound(bytes as nat, framed_aus as nat, framed_bytes as nat);
    }
    round(quotient, Ghost(4 * bytes as nat)) as u64
}

/// A rounded quotient is off by at most half a unit in the last of 53 places.
proof fn lemma_nearest_close(p: nat, q: nat, e: int, k: int)
    requires
        p > 0,
        q > 0,
        e + k >= 0,
        nearest(p, q, e).1 + k >= 0,
    ensures
        ({
            let got = q * scaled(nearest(p, q, e), k);
            let exact = p * pow2((e + k) as nat);
            &&& 0x20_0000_0000_0000 * (got - exact) <= got
            &&& 0x20_0000_0000_0000 * (exact - got) <= got
        }),
    decreases
            (if p < q * 0x10_0000_0000_0000 {
                q * 0x10_0000_0000_0000 - p
            } else if p >= q * 0x20_0000_0000_0000 {
                p - q * 0x20_0000_0000_0000 + 1
            } else {
                0
            }),
{
    let r = nearest(p, q, e);
    let s = scaled(r, k);
    if p < q * 0x10_0000_0000_0000 {
        lemma_exponent_falls(2 * p, q, e - 1);
        lemma_nearest_close(2 * p, q, e - 1, k);
        lemma_pow2_unfold((e + k) as nat);
        let w = pow2((e - 1 + k) as nat);
        assert((2 * p) * w == p * (2 * w)) by (nonlinear_arith);
    } else if p >= q * 0x20_0000_0000_0000 {
        lemma_nearest_close(p, 2 * q, e + 1, k);
        lemma_pow2_unfold((e + 1 + k) as nat);
        let w = pow2((e + k) as nat);
        assert((2 * q) * s == 2 * (q * s)) by (nonlinear_arith);
        assert(p * (2 * w) == 2 * (p * w)) by (nonlinear_arith);
    } else {
        let m = nearest_even(p, q);
        let whole = p / q;
        let rest = p % q;
        let w = pow2((e + k) as nat);
        assert(p == q * whole + rest && rest < q) by (nonlinear_arith)
            requires
                q > 0,
                whole == p / q,
                rest == p % q,
        ;
        assert(q * (whole + 1) == q * whole + q) by (nonlinear_arith);
        assert(2 * (q * m - p) <= q && 2 * (p - q * m) <= q);
        assert(whole >= 0x10_0000_0000_0000 as nat) by (nonlinear_arith)
            requires
                whole == p / q,
                p >= q * 0x10_0000_0000_0000,
                q > 0,
        ;
        assert(q * m >= q * 0x10_0000_0000_0000) by (nonlinear_arith)
            requires
                m >= 0x10_0000_0000_0000,
                q > 0,
        ;
        let got = q * m;
        assert(0x20_0000_0000_0000 * (got - p) <= got);
        assert(0x20_0000_0000_0000 * (p - got) <= got);
        assert(q * (m * w) == got * w) by (nonlinear_arith)
            requires
                got == q * m,
        ;
        assert(0x20_0000_0000_0000 * (got * w - p * w) <= got * w) by (nonlinear_arith)
            requires
                0x20_0000_0000_0000 * (got - p) <= got,
                w >= 0,
        ;
        assert(0x20_0000_0000_0000 * (p * w - got * w) <= got * w) by (nonlinear_arith)
            requires
                0x20_0000_0000_0000 * (p - got) <= got,
                w >= 0,
        ;
    }
}

/// An integer of up to 53 bits is a double.
proof fn lemma_integer_exact(n: nat, e: int, k: int)
    requires
        0 < n < 0x20_0000_0000_0000,
        e + k >= 0,
        nearest(n, 1, e).1 + k >= 0,
    ensures
        scaled(nearest(n, 1, e), k) == n * pow2((e + k) as nat),
        nearest(n, 1, e).0 > 0,
    decreases 0x20_0000_0000_0000 - n,
{
    if n < 0x10_0000_0000_0000 {
        lemma_exponent_falls(2 * n, 1, e - 1);
        lemma_integer_exact(2 * n, e - 1, k);
        lemma_pow2_unfold((e + k) as nat);
        let w = pow2((e - 1 + k) as nat);
        assert((2 * n) * w == n * (2 * w)) by (nonlinear_arith);
    } else {
        assert(n / 1 == n && n % 1 == 0);
    }
}

/// So is a quotient of doubles.
proof fn lemma_quotient_close(x: (nat, int), y: (nat, int), k: int)
    requires
        x.0 > 0,
        y.0 > 0,
        x.1 + k >= 0,
        y.1 + k >= 0,
        x.1 - y.1 + k >= 0,
        k >= 0,
        double_quotient(x, y).1 + k >= 0,
    ensures
        ({
            let got = scaled(y, k) * scaled(double_quotient(x, y), k);
            let exact = scaled(x, k) * pow2(k as nat);
            &&& 0x20_0000_0000_0000 * (got - exact) <= got
            &&& 0x20_0000_0000_0000 * (exact - got) <= got
        }),
{
    let r = double_quotient(x, y);
    let one = pow2(k as nat);
    let wx = pow2((x.1 + k) as nat);
    let wy = pow2((y.1 + k) as nat);
    let wd = pow2((x.1 - y.1 + k) as nat);
    let s = scaled(r, k);
    lemma_nearest_close(x.0, y.0, x.1 - y.1, k);
    lemma_pow2_adds((x.1 - y.1 + k) as nat, (y.1 + k) as nat);
    lemma_pow2_adds((x.1 + k) as nat, k as nat);
    assert(wd * wy == wx * one);
    let got = y.0 * s;
    let exact = x.0 * wd;
    assert(y.0 * wy * s == got * wy) by (nonlinear_arith)
        requires
            got == y.0 * s,
    ;
    assert(x.0 * wx * one == exact * wy) by (nonlinear_arith)
        requires
            exact == x.0 * wd,
            wd * wy == wx * one,
    ;
    assert(0x20_0000_0000_0000 * (got * wy - exact * wy) <= got * wy) by (nonlinear_arith)
        requires
            0x20_0000_0000_0000 * (got - exact) <= got,
            wy >= 0,
    ;
    assert(0x20_0000_0000_0000 * (exact * wy - got * wy) <= got * wy) by (nonlinear_arith)
        requires
            0x20_0000_0000_0000 * (exact - got) <= got,
            wy >= 0,
    ;
}

/// Rounding to an integer is off by at most one half.
proof fn lemma_rounded_close(x: (nat, int), k: int)
    requires
        x.1 + k >= 0,
        k >= 0,
    ensures
        ({
            let n = rounded(x) * pow2(k as nat);
            &&& 2 * (n - scaled(x, k)) <= pow2(k as nat)
            &&& 2 * (scaled(x, k) - n) <= pow2(k as nat)
        }),
{
    let one = pow2(k as nat);
    lemma_pow2_pos(k as nat);
    if x.1 >= 0 {
        let r = pow2(x.1 as nat);
        lemma_pow2_adds(x.1 as nat, k as nat);
        assert((x.0 * r) * one == x.0 * (r * one)) by (nonlinear_arith);
    } else {
        let t = (-x.1 - 1) as nat;
        let d = pow2(t);
        let low = pow2((x.1 + k) as nat);
        lemma_pow2_pos(t);
        lemma_pow2_adds((x.1 + k) as nat, (t + 1) as nat);
        lemma_pow2_unfold((t + 1) as nat);
        assert(one == low * (2 * d));
        let h = x.0 / d;
        let rest = x.0 % d;
        assert(x.0 == d * h + rest && rest < d) by (nonlinear_arith)
            requires
                d > 0,
                h == x.0 / d,
                rest == x.0 % d,
        ;
        let n = (h + 1) / 2;
        assert(h <= 2 * n <= h + 1);
        // In units of `low` the double is x.0, and n stands for 2 * d * n.
        assert(d * (2 * n) >= d * h && d * (2 * n) <= d * h + d) by (nonlinear_arith)
            requires
                h <= 2 * n <= h + 1,
                d > 0,
        ;
        let u = d * (2 * n);
        assert(u - x.0 <= d && x.0 - u <= d);
        assert(n * (low * (2 * d)) == low * u) by (nonlinear_arith)
            requires
                u == d * (2 * n),
        ;
        assert(2 * (low * u - x.0 * low) <= low * (2 * d)) by (nonlinear_arith)
            requires
                u - x.0 <= d,
                low >= 0,
        ;
        assert(2 * (x.0 * low - low * u) <= low * (2 * d)) by (nonlinear_arith)
            requires
                x.0 - u <= d,
                low >= 0,
        ;
    }
}

/// The average as a double, in fixed point.
proof fn lemma_average_close(framed_aus: nat, framed_bytes: nat, k: int)
    requires
        framed_aus < 0x20_0000_0000_0000,
        framed_bytes < 0x20_0000_0000_0000,
        framed_bytes >= 8 * framed_aus,
        ({
            let b = double_of(framed_bytes);
            let a = double_of(framed_aus);
            let v = average_len(framed_aus, framed_bytes);
            k >= 1 + 2 * magnitude(b.1) + 2 * magnitude(a.1) + 2 * magnitude(v.1)
        }),
    ensures
        ({
            let (count, length) = if framed_aus == 0 {
                (1nat, 1024nat)
            } else {
                (framed_aus, framed_bytes)
            };
            let got = count * scaled(average_len(framed_aus, framed_bytes), k);
            let exact = length * pow2(k as nat);
            &&& 0x20_0000_0000_0000 * (got - exact) <= got
            &&& 0x20_0000_0000_0000 * (exact - got) <= got
        }),
{
    let one = pow2(k as nat);
    lemma_pow2_pos(k as nat);
    if framed_aus == 0 {
        lemma_integer_exact(1024, 0, k);
        let v = scaled(average_len(framed_aus, framed_bytes), k);
        assert(v == 1024 * one);
        assert(1 * v == v) by (nonlinear_arith);
    } else {
        let b = double_of(framed_bytes);
        let a = double_of(framed_aus);
        let v = scaled(average_len(framed_aus, framed_bytes), k);
        lemma_integer_exact(framed_bytes, 0, k);
        lemma_integer_exact(framed_aus, 0, k);
        lemma_quotient_close(b, a, k);
        let got = framed_aus * v;
        let exact = framed_bytes * one;
        assert((framed_aus * one) * v == got * one) by (nonlinear_arith)
            requires
                got == framed_aus * v,
        ;
        assert(0x20_0000_0000_0000 * (got * one - exact * one) <= got * one);
        assert(0x20_0000_0000_0000 * (got - exact) <= got) by (nonlinear_arith)
            requires
                0x20_0000_0000_0000 * (got * one - exact * one) <= got * one,
                one > 0,
        ;
        assert(0x20_0000_0000_0000 * (exact - got) <= got) by (nonlinear_arith)
            requires
                0x20_0000_0000_0000 * (exact * one - got * one) <= got * one,
                one > 0,
        ;
    }
}

/// An estimate is the quotient of the bytes by the average length so far (1024 bytes before any
/// access unit was framed), to within one half and the precision of a double: it takes up as many
/// bytes as there are, but for half an average length and one part in 2^51.
pub proof fn law_estimate(bytes: nat, framed_aus: nat, framed_bytes: nat)
    requires
        0 < bytes < 0x20_0000_0000_0000,
        framed_bytes < 0x20_0000_0000_0000,
        framed_bytes >= 8 * framed_aus,
    ensures
        ({
            let n = estimated_aus(bytes, framed_aus, framed_bytes);
            let (count, length) = if framed_aus == 0 {
                (1nat, 1024nat)
            } else {
                (framed_aus, framed_bytes)
            };
            &&& 0x4_0000_0000_0000 * (2 * (n * length) - 2 * (bytes * count) - length) <= bytes
                * count
            &&& 0x4_0000_0000_0000 * (2 * (bytes * count) - 2 * (n * length) - length) <= bytes
                * count
        }),
{
    let b = double_of(framed_bytes);
    let a = double_of(framed_aus);
    let v = average_len(framed_aus, framed_bytes);
    let x = double_of(bytes);
    let w = double_quotient(x, v);
    let k = 1 + 2 * magnitude(b.1) + 2 * magnitude(a.1) + 2 * magnitude(v.1) + 2 * magnitude(x.1)
        + magnitude(w.1);
    let (count, length) = if framed_aus == 0 {
        (1nat, 1024nat)
    } else {
        (framed_aus, framed_bytes)
    };
    let one = pow2(k as nat);
    lemma_pow2_pos(k as nat);
    lemma_average_close(framed_aus, framed_bytes, k);
    lemma_integer_exact(bytes, 0, k);
    lemma_estimate_quotient(bytes, framed_aus, framed_bytes, k);
    lemma_quotient_close(x, v, k);
    lemma_rounded_close(w, k);
    let sv = scaled(v, k);
    let sw = scaled(w, k);
    let n = estimated_aus(bytes, framed_aus, framed_bytes);
    lemma_close(count, length, bytes, sv, sw, n, one);
}

/// The errors of average, quotient and rounding put together.
proof fn lemma_close(
    count: nat,
    length: nat,
    bytes: nat,
    sv: nat,
    sw: nat,
    n: nat,
    one: nat,
)
    requires
        one > 0,
        0x20_0000_0000_0000 * (count * sv - length * one) <= count * sv,
        0x20_0000_0000_0000 * (length * one - count * sv) <= count * sv,
        0x20_0000_0000_0000 * (sv * sw - (bytes * one) * one) <= sv * sw,
        0x20_0000_0000_0000 * ((bytes * one) * one - sv * sw) <= sv * sw,
        2 * (n * one - sw) <= one,
        2 * (sw - n * one) <= one,
    ensures
        0x4_0000_0000_0000 * (2 * (n * length) - 2 * (bytes * count) - length) <= bytes * count,
        0x4_0000_0000_0000 * (2 * (bytes * count) - 2 * (n * length) - length) <= bytes * count,
{
    let t: int = 0x20_0000_0000_0000;
    // Everything over the common denominator.
    let all = (count * sv) * sw;
    let lw = (length * sw) * one;
    let bc = (bytes * count) * one * one;
    let f = count * sv;
    let g = length * one;
    assert(lw == g * sw) by (nonlinear_arith)
        requires
            lw == (length * sw) * one,
            g == length * one,
    ;
    assert(t * (f * sw - g * sw) <= f * sw) by (nonlinear_arith)
        requires
            t * (f - g) <= f,
            sw >= 0,
    ;
    assert(t * (g * sw - f * sw) <= f * sw) by (nonlinear_arith)
        requires
            t * (g - f) <= f,
            sw >= 0,
    ;
    let y = sv * sw;
    let z = (bytes * one) * one;
    assert(all == count * y) by (nonlinear_arith)
        requires
            all == (count * sv) * sw,
            y == sv * sw,
    ;
    assert(bc == count * z) by (nonlinear_arith)
        requires
            bc == (bytes * count) * one * one,
            z == (bytes * one) * one,
    ;
    assert(t * (count * y - count * z) <= count * y) by (nonlinear_arith)
        requires
            t * (y - z) <= y,
            count >= 0,
    ;
    assert(t * (count * z - count * y) <= count * y) by (nonlinear_arith)
        requires
            t * (z - y) <= y,
            count >= 0,
    ;
    assert(all <= 2 * bc);
    assert(t * (lw - bc) <= 4 * bc && t * (bc - lw) <= 4 * bc);
    let l = length * sw;
    let c = (bytes * count) * one;
    assert(t * (l - c) <= 4 * c && t * (c - l) <= 4 * c) by (nonlinear_arith)
        requires
            t * (lw - bc) <= 4 * bc,
            t * (bc - lw) <= 4 * bc,
            lw == l * one,
            bc == c * one,
            one > 0,
    ;
    let m = (n * length) * one;
    let h = length * one;
    let no = n * one;
    assert(m == no * length) by (nonlinear_arith)
        requires
            m == (n * length) * one,
            no == n * one,
    ;
    assert(l == sw * length && h == one * length) by (nonlinear_arith)
        requires
            l == length * sw,
            h == length * one,
    ;
    assert(2 * (no * length - sw * length) <= one * length) by (nonlinear_arith)
        requires
            2 * (no - sw) <= one,
            length >= 0,
    ;
    assert(2 * (sw * length - no * length) <= one * length) by (nonlinear_arith)
        requires
            2 * (sw - no) <= one,
            length >= 0,
    ;
    let u: int = 0x4_0000_0000_0000;
    assert(u * (2 * m - 2 * c - h) <= c);
    assert(u * (2 * c - 2 * m - h) <= c);
    let nl = n * length;
    let d = bytes * count;
    assert(u * (2 * nl - 2 * d - length) <= d) by (nonlinear_arith)
        requires
            u * (2 * m - 2 * c - h) <= c,
            m == nl * one,
            c == d * one,
            h == length * one,
            one > 0,
    ;
    assert(u * (2 * d - 2 * nl - length) <= d) by (nonlinear_arith)
        requires
            u * (2 * c - 2 * m - h) <= c,
            m == nl * one,
            c == d * one,
            h == length * one,
            one > 0,
    ;
}

} // verus!
