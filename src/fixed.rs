//! Fixed-point scalar arithmetic.
//!
//! Every length, coordinate and coefficient of the simulation is an `i64`
//! holding a fixed-point number with `FRAC_BITS` fractional bits: the raw value
//! `ONE` stands for 1.0. Products are formed in `i128` and divided back with
//! truncation toward zero, so every operation is exact integer arithmetic and
//! the same inputs always give the same outputs.
use vstd::prelude::*;

verus! {

/// Number of fractional bits of a fixed-point value.
pub const FRAC_BITS: u32 = 16;

/// The raw value that stands for 1.0.
pub const ONE: i64 = 65536;

/// Largest magnitude of a coordinate (2^40 raw, about 16.7 million units).
/// Positions saturate at this bound.
pub const LIMIT: i64 = 1099511627776;

/// Largest rest length or target distance (raw, 2^43).
pub const MAX_LEN: i64 = 8796093022208;

/// Largest inverse mass (raw), 2^32, that is 65536.0.
pub const MAX_INV_MASS: i64 = 4294967296;

pub open spec fn abs(x: int) -> int {
    if x < 0 {
        -x
    } else {
        x
    }
}

/// Division truncated toward zero, for a positive divisor.
pub open spec fn tdiv(a: int, d: int) -> int {
    if a >= 0 {
        a / d
    } else {
        -((-a) / d)
    }
}

/// `v` clamped to `[lo, hi]`.
pub open spec fn clamp(v: int, lo: int, hi: int) -> int {
    if v < lo {
        lo
    } else if v > hi {
        hi
    } else {
        v
    }
}

/// `v` saturated to the coordinate range `[-LIMIT, LIMIT]`.
pub open spec fn sat(v: int) -> int {
    clamp(v, -(LIMIT as int), LIMIT as int)
}

/// The largest `r` with `r * r <= n`.
pub open spec fn floor_sqrt(n: nat) -> nat
    decreases n,
{
    if n == 0 {
        0
    } else {
        let r = floor_sqrt((n - 1) as nat);
        if (r + 1) * (r + 1) <= n {
            r + 1
        } else {
            r
        }
    }
}

pub proof fn lemma_floor_sqrt(n: nat)
    ensures
        floor_sqrt(n) * floor_sqrt(n) <= n,
        n < (floor_sqrt(n) + 1) * (floor_sqrt(n) + 1),
    decreases n,
{
    if n == 0 {
        assert(floor_sqrt(0) == 0);
        assert(n < (floor_sqrt(n) + 1) * (floor_sqrt(n) + 1)) by (nonlinear_arith)
            requires
                n == 0,
                floor_sqrt(n) == 0,
        ;
    } else {
        lemma_floor_sqrt((n - 1) as nat);
        let r = floor_sqrt((n - 1) as nat);
        let s = floor_sqrt(n);
        assert(r * r <= n - 1 && n - 1 < (r + 1) * (r + 1));
        if (r + 1) * (r + 1) <= n {
            assert(s == r + 1);
            assert(n <= (r + 1) * (r + 1));
            assert((r + 1) * (r + 1) < (r + 2) * (r + 2)) by (nonlinear_arith);
            assert(n < (s + 1) * (s + 1));
        } else {
            assert(s == r);
            assert(n < (s + 1) * (s + 1));
        }
    }
}

/// The square root bracket determines its root.
pub proof fn lemma_sqrt_unique(n: nat, a: nat, b: nat)
    requires
        a * a <= n < (a + 1) * (a + 1),
        b * b <= n < (b + 1) * (b + 1),
    ensures
        a == b,
{
    if a < b {
        assert((a + 1) * (a + 1) <= b * b) by (nonlinear_arith)
            requires
                a + 1 <= b,
        ;
    } else if b < a {
        assert((b + 1) * (b + 1) <= a * a) by (nonlinear_arith)
            requires
                b + 1 <= a,
        ;
    }
}

pub proof fn lemma_floor_sqrt_mono(m: nat, n: nat)
    requires
        m <= n,
    ensures
        floor_sqrt(m) <= floor_sqrt(n),
{
    lemma_floor_sqrt(m);
    lemma_floor_sqrt(n);
    let a = floor_sqrt(m);
    let b = floor_sqrt(n);
    if b < a {
        assert((b + 1) * (b + 1) <= a * a) by (nonlinear_arith)
            requires
                b + 1 <= a,
        ;
    }
}

/// The floor square root of `n <= 2^86` is at most `2^43`.
pub proof fn lemma_floor_sqrt_bound(n: nat)
    requires
        n <= 0x40_0000_0000_0000_0000_0000,
    ensures
        floor_sqrt(n) <= 0x800_0000_0000,
{
    lemma_floor_sqrt(n);
    let r = floor_sqrt(n);
    if r > 0x800_0000_0000 {
        assert(r * r > 0x40_0000_0000_0000_0000_0000) by (nonlinear_arith)
            requires
                r > 0x800_0000_0000,
        ;
    }
}

pub proof fn lemma_div_bounds(a: int, d: int)
    requires
        d > 0,
    ensures
        abs(tdiv(a, d)) <= abs(a),
        abs(tdiv(a, d)) * d <= abs(a),
        (a >= 0) ==> tdiv(a, d) >= 0,
        (a <= 0) ==> tdiv(a, d) <= 0,
{
    let m = abs(a);
    vstd::arithmetic::div_mod::lemma_fundamental_div_mod(m, d);
    vstd::arithmetic::div_mod::lemma_div_pos_is_pos(m, d);
    vstd::arithmetic::div_mod::lemma_mod_pos_bound(m, d);
    assert(m / d <= m) by {
        vstd::arithmetic::div_mod::lemma_div_is_ordered_by_denominator(m, 1, d);
    }
    assert((m / d) * d <= m) by (nonlinear_arith)
        requires
            m == d * (m / d) + m % d,
            m % d >= 0,
    ;
}

/// `|a * b / d| <= |a|` when `|b| <= d`.
pub proof fn lemma_mul_div_bound(a: int, b: int, d: int)
    requires
        d > 0,
        abs(b) <= d,
    ensures
        abs(tdiv(a * b, d)) <= abs(a),
{
    lemma_div_bounds(a * b, d);
    assert(abs(a * b) == abs(a) * abs(b)) by (nonlinear_arith);
    assert(abs(a) * abs(b) <= abs(a) * d) by (nonlinear_arith)
        requires
            abs(b) <= d,
    ;
    let q = abs(tdiv(a * b, d));
    assert(q <= abs(a)) by (nonlinear_arith)
        requires
            q * d <= abs(a) * d,
            d > 0,
            q >= 0,
    ;
}

/// Truncating division of a value in the `i128` range by a positive divisor.
pub fn div_trunc(a: i128, d: i128) -> (r: i128)
    requires
        d > 0,
        a > i128::MIN,
    ensures
        r == tdiv(a as int, d as int),
        abs(r as int) <= abs(a as int),
{
    proof {
        lemma_div_bounds(a as int, d as int);
    }
    if a >= 0 {
        a / d
    } else {
        let m: i128 = -a;
        let q: i128 = m / d;
        -q
    }
}

/// `a * b / d` truncated toward zero.
pub fn mul_div(a: i128, b: i128, d: i128) -> (r: i128)
    requires
        d > 0,
        abs(a as int) <= 0x4000_0000_0000_0000,
        abs(b as int) <= 0x4000_0000_0000_0000,
    ensures
        r == tdiv(a * b, d as int),
        abs(b as int) <= d ==> abs(r as int) <= abs(a as int),
        abs(a as int) <= d ==> abs(r as int) <= abs(b as int),
{
    proof {
        if abs(b as int) <= d {
            lemma_mul_div_bound(a as int, b as int, d as int);
        }
        if abs(a as int) <= d {
            assert(a * b == b * a) by (nonlinear_arith);
            lemma_mul_div_bound(b as int, a as int, d as int);
        }
    }
    assert(abs(a * b) <= 0x4000_0000_0000_0000 * 0x4000_0000_0000_0000) by (nonlinear_arith)
        requires
            abs(a as int) <= 0x4000_0000_0000_0000,
            abs(b as int) <= 0x4000_0000_0000_0000,
    ;
    let p: i128 = a * b;
    div_trunc(p, d)
}

/// `v` saturated to `[-LIMIT, LIMIT]`.
pub fn saturate(v: i128) -> (r: i64)
    ensures
        r == sat(v as int),
{
    if v < -(LIMIT as i128) {
        -LIMIT
    } else if v > LIMIT as i128 {
        LIMIT
    } else {
        v as i64
    }
}

/// `v` clamped to `[lo, hi]`.
pub fn clamp_i64(v: i64, lo: i64, hi: i64) -> (r: i64)
    requires
        lo <= hi,
    ensures
        r == clamp(v as int, lo as int, hi as int),
{
    if v < lo {
        lo
    } else if v > hi {
        hi
    } else {
        v
    }
}

/// Integer square root: the largest `r` with `r * r <= n`.
pub fn isqrt(n: u128) -> (r: u128)
    requires
        n <= 0x40_0000_0000_0000_0000_0000,
    ensures
        r == floor_sqrt(n as nat),
        r <= 0x800_0000_0000,
{
    let mut lo: u128 = 0;
    let mut hi: u128 = 0x800_0000_0001;
    assert(hi * hi > 0x40_0000_0000_0000_0000_0000);
    while lo + 1 < hi
        invariant
            lo < hi <= 0x800_0000_0001,
            lo * lo <= n,
            n < hi * hi,
        decreases hi - lo,
    {
        let mid: u128 = lo + (hi - lo) / 2;
        assert(mid * mid <= 0x800_0000_0001 * 0x800_0000_0001) by (nonlinear_arith)
            requires
                mid <= 0x800_0000_0001,
        ;
        if mid * mid <= n {
            lo = mid;
        } else {
            hi = mid;
        }
    }
    proof {
        lemma_floor_sqrt(n as nat);
        assert(hi == lo + 1);
        lemma_sqrt_unique(n as nat, lo as nat, floor_sqrt(n as nat));
        lemma_floor_sqrt_bound(n as nat);
    }
    lo
}

} // verus!
