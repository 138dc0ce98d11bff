//! Fixed-point cosine and sine, for laying out regular polygons and boxes.
//!
//! An angle is reduced to a quadrant and a remainder in `[0, pi/2)`; on the
//! remainder both functions are Taylor polynomials (to the tenth and
//! eleventh power) evaluated in Horner form with truncating fixed-point
//! steps. The results are within a few raw units of the true values.
use vstd::prelude::*;
use crate::fixed::{abs, floor_sqrt, isqrt, lemma_floor_sqrt, lemma_floor_sqrt_mono, lemma_sqrt_unique, mul_div, tdiv, ONE};

verus! {

/// pi / 2 in fixed point.
pub const HALF_PI: i64 = 102944;

/// 2 pi in fixed point.
pub const TWO_PI: i64 = 411775;

/// One Horner step: `ONE - x2 * h / ONE / k`.
pub open spec fn horner(x2: int, h: int, k: int) -> int {
    ONE - tdiv(tdiv(x2 * h, ONE as int), k)
}

/// `t * t / ONE`.
pub open spec fn square(t: int) -> int {
    tdiv(t * t, ONE as int)
}

/// Cosine of `t` in `[0, pi/2]`.
pub open spec fn cos_poly(t: int) -> int {
    let x2 = square(t);
    horner(x2, horner(x2, horner(x2, horner(x2, horner(x2, ONE as int, 90), 56), 30), 12), 2)
}

/// Sine of `t` in `[0, pi/2]`.
pub open spec fn sin_poly(t: int) -> int {
    let x2 = square(t);
    tdiv(
        t * horner(x2, horner(x2, horner(x2, horner(x2, horner(x2, ONE as int, 110), 72), 42), 20), 6),
        ONE as int,
    )
}

/// Cosine and sine of the angle `2 pi * num / den`, for `0 <= num < den`.
pub open spec fn unit_turn(num: int, den: int) -> (int, int) {
    let q = (4 * num) / den;
    let r = 4 * num - q * den;
    let t = tdiv(r * HALF_PI, den);
    let c = cos_poly(t);
    let s = sin_poly(t);
    if q == 0 {
        (c, s)
    } else if q == 1 {
        (-s, c)
    } else if q == 2 {
        (-c, -s)
    } else {
        (s, -c)
    }
}

/// Cosine and sine of the angle `theta` (radians, fixed point).
pub open spec fn unit_angle(theta: int) -> (int, int) {
    unit_turn(theta % (TWO_PI as int), TWO_PI as int)
}

fn horner_step(x2: i128, h: i128, k: i128) -> (r: i128)
    requires
        0 <= x2 <= 0x4_0000,
        0 <= h <= ONE,
        12 <= k,
    ensures
        r == horner(x2 as int, h as int, k as int),
        0 <= r <= ONE,
{
    let p = mul_div(x2, h, ONE as i128);
    proof {
        crate::fixed::lemma_div_bounds(x2 * h, ONE as int);
        assert(x2 * h >= 0) by (nonlinear_arith)
            requires
                x2 >= 0,
                h >= 0,
        ;
    }
    let q = p / k;
    assert(q <= p / 12) by {
        vstd::arithmetic::div_mod::lemma_div_is_ordered_by_denominator(p as int, 12, k as int);
    }
    ONE as i128 - q
}

/// Cosine and sine of `t` in `[0, pi/2]`, each at most `2 * ONE` in magnitude.
pub fn quarter(t: i128) -> (r: (i128, i128))
    requires
        0 <= t <= HALF_PI,
    ensures
        r.0 == cos_poly(t as int),
        r.1 == sin_poly(t as int),
        abs(r.0 as int) <= 2 * ONE,
        abs(r.1 as int) <= 2 * ONE,
{
    let x2 = mul_div(t, t, ONE as i128);
    proof {
        crate::fixed::lemma_div_bounds(t * t, ONE as int);
        assert(t * t <= HALF_PI * HALF_PI) by (nonlinear_arith)
            requires
                0 <= t <= HALF_PI,
        ;
        assert(t * t >= 0) by (nonlinear_arith);
    }
    let c5 = horner_step(x2, ONE as i128, 90);
    let c4 = horner_step(x2, c5, 56);
    let c3 = horner_step(x2, c4, 30);
    let c2 = horner_step(x2, c3, 12);
    let cp = mul_div(x2, c2, ONE as i128);
    let c: i128 = ONE as i128 - cp / 2;
    let s5 = horner_step(x2, ONE as i128, 110);
    let s4 = horner_step(x2, s5, 72);
    let s3 = horner_step(x2, s4, 42);
    let s2 = horner_step(x2, s3, 20);
    let sp = mul_div(x2, s2, ONE as i128);
    let s1: i128 = ONE as i128 - sp / 6;
    proof {
        crate::fixed::lemma_div_bounds(x2 * c2, ONE as int);
        crate::fixed::lemma_div_bounds(x2 * s2, ONE as int);
        assert(x2 * c2 >= 0 && x2 * s2 >= 0) by (nonlinear_arith)
            requires
                x2 >= 0,
                c2 >= 0,
                s2 >= 0,
        ;
    }
    let s = mul_div(t, s1, ONE as i128);
    proof {
        crate::fixed::lemma_div_bounds(t * s1, ONE as int);
        assert(abs(t * s1) <= HALF_PI * ONE) by (nonlinear_arith)
            requires
                0 <= t <= HALF_PI,
                abs(s1 as int) <= ONE,
        ;
        assert(abs(s as int) * ONE <= HALF_PI * ONE);
    }
    (c, s)
}

/// Cosine and sine of `2 pi * num / den`, each at most `2 * ONE` in magnitude.
pub fn turn(num: i64, den: i64) -> (r: (i128, i128))
    requires
        0 <= num < den,
    ensures
        r.0 == unit_turn(num as int, den as int).0,
        r.1 == unit_turn(num as int, den as int).1,
        abs(r.0 as int) <= 2 * ONE,
        abs(r.1 as int) <= 2 * ONE,
{
    let n4: i128 = 4 * (num as i128);
    let d: i128 = den as i128;
    let q: i128 = n4 / d;
    proof {
        vstd::arithmetic::div_mod::lemma_fundamental_div_mod(n4 as int, d as int);
        vstd::arithmetic::div_mod::lemma_mod_pos_bound(n4 as int, d as int);
        vstd::arithmetic::div_mod::lemma_div_pos_is_pos(n4 as int, d as int);
        assert(q < 4) by (nonlinear_arith)
            requires
                n4 == d * q + n4 % d,
                n4 % d >= 0,
                n4 < 4 * d,
                d > 0,
        ;
        assert(q * d == d * q) by (nonlinear_arith);
    }
    let r: i128 = n4 - q * d;
    assert(0 <= r < d);
    assert(r * HALF_PI <= 0x8000_0000_0000_0000 * HALF_PI) by (nonlinear_arith)
        requires
            0 <= r < d,
            d <= 0x8000_0000_0000_0000,
    ;
    assert(r * HALF_PI >= 0) by (nonlinear_arith)
        requires
            r >= 0,
    ;
    let t = crate::fixed::div_trunc(r * (HALF_PI as i128), d);
    proof {
        crate::fixed::lemma_div_bounds(r * HALF_PI, d as int);
        assert(r * HALF_PI >= 0) by (nonlinear_arith)
            requires
                r >= 0,
        ;
        assert(r * HALF_PI <= d * HALF_PI) by (nonlinear_arith)
            requires
                r < d,
        ;
        assert(t <= HALF_PI) by (nonlinear_arith)
            requires
                t * d <= d * HALF_PI,
                d > 0,
        ;
    }
    let cs = quarter(t);
    let c = cs.0;
    let s = cs.1;
    if q == 0 {
        (c, s)
    } else if q == 1 {
        (-s, c)
    } else if q == 2 {
        (-c, -s)
    } else {
        (s, -c)
    }
}

/// Cosine and sine of the angle `theta` (radians, fixed point).
pub fn angle(theta: i64) -> (r: (i128, i128))
    ensures
        r.0 == unit_angle(theta as int).0,
        r.1 == unit_angle(theta as int).1,
        abs(r.0 as int) <= 2 * ONE,
        abs(r.1 as int) <= 2 * ONE,
{
    let n: i64 = if theta >= 0 {
        theta % TWO_PI
    } else {
        let a: i128 = -(theta as i128);
        let m: i128 = a % (TWO_PI as i128);
        proof {
            vstd::arithmetic::div_mod::lemma_fundamental_div_mod(a as int, TWO_PI as int);
            vstd::arithmetic::div_mod::lemma_mod_pos_bound(a as int, TWO_PI as int);
            let q = a as int / TWO_PI as int;
            if m == 0 {
                vstd::arithmetic::div_mod::lemma_fundamental_div_mod_converse_mod(
                    theta as int,
                    TWO_PI as int,
                    -q,
                    0,
                );
            } else {
                vstd::arithmetic::div_mod::lemma_fundamental_div_mod_converse_mod(
                    theta as int,
                    TWO_PI as int,
                    -q - 1,
                    TWO_PI - m,
                );
            }
        }
        if m == 0 {
            0
        } else {
            (TWO_PI as i128 - m) as i64
        }
    };
    proof {
        if theta >= 0 {
            vstd::arithmetic::div_mod::lemma_mod_pos_bound(theta as int, TWO_PI as int);
        }
    }
    assert(0 <= n < TWO_PI && n == (theta as int) % (TWO_PI as int));
    turn(n, TWO_PI)
}

/// `u` scaled to length `ONE` by its integer length; `(ONE, 0)` when that
/// length is under `ONE / 2`.
pub open spec fn normalized(u: (int, int)) -> (int, int) {
    let l = floor_sqrt((u.0 * u.0 + u.1 * u.1) as nat) as int;
    if 2 * l < ONE {
        (ONE as int, 0)
    } else {
        (tdiv(u.0 * ONE, l), tdiv(u.1 * ONE, l))
    }
}

/// The unit direction at the angle `2 pi * num / den`.
pub open spec fn direction_turn(num: int, den: int) -> (int, int) {
    normalized(unit_turn(num, den))
}

/// The unit direction at the angle `theta` (radians, fixed point).
pub open spec fn direction_angle(theta: int) -> (int, int) {
    normalized(unit_angle(theta))
}

/// `|c| <= floor_sqrt(c * c + s * s)`.
proof fn lemma_coord_le_len(c: int, s: int)
    ensures
        abs(c) <= floor_sqrt((c * c + s * s) as nat),
{
    assert(c * c >= 0 && s * s >= 0) by (nonlinear_arith);
    let m = abs(c) as nat;
    assert(m * m == c * c) by (nonlinear_arith)
        requires
            m == c || m == -c,
    ;
    lemma_floor_sqrt_mono((c * c) as nat, (c * c + s * s) as nat);
    lemma_floor_sqrt((c * c) as nat);
    assert(((c * c) as nat) < (m + 1) * (m + 1)) by (nonlinear_arith)
        requires
            m * m == c * c,
    ;
    lemma_sqrt_unique((c * c) as nat, m, floor_sqrt((c * c) as nat));
}

/// One coordinate of a normalised vector, before squaring: with
/// `a = |c| * ONE`, `q = |c * ONE / l|` satisfies `(q * l)^2 >= a^2 - 2 a l`
/// and `q * l <= a`.
proof fn lemma_scaled_coord(c: int, l: int)
    requires
        l > 0,
    ensures
        abs(tdiv(c * ONE, l)) * l <= abs(c) * ONE,
        (abs(tdiv(c * ONE, l)) * l) * (abs(tdiv(c * ONE, l)) * l) >= (abs(c) * ONE) * (abs(c) * ONE) - 2 * (
        abs(c) * ONE) * l,
{
    let q = abs(tdiv(c * ONE, l));
    let a = abs(c) * ONE;
    assert(abs(c * ONE) == a) by (nonlinear_arith)
        requires
            a == abs(c) * ONE,
    ;
    crate::fixed::lemma_div_bounds(c * ONE, l);
    let m = a;
    vstd::arithmetic::div_mod::lemma_fundamental_div_mod(m, l);
    vstd::arithmetic::div_mod::lemma_mod_pos_bound(m, l);
    assert(q == m / l);
    assert(q * l > a - l) by (nonlinear_arith)
        requires
            m == l * (m / l) + m % l,
            m % l < l,
            q == m / l,
            a == m,
    ;
    if a >= l {
        assert((q * l) * (q * l) >= a * a - 2 * a * l) by (nonlinear_arith)
            requires
                q * l > a - l,
                a - l >= 0,
        ;
    } else {
        assert((q * l) * (q * l) >= a * a - 2 * a * l) by (nonlinear_arith)
            requires
                a < l,
                a >= 0,
        ;
    }
}

/// A normalised vector has length `ONE` up to rounding:
/// `ONE^2 - 4 ONE <= ux^2 + uy^2 <= ONE^2 + 4 ONE + 4`, and each coordinate is
/// at most `ONE` in magnitude.
pub proof fn lemma_normalized_length(c: int, s: int)
    ensures
        ({
            let u = normalized((c, s));
            &&& ONE * ONE - 4 * ONE <= u.0 * u.0 + u.1 * u.1 <= ONE * ONE + 4 * ONE + 4
            &&& abs(u.0) <= ONE && abs(u.1) <= ONE
        }),
{
    let n = c * c + s * s;
    assert(c * c >= 0 && s * s >= 0) by (nonlinear_arith);
    let l = floor_sqrt(n as nat) as int;
    if 2 * l >= ONE {
        lemma_floor_sqrt(n as nat);
        lemma_coord_le_len(c, s);
        lemma_coord_le_len(s, c);
        assert(s * s + c * c == n);
        lemma_scaled_coord(c, l);
        lemma_scaled_coord(s, l);
        let qx = abs(tdiv(c * ONE, l));
        let qy = abs(tdiv(s * ONE, l));
        let ax = abs(c) * ONE;
        let ay = abs(s) * ONE;
        assert(qx <= ONE && qy <= ONE) by (nonlinear_arith)
            requires
                qx * l <= ax,
                ax == abs(c) * ONE,
                ay == abs(s) * ONE,
                qy * l <= ay,
                abs(c) <= l,
                abs(s) <= l,
                l > 0,
                qx >= 0,
                qy >= 0,
        ;
        assert(qx * qx == tdiv(c * ONE, l) * tdiv(c * ONE, l) && qy * qy == tdiv(s * ONE, l) * tdiv(
            s * ONE,
            l,
        )) by (nonlinear_arith)
            requires
                qx == abs(tdiv(c * ONE, l)),
                qy == abs(tdiv(s * ONE, l)),
        ;
        assert(ax * ax + ay * ay == n * (ONE * ONE)) by (nonlinear_arith)
            requires
                ax == abs(c) * ONE,
                ay == abs(s) * ONE,
                n == c * c + s * s,
        ;
        // Upper bound: (qx^2 + qy^2) l^2 <= n ONE^2 < (l + 1)^2 ONE^2.
        assert((qx * qx + qy * qy) * (l * l) <= n * (ONE * ONE)) by (nonlinear_arith)
            requires
                0 <= qx * l <= ax,
                0 <= qy * l <= ay,
                ax * ax + ay * ay == n * (ONE * ONE),
                qx >= 0,
                qy >= 0,
        ;
        assert(n * (ONE * ONE) < (l * l + 2 * l + 1) * (ONE * ONE)) by (nonlinear_arith)
            requires
                n < (l + 1) * (l + 1),
        ;
        assert((2 * l + 1) * (ONE * ONE) <= (4 * ONE + 4) * (l * l)) by (nonlinear_arith)
            requires
                2 * l >= ONE,
        ;
        assert(qx * qx + qy * qy <= ONE * ONE + 4 * ONE + 4) by (nonlinear_arith)
            requires
                (qx * qx + qy * qy) * (l * l) < (l * l + 2 * l + 1) * (ONE * ONE),
                (2 * l + 1) * (ONE * ONE) <= (4 * ONE + 4) * (l * l),
                l > 0,
        ;
        // Lower bound: (qx^2 + qy^2) l^2 >= n ONE^2 - 2 l (ax + ay) >= l^2 (ONE^2 - 4 ONE).
        assert(ax + ay <= 2 * l * ONE) by (nonlinear_arith)
            requires
                ax == abs(c) * ONE,
                ay == abs(s) * ONE,
                abs(c) <= l,
                abs(s) <= l,
        ;
        assert((qx * qx + qy * qy) * (l * l) == (qx * l) * (qx * l) + (qy * l) * (qy * l))
            by (nonlinear_arith);
        assert(2 * ax * l + 2 * ay * l == 2 * (ax + ay) * l) by (nonlinear_arith);
        assert((qx * qx + qy * qy) * (l * l) >= n * (ONE * ONE) - 2 * (ax + ay) * l);
        assert(n * (ONE * ONE) - 2 * (ax + ay) * l >= (l * l) * (ONE * ONE - 4 * ONE)) by (nonlinear_arith)
            requires
                n >= l * l,
                ax + ay <= 2 * l * ONE,
                l > 0,
        ;
        assert(qx * qx + qy * qy >= ONE * ONE - 4 * ONE) by (nonlinear_arith)
            requires
                (qx * qx + qy * qy) * (l * l) >= (l * l) * (ONE * ONE - 4 * ONE),
                l > 0,
        ;
    }
}

/// Scales `(c, s)` to length `ONE`.
pub fn normalize(c: i128, s: i128) -> (r: (i128, i128))
    requires
        abs(c as int) <= 2 * ONE,
        abs(s as int) <= 2 * ONE,
    ensures
        (r.0 as int, r.1 as int) == normalized((c as int, s as int)),
        abs(r.0 as int) <= ONE,
        abs(r.1 as int) <= ONE,
{
    assert(0 <= c * c <= 4 * ONE * ONE && 0 <= s * s <= 4 * ONE * ONE) by (nonlinear_arith)
        requires
            abs(c as int) <= 2 * ONE,
            abs(s as int) <= 2 * ONE,
    ;
    let sq: i128 = c * c + s * s;
    let l = isqrt(sq as u128) as i128;
    proof {
        lemma_normalized_length(c as int, s as int);
    }
    if 2 * l < ONE as i128 {
        return (ONE as i128, 0);
    }
    let x = div_trunc_scaled(c, l);
    let y = div_trunc_scaled(s, l);
    (x, y)
}

/// `v * ONE / l`.
fn div_trunc_scaled(v: i128, l: i128) -> (r: i128)
    requires
        abs(v as int) <= 2 * ONE,
        l > 0,
    ensures
        r == tdiv(v * ONE, l as int),
{
    crate::fixed::div_trunc(v * 65536, l)
}

} // verus!
