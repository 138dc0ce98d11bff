//! Polygon-polygon contact detection and five-stage resolution.
//!
//! A vertex of one polygon that lies inside another polygon is pushed out
//! through the nearest edge of that polygon. The resolution runs in order:
//! the points of the contact; the intersection of the vertex with the edge
//! line; the influence of each edge endpoint; the penetration vector; and the
//! displacements with the new positions.
use vstd::prelude::*;
use crate::constraint::{all_wf, dist, distance, lemma_dist_bounds};
use crate::fixed::{
    abs, clamp, div_trunc, lemma_div_bounds, lemma_mul_div_bound, mul_div, tdiv, LIMIT, MAX_INV_MASS,
    MAX_LEN, ONE,
};
use crate::particle::{sat_vec, saturate_vec, Particle, Vec2};
use crate::polygon::{Polygon, PolygonModel};

verus! {

/// One resolved contact: the edge `(point_a, point_b)` of polygon `polygon`
/// was penetrated by vertex `point` of polygon `other`. Holds the geometry of
/// every stage of the resolution.
#[derive(Clone, Copy, Debug, PartialEq, Eq, Structural)]
pub struct Collision {
    /// Index of the polygon whose edge was penetrated.
    pub polygon: usize,
    /// Index of the polygon that owns the penetrating vertex.
    pub other: usize,
    /// Index of `point_a` in its polygon; `point_b` follows it in the ring.
    pub edge: usize,
    /// Index of `point` in its polygon.
    pub vertex: usize,
    pub point_a: Particle,
    pub point_b: Particle,
    pub point: Particle,
    /// Edge normal pointing toward the centre of `polygon`, as long as the edge.
    pub normal: Vec2,
    /// Projection of `point` on the edge.
    pub intersection: Vec2,
    pub dist_to_a: i64,
    pub dist_to_b: i64,
    pub dist_a_to_b: i64,
    /// Share of `point_a` (fixed point, `dist_to_b / dist_a_to_b`).
    pub influence_a: i64,
    /// Share of `point_b` (fixed point, `dist_to_a / dist_a_to_b`).
    pub influence_b: i64,
    /// Depth of `point` past the edge, along the inward normal.
    pub depth: i64,
    pub pen_vector: Vec2,
    pub displacement_a: Vec2,
    pub displacement_b: Vec2,
    pub displace_point: Vec2,
    pub new_a: Vec2,
    pub new_b: Vec2,
    pub new_point: Vec2,
}

/// The edge `(a, b)` crosses the horizontal ray that starts at `p` and runs
/// toward increasing x.
pub open spec fn crosses(a: Vec2, b: Vec2, p: Vec2) -> bool {
    &&& (a.y > p.y) != (b.y > p.y)
    &&& if b.y > a.y {
        (p.x - a.x) * (b.y - a.y) < (p.y - a.y) * (b.x - a.x)
    } else {
        (p.x - a.x) * (b.y - a.y) > (p.y - a.y) * (b.x - a.x)
    }
}

/// Number of the first `k` edges of the ring that the ray from `p` crosses.
pub open spec fn crossings(ps: Seq<Particle>, p: Vec2, k: nat) -> nat
    decreases k,
{
    if k == 0 {
        0
    } else {
        let e = k - 1;
        let c = crossings(ps, p, (k - 1) as nat);
        if crosses(ps[e].pos, ps[(e + 1) % (ps.len() as int)].pos, p) {
            c + 1
        } else {
            c
        }
    }
}

/// `p` lies inside the ring (even-odd rule).
pub open spec fn inside(ps: Seq<Particle>, p: Vec2) -> bool {
    crossings(ps, p, ps.len()) % 2 == 1
}

/// Distance from `p` to the line of edge `e`; for a degenerate edge, the
/// distance to its point.
pub open spec fn edge_gap(ps: Seq<Particle>, e: int, p: Vec2) -> int {
    let a = ps[e].pos;
    let b = ps[(e + 1) % (ps.len() as int)].pos;
    let l = dist(a, b);
    if l == 0 {
        dist(a, p)
    } else {
        tdiv(abs((b.x - a.x) * (p.y - a.y) - (b.y - a.y) * (p.x - a.x)), l)
    }
}

/// Among the first `k >= 1` edges, the first one nearest to `p`.
pub open spec fn nearest_edge(ps: Seq<Particle>, p: Vec2, k: nat) -> int
    decreases k,
{
    if k <= 1 {
        0
    } else {
        let m = nearest_edge(ps, p, (k - 1) as nat);
        if edge_gap(ps, k - 1, p) < edge_gap(ps, m, p) {
            k - 1
        } else {
            m
        }
    }
}

/// The edge normal of `(a, b)` that points toward `c` (or along the edge's
/// left side when `c` is on the line); as long as the edge.
pub open spec fn inward_normal(a: Vec2, b: Vec2, c: Vec2) -> (int, int) {
    let ux = b.x - a.x;
    let uy = b.y - a.y;
    let toward = -uy * (c.x - a.x) + ux * (c.y - a.y);
    if toward < 0 {
        (uy, -ux)
    } else {
        (-uy, ux)
    }
}

/// The influence of each edge endpoint, in fixed point: the share of `a`
/// is `dist_to_b / dist_a_to_b` and that of `b` is `dist_to_a / dist_a_to_b`.
pub open spec fn influences(l: int, da: int) -> (int, int) {
    (tdiv((l - da) * ONE, l), tdiv(da * ONE, l))
}

/// The effective inverse mass of a contact, scaled by `ONE * ONE`: the
/// vertex's own, plus each endpoint's weighted by the square of its influence.
pub open spec fn contact_weight(a: Particle, b: Particle, p: Particle, ia: int, ib: int) -> int {
    p.inverse_mass * (ONE * ONE) + ia * ia * a.inverse_mass + ib * ib * b.inverse_mass
}

/// Stages three to five of a contact whose edge `(a, b)` has length `l > 0`,
/// inward normal `(nx, ny)`, and whose vertex `p` lies `depth > 0` past the
/// edge, at distance `da` from `a` along it.
///
/// With `pen` the penetration (the depth along the unit normal) and `ia`,
/// `ib` the influences as fractions, the correction is
/// `lambda = pen / (inv_p + ia^2 inv_a + ib^2 inv_b)`: the vertex moves by
/// `-lambda inv_p`, the endpoints by `lambda ia inv_a` and `lambda ib inv_b`.
/// The edge then moves at the contact point by exactly what the vertex
/// lacks, so the vertex ends on the edge (up to rounding). Dividing by the
/// plain sum of the three inverse masses instead would leave part of the
/// penetration in place.
pub open spec fn resolved(
    a: Particle,
    b: Particle,
    p: Particle,
    nx: int,
    ny: int,
    l: int,
    depth: int,
    da: int,
    i: int,
    j: int,
    e: int,
    k: int,
) -> Collision {
    let ux = b.pos.x - a.pos.x;
    let uy = b.pos.y - a.pos.y;
    let db = l - da;
    let ia = influences(l, da).0;
    let ib = influences(l, da).1;
    let w = contact_weight(a, b, p, ia, ib);
    let mp = p.inverse_mass * (ONE * ONE);
    let ma = ia * a.inverse_mass * ONE;
    let mb = ib * b.inverse_mass * ONE;
    let px = tdiv(depth * nx, l);
    let py = tdiv(depth * ny, l);
    let dpx = -tdiv(px * mp, w);
    let dpy = -tdiv(py * mp, w);
    let dax = tdiv(px * ma, w);
    let day = tdiv(py * ma, w);
    let dbx = tdiv(px * mb, w);
    let dby = tdiv(py * mb, w);
    Collision {
        polygon: i as usize,
        other: j as usize,
        edge: e as usize,
        vertex: k as usize,
        point_a: a,
        point_b: b,
        point: p,
        normal: Vec2 { x: nx as i64, y: ny as i64 },
        intersection: sat_vec(a.pos.x + tdiv(da * ux, l), a.pos.y + tdiv(da * uy, l)),
        dist_to_a: da as i64,
        dist_to_b: db as i64,
        dist_a_to_b: l as i64,
        influence_a: ia as i64,
        influence_b: ib as i64,
        depth: depth as i64,
        pen_vector: Vec2 { x: px as i64, y: py as i64 },
        displacement_a: Vec2 { x: dax as i64, y: day as i64 },
        displacement_b: Vec2 { x: dbx as i64, y: dby as i64 },
        displace_point: Vec2 { x: dpx as i64, y: dpy as i64 },
        new_a: sat_vec(a.pos.x + dax, a.pos.y + day),
        new_b: sat_vec(b.pos.x + dbx, b.pos.y + dby),
        new_point: sat_vec(p.pos.x + dpx, p.pos.y + dpy),
    }
}

/// The contact of particle `p` (vertex `k` of polygon `j`) with edge `e` of
/// the ring `ps` of centre `center` (polygon `i`). None when the edge has
/// length zero, `p` is not past the edge, or nothing can move (the
/// effective inverse mass is zero).
pub open spec fn contact(
    ps: Seq<Particle>,
    center: Vec2,
    e: int,
    p: Particle,
    i: int,
    j: int,
    k: int,
) -> Option<Collision> {
    let a = ps[e];
    let b = ps[(e + 1) % (ps.len() as int)];
    let l = dist(a.pos, b.pos);
    let nrm = inward_normal(a.pos, b.pos, center);
    let vx = p.pos.x - a.pos.x;
    let vy = p.pos.y - a.pos.y;
    if l == 0 {
        None
    } else {
        let depth = clamp(tdiv(nrm.0 * vx + nrm.1 * vy, l), -MAX_LEN as int, MAX_LEN as int);
        let ux = b.pos.x - a.pos.x;
        let uy = b.pos.y - a.pos.y;
        let da = clamp(tdiv(ux * vx + uy * vy, l), 0, l);
        let inf = influences(l, da);
        if depth <= 0 || contact_weight(a, b, p, inf.0, inf.1) == 0 {
            None
        } else {
            Some(resolved(a, b, p, nrm.0, nrm.1, l, depth, da, i, j, e, k))
        }
    }
}

/// Whether the edge `(a, b)` crosses the ray from `p`.
fn edge_crosses(a: Vec2, b: Vec2, p: Vec2) -> (r: bool)
    requires
        a.in_limit(),
        b.in_limit(),
        p.in_limit(),
    ensures
        r == crosses(a, b, p),
{
    if (a.y > p.y) == (b.y > p.y) {
        return false;
    }
    let ex: i128 = b.x as i128 - a.x as i128;
    let ey: i128 = b.y as i128 - a.y as i128;
    let vx: i128 = p.x as i128 - a.x as i128;
    let vy: i128 = p.y as i128 - a.y as i128;
    assert(abs(vx * ey) <= 4 * LIMIT * LIMIT) by (nonlinear_arith)
        requires
            abs(vx as int) <= 2 * LIMIT,
            abs(ey as int) <= 2 * LIMIT,
    ;
    assert(abs(vy * ex) <= 4 * LIMIT * LIMIT) by (nonlinear_arith)
        requires
            abs(vy as int) <= 2 * LIMIT,
            abs(ex as int) <= 2 * LIMIT,
    ;
    let lhs: i128 = vx * ey;
    let rhs: i128 = vy * ex;
    if b.y > a.y {
        lhs < rhs
    } else {
        lhs > rhs
    }
}

/// Whether `p` lies inside the ring `ps` (even-odd rule).
pub fn point_inside(ps: &Vec<Particle>, p: Vec2) -> (r: bool)
    requires
        ps@.len() >= 1,
        all_wf(ps@),
        p.in_limit(),
    ensures
        r == inside(ps@, p),
{
    let n = ps.len();
    let mut c: usize = 0;
    let mut e: usize = 0;
    while e < n
        invariant
            n == ps@.len() >= 1,
            all_wf(ps@),
            p.in_limit(),
            e <= n,
            c == crossings(ps@, p, e as nat),
            c <= e,
        decreases n - e,
    {
        let f: usize = if e + 1 == n {
            0
        } else {
            e + 1
        };
        proof {
            if e + 1 == n {
                vstd::arithmetic::div_mod::lemma_mod_self_0(n as int);
            } else {
                vstd::arithmetic::div_mod::lemma_small_mod((e + 1) as nat, n as nat);
            }
        }
        assert(ps@[e as int].wf() && ps@[f as int].wf());
        if edge_crosses(ps[e].pos, ps[f].pos, p) {
            c = c + 1;
        }
        e = e + 1;
    }
    c % 2 == 1
}

/// Distance from `p` to the line of edge `e` of the ring.
fn gap(ps: &Vec<Particle>, e: usize, p: Vec2) -> (r: i128)
    requires
        ps@.len() >= 1,
        e < ps@.len(),
        all_wf(ps@),
        p.in_limit(),
    ensures
        r == edge_gap(ps@, e as int, p),
{
    let n = ps.len();
    let f: usize = if e + 1 == n {
        0
    } else {
        e + 1
    };
    proof {
        if e + 1 == n {
            vstd::arithmetic::div_mod::lemma_mod_self_0(n as int);
        } else {
            vstd::arithmetic::div_mod::lemma_small_mod((e + 1) as nat, n as nat);
        }
    }
    assert(ps@[e as int].wf() && ps@[f as int].wf());
    let a = ps[e].pos;
    let b = ps[f].pos;
    let l = distance(a, b);
    if l == 0 {
        return distance(a, p);
    }
    let ex: i128 = b.x as i128 - a.x as i128;
    let ey: i128 = b.y as i128 - a.y as i128;
    let vx: i128 = p.x as i128 - a.x as i128;
    let vy: i128 = p.y as i128 - a.y as i128;
    assert(abs(ex * vy) <= 4 * LIMIT * LIMIT) by (nonlinear_arith)
        requires
            abs(vy as int) <= 2 * LIMIT,
            abs(ex as int) <= 2 * LIMIT,
    ;
    assert(abs(ey * vx) <= 4 * LIMIT * LIMIT) by (nonlinear_arith)
        requires
            abs(vx as int) <= 2 * LIMIT,
            abs(ey as int) <= 2 * LIMIT,
    ;
    let cr: i128 = ex * vy - ey * vx;
    let m: i128 = if cr < 0 {
        -cr
    } else {
        cr
    };
    div_trunc(m, l)
}

/// The first edge of the ring nearest to `p`.
pub fn find_nearest_edge(ps: &Vec<Particle>, p: Vec2) -> (r: usize)
    requires
        ps@.len() >= 1,
        all_wf(ps@),
        p.in_limit(),
    ensures
        r == nearest_edge(ps@, p, ps@.len()),
        r < ps@.len(),
{
    let n = ps.len();
    let mut best: usize = 0;
    let mut best_gap = gap(ps, 0, p);
    let mut e: usize = 1;
    while e < n
        invariant
            n == ps@.len() >= 1,
            all_wf(ps@),
            p.in_limit(),
            1 <= e <= n,
            best < e,
            best == nearest_edge(ps@, p, e as nat),
            best_gap == edge_gap(ps@, best as int, p),
        decreases n - e,
    {
        let g = gap(ps, e, p);
        if g < best_gap {
            best = e;
            best_gap = g;
        }
        e = e + 1;
    }
    best
}

/// The inward normal of the edge `(a, b)` toward `c`.
pub fn edge_normal(a: Vec2, b: Vec2, c: Vec2) -> (r: (i128, i128))
    requires
        a.in_limit(),
        b.in_limit(),
        c.in_limit(),
    ensures
        r.0 == inward_normal(a, b, c).0,
        r.1 == inward_normal(a, b, c).1,
        abs(r.0 as int) == abs(b.y - a.y),
        abs(r.1 as int) == abs(b.x - a.x),
{
    let ux: i128 = b.x as i128 - a.x as i128;
    let uy: i128 = b.y as i128 - a.y as i128;
    let cx: i128 = c.x as i128 - a.x as i128;
    let cy: i128 = c.y as i128 - a.y as i128;
    assert(abs(uy * cx) <= 4 * LIMIT * LIMIT) by (nonlinear_arith)
        requires
            abs(uy as int) <= 2 * LIMIT,
            abs(cx as int) <= 2 * LIMIT,
    ;
    assert(abs(ux * cy) <= 4 * LIMIT * LIMIT) by (nonlinear_arith)
        requires
            abs(ux as int) <= 2 * LIMIT,
            abs(cy as int) <= 2 * LIMIT,
    ;
    let t1: i128 = uy * cx;
    let t2: i128 = ux * cy;
    let toward: i128 = t2 - t1;
    assert(toward == -uy * cx + ux * cy) by (nonlinear_arith)
        requires
            toward == ux * cy - uy * cx,
    ;
    if toward < 0 {
        (uy, -ux)
    } else {
        (-uy, ux)
    }
}

/// `a . b / l` for two vectors of the doubled coordinate range.
fn dot_div(ax: i128, ay: i128, bx: i128, by: i128, l: i128) -> (r: i128)
    requires
        abs(ax as int) <= 2 * LIMIT,
        abs(ay as int) <= 2 * LIMIT,
        abs(bx as int) <= 2 * LIMIT,
        abs(by as int) <= 2 * LIMIT,
        l > 0,
    ensures
        r == tdiv(ax * bx + ay * by, l as int),
{
    assert(abs(ax * bx) <= 4 * LIMIT * LIMIT) by (nonlinear_arith)
        requires
            abs(ax as int) <= 2 * LIMIT,
            abs(bx as int) <= 2 * LIMIT,
    ;
    assert(abs(ay * by) <= 4 * LIMIT * LIMIT) by (nonlinear_arith)
        requires
            abs(ay as int) <= 2 * LIMIT,
            abs(by as int) <= 2 * LIMIT,
    ;
    div_trunc(ax * bx + ay * by, l)
}

/// Bounds of `pc * m / w` for a weight `m >= 0`.
proof fn lemma_share_bound(pc: int, m: int, w: int)
    requires
        m >= 0,
        w > 0,
    ensures
        m <= w ==> abs(tdiv(pc * m, w)) <= abs(pc),
        m <= ONE * w ==> abs(tdiv(pc * m, w)) <= abs(pc) * ONE,
{
    lemma_div_bounds(pc * m, w);
    assert(abs(pc * m) == abs(pc) * m) by (nonlinear_arith)
        requires
            m >= 0,
    ;
    let q = abs(tdiv(pc * m, w));
    if m <= w {
        assert(q <= abs(pc)) by (nonlinear_arith)
            requires
                q * w <= abs(pc) * m,
                m <= w,
                w > 0,
                q >= 0,
        ;
    }
    if m <= ONE * w {
        assert(q <= abs(pc) * ONE) by (nonlinear_arith)
            requires
                q * w <= abs(pc) * m,
                m <= ONE * w,
                w > 0,
                q >= 0,
        ;
    }
}

/// `pc * m / w`, a penetration component scaled by the weight `m / w`.
fn scaled_share(pc: i128, m: i128, w: i128) -> (r: i128)
    requires
        abs(pc as int) <= MAX_LEN,
        0 <= m <= 0x4_0000_0000_0000_0000,
        w > 0,
    ensures
        r == tdiv(pc * m, w as int),
        m <= w ==> abs(r as int) <= abs(pc as int),
        m <= ONE * w ==> abs(r as int) <= abs(pc as int) * ONE,
{
    assert(abs(pc * m) <= MAX_LEN * 0x4_0000_0000_0000_0000) by (nonlinear_arith)
        requires
            abs(pc as int) <= MAX_LEN,
            0 <= m <= 0x4_0000_0000_0000_0000,
    ;
    proof {
        lemma_share_bound(pc as int, m as int, w as int);
    }
    div_trunc(pc * m, w)
}

/// The influences and the effective inverse mass of a contact.
fn contact_weights(a: Particle, b: Particle, p: Particle, l: i128, da: i128) -> (r: (i128, i128, i128))
    requires
        a.wf(),
        b.wf(),
        p.wf(),
        0 < l <= 0x800_0000_0000,
        0 <= da <= l,
    ensures
        r.0 == influences(l as int, da as int).0,
        r.1 == influences(l as int, da as int).1,
        r.2 == contact_weight(a, b, p, r.0 as int, r.1 as int),
        0 <= r.0 <= ONE,
        0 <= r.1 <= ONE,
        0 <= r.2 <= 0x3_0000_0000_0000_0000,
{
    let db: i128 = l - da;
    let ia = mul_div(ONE as i128, db, l);
    let ib = mul_div(ONE as i128, da, l);
    assert(ONE * db == db * ONE && ONE * da == da * ONE) by (nonlinear_arith);
    proof {
        lemma_div_bounds(db * ONE, l as int);
        lemma_div_bounds(da * ONE, l as int);
    }
    let ai = a.inverse_mass as i128;
    let bi = b.inverse_mass as i128;
    let pi = p.inverse_mass as i128;
    assert(0 <= ia * ia * ai <= 0x1_0000_0000 * MAX_INV_MASS && 0 <= ib * ib * bi <= 0x1_0000_0000
        * MAX_INV_MASS) by (nonlinear_arith)
        requires
            0 <= ia <= ONE,
            0 <= ib <= ONE,
            0 <= ai <= MAX_INV_MASS,
            0 <= bi <= MAX_INV_MASS,
    ;
    assert(0 <= ia * ia <= ONE * ONE && 0 <= ib * ib <= ONE * ONE) by (nonlinear_arith)
        requires
            0 <= ia <= ONE,
            0 <= ib <= ONE,
    ;
    let sa: i128 = ia * ia;
    let sb: i128 = ib * ib;
    assert(sa * ai == ia * ia * ai && sb * bi == ib * ib * bi) by (nonlinear_arith)
        requires
            sa == ia * ia,
            sb == ib * ib,
    ;
    assert(0 <= pi * 4294967296 <= MAX_INV_MASS * 4294967296) by (nonlinear_arith)
        requires
            0 <= pi <= MAX_INV_MASS,
    ;
    let wp: i128 = pi * 4294967296;
    let w: i128 = wp + sa * ai + sb * bi;
    (ia, ib, w)
}

/// Stages three to five of a contact.
fn resolve_stages(
    a: Particle,
    b: Particle,
    p: Particle,
    nx: i128,
    ny: i128,
    l: i128,
    depth: i128,
    da: i128,
    ia: i128,
    ib: i128,
    w: i128,
    i: usize,
    j: usize,
    e: usize,
    k: usize,
) -> (r: Collision)
    requires
        a.wf(),
        b.wf(),
        p.wf(),
        0 < l <= 0x800_0000_0000,
        abs(nx as int) <= l,
        abs(ny as int) <= l,
        abs(b.pos.x - a.pos.x) <= l,
        abs(b.pos.y - a.pos.y) <= l,
        0 < depth <= MAX_LEN,
        0 <= da <= l,
        ia == influences(l as int, da as int).0,
        ib == influences(l as int, da as int).1,
        0 <= ia <= ONE,
        0 <= ib <= ONE,
        w == contact_weight(a, b, p, ia as int, ib as int),
        w > 0,
    ensures
        r == resolved(a, b, p, nx as int, ny as int, l as int, depth as int, da as int, i as int, j as int, e as int, k as int),
        r.new_a.in_limit(),
        r.new_b.in_limit(),
        r.new_point.in_limit(),
{
    let ux: i128 = b.pos.x as i128 - a.pos.x as i128;
    let uy: i128 = b.pos.y as i128 - a.pos.y as i128;
    let db: i128 = l - da;
    let ix = mul_div(da, ux, l);
    let iy = mul_div(da, uy, l);
    // Penetration: the depth along the unit inward normal.
    let px = mul_div(depth, nx, l);
    let py = mul_div(depth, ny, l);
    // Displacement: the correction shared through the effective inverse mass.
    let ai = a.inverse_mass as i128;
    let bi = b.inverse_mass as i128;
    let mp: i128 = (p.inverse_mass as i128) * (65536 * 65536);
    assert(0 <= ia * ai <= ONE * MAX_INV_MASS && 0 <= ib * bi <= ONE * MAX_INV_MASS) by (nonlinear_arith)
        requires
            0 <= ia <= ONE,
            0 <= ib <= ONE,
            0 <= ai <= MAX_INV_MASS,
            0 <= bi <= MAX_INV_MASS,
    ;
    let ma: i128 = ia * ai * 65536;
    let mb: i128 = ib * bi * 65536;
    proof {
        assert(ia * ia * ai >= 0 && ib * ib * bi >= 0) by (nonlinear_arith)
            requires
                ia >= 0,
                ib >= 0,
                ai >= 0,
                bi >= 0,
        ;
        assert(ma <= ONE * w) by (nonlinear_arith)
            requires
                ma == ia * ai * 65536,
                w >= ia * ia * ai,
                0 <= ia,
                0 <= ai,
                ONE == 65536,
        ;
        assert(mb <= ONE * w) by (nonlinear_arith)
            requires
                mb == ib * bi * 65536,
                w >= ib * ib * bi,
                0 <= ib,
                0 <= bi,
                ONE == 65536,
        ;
    }
    let dpx0 = scaled_share(px, mp, w);
    let dpy0 = scaled_share(py, mp, w);
    let dpx: i128 = -dpx0;
    let dpy: i128 = -dpy0;
    let dax = scaled_share(px, ma, w);
    let day = scaled_share(py, ma, w);
    let dbx = scaled_share(px, mb, w);
    let dby = scaled_share(py, mb, w);
    proof {
        assert(ma == ia * a.inverse_mass * ONE);
        assert(mb == ib * b.inverse_mass * ONE);
        assert(mp == p.inverse_mass * (ONE * ONE));
    }
    Collision {
        polygon: i,
        other: j,
        edge: e,
        vertex: k,
        point_a: a,
        point_b: b,
        point: p,
        normal: Vec2 { x: nx as i64, y: ny as i64 },
        intersection: saturate_vec(a.pos.x as i128 + ix, a.pos.y as i128 + iy),
        dist_to_a: da as i64,
        dist_to_b: db as i64,
        dist_a_to_b: l as i64,
        influence_a: ia as i64,
        influence_b: ib as i64,
        depth: depth as i64,
        pen_vector: Vec2 { x: px as i64, y: py as i64 },
        displacement_a: Vec2 { x: dax as i64, y: day as i64 },
        displacement_b: Vec2 { x: dbx as i64, y: dby as i64 },
        displace_point: Vec2 { x: dpx as i64, y: dpy as i64 },
        new_a: saturate_vec(a.pos.x as i128 + dax, a.pos.y as i128 + day),
        new_b: saturate_vec(b.pos.x as i128 + dbx, b.pos.y as i128 + dby),
        new_point: saturate_vec(p.pos.x as i128 + dpx, p.pos.y as i128 + dpy),
    }
}

/// Computes the contact of particle `p` (vertex `k` of polygon `j`) with
/// edge `e` of the ring `ps` of centre `center` (polygon `i`).
pub fn compute_contact(
    ps: &Vec<Particle>,
    center: Vec2,
    e: usize,
    p: Particle,
    i: usize,
    j: usize,
    k: usize,
) -> (r: Option<Collision>)
    requires
        ps@.len() >= 1,
        e < ps@.len(),
        all_wf(ps@),
        center.in_limit(),
        p.wf(),
    ensures
        r == contact(ps@, center, e as int, p, i as int, j as int, k as int),
        r matches Some(c) ==> c.new_a.in_limit() && c.new_b.in_limit() && c.new_point.in_limit(),
{
    // Points: the edge endpoints and the penetrating vertex.
    let n = ps.len();
    let f: usize = if e + 1 == n {
        0
    } else {
        e + 1
    };
    proof {
        if e + 1 == n {
            vstd::arithmetic::div_mod::lemma_mod_self_0(n as int);
        } else {
            vstd::arithmetic::div_mod::lemma_small_mod((e + 1) as nat, n as nat);
        }
    }
    let a = ps[e];
    let b = ps[f];
    assert(ps@[e as int].wf() && ps@[f as int].wf());
    let l = distance(a.pos, b.pos);
    if l == 0 {
        return None;
    }
    // Intersection: inward normal, depth of the vertex, its projection.
    let nrm = edge_normal(a.pos, b.pos, center);
    let ux: i128 = b.pos.x as i128 - a.pos.x as i128;
    let uy: i128 = b.pos.y as i128 - a.pos.y as i128;
    let vx: i128 = p.pos.x as i128 - a.pos.x as i128;
    let vy: i128 = p.pos.y as i128 - a.pos.y as i128;
    let raw_depth = dot_div(nrm.0, nrm.1, vx, vy, l);
    let depth: i128 = if raw_depth < -(MAX_LEN as i128) {
        -(MAX_LEN as i128)
    } else if raw_depth > MAX_LEN as i128 {
        MAX_LEN as i128
    } else {
        raw_depth
    };
    let raw_proj = dot_div(ux, uy, vx, vy, l);
    let da: i128 = if raw_proj < 0 {
        0
    } else if raw_proj > l {
        l
    } else {
        raw_proj
    };
    // Influence: the barycentric share of each endpoint.
    let (ia, ib, w) = contact_weights(a, b, p, l, da);
    if depth <= 0 || w == 0 {
        return None;
    }
    Some(resolve_stages(a, b, p, nrm.0, nrm.1, l, depth, da, ia, ib, w, i, j, e, k))
}

/// The mathematical values of a sequence of polygons.
pub open spec fn models(ps: Seq<Polygon>) -> Seq<PolygonModel> {
    ps.map_values(|p: Polygon| p@)
}

/// Every polygon is well formed.
pub open spec fn all_polygons_wf(ms: Seq<PolygonModel>) -> bool {
    forall|i: int| 0 <= i < ms.len() ==> #[trigger] ms[i].wf()
}

/// The polygons after testing vertex `k` of polygon `j` against polygon `i`
/// and resolving the contact through the nearest edge of `i`, if there is
/// one. The contact is recorded on polygon `i`.
pub open spec fn vertex_resolved(ms: Seq<PolygonModel>, i: int, j: int, k: int) -> Seq<
    PolygonModel,
> {
    let a = ms[i];
    let p = ms[j].particles[k];
    if !inside(a.particles, p.pos) {
        ms
    } else {
        let e = nearest_edge(a.particles, p.pos, a.particles.len());
        match contact(a.particles, a.center, e, p, i, j, k) {
            None => ms,
            Some(c) => {
                let f = (e + 1) % (a.particles.len() as int);
                let a2 = PolygonModel {
                    particles: a.particles.update(e, Particle { pos: c.new_a, ..a.particles[e] }).update(
                        f,
                        Particle { pos: c.new_b, ..a.particles[f] },
                    ),
                    collisions: a.collisions.push(c),
                    ..a
                };
                let ms1 = ms.update(i, a2);
                let b = ms1[j];
                ms1.update(
                    j,
                    PolygonModel {
                        particles: b.particles.update(k, Particle { pos: c.new_point, ..b.particles[k] }),
                        ..b
                    },
                )
            },
        }
    }
}

/// The first `k` vertices of polygon `j` resolved against polygon `i`.
pub open spec fn vertices_resolved(ms: Seq<PolygonModel>, i: int, j: int, k: nat) -> Seq<
    PolygonModel,
>
    decreases k,
{
    if k == 0 {
        ms
    } else {
        vertex_resolved(vertices_resolved(ms, i, j, (k - 1) as nat), i, j, k - 1)
    }
}

/// Narrow phase of the pair `(i, j)`, run only when the boxes overlap.
pub open spec fn pair_resolved(ms: Seq<PolygonModel>, i: int, j: int) -> Seq<PolygonModel> {
    if i != j && ms[i].bounds.overlaps(ms[j].bounds) {
        vertices_resolved(ms, i, j, ms[j].particles.len())
    } else {
        ms
    }
}

/// The pairs `(i, 0) .. (i, j - 1)` resolved in order.
pub open spec fn row_resolved(ms: Seq<PolygonModel>, i: int, j: nat) -> Seq<PolygonModel>
    decreases j,
{
    if j == 0 {
        ms
    } else {
        pair_resolved(row_resolved(ms, i, (j - 1) as nat), i, j - 1)
    }
}

/// The rows `0 .. i - 1` resolved in order.
pub open spec fn rows_resolved(ms: Seq<PolygonModel>, i: nat) -> Seq<PolygonModel>
    decreases i,
{
    if i == 0 {
        ms
    } else {
        let prev = rows_resolved(ms, (i - 1) as nat);
        row_resolved(prev, i - 1, prev.len())
    }
}

/// The polygons with their contact records of the last step dropped.
pub open spec fn cleared(ms: Seq<PolygonModel>) -> Seq<PolygonModel> {
    ms.map_values(|m: PolygonModel| PolygonModel { collisions: Seq::empty(), ..m })
}

/// The collision stage: records cleared, then every ordered pair of
/// distinct polygons resolved in order.
pub open spec fn collisions_resolved(ms: Seq<PolygonModel>) -> Seq<PolygonModel> {
    rows_resolved(cleared(ms), ms.len())
}

/// Tests vertex `k` of polygon `j` against polygon `i` and resolves the
/// contact, if any.
fn resolve_vertex(polys: &mut Vec<Polygon>, i: usize, j: usize, k: usize)
    requires
        all_polygons_wf(models(old(polys)@)),
        i < old(polys)@.len(),
        j < old(polys)@.len(),
        i != j,
        k < old(polys)@[j as int]@.particles.len(),
    ensures
        models(final(polys)@) == vertex_resolved(models(old(polys)@), i as int, j as int, k as int),
        all_polygons_wf(models(final(polys)@)),
        final(polys)@.len() == old(polys)@.len(),
{
    let ghost ms = models(polys@);
    assert(ms[i as int].wf() && ms[j as int].wf());
    let p = polys[j].particles[k];
    assert(ms[j as int].particles[k as int].wf());
    if !point_inside(&polys[i].particles, p.pos) {
        return ;
    }
    let e = find_nearest_edge(&polys[i].particles, p.pos);
    let c = compute_contact(&polys[i].particles, polys[i].center, e, p, i, j, k);
    match c {
        None => {},
        Some(c) => {
            let n = polys[i].particles.len();
            let f: usize = if e + 1 == n {
                0
            } else {
                e + 1
            };
            proof {
                if e + 1 == n {
                    vstd::arithmetic::div_mod::lemma_mod_self_0(n as int);
                } else {
                    vstd::arithmetic::div_mod::lemma_small_mod((e + 1) as nat, n as nat);
                }
            }
            let pa = polys[i].particles[e];
            let pb = polys[i].particles[f];
            polys[i].particles.set(e, Particle { pos: c.new_a, ..pa });
            polys[i].particles.set(f, Particle { pos: c.new_b, ..pb });
            polys[i].collisions.push(c);
            let pp = polys[j].particles[k];
            polys[j].particles.set(k, Particle { pos: c.new_point, ..pp });
            proof {
                let r = vertex_resolved(ms, i as int, j as int, k as int);
                assert(models(polys@) =~= r);
                assert forall|m: int| 0 <= m < r.len() implies #[trigger] r[m].wf() by {
                    if m == i as int {
                        assert forall|q: int| 0 <= q < r[m].particles.len() implies #[trigger] r[m].particles[q].wf() by {
                            assert(ms[m].particles[q].wf());
                        }
                    } else if m == j as int {
                        assert forall|q: int| 0 <= q < r[m].particles.len() implies #[trigger] r[m].particles[q].wf() by {
                            assert(ms[m].particles[q].wf());
                        }
                    } else {
                        assert(ms[m].wf());
                    }
                }
            }
        },
    }
}

/// Runs the collision stage on `polys`: clears the contact records, then
/// for every ordered pair `(i, j)` of distinct polygons whose boxes overlap,
/// resolves each vertex of `j` that lies inside `i`.
pub fn resolve_collisions(polys: &mut Vec<Polygon>)
    requires
        all_polygons_wf(models(old(polys)@)),
    ensures
        models(final(polys)@) == collisions_resolved(models(old(polys)@)),
        all_polygons_wf(models(final(polys)@)),
        final(polys)@.len() == old(polys)@.len(),
{
    let ghost ms0 = models(polys@);
    let n = polys.len();
    let mut c: usize = 0;
    while c < n
        invariant
            n == polys@.len() == ms0.len(),
            c <= n,
            forall|m: int|
                0 <= m < c ==> #[trigger] polys@[m]@ == (PolygonModel {
                    collisions: Seq::empty(),
                    ..ms0[m]
                }),
            forall|m: int| c <= m < n ==> #[trigger] polys@[m]@ == ms0[m],
        decreases n - c,
    {
        polys[c].clear_collisions();
        assert(polys@[c as int]@ =~= (PolygonModel { collisions: Seq::empty(), ..ms0[c as int] }));
        c = c + 1;
    }
    let ghost start = models(polys@);
    assert(start =~= cleared(ms0)) by {
        assert forall|m: int| 0 <= m < n implies #[trigger] start[m] == cleared(ms0)[m] by {
            assert(polys@[m]@ == start[m]);
        }
    }
    assert(all_polygons_wf(start)) by {
        assert forall|m: int| 0 <= m < start.len() implies #[trigger] start[m].wf() by {
            assert(ms0[m].wf());
        }
    }
    let mut i: usize = 0;
    while i < n
        invariant
            n == polys@.len() == start.len(),
            i <= n,
            all_polygons_wf(models(polys@)),
            models(polys@) == rows_resolved(start, i as nat),
        decreases n - i,
    {
        let ghost row_start = models(polys@);
        let mut j: usize = 0;
        while j < n
            invariant
                n == polys@.len() == start.len(),
                i < n,
                j <= n,
                all_polygons_wf(models(polys@)),
                models(polys@) == row_resolved(row_start, i as int, j as nat),
            decreases n - j,
        {
            let ghost pair_start = models(polys@);
            assert(pair_start[i as int].wf() && pair_start[j as int].wf());
            if i != j && polys[i].bounds.overlap(&polys[j].bounds) {
                let len = polys[j].particles.len();
                let mut k: usize = 0;
                while k < len
                    invariant
                        n == polys@.len(),
                        i < n,
                        j < n,
                        i != j,
                        k <= len,
                        len == pair_start[j as int].particles.len(),
                        models(polys@)[j as int].particles.len() == len,
                        all_polygons_wf(models(polys@)),
                        models(polys@) == vertices_resolved(pair_start, i as int, j as int, k as nat),
                    decreases len - k,
                {
                    resolve_vertex(polys, i, j, k);
                    k = k + 1;
                }
            }
            j = j + 1;
        }
        i = i + 1;
    }
}

/// `x * y / d` has the sign of `x` when `y >= 0`, and is no larger than `x`
/// in magnitude when `y <= d`.
proof fn lemma_scaled(x: int, y: int, d: int)
    requires
        0 <= y,
        d > 0,
    ensures
        x >= 0 ==> tdiv(x * y, d) >= 0,
        x <= 0 ==> tdiv(x * y, d) <= 0,
        y <= d ==> abs(tdiv(x * y, d)) <= abs(x),
{
    if x >= 0 {
        assert(x * y >= 0) by (nonlinear_arith)
            requires
                x >= 0,
                y >= 0,
        ;
    } else {
        assert(x * y <= 0) by (nonlinear_arith)
            requires
                x < 0,
                y >= 0,
        ;
    }
    lemma_div_bounds(x * y, d);
    if y <= d {
        lemma_mul_div_bound(x, y, d);
    }
}

pub proof fn lemma_same_sign_product(u: int, v: int)
    requires
        (v >= 0 ==> u >= 0) && (v <= 0 ==> u <= 0),
    ensures
        u * v >= 0,
{
    if v >= 0 {
        assert(u * v >= 0) by (nonlinear_arith)
            requires
                u >= 0,
                v >= 0,
        ;
    } else {
        assert(u * v >= 0) by (nonlinear_arith)
            requires
                u <= 0,
                v < 0,
        ;
    }
}

/// The values that a resolved contact records, before any cast.
proof fn lemma_resolved_fields(
    a: Particle,
    b: Particle,
    p: Particle,
    nx: int,
    ny: int,
    l: int,
    depth: int,
    da: int,
    i: int,
    j: int,
    e: int,
    k: int,
)
    requires
        a.wf(),
        b.wf(),
        p.wf(),
        0 < l <= 0x800_0000_0000,
        abs(nx) <= l,
        abs(ny) <= l,
        0 < depth <= MAX_LEN,
        0 <= da <= l,
        contact_weight(a, b, p, influences(l, da).0, influences(l, da).1) > 0,
    ensures
        ({
            let c = resolved(a, b, p, nx, ny, l, depth, da, i, j, e, k);
            let ia = influences(l, da).0;
            let ib = influences(l, da).1;
            let w = contact_weight(a, b, p, ia, ib);
            let px = tdiv(depth * nx, l);
            let py = tdiv(depth * ny, l);
            let mp = p.inverse_mass * (ONE * ONE);
            let ma = ia * a.inverse_mass * ONE;
            let mb = ib * b.inverse_mass * ONE;
            &&& c.normal.x == nx && c.normal.y == ny
            &&& c.depth == depth && c.dist_a_to_b == l
            &&& c.point_a == a && c.point == p
            &&& c.influence_a == ia && c.influence_b == ib
            &&& 0 <= ia <= ONE && 0 <= ib <= ONE
            &&& abs(px) <= depth && abs(py) <= depth
            &&& 0 <= mp <= w && 0 <= ma <= ONE * w && 0 <= mb <= ONE * w
            &&& c.displace_point.x == -tdiv(px * mp, w) && c.displace_point.y == -tdiv(py * mp, w)
            &&& c.displacement_a.x == tdiv(px * ma, w) && c.displacement_a.y == tdiv(py * ma, w)
            &&& c.displacement_b.x == tdiv(px * mb, w) && c.displacement_b.y == tdiv(py * mb, w)
        }),
{
    let ia = influences(l, da).0;
    let ib = influences(l, da).1;
    let w = contact_weight(a, b, p, ia, ib);
    lemma_div_bounds((l - da) * ONE, l);
    lemma_div_bounds(da * ONE, l);
    lemma_mul_div_bound(ONE as int, l - da, l);
    lemma_mul_div_bound(ONE as int, da, l);
    assert(ONE * (l - da) == (l - da) * ONE && ONE * da == da * ONE) by (nonlinear_arith);
    let px = tdiv(depth * nx, l);
    let py = tdiv(depth * ny, l);
    lemma_mul_div_bound(depth, nx, l);
    lemma_mul_div_bound(depth, ny, l);
    let mp = p.inverse_mass * (ONE * ONE);
    let ma = ia * a.inverse_mass * ONE;
    let mb = ib * b.inverse_mass * ONE;
    assert(ia * ia * a.inverse_mass >= 0 && ib * ib * b.inverse_mass >= 0 && ma >= 0 && mb >= 0)
        by (nonlinear_arith)
        requires
            ia >= 0,
            ib >= 0,
            a.inverse_mass >= 0,
            b.inverse_mass >= 0,
            ma == ia * a.inverse_mass * ONE,
            mb == ib * b.inverse_mass * ONE,
    ;
    assert(ma <= ONE * w) by (nonlinear_arith)
        requires
            ma == ia * a.inverse_mass * ONE,
            w >= ia * ia * a.inverse_mass,
            0 <= ia,
            0 <= a.inverse_mass,
    ;
    assert(mb <= ONE * w) by (nonlinear_arith)
        requires
            mb == ib * b.inverse_mass * ONE,
            w >= ib * ib * b.inverse_mass,
            0 <= ib,
            0 <= b.inverse_mass,
    ;
    lemma_share_bound(px, mp, w);
    lemma_share_bound(py, mp, w);
    lemma_share_bound(px, ma, w);
    lemma_share_bound(py, ma, w);
    lemma_share_bound(px, mb, w);
    lemma_share_bound(py, mb, w);
    assert(abs(px) * ONE <= MAX_LEN * ONE);
    assert(abs(py) * ONE <= MAX_LEN * ONE);
}

/// Contacts push apart: the penetrating vertex is displaced against the
/// edge's inward normal and both edge endpoints along it, so no displacement
/// deepens the penetration. The depth is positive and the influences of the
/// two endpoints are fractions of one.
pub proof fn lemma_contact_separates(
    ps: Seq<Particle>,
    center: Vec2,
    e: int,
    p: Particle,
    i: int,
    j: int,
    k: int,
)
    requires
        all_wf(ps),
        0 <= e < ps.len(),
        p.wf(),
        contact(ps, center, e, p, i, j, k) is Some,
    ensures
        ({
            let c = contact(ps, center, e, p, i, j, k)->0;
            &&& c.depth > 0
            &&& 0 <= c.influence_a <= ONE
            &&& 0 <= c.influence_b <= ONE
            &&& c.displace_point.x * c.normal.x + c.displace_point.y * c.normal.y <= 0
            &&& c.displacement_a.x * c.normal.x + c.displacement_a.y * c.normal.y >= 0
            &&& c.displacement_b.x * c.normal.x + c.displacement_b.y * c.normal.y >= 0
        }),
{
    let (a, b, nx, ny, l, depth, da) = lemma_contact_unfold(ps, center, e, p, i, j, k);
    lemma_resolved_fields(a, b, p, nx, ny, l, depth, da, i, j, e, k);
    let ia = influences(l, da).0;
    let ib = influences(l, da).1;
    let w = contact_weight(a, b, p, ia, ib);
    let px = tdiv(depth * nx, l);
    let py = tdiv(depth * ny, l);
    assert(depth * nx == nx * depth && depth * ny == ny * depth) by (nonlinear_arith);
    lemma_scaled(nx, depth, l);
    lemma_scaled(ny, depth, l);
    let mp = p.inverse_mass * (ONE * ONE);
    let ma = ia * a.inverse_mass * ONE;
    let mb = ib * b.inverse_mass * ONE;
    let qx = tdiv(px * mp, w);
    let qy = tdiv(py * mp, w);
    lemma_scaled(px, mp, w);
    lemma_scaled(py, mp, w);
    lemma_same_sign_product(qx, nx);
    lemma_same_sign_product(qy, ny);
    lemma_scaled(px, ma, w);
    lemma_scaled(py, ma, w);
    lemma_scaled(px, mb, w);
    lemma_scaled(py, mb, w);
    lemma_same_sign_product(tdiv(px * ma, w), nx);
    lemma_same_sign_product(tdiv(py * ma, w), ny);
    lemma_same_sign_product(tdiv(px * mb, w), nx);
    lemma_same_sign_product(tdiv(py * mb, w), ny);
    assert((-qx) * nx == -(qx * nx) && (-qy) * ny == -(qy * ny)) by (nonlinear_arith);
}

/// The quantities behind a contact that exists: its edge, normal, length,
/// depth and projection, with their ranges.
proof fn lemma_contact_unfold(
    ps: Seq<Particle>,
    center: Vec2,
    e: int,
    p: Particle,
    i: int,
    j: int,
    k: int,
) -> (r: (Particle, Particle, int, int, int, int, int))
    requires
        all_wf(ps),
        0 <= e < ps.len(),
        p.wf(),
        contact(ps, center, e, p, i, j, k) is Some,
    ensures
        ({
            let (a, b, nx, ny, l, depth, da) = r;
            &&& a == ps[e] && b == ps[(e + 1) % (ps.len() as int)]
            &&& a.wf() && b.wf()
            &&& l == dist(a.pos, b.pos)
            &&& 0 < l <= 0x800_0000_0000
            &&& (nx, ny) == inward_normal(a.pos, b.pos, center)
            &&& abs(nx) <= l && abs(ny) <= l
            &&& nx * nx + ny * ny == (b.pos.x - a.pos.x) * (b.pos.x - a.pos.x) + (b.pos.y - a.pos.y)
                * (b.pos.y - a.pos.y)
            &&& l * l <= nx * nx + ny * ny
            &&& depth == clamp(
                tdiv(nx * (p.pos.x - a.pos.x) + ny * (p.pos.y - a.pos.y), l),
                -MAX_LEN as int,
                MAX_LEN as int,
            )
            &&& 0 < depth <= MAX_LEN
            &&& 0 <= da <= l
            &&& contact_weight(a, b, p, influences(l, da).0, influences(l, da).1) > 0
            &&& contact(ps, center, e, p, i, j, k)->0 == resolved(a, b, p, nx, ny, l, depth, da, i, j, e, k)
        }),
{
    let n = ps.len() as int;
    let f = (e + 1) % n;
    vstd::arithmetic::div_mod::lemma_mod_pos_bound(e + 1, n);
    let a = ps[e];
    let b = ps[f];
    assert(a.wf() && b.wf());
    let l = dist(a.pos, b.pos);
    lemma_dist_bounds(a.pos, b.pos);
    let ux = b.pos.x - a.pos.x;
    let uy = b.pos.y - a.pos.y;
    assert(ux * ux <= 4 * LIMIT * LIMIT && uy * uy <= 4 * LIMIT * LIMIT) by (nonlinear_arith)
        requires
            abs(ux) <= 2 * LIMIT,
            abs(uy) <= 2 * LIMIT,
    ;
    assert(ux * ux >= 0 && uy * uy >= 0) by (nonlinear_arith);
    crate::fixed::lemma_floor_sqrt_bound((ux * ux + uy * uy) as nat);
    crate::fixed::lemma_floor_sqrt((ux * ux + uy * uy) as nat);
    let nrm = inward_normal(a.pos, b.pos, center);
    let nx = nrm.0;
    let ny = nrm.1;
    assert(nx * nx + ny * ny == ux * ux + uy * uy) by (nonlinear_arith)
        requires
            (nx == uy && ny == -ux) || (nx == -uy && ny == ux),
    ;
    let vx = p.pos.x - a.pos.x;
    let vy = p.pos.y - a.pos.y;
    let depth = clamp(tdiv(nx * vx + ny * vy, l), -MAX_LEN as int, MAX_LEN as int);
    let da = clamp(tdiv(ux * vx + uy * vy, l), 0, l);
    (a, b, nx, ny, l, depth, da)
}
/// Truncating division leaves a remainder smaller than the divisor, of the
/// sign of the dividend.
proof fn lemma_tdiv_rem(x: int, d: int)
    requires
        d > 0,
    ensures
        x >= 0 ==> 0 <= x - tdiv(x, d) * d < d,
        x < 0 ==> -d < x - tdiv(x, d) * d <= 0,
{
    let m = abs(x);
    vstd::arithmetic::div_mod::lemma_fundamental_div_mod(m, d);
    vstd::arithmetic::div_mod::lemma_mod_pos_bound(m, d);
    assert(m == (m / d) * d + m % d) by (nonlinear_arith)
        requires
            m == d * (m / d) + m % d,
    ;
    if x < 0 {
        assert(tdiv(x, d) * d == -((m / d) * d)) by (nonlinear_arith)
            requires
                tdiv(x, d) == -(m / d),
        ;
    }
}

/// `n * (n * depth / l) * l >= depth * n * n - |n| * l` for `depth > 0`.
proof fn lemma_component_pull(n: int, depth: int, l: int)
    requires
        depth > 0,
        l > 0,
    ensures
        n * tdiv(depth * n, l) * l >= depth * (n * n) - abs(n) * l,
{
    let q = tdiv(depth * n, l);
    lemma_tdiv_rem(depth * n, l);
    if n >= 0 {
        assert(depth * n >= 0) by (nonlinear_arith)
            requires
                depth > 0,
                n >= 0,
        ;
        assert(n * q * l >= depth * (n * n) - abs(n) * l) by (nonlinear_arith)
            requires
                0 <= depth * n - q * l < l,
                n >= 0,
                abs(n) == n,
        ;
    } else {
        assert(depth * n < 0) by (nonlinear_arith)
            requires
                depth > 0,
                n < 0,
        ;
        assert(n * q * l >= depth * (n * n) - abs(n) * l) by (nonlinear_arith)
            requires
                -l < depth * n - q * l <= 0,
                n < 0,
                abs(n) == -n,
        ;
    }
}

/// How far the vertex of a resolved contact lies past its displaced edge,
/// along the edge's inward normal, scaled by `ONE` and by the normal's
/// length `dist_a_to_b`. The displaced edge is taken at the contact: the
/// intersection point moved by the endpoints' displacements weighted by
/// their influences.
pub open spec fn residual(c: Collision) -> int {
    let n = c.normal;
    let a = c.point_a.pos;
    let p = c.point.pos;
    (n.x * (p.x + c.displace_point.x - a.x) + n.y * (p.y + c.displace_point.y - a.y)) * ONE
        - c.influence_a * (n.x * c.displacement_a.x + n.y * c.displacement_a.y) - c.influence_b * (n.x
        * c.displacement_b.x + n.y * c.displacement_b.y)
}

/// A dot product with quotients, from the dividends and the remainders.
proof fn lemma_dot_rem(nx: int, ny: int, px: int, py: int, qx: int, qy: int, m: int, w: int)
    ensures
        (nx * qx + ny * qy) * w == (nx * px + ny * py) * m - (nx * (px * m - qx * w) + ny * (py * m
            - qy * w)),
{
    assert(nx * (px * m - qx * w) == nx * px * m - nx * qx * w) by (nonlinear_arith);
    assert(ny * (py * m - qy * w) == ny * py * m - ny * qy * w) by (nonlinear_arith);
    assert((nx * qx + ny * qy) * w == nx * qx * w + ny * qy * w) by (nonlinear_arith);
    assert((nx * px + ny * py) * m == nx * px * m + ny * py * m) by (nonlinear_arith);
}

/// The residual multiplied by `w`, from its parts multiplied by `w`.
proof fn lemma_residual_expand(
    res: int,
    dd: int,
    xq: int,
    xa: int,
    xb: int,
    ia: int,
    ib: int,
    w: int,
    yq: int,
    ya: int,
    yb: int,
)
    requires
        res == (dd - xq) * ONE - ia * xa - ib * xb,
        xq * w == yq,
        xa * w == ya,
        xb * w == yb,
    ensures
        res * w == dd * w * ONE - ONE * yq - ia * ya - ib * yb,
{
    assert(res * w == (dd - xq) * ONE * w - ia * xa * w - ib * xb * w) by (nonlinear_arith)
        requires
            res == (dd - xq) * ONE - ia * xa - ib * xb,
    ;
    assert((dd - xq) * ONE * w == dd * w * ONE - ONE * (xq * w)) by (nonlinear_arith);
    assert(ia * xa * w == ia * (xa * w)) by (nonlinear_arith);
    assert(ib * xb * w == ib * (xb * w)) by (nonlinear_arith);
}

/// Factoring the penetration out of the three weighted shares.
proof fn lemma_factor(pull: int, mp: int, ma: int, mb: int, ia: int, ib: int, w1: int)
    requires
        w1 == mp * ONE + ia * ma + ib * mb,
    ensures
        ONE * (pull * mp) + ia * (pull * ma) + ib * (pull * mb) == pull * w1,
{
    assert(pull * w1 == pull * (mp * ONE) + pull * (ia * ma) + pull * (ib * mb)) by (nonlinear_arith)
        requires
            w1 == mp * ONE + ia * ma + ib * mb,
    ;
    assert(ONE * (pull * mp) == pull * (mp * ONE)) by (nonlinear_arith);
    assert(ia * (pull * ma) == pull * (ia * ma)) by (nonlinear_arith);
    assert(ib * (pull * mb) == pull * (ib * mb)) by (nonlinear_arith);
}

/// `|n * r| <= |n| * w` when `|r| < w`.
proof fn lemma_rem_product(n: int, r: int, w: int)
    requires
        abs(r) < w,
    ensures
        abs(n * r) <= abs(n) * w,
{
    assert(abs(n * r) == abs(n) * abs(r)) by (nonlinear_arith);
    assert(abs(n) * abs(r) <= abs(n) * w) by (nonlinear_arith)
        requires
            abs(r) < w,
    ;
}

/// Non-penetration: after a contact is resolved, the vertex lies on the
/// displaced edge or outside it, up to the rounding of fixed point: less
/// than nine raw units inside it (`residual(c) < 9 * ONE * dist_a_to_b`),
/// whatever the inverse masses, provided the depth was below its cap
/// `MAX_LEN`.
pub proof fn lemma_contact_closes(
    ps: Seq<Particle>,
    center: Vec2,
    e: int,
    p: Particle,
    i: int,
    j: int,
    k: int,
)
    requires
        all_wf(ps),
        0 <= e < ps.len(),
        p.wf(),
        contact(ps, center, e, p, i, j, k) is Some,
        contact(ps, center, e, p, i, j, k)->0.depth < MAX_LEN,
    ensures
        residual(contact(ps, center, e, p, i, j, k)->0) < 9 * ONE * contact(
            ps,
            center,
            e,
            p,
            i,
            j,
            k,
        )->0.dist_a_to_b,
{
    let (a, b, nx, ny, l, depth, da) = lemma_contact_unfold(ps, center, e, p, i, j, k);
    lemma_resolved_fields(a, b, p, nx, ny, l, depth, da, i, j, e, k);
    let c = contact(ps, center, e, p, i, j, k)->0;
    let ia = influences(l, da).0;
    let ib = influences(l, da).1;
    let w = contact_weight(a, b, p, ia, ib);
    let vx = p.pos.x - a.pos.x;
    let vy = p.pos.y - a.pos.y;
    let dd = nx * vx + ny * vy;
    // The cap did not bind: the depth is the truncated quotient, and the
    // scaled depth `dd` is less than `(depth + 1) * l`.
    assert(depth == tdiv(dd, l));
    lemma_tdiv_rem(dd, l);
    lemma_div_bounds(dd, l);
    assert(dd < (depth + 1) * l) by (nonlinear_arith)
        requires
            0 <= dd - depth * l < l,
    ;
    // The penetration vector along the normal: `pull >= depth * l - 2 * l`.
    let px = tdiv(depth * nx, l);
    let py = tdiv(depth * ny, l);
    lemma_component_pull(nx, depth, l);
    lemma_component_pull(ny, depth, l);
    let pull = nx * px + ny * py;
    assert(pull * l == nx * px * l + ny * py * l) by (nonlinear_arith)
        requires
            pull == nx * px + ny * py,
    ;
    assert(depth * (nx * nx) + depth * (ny * ny) >= depth * (l * l)) by (nonlinear_arith)
        requires
            l * l <= nx * nx + ny * ny,
            depth > 0,
    ;
    assert(abs(nx) * l + abs(ny) * l <= 2 * (l * l)) by (nonlinear_arith)
        requires
            abs(nx) <= l,
            abs(ny) <= l,
            l > 0,
    ;
    assert(pull >= depth * l - 2 * l) by (nonlinear_arith)
        requires
            pull * l >= depth * (l * l) - 2 * (l * l),
            l > 0,
    ;
    // The displacements, with their rounding remainders.
    let mp = p.inverse_mass * (ONE * ONE);
    let ma = ia * a.inverse_mass * ONE;
    let mb = ib * b.inverse_mass * ONE;
    assert(w * ONE == mp * ONE + ia * ma + ib * mb) by (nonlinear_arith)
        requires
            w == p.inverse_mass * (ONE * ONE) + ia * ia * a.inverse_mass + ib * ib * b.inverse_mass,
            mp == p.inverse_mass * (ONE * ONE),
            ma == ia * a.inverse_mass * ONE,
            mb == ib * b.inverse_mass * ONE,
    ;
    let qx = tdiv(px * mp, w);
    let qy = tdiv(py * mp, w);
    let ax = tdiv(px * ma, w);
    let ay = tdiv(py * ma, w);
    let bx = tdiv(px * mb, w);
    let by = tdiv(py * mb, w);
    lemma_tdiv_rem(px * mp, w);
    lemma_tdiv_rem(py * mp, w);
    lemma_tdiv_rem(px * ma, w);
    lemma_tdiv_rem(py * ma, w);
    lemma_tdiv_rem(px * mb, w);
    lemma_tdiv_rem(py * mb, w);
    let rqx = px * mp - qx * w;
    let rqy = py * mp - qy * w;
    let rax = px * ma - ax * w;
    let ray = py * ma - ay * w;
    let rbx = px * mb - bx * w;
    let rby = py * mb - by * w;
    assert(abs(rqx) < w && abs(rqy) < w && abs(rax) < w && abs(ray) < w && abs(rbx) < w && abs(rby) < w);
    let eq = nx * rqx + ny * rqy;
    let ea = nx * rax + ny * ray;
    let eb = nx * rbx + ny * rby;
    lemma_rem_product(nx, rqx, w);
    lemma_rem_product(ny, rqy, w);
    lemma_rem_product(nx, rax, w);
    lemma_rem_product(ny, ray, w);
    lemma_rem_product(nx, rbx, w);
    lemma_rem_product(ny, rby, w);
    assert(abs(eq) <= 2 * l * w && abs(ea) <= 2 * l * w && abs(eb) <= 2 * l * w) by (nonlinear_arith)
        requires
            eq == nx * rqx + ny * rqy,
            ea == nx * rax + ny * ray,
            eb == nx * rbx + ny * rby,
            abs(nx * rqx) <= abs(nx) * w,
            abs(ny * rqy) <= abs(ny) * w,
            abs(nx * rax) <= abs(nx) * w,
            abs(ny * ray) <= abs(ny) * w,
            abs(nx * rbx) <= abs(nx) * w,
            abs(ny * rby) <= abs(ny) * w,
            abs(nx) <= l,
            abs(ny) <= l,
            w > 0,
    ;
    // Each displacement, dotted with the normal and multiplied by `w`.
    let xq = nx * qx + ny * qy;
    let xa = nx * ax + ny * ay;
    let xb = nx * bx + ny * by;
    lemma_dot_rem(nx, ny, px, py, qx, qy, mp, w);
    lemma_dot_rem(nx, ny, px, py, ax, ay, ma, w);
    lemma_dot_rem(nx, ny, px, py, bx, by, mb, w);
    // The residual, multiplied by `w`.
    let res = (dd - xq) * ONE - ia * xa - ib * xb;
    assert(residual(c) == res) by (nonlinear_arith)
        requires
            residual(c) == (nx * (p.pos.x + (-qx) - a.pos.x) + ny * (p.pos.y + (-qy) - a.pos.y)) * ONE
                - ia * (nx * ax + ny * ay) - ib * (nx * bx + ny * by),
            dd == nx * vx + ny * vy,
            vx == p.pos.x - a.pos.x,
            vy == p.pos.y - a.pos.y,
            xq == nx * qx + ny * qy,
            xa == nx * ax + ny * ay,
            xb == nx * bx + ny * by,
            res == (dd - xq) * ONE - ia * xa - ib * xb,
    ;
    lemma_residual_expand(res, dd, xq, xa, xb, ia, ib, w, pull * mp - eq, pull * ma - ea, pull * mb - eb);
    lemma_factor(pull, mp, ma, mb, ia, ib, w * ONE);
    assert(res * w == (dd - pull) * w * ONE + ONE * eq + ia * ea + ib * eb) by (nonlinear_arith)
        requires
            res * w == dd * w * ONE - ONE * (pull * mp - eq) - ia * (pull * ma - ea) - ib * (pull * mb
                - eb),
            ONE * (pull * mp) + ia * (pull * ma) + ib * (pull * mb) == pull * (w * ONE),
    ;
    assert(ONE * eq + ia * ea + ib * eb <= 6 * ONE * l * w) by (nonlinear_arith)
        requires
            abs(eq) <= 2 * l * w,
            abs(ea) <= 2 * l * w,
            abs(eb) <= 2 * l * w,
            0 <= ia <= ONE,
            0 <= ib <= ONE,
    ;
    assert((dd - pull) * w * ONE < 3 * l * w * ONE) by (nonlinear_arith)
        requires
            dd - pull < 3 * l,
            w > 0,
    ;
    assert(3 * l * w * ONE + 6 * ONE * l * w == 9 * ONE * l * w) by (nonlinear_arith);
    assert(res * w < 9 * ONE * l * w);
    assert(res < 9 * ONE * l) by (nonlinear_arith)
        requires
            res * w < 9 * ONE * l * w,
            w > 0,
    ;
}

} // verus!
