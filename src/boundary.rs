//! The last stage of a step: static lines and the world bound.
use vstd::prelude::*;
use crate::fixed::{abs, clamp, clamp_i64, LIMIT};
use crate::particle::{Particle, Vec2};
use crate::polygon::Bounds;

verus! {

/// An immovable line segment that particles bounce off.
#[derive(Clone, Copy, Debug, PartialEq, Eq, Structural)]
pub struct Segment {
    pub a: Vec2,
    pub b: Vec2,
}

impl Segment {
    pub open spec fn wf(self) -> bool {
        self.a.in_limit() && self.b.in_limit()
    }

    pub fn new(a: Vec2, b: Vec2) -> (r: Segment)
        ensures
            r.a == a,
            r.b == b,
    {
        Segment { a, b }
    }
}

/// Twice the signed area of the triangle `(a, b, c)`.
pub open spec fn orient(a: Vec2, b: Vec2, c: Vec2) -> int {
    (b.x - a.x) * (c.y - a.y) - (b.y - a.y) * (c.x - a.x)
}

pub open spec fn opposite(u: int, v: int) -> bool {
    (u > 0 && v < 0) || (u < 0 && v > 0)
}

/// The segments `(p, q)` and `(a, b)` cross at a single interior point.
pub open spec fn segments_cross(p: Vec2, q: Vec2, a: Vec2, b: Vec2) -> bool {
    opposite(orient(a, b, p), orient(a, b, q)) && opposite(orient(p, q, a), orient(p, q, b))
}

/// `p` after meeting a line: when its last move crossed the line, the move
/// is reversed (position and previous position swap).
pub open spec fn bounced(p: Particle, s: Segment) -> Particle {
    if segments_cross(p.prev_pos, p.pos, s.a, s.b) {
        Particle { pos: p.prev_pos, prev_pos: p.pos, ..p }
    } else {
        p
    }
}

/// `p` after the first `k` lines, in order.
pub open spec fn lines_bounced(p: Particle, ls: Seq<Segment>, k: nat) -> Particle
    decreases k,
{
    if k == 0 {
        p
    } else {
        bounced(lines_bounced(p, ls, (k - 1) as nat), ls[k - 1])
    }
}

/// `p` with its position clamped into the rectangle `b`.
pub open spec fn clamped(p: Particle, b: Bounds) -> Particle {
    Particle {
        pos: Vec2 {
            x: clamp(p.pos.x as int, b.pos.x as int, b.pos.x + b.size.x) as i64,
            y: clamp(p.pos.y as int, b.pos.y as int, b.pos.y + b.size.y) as i64,
        },
        ..p
    }
}

/// The last stage for one particle: the static lines, then the bound.
pub open spec fn finished(p: Particle, ls: Seq<Segment>, b: Bounds) -> Particle {
    clamped(lines_bounced(p, ls, ls.len()), b)
}

pub open spec fn all_finished(ps: Seq<Particle>, ls: Seq<Segment>, b: Bounds) -> Seq<Particle> {
    ps.map_values(|p: Particle| finished(p, ls, b))
}

fn orientation(a: Vec2, b: Vec2, c: Vec2) -> (r: i128)
    requires
        a.in_limit(),
        b.in_limit(),
        c.in_limit(),
    ensures
        r == orient(a, b, c),
{
    let ux: i128 = b.x as i128 - a.x as i128;
    let uy: i128 = b.y as i128 - a.y as i128;
    let vx: i128 = c.x as i128 - a.x as i128;
    let vy: i128 = c.y as i128 - a.y as i128;
    assert(abs(ux * vy) <= 4 * LIMIT * LIMIT) by (nonlinear_arith)
        requires
            abs(ux as int) <= 2 * LIMIT,
            abs(vy as int) <= 2 * LIMIT,
    ;
    assert(abs(uy * vx) <= 4 * LIMIT * LIMIT) by (nonlinear_arith)
        requires
            abs(uy as int) <= 2 * LIMIT,
            abs(vx as int) <= 2 * LIMIT,
    ;
    ux * vy - uy * vx
}

fn signs_differ(u: i128, v: i128) -> (r: bool)
    ensures
        r == opposite(u as int, v as int),
{
    (u > 0 && v < 0) || (u < 0 && v > 0)
}

/// Whether the segments `(p, q)` and `(a, b)` cross.
pub fn cross(p: Vec2, q: Vec2, a: Vec2, b: Vec2) -> (r: bool)
    requires
        p.in_limit(),
        q.in_limit(),
        a.in_limit(),
        b.in_limit(),
    ensures
        r == segments_cross(p, q, a, b),
{
    let o1 = orientation(a, b, p);
    let o2 = orientation(a, b, q);
    let o3 = orientation(p, q, a);
    let o4 = orientation(p, q, b);
    signs_differ(o1, o2) && signs_differ(o3, o4)
}

/// The last stage for one particle.
pub fn finish(p: Particle, ls: &Vec<Segment>, b: Bounds) -> (r: Particle)
    requires
        p.wf(),
        b.wf(),
        forall|i: int| 0 <= i < ls@.len() ==> #[trigger] ls@[i].wf(),
    ensures
        r == finished(p, ls@, b),
        r.wf(),
        b.contains(r.pos),
{
    let mut q = p;
    let mut i: usize = 0;
    while i < ls.len()
        invariant
            i <= ls@.len(),
            q.wf(),
            q == lines_bounced(p, ls@, i as nat),
            forall|m: int| 0 <= m < ls@.len() ==> #[trigger] ls@[m].wf(),
        decreases ls@.len() - i,
    {
        let s = ls[i];
        assert(ls@[i as int].wf());
        if cross(q.prev_pos, q.pos, s.a, s.b) {
            q = Particle { pos: q.prev_pos, prev_pos: q.pos, ..q };
        }
        i = i + 1;
    }
    let x = clamp_i64(q.pos.x, b.pos.x, b.pos.x + b.size.x);
    let y = clamp_i64(q.pos.y, b.pos.y, b.pos.y + b.size.y);
    Particle { pos: Vec2 { x, y }, ..q }
}

/// Runs the last stage on every particle of `ps`.
pub fn finish_all(ps: &mut Vec<Particle>, ls: &Vec<Segment>, b: Bounds)
    requires
        forall|i: int| 0 <= i < old(ps)@.len() ==> #[trigger] old(ps)@[i].wf(),
        b.wf(),
        forall|i: int| 0 <= i < ls@.len() ==> #[trigger] ls@[i].wf(),
    ensures
        final(ps)@ == all_finished(old(ps)@, ls@, b),
        forall|i: int| 0 <= i < final(ps)@.len() ==> #[trigger] final(ps)@[i].wf(),
{
    let ghost start = ps@;
    let n = ps.len();
    let mut i: usize = 0;
    while i < n
        invariant
            n == ps@.len() == start.len(),
            i <= n,
            forall|m: int| 0 <= m < i ==> #[trigger] ps@[m] == finished(start[m], ls@, b),
            forall|m: int| i <= m < n ==> #[trigger] ps@[m] == start[m],
            forall|m: int| 0 <= m < n ==> #[trigger] ps@[m].wf(),
            b.wf(),
            forall|m: int| 0 <= m < ls@.len() ==> #[trigger] ls@[m].wf(),
        decreases n - i,
    {
        let p = finish(ps[i], ls, b);
        ps.set(i, p);
        i = i + 1;
    }
    assert(ps@ =~= all_finished(start, ls@, b));
}

} // verus!
