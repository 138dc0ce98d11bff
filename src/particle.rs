//! Points of the simulation and their Verlet integration.
use vstd::prelude::*;
use crate::fixed::{abs, sat, saturate, tdiv, LIMIT, MAX_INV_MASS, ONE};

verus! {

/// Largest step duration accepted by the integrator (raw, 16 seconds).
pub const MAX_DT: i64 = 1048576;

/// A 2D vector of fixed-point coordinates.
#[derive(Clone, Copy, Debug, PartialEq, Eq, Structural)]
pub struct Vec2 {
    pub x: i64,
    pub y: i64,
}

impl Vec2 {
    /// Both coordinates lie in `[-LIMIT, LIMIT]`.
    pub open spec fn in_limit(self) -> bool {
        abs(self.x as int) <= LIMIT && abs(self.y as int) <= LIMIT
    }

    pub fn new(x: i64, y: i64) -> (r: Vec2)
        ensures
            r.x == x,
            r.y == y,
    {
        Vec2 { x, y }
    }

    /// Whether both coordinates lie in `[-LIMIT, LIMIT]`.
    pub fn is_in_limit(&self) -> (r: bool)
        ensures
            r == self.in_limit(),
    {
        -LIMIT <= self.x && self.x <= LIMIT && -LIMIT <= self.y && self.y <= LIMIT
    }

    pub fn zero() -> (r: Vec2)
        ensures
            r.x == 0,
            r.y == 0,
    {
        Vec2 { x: 0, y: 0 }
    }
}

/// The vector with both coordinates saturated to the coordinate range.
pub open spec fn sat_vec(x: int, y: int) -> Vec2 {
    Vec2 { x: sat(x) as i64, y: sat(y) as i64 }
}

pub fn saturate_vec(x: i128, y: i128) -> (r: Vec2)
    ensures
        r == sat_vec(x as int, y as int),
        r.in_limit(),
{
    Vec2 { x: saturate(x), y: saturate(y) }
}

/// A point mass. Its velocity is implicit: `pos - prev_pos` per step.
#[derive(Clone, Copy, Debug, PartialEq, Eq, Structural)]
pub struct Particle {
    pub pos: Vec2,
    pub prev_pos: Vec2,
    /// Inverse mass in fixed point; zero makes the particle static.
    pub inverse_mass: i64,
}

impl Particle {
    /// Coordinates within the limit and an inverse mass in `[0, MAX_INV_MASS]`.
    pub open spec fn wf(self) -> bool {
        &&& self.pos.in_limit()
        &&& self.prev_pos.in_limit()
        &&& 0 <= self.inverse_mass <= MAX_INV_MASS
    }

    /// A particle at rest at `pos` with mass 1.
    pub fn new(pos: Vec2) -> (r: Particle)
        ensures
            r.pos == pos,
            r.prev_pos == pos,
            r.inverse_mass == ONE,
    {
        Particle { pos, prev_pos: pos, inverse_mass: ONE }
    }

    /// A particle at rest at `pos` with the given inverse mass.
    pub fn with_inverse_mass(pos: Vec2, inverse_mass: i64) -> (r: Particle)
        ensures
            r.pos == pos,
            r.prev_pos == pos,
            r.inverse_mass == inverse_mass,
    {
        Particle { pos, prev_pos: pos, inverse_mass }
    }

    /// Whether the particle is well formed.
    pub fn is_valid(&self) -> (r: bool)
        ensures
            r == self.wf(),
    {
        self.pos.is_in_limit() && self.prev_pos.is_in_limit() && 0 <= self.inverse_mass
            && self.inverse_mass <= MAX_INV_MASS
    }

    pub open spec fn is_static(self) -> bool {
        self.inverse_mass == 0
    }
}

/// Displacement that gravity `g` adds over a step of `dt`: `g * dt^2`.
pub open spec fn gravity_offset(g: int, dt: int) -> int {
    tdiv(g * dt * dt, ONE * ONE)
}

/// Verlet step: `pos' = pos + (pos - prev_pos) + g * dt^2`, `prev_pos' = pos`.
/// Static particles do not move.
pub open spec fn integrated(p: Particle, g: Vec2, dt: int) -> Particle {
    if p.inverse_mass == 0 {
        p
    } else {
        Particle {
            pos: sat_vec(
                2 * p.pos.x - p.prev_pos.x + gravity_offset(g.x as int, dt),
                2 * p.pos.y - p.prev_pos.y + gravity_offset(g.y as int, dt),
            ),
            prev_pos: p.pos,
            inverse_mass: p.inverse_mass,
        }
    }
}

pub fn gravity_step(g: i64, dt: i64) -> (r: i128)
    requires
        abs(g as int) <= LIMIT,
        0 <= dt <= MAX_DT,
    ensures
        r == gravity_offset(g as int, dt as int),
        abs(r as int) <= LIMIT * MAX_DT * MAX_DT,
{
    assert(abs(g * dt * dt) <= LIMIT * MAX_DT * MAX_DT) by (nonlinear_arith)
        requires
            abs(g as int) <= LIMIT,
            0 <= dt <= MAX_DT,
    ;
    assert(abs(g * dt) <= LIMIT * MAX_DT) by (nonlinear_arith)
        requires
            abs(g as int) <= LIMIT,
            0 <= dt <= MAX_DT,
    ;
    let gd: i128 = (g as i128) * (dt as i128);
    let p: i128 = gd * (dt as i128);
    proof {
        crate::fixed::lemma_div_bounds(p as int, ONE * ONE);
    }
    crate::fixed::div_trunc(p, (ONE as i128) * (ONE as i128))
}

impl Particle {
    /// One Verlet step under gravity `g` for a duration `dt`.
    pub fn integrate(&mut self, g: Vec2, dt: i64)
        requires
            old(self).wf(),
            g.in_limit(),
            0 <= dt <= MAX_DT,
        ensures
            *final(self) == integrated(*old(self), g, dt as int),
            final(self).wf(),
    {
        if self.inverse_mass != 0 {
            let ax = gravity_step(g.x, dt);
            let ay = gravity_step(g.y, dt);
            let nx: i128 = 2 * (self.pos.x as i128) - (self.prev_pos.x as i128) + ax;
            let ny: i128 = 2 * (self.pos.y as i128) - (self.prev_pos.y as i128) + ay;
            let pos = saturate_vec(nx, ny);
            self.prev_pos = self.pos;
            self.pos = pos;
        }
    }
}

/// A round body: one particle and a radius.
#[derive(Clone, Copy, Debug, PartialEq, Eq, Structural)]
pub struct Circle {
    pub point: Particle,
    pub radius: i64,
}

impl Circle {
    pub open spec fn wf(self) -> bool {
        self.point.wf() && 0 <= self.radius <= LIMIT
    }

    /// Whether the circle is well formed.
    pub fn is_valid(&self) -> (r: bool)
        ensures
            r == self.wf(),
    {
        self.point.is_valid() && 0 <= self.radius && self.radius <= LIMIT
    }

    pub fn new(pos: Vec2, radius: i64) -> (r: Circle)
        ensures
            r.point == Particle::new_spec(pos),
            r.radius == radius,
    {
        Circle { point: Particle::new(pos), radius }
    }
}

impl Particle {
    pub open spec fn new_spec(pos: Vec2) -> Particle {
        Particle { pos, prev_pos: pos, inverse_mass: ONE }
    }
}

/// Every particle of `ps` integrated.
pub open spec fn all_integrated(ps: Seq<Particle>, g: Vec2, dt: int) -> Seq<Particle> {
    ps.map_values(|p: Particle| integrated(p, g, dt))
}

/// Integrates every particle of `ps`.
pub fn integrate_all(ps: &mut Vec<Particle>, g: Vec2, dt: i64)
    requires
        forall|i: int| 0 <= i < old(ps)@.len() ==> #[trigger] old(ps)@[i].wf(),
        g.in_limit(),
        0 <= dt <= MAX_DT,
    ensures
        final(ps)@ == all_integrated(old(ps)@, g, dt as int),
        forall|i: int| 0 <= i < final(ps)@.len() ==> #[trigger] final(ps)@[i].wf(),
{
    let ghost start = ps@;
    let n = ps.len();
    let mut i: usize = 0;
    while i < n
        invariant
            n == ps@.len() == start.len(),
            i <= n,
            forall|m: int| 0 <= m < i ==> #[trigger] ps@[m] == integrated(start[m], g, dt as int),
            forall|m: int| i <= m < n ==> #[trigger] ps@[m] == start[m],
            forall|m: int| 0 <= m < n ==> #[trigger] ps@[m].wf(),
            forall|m: int| 0 <= m < n ==> #[trigger] start[m].wf(),
            g.in_limit(),
            0 <= dt <= MAX_DT,
        decreases n - i,
    {
        let mut p = ps[i];
        p.integrate(g, dt);
        ps.set(i, p);
        i = i + 1;
    }
    assert(ps@ =~= all_integrated(start, g, dt as int));
}

} // verus!
