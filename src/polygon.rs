//! Soft-body polygons: a ring of particles held in shape by internal springs.
use vstd::prelude::*;
use crate::collision::{edge_normal, inward_normal, Collision};
use crate::constraint::{all_wf, dist, distance, solve_springs, springs_applied, Spring};
use crate::fixed::{abs, lemma_div_bounds, mul_div, tdiv, LIMIT, MAX_INV_MASS, ONE};
use crate::trig::{angle, direction_angle, direction_turn, lemma_normalized_length, normalize, turn, unit_turn};
use crate::boundary::{all_finished, finish_all, Segment};
use crate::particle::{all_integrated, integrate_all, sat_vec, saturate_vec, Particle, Vec2, MAX_DT};

verus! {

/// Largest magnitude of a pressure coefficient (raw, 16.0).
pub const MAX_PRESSURE: i64 = 1048576;

/// An axis-aligned rectangle: its corner of least coordinates and its size.
#[derive(Clone, Copy, Debug, PartialEq, Eq, Structural)]
pub struct Bounds {
    pub pos: Vec2,
    pub size: Vec2,
}

impl Bounds {
    /// A rectangle of non-negative size that lies inside the coordinate range.
    pub open spec fn wf(self) -> bool {
        &&& self.pos.in_limit()
        &&& 0 <= self.size.x
        &&& 0 <= self.size.y
        &&& self.pos.x + self.size.x <= LIMIT
        &&& self.pos.y + self.size.y <= LIMIT
    }

    /// `p` lies in the rectangle, borders included.
    pub open spec fn contains(self, p: Vec2) -> bool {
        &&& self.pos.x <= p.x <= self.pos.x + self.size.x
        &&& self.pos.y <= p.y <= self.pos.y + self.size.y
    }

    /// The two rectangles share at least one point.
    pub open spec fn overlaps(self, o: Bounds) -> bool {
        &&& self.pos.x <= o.pos.x + o.size.x
        &&& o.pos.x <= self.pos.x + self.size.x
        &&& self.pos.y <= o.pos.y + o.size.y
        &&& o.pos.y <= self.pos.y + self.size.y
    }

    pub fn new(pos: Vec2, size: Vec2) -> (r: Bounds)
        ensures
            r.pos == pos,
            r.size == size,
    {
        Bounds { pos, size }
    }

    /// Whether the rectangle is well formed.
    pub fn is_valid(&self) -> (r: bool)
        ensures
            r == self.wf(),
    {
        self.pos.is_in_limit() && 0 <= self.size.x && 0 <= self.size.y && self.size.x <= LIMIT
            - self.pos.x && self.size.y <= LIMIT - self.pos.y
    }

    pub fn overlap(&self, o: &Bounds) -> (r: bool)
        requires
            self.wf(),
            o.wf(),
        ensures
            r == self.overlaps(*o),
    {
        self.pos.x <= o.pos.x + o.size.x && o.pos.x <= self.pos.x + self.size.x && self.pos.y
            <= o.pos.y + o.size.y && o.pos.y <= self.pos.y + self.size.y
    }
}

/// A closed ring of particles, the springs that keep its shape, its centre
/// and bounding box, an optional pressure coefficient (zero: none), and the
/// contacts resolved on its edges during the last step.
pub struct Polygon {
    pub particles: Vec<Particle>,
    pub springs: Vec<Spring>,
    pub center: Vec2,
    pub bounds: Bounds,
    pub pressure: i64,
    pub collisions: Vec<Collision>,
}

/// The mathematical value of a polygon.
#[verifier::ext_equal]
pub struct PolygonModel {
    pub particles: Seq<Particle>,
    pub springs: Seq<Spring>,
    pub center: Vec2,
    pub bounds: Bounds,
    pub pressure: i64,
    pub collisions: Seq<Collision>,
}

impl View for Polygon {
    type V = PolygonModel;

    open spec fn view(&self) -> PolygonModel {
        PolygonModel {
            particles: self.particles@,
            springs: self.springs@,
            center: self.center,
            bounds: self.bounds,
            pressure: self.pressure,
            collisions: self.collisions@,
        }
    }
}

impl PolygonModel {
    /// At least three well-formed vertices, springs between its own vertices
    /// and a bounded pressure.
    pub open spec fn shape_wf(self) -> bool {
        &&& self.particles.len() >= 3
        &&& all_wf(self.particles)
        &&& forall|i: int|
            0 <= i < self.springs.len() ==> #[trigger] self.springs[i].wf(self.particles.len())
        &&& abs(self.pressure as int) <= MAX_PRESSURE
    }

    /// A well-formed shape whose centre and box lie inside the coordinate range.
    pub open spec fn wf(self) -> bool {
        &&& self.shape_wf()
        &&& self.center.in_limit()
        &&& self.bounds.wf()
    }
}

/// Sum of the x (`axis == 0`) or y coordinates of the positions.
pub open spec fn coord(p: Vec2, axis: int) -> int {
    if axis == 0 {
        p.x as int
    } else {
        p.y as int
    }
}

pub open spec fn coord_sum(ps: Seq<Particle>, axis: int) -> int
    decreases ps.len(),
{
    if ps.len() == 0 {
        0
    } else {
        coord_sum(ps.drop_last(), axis) + coord(ps.last().pos, axis)
    }
}

pub open spec fn coord_min(ps: Seq<Particle>, axis: int) -> int
    decreases ps.len(),
{
    if ps.len() <= 1 {
        coord(ps[0].pos, axis)
    } else {
        let m = coord_min(ps.drop_last(), axis);
        let c = coord(ps.last().pos, axis);
        if c < m {
            c
        } else {
            m
        }
    }
}

pub open spec fn coord_max(ps: Seq<Particle>, axis: int) -> int
    decreases ps.len(),
{
    if ps.len() <= 1 {
        coord(ps[0].pos, axis)
    } else {
        let m = coord_max(ps.drop_last(), axis);
        let c = coord(ps.last().pos, axis);
        if c > m {
            c
        } else {
            m
        }
    }
}

/// The mean of the vertex positions, truncated toward zero.
pub open spec fn centroid(ps: Seq<Particle>) -> Vec2 {
    Vec2 {
        x: tdiv(coord_sum(ps, 0), ps.len() as int) as i64,
        y: tdiv(coord_sum(ps, 1), ps.len() as int) as i64,
    }
}

/// The smallest rectangle holding every vertex position.
pub open spec fn aabb(ps: Seq<Particle>) -> Bounds {
    Bounds {
        pos: Vec2 { x: coord_min(ps, 0) as i64, y: coord_min(ps, 1) as i64 },
        size: Vec2 {
            x: (coord_max(ps, 0) - coord_min(ps, 0)) as i64,
            y: (coord_max(ps, 1) - coord_min(ps, 1)) as i64,
        },
    }
}

/// `p` moved by the force `(fx, fy)` weighted by its inverse mass.
pub open spec fn pushed(p: Particle, fx: int, fy: int) -> Particle {
    Particle {
        pos: sat_vec(
            p.pos.x + tdiv(fx * p.inverse_mass, ONE as int),
            p.pos.y + tdiv(fy * p.inverse_mass, ONE as int),
        ),
        ..p
    }
}

/// Pressure on edge `i`: both endpoints pushed along the edge's normal that
/// points away from the centre `c`, whose length is the edge's, scaled by
/// the coefficient. The centre is the one computed at the end of the
/// previous step, so the push is outward whatever the ring's orientation.
pub open spec fn edge_pressed(ps: Seq<Particle>, c: Vec2, i: int, pressure: int) -> Seq<Particle> {
    let j = (i + 1) % (ps.len() as int);
    let a = ps[i];
    let b = ps[j];
    let nrm = inward_normal(a.pos, b.pos, c);
    let fx = tdiv((-nrm.0) * pressure, ONE as int);
    let fy = tdiv((-nrm.1) * pressure, ONE as int);
    let ps1 = ps.update(i, pushed(a, fx, fy));
    ps1.update(j, pushed(ps1[j], fx, fy))
}

/// Pressure applied to the first `k` edges, in order.
pub open spec fn pressure_applied(ps: Seq<Particle>, c: Vec2, pressure: int, k: nat) -> Seq<Particle>
    decreases k,
{
    if k == 0 {
        ps
    } else {
        edge_pressed(pressure_applied(ps, c, pressure, (k - 1) as nat), c, k - 1, pressure)
    }
}

/// A polygon after one constraint pass: pressure (if any) on every edge,
/// then its springs, broken ones removed.
pub open spec fn polygon_solved(m: PolygonModel) -> PolygonModel {
    let ps = if m.pressure == 0 {
        m.particles
    } else {
        pressure_applied(m.particles, m.center, m.pressure as int, m.particles.len())
    };
    let r = springs_applied(ps, m.springs);
    PolygonModel { particles: r.0, springs: r.1, ..m }
}

/// A polygon with every vertex integrated.
pub open spec fn polygon_integrated(m: PolygonModel, g: Vec2, dt: int) -> PolygonModel {
    PolygonModel { particles: all_integrated(m.particles, g, dt), ..m }
}

/// Stages one to three for one polygon: integration, constraints, refresh.
pub open spec fn polygon_advanced(m: PolygonModel, g: Vec2, dt: int) -> PolygonModel {
    polygon_refreshed(polygon_solved(polygon_integrated(m, g, dt)))
}

/// The last stage for every vertex of a polygon, then its centre and box
/// recomputed from the final positions.
pub open spec fn polygon_finished(m: PolygonModel, ls: Seq<Segment>, b: Bounds) -> PolygonModel {
    polygon_refreshed(PolygonModel { particles: all_finished(m.particles, ls, b), ..m })
}

/// A polygon with its centre and bounding box recomputed.
pub open spec fn polygon_refreshed(m: PolygonModel) -> PolygonModel {
    PolygonModel { center: centroid(m.particles), bounds: aabb(m.particles), ..m }
}

pub proof fn lemma_coord_extrema(ps: Seq<Particle>, axis: int)
    requires
        all_wf(ps),
        ps.len() >= 1,
    ensures
        -LIMIT <= coord_min(ps, axis) <= coord_max(ps, axis) <= LIMIT,
        forall|i: int|
            0 <= i < ps.len() ==> coord_min(ps, axis) <= #[trigger] coord(ps[i].pos, axis)
                <= coord_max(ps, axis),
    decreases ps.len(),
{
    assert(ps[0].wf());
    if ps.len() > 1 {
        let q = ps.drop_last();
        assert(all_wf(q)) by {
            assert forall|i: int| 0 <= i < q.len() implies #[trigger] q[i].wf() by {
                assert(q[i] == ps[i]);
            }
        }
        lemma_coord_extrema(q, axis);
        assert(ps[ps.len() - 1].wf());
        assert forall|i: int| 0 <= i < ps.len() implies coord_min(ps, axis) <= #[trigger] coord(
            ps[i].pos,
            axis,
        ) <= coord_max(ps, axis) by {
            if i < ps.len() - 1 {
                assert(q[i] == ps[i]);
            }
        }
    }
}

/// Mean of one coordinate over the vertices.
fn mean_coord(ps: &Vec<Particle>, axis: usize) -> (r: i64)
    requires
        ps@.len() >= 1,
        all_wf(ps@),
    ensures
        r == tdiv(coord_sum(ps@, axis as int), ps@.len() as int),
        abs(r as int) <= LIMIT,
{
    let mut s: i128 = 0;
    let mut i: usize = 0;
    while i < ps.len()
        invariant
            i <= ps@.len(),
            all_wf(ps@),
            s == coord_sum(ps@.subrange(0, i as int), axis as int),
            abs(s as int) <= i * LIMIT,
        decreases ps@.len() - i,
    {
        let p = ps[i];
        assert(ps@[i as int].wf());
        assert(ps@.subrange(0, i as int + 1).drop_last() =~= ps@.subrange(0, i as int));
        if axis == 0 {
            s = s + p.pos.x as i128;
        } else {
            s = s + p.pos.y as i128;
        }
        i = i + 1;
    }
    assert(ps@.subrange(0, ps@.len() as int) =~= ps@);
    let n = ps.len() as i128;
    let q = crate::fixed::div_trunc(s, n);
    proof {
        lemma_div_bounds(s as int, n as int);
        assert(abs(q as int) <= LIMIT) by (nonlinear_arith)
            requires
                abs(q as int) * n <= abs(s as int),
                abs(s as int) <= n * LIMIT,
                n > 0,
        ;
    }
    q as i64
}

/// Least or greatest value of one coordinate over the vertices.
fn extreme_coord(ps: &Vec<Particle>, axis: usize, greatest: bool) -> (r: i64)
    requires
        ps@.len() >= 1,
        all_wf(ps@),
    ensures
        greatest ==> r == coord_max(ps@, axis as int),
        !greatest ==> r == coord_min(ps@, axis as int),
{
    let first = ps[0];
    let mut m: i64 = if axis == 0 {
        first.pos.x
    } else {
        first.pos.y
    };
    let mut i: usize = 1;
    assert(ps@.subrange(0, 1).len() == 1);
    assert(ps@.subrange(0, 1)[0] == ps@[0]);
    while i < ps.len()
        invariant
            1 <= i <= ps@.len(),
            all_wf(ps@),
            greatest ==> m == coord_max(ps@.subrange(0, i as int), axis as int),
            !greatest ==> m == coord_min(ps@.subrange(0, i as int), axis as int),
        decreases ps@.len() - i,
    {
        let p = ps[i];
        let c = if axis == 0 {
            p.pos.x
        } else {
            p.pos.y
        };
        assert(ps@.subrange(0, i as int + 1).drop_last() =~= ps@.subrange(0, i as int));
        if greatest {
            if c > m {
                m = c;
            }
        } else {
            if c < m {
                m = c;
            }
        }
        i = i + 1;
    }
    assert(ps@.subrange(0, ps@.len() as int) =~= ps@);
    m
}

/// `p` pushed by `(fx, fy)` weighted by its inverse mass.
fn push_particle(p: Particle, fx: i128, fy: i128) -> (r: Particle)
    requires
        p.wf(),
        abs(fx as int) <= 0x4000_0000_0000_0000,
        abs(fy as int) <= 0x4000_0000_0000_0000,
    ensures
        r == pushed(p, fx as int, fy as int),
        r.wf(),
{
    let dx = mul_div(fx, p.inverse_mass as i128, ONE as i128);
    let dy = mul_div(fy, p.inverse_mass as i128, ONE as i128);
    assert(abs(dx as int) <= 0x4000_0000_0000_0000 * MAX_INV_MASS) by {
        crate::fixed::lemma_div_bounds(fx * p.inverse_mass, ONE as int);
        assert(abs(fx * p.inverse_mass) <= 0x4000_0000_0000_0000 * MAX_INV_MASS) by (nonlinear_arith)
            requires
                abs(fx as int) <= 0x4000_0000_0000_0000,
                0 <= p.inverse_mass <= MAX_INV_MASS,
        ;
    }
    assert(abs(dy as int) <= 0x4000_0000_0000_0000 * MAX_INV_MASS) by {
        crate::fixed::lemma_div_bounds(fy * p.inverse_mass, ONE as int);
        assert(abs(fy * p.inverse_mass) <= 0x4000_0000_0000_0000 * MAX_INV_MASS) by (nonlinear_arith)
            requires
                abs(fy as int) <= 0x4000_0000_0000_0000,
                0 <= p.inverse_mass <= MAX_INV_MASS,
        ;
    }
    Particle { pos: saturate_vec(p.pos.x as i128 + dx, p.pos.y as i128 + dy), ..p }
}

impl Polygon {
    /// Applies pressure to every edge (when the coefficient is non-zero),
    /// then solves the internal springs and drops those that broke.
    pub fn solve(&mut self)
        requires
            old(self)@.wf(),
        ensures
            final(self)@ == polygon_solved(old(self)@),
            final(self)@.wf(),
    {
        if self.pressure != 0 {
            let ghost start = self.particles@;
            let n = self.particles.len();
            let mut i: usize = 0;
            while i < n
                invariant
                    n == start.len() == self.particles@.len(),
                    n >= 3,
                    i <= n,
                    all_wf(self.particles@),
                    abs(self.pressure as int) <= MAX_PRESSURE,
                    self.pressure == old(self).pressure,
                    self.springs@ == old(self)@.springs,
                    self.center == old(self).center,
                    self.center.in_limit(),
                    self.bounds == old(self).bounds,
                    self.collisions@ == old(self)@.collisions,
                    start == old(self)@.particles,
                    self.particles@ == pressure_applied(start, self.center, self.pressure as int, i as nat),
                decreases n - i,
            {
                let j: usize = if i + 1 == n {
                    0
                } else {
                    i + 1
                };
                proof {
                    if i + 1 == n {
                        vstd::arithmetic::div_mod::lemma_mod_self_0(n as int);
                    } else {
                        vstd::arithmetic::div_mod::lemma_small_mod((i + 1) as nat, n as nat);
                    }
                }
                assert(j as int == (i as int + 1) % (n as int));
                let a = self.particles[i];
                let b = self.particles[j];
                assert(self.particles@[i as int].wf() && self.particles@[j as int].wf());
                let nrm = edge_normal(a.pos, b.pos, self.center);
                let ex: i128 = -nrm.0;
                let ey: i128 = -nrm.1;
                let fx = mul_div(ex, self.pressure as i128, ONE as i128);
                let fy = mul_div(ey, self.pressure as i128, ONE as i128);
                proof {
                    lemma_div_bounds(ex * self.pressure, ONE as int);
                    lemma_div_bounds(ey * self.pressure, ONE as int);
                    assert(abs(ex * self.pressure) <= 2 * LIMIT * MAX_PRESSURE) by (nonlinear_arith)
                        requires
                            abs(ex as int) <= 2 * LIMIT,
                            abs(self.pressure as int) <= MAX_PRESSURE,
                    ;
                    assert(abs(ey * self.pressure) <= 2 * LIMIT * MAX_PRESSURE) by (nonlinear_arith)
                        requires
                            abs(ey as int) <= 2 * LIMIT,
                            abs(self.pressure as int) <= MAX_PRESSURE,
                    ;
                }
                let na = push_particle(a, fx, fy);
                self.particles.set(i, na);
                let b1 = self.particles[j];
                let nb = push_particle(b1, fx, fy);
                self.particles.set(j, nb);
                proof {
                    assert forall|m: int| 0 <= m < n implies #[trigger] self.particles@[m].wf() by {
                        if m != i && m != j {
                        }
                    }
                }
                i = i + 1;
            }
        }
        let ghost pre = self.particles@;
        assert(pre == if old(self)@.pressure == 0 {
            old(self)@.particles
        } else {
            pressure_applied(old(self)@.particles, old(self)@.center, old(self)@.pressure as int, old(self)@.particles.len())
        });
        assert(pre.len() == old(self)@.particles.len());
        assert(self.springs@ == old(self)@.springs);
        assert(all_wf(pre));
        let kept = solve_springs(&mut self.particles, &self.springs);
        self.springs = kept;
        proof {
            assert(self@ =~= polygon_solved(old(self)@));
            lemma_kept_springs_wf(pre, old(self)@.springs);
        }
    }

    /// Stages one to three: integrates the vertices under gravity `g` for
    /// `dt`, applies pressure and springs, and recomputes centre and box.
    pub fn advance(&mut self, g: Vec2, dt: i64)
        requires
            old(self)@.wf(),
            g.in_limit(),
            0 <= dt <= MAX_DT,
        ensures
            final(self)@ == polygon_advanced(old(self)@, g, dt as int),
            final(self)@.wf(),
    {
        integrate_all(&mut self.particles, g, dt);
        assert(self@ =~= polygon_integrated(old(self)@, g, dt as int));
        self.solve();
        self.refresh();
    }

    /// The last stage for every vertex: static lines, then the bound; then
    /// the centre and box are recomputed.
    pub fn finish(&mut self, ls: &Vec<Segment>, b: Bounds)
        requires
            old(self)@.wf(),
            b.wf(),
            forall|i: int| 0 <= i < ls@.len() ==> #[trigger] ls@[i].wf(),
        ensures
            final(self)@ == polygon_finished(old(self)@, ls@, b),
            final(self)@.wf(),
    {
        finish_all(&mut self.particles, ls, b);
        assert(self@ =~= PolygonModel { particles: all_finished(old(self)@.particles, ls@, b), ..old(self)@ });
        self.refresh();
    }

    /// Drops the contact records.
    pub fn clear_collisions(&mut self)
        ensures
            final(self)@ == (PolygonModel { collisions: Seq::empty(), ..old(self)@ }),
    {
        self.collisions = Vec::new();
        assert(self@ =~= (PolygonModel { collisions: Seq::empty(), ..old(self)@ }));
    }

    /// Recomputes the centre and the bounding box from the vertices.
    pub fn refresh(&mut self)
        requires
            old(self)@.shape_wf(),
        ensures
            final(self)@ == polygon_refreshed(old(self)@),
            final(self)@.wf(),
    {
        let cx = mean_coord(&self.particles, 0);
        let cy = mean_coord(&self.particles, 1);
        let min_x = extreme_coord(&self.particles, 0, false);
        let min_y = extreme_coord(&self.particles, 1, false);
        let max_x = extreme_coord(&self.particles, 0, true);
        let max_y = extreme_coord(&self.particles, 1, true);
        proof {
            lemma_coord_extrema(self.particles@, 0);
            lemma_coord_extrema(self.particles@, 1);
        }
        self.center = Vec2 { x: cx, y: cy };
        self.bounds = Bounds {
            pos: Vec2 { x: min_x, y: min_y },
            size: Vec2 { x: max_x - min_x, y: max_y - min_y },
        };
        assert(self@ =~= polygon_refreshed(old(self)@));
    }
}

/// Springs kept by a pass still join vertices of the same ring.
pub proof fn lemma_kept_springs_wf(ps: Seq<Particle>, ss: Seq<Spring>)
    requires
        forall|i: int| 0 <= i < ss.len() ==> #[trigger] ss[i].wf(ps.len()),
    ensures
        forall|i: int|
            0 <= i < springs_applied(ps, ss).1.len() ==> #[trigger] springs_applied(
                ps,
                ss,
            ).1[i].wf(ps.len()),
        springs_applied(ps, ss).0.len() == ps.len(),
    decreases ss.len(),
{
    if ss.len() > 0 {
        let q = ss.drop_last();
        assert forall|i: int| 0 <= i < q.len() implies #[trigger] q[i].wf(ps.len()) by {
            assert(q[i] == ss[i]);
        }
        lemma_kept_springs_wf(ps, q);
        assert(ss[ss.len() - 1].wf(ps.len()));
        let prev = springs_applied(ps, q);
        let s = ss.last();
        if !crate::constraint::spring_breaks(prev.0, s) {
            let k = prev.1.push(s);
            assert forall|i: int| 0 <= i < k.len() implies #[trigger] k[i].wf(ps.len()) by {
                if i < prev.1.len() {
                    assert(k[i] == prev.1[i]);
                }
            }
        }
    }
}

/// Springs from vertex `a` to each vertex `a + 1 .. m - 1`, in order, each
/// at the current distance of its pair.
pub open spec fn pair_row(ps: Seq<Particle>, a: int, m: int, k: int, t: int) -> Seq<Spring>
    decreases m - a,
{
    if m <= a + 1 {
        Seq::empty()
    } else {
        pair_row(ps, a, m - 1, k, t).push(
            Spring {
                particle_a: a as usize,
                particle_b: (m - 1) as usize,
                rest_length: dist(ps[a].pos, ps[m - 1].pos) as i64,
                stiffness: k as i64,
                permanence_threshold: t as i64,
            },
        )
    }
}

/// The shape-keeping springs of the first `r` vertices: one spring for
/// every pair `(a, b)` with `a < r` and `a < b`, in lexicographic order.
pub open spec fn shape_springs(ps: Seq<Particle>, r: nat, k: int, t: int) -> Seq<Spring>
    decreases r,
{
    if r == 0 {
        Seq::empty()
    } else {
        shape_springs(ps, (r - 1) as nat, k, t) + pair_row(ps, r - 1, ps.len() as int, k, t)
    }
}

/// Particles at rest at the given points.
pub open spec fn rest_particles(points: Seq<Vec2>, inverse_mass: i64) -> Seq<Particle> {
    points.map_values(|v: Vec2| Particle { pos: v, prev_pos: v, inverse_mass })
}

/// The polygon over `points`: particles at rest, a spring between every
/// pair of vertices at its current length, centre and box computed.
pub open spec fn shaped(
    points: Seq<Vec2>,
    inverse_mass: i64,
    stiffness: i64,
    permanence_threshold: i64,
    pressure: i64,
) -> PolygonModel {
    let ps = rest_particles(points, inverse_mass);
    polygon_refreshed(
        PolygonModel {
            particles: ps,
            springs: shape_springs(ps, ps.len(), stiffness as int, permanence_threshold as int),
            center: Vec2 { x: 0, y: 0 },
            bounds: Bounds { pos: Vec2 { x: 0, y: 0 }, size: Vec2 { x: 0, y: 0 } },
            pressure,
            collisions: Seq::empty(),
        },
    )
}

/// Inputs from which a polygon can be built.
pub open spec fn shape_inputs_ok(
    points: Seq<Vec2>,
    inverse_mass: i64,
    stiffness: i64,
    pressure: i64,
) -> bool {
    &&& points.len() >= 3
    &&& forall|i: int| 0 <= i < points.len() ==> #[trigger] points[i].in_limit()
    &&& 0 <= inverse_mass <= MAX_INV_MASS
    &&& 0 <= stiffness <= ONE
    &&& abs(pressure as int) <= MAX_PRESSURE
}

/// `c + r * (cos, sin)`, saturated, for the unit vector `u` in fixed point.
pub open spec fn on_circle(c: Vec2, radius: int, u: (int, int)) -> Vec2 {
    sat_vec(c.x + tdiv(radius * u.0, ONE as int), c.y + tdiv(radius * u.1, ONE as int))
}

/// The vertices of a regular `count`-gon of the given radius around `c`,
/// counter-clockwise from angle zero.
pub open spec fn regular_layout(c: Vec2, radius: int, count: int) -> Seq<Vec2> {
    Seq::new(count as nat, |k: int| on_circle(c, radius, direction_turn(k, count)))
}

/// Corner `(x, y)` of a box, relative to its centre, rotated by the unit
/// vector `u` and moved to `c`, saturated.
pub open spec fn box_corner(c: Vec2, x: int, y: int, u: (int, int)) -> Vec2 {
    sat_vec(c.x + tdiv(x * u.0 - y * u.1, ONE as int), c.y + tdiv(x * u.1 + y * u.0, ONE as int))
}

/// The four corners of a box of the given size centred on `c` and rotated
/// by `rotation` radians, counter-clockwise.
pub open spec fn box_layout(c: Vec2, rotation: int, size: Vec2) -> Seq<Vec2> {
    let hx = size.x / 2;
    let hy = size.y / 2;
    let u = direction_angle(rotation);
    seq![
        box_corner(c, -hx, -hy, u),
        box_corner(c, hx, -hy, u),
        box_corner(c, hx, hy, u),
        box_corner(c, -hx, hy, u),
    ]
}

fn shape_springs_of(ps: &Vec<Particle>, k: i64, t: i64) -> (r: Vec<Spring>)
    requires
        all_wf(ps@),
        0 <= k <= ONE,
    ensures
        r@ == shape_springs(ps@, ps@.len(), k as int, t as int),
        forall|i: int| 0 <= i < r@.len() ==> #[trigger] r@[i].wf(ps@.len()),
{
    let n = ps.len();
    let mut r: Vec<Spring> = Vec::new();
    let mut a: usize = 0;
    while a < n
        invariant
            n == ps@.len(),
            a <= n,
            all_wf(ps@),
            0 <= k <= ONE,
            r@ == shape_springs(ps@, a as nat, k as int, t as int),
            forall|i: int| 0 <= i < r@.len() ==> #[trigger] r@[i].wf(n as nat),
        decreases n - a,
    {
        let ghost before = r@;
        let mut b: usize = a + 1;
        assert(pair_row(ps@, a as int, b as int, k as int, t as int) =~= Seq::<Spring>::empty());
        assert(r@ =~= before + pair_row(ps@, a as int, b as int, k as int, t as int));
        while b < n
            invariant
                n == ps@.len(),
                a < n,
                a + 1 <= b <= n,
                all_wf(ps@),
                0 <= k <= ONE,
                before == shape_springs(ps@, a as nat, k as int, t as int),
                r@ == before + pair_row(ps@, a as int, b as int, k as int, t as int),
                forall|i: int| 0 <= i < r@.len() ==> #[trigger] r@[i].wf(n as nat),
            decreases n - b,
        {
            assert(ps@[a as int].wf() && ps@[b as int].wf());
            let d = distance(ps[a].pos, ps[b].pos);
            let s = Spring {
                particle_a: a,
                particle_b: b,
                rest_length: d as i64,
                stiffness: k,
                permanence_threshold: t,
            };
            r.push(s);
            b = b + 1;
            assert(r@ =~= before + pair_row(ps@, a as int, b as int, k as int, t as int));
        }
        a = a + 1;
    }
    r
}

/// Builds the polygon over `points` from valid inputs.
fn build(points: &Vec<Vec2>, inverse_mass: i64, stiffness: i64, permanence_threshold: i64, pressure: i64) -> (r: Polygon)
    requires
        shape_inputs_ok(points@, inverse_mass, stiffness, pressure),
    ensures
        r@ == shaped(points@, inverse_mass, stiffness, permanence_threshold, pressure),
        r@.wf(),
{
    let mut ps: Vec<Particle> = Vec::new();
    let mut i: usize = 0;
    while i < points.len()
        invariant
            i <= points@.len(),
            shape_inputs_ok(points@, inverse_mass, stiffness, pressure),
            ps@ == rest_particles(points@.subrange(0, i as int), inverse_mass),
        decreases points@.len() - i,
    {
        let v = points[i];
        ps.push(Particle { pos: v, prev_pos: v, inverse_mass });
        i = i + 1;
        assert(ps@ =~= rest_particles(points@.subrange(0, i as int), inverse_mass));
    }
    assert(points@.subrange(0, points@.len() as int) =~= points@);
    assert(all_wf(ps@)) by {
        assert forall|m: int| 0 <= m < ps@.len() implies #[trigger] ps@[m].wf() by {
            assert(points@[m].in_limit());
        }
    }
    let springs = shape_springs_of(&ps, stiffness, permanence_threshold);
    let mut p = Polygon {
        particles: ps,
        springs,
        center: Vec2 { x: 0, y: 0 },
        bounds: Bounds { pos: Vec2 { x: 0, y: 0 }, size: Vec2 { x: 0, y: 0 } },
        pressure,
        collisions: Vec::new(),
    };
    p.refresh();
    p
}

/// Whether every point lies in the coordinate range.
fn points_in_limit(points: &Vec<Vec2>) -> (r: bool)
    ensures
        r == forall|i: int| 0 <= i < points@.len() ==> #[trigger] points@[i].in_limit(),
{
    let mut i: usize = 0;
    while i < points.len()
        invariant
            i <= points@.len(),
            forall|m: int| 0 <= m < i ==> #[trigger] points@[m].in_limit(),
        decreases points@.len() - i,
    {
        let v = points[i];
        if v.x < -LIMIT || v.x > LIMIT || v.y < -LIMIT || v.y > LIMIT {
            assert(!points@[i as int].in_limit());
            return false;
        }
        i = i + 1;
    }
    true
}

impl Polygon {
    /// A polygon over an arbitrary ring of points, with a spring between
    /// every pair of vertices at its current length. None when there are
    /// fewer than three points, a point is out of range, or a coefficient is
    /// out of its range.
    pub fn from_points(
        points: &Vec<Vec2>,
        inverse_mass: i64,
        stiffness: i64,
        permanence_threshold: i64,
        pressure: i64,
    ) -> (r: Option<Polygon>)
        ensures
            r is Some <==> shape_inputs_ok(points@, inverse_mass, stiffness, pressure),
            r matches Some(p) ==> p@ == shaped(
                points@,
                inverse_mass,
                stiffness,
                permanence_threshold,
                pressure,
            ) && p@.wf(),
    {
        if points.len() < 3 || !points_in_limit(points) || inverse_mass < 0 || inverse_mass
            > MAX_INV_MASS || stiffness < 0 || stiffness > ONE || pressure < -MAX_PRESSURE
            || pressure > MAX_PRESSURE {
            return None;
        }
        Some(build(points, inverse_mass, stiffness, permanence_threshold, pressure))
    }
}

/// `c + r * u / ONE`, saturated, for `|u| <= 2 * ONE`.
fn offset_point(c: Vec2, radius: i64, ux: i128, uy: i128) -> (r: Vec2)
    requires
        c.in_limit(),
        0 <= radius <= LIMIT,
        abs(ux as int) <= 2 * ONE,
        abs(uy as int) <= 2 * ONE,
    ensures
        r == on_circle(c, radius as int, (ux as int, uy as int)),
{
    let dx = mul_div(radius as i128, ux, ONE as i128);
    let dy = mul_div(radius as i128, uy, ONE as i128);
    proof {
        lemma_div_bounds(radius * ux, ONE as int);
        lemma_div_bounds(radius * uy, ONE as int);
        assert(abs(radius * ux) <= LIMIT * (2 * ONE)) by (nonlinear_arith)
            requires
                0 <= radius <= LIMIT,
                abs(ux as int) <= 2 * ONE,
        ;
        assert(abs(radius * uy) <= LIMIT * (2 * ONE)) by (nonlinear_arith)
            requires
                0 <= radius <= LIMIT,
                abs(uy as int) <= 2 * ONE,
        ;
    }
    saturate_vec(c.x as i128 + dx, c.y as i128 + dy)
}

/// A corner of a box: `c + rotate((x, y), u) / ONE`, saturated.
fn corner(c: Vec2, x: i64, y: i64, ux: i128, uy: i128) -> (r: Vec2)
    requires
        c.in_limit(),
        abs(x as int) <= LIMIT,
        abs(y as int) <= LIMIT,
        abs(ux as int) <= 2 * ONE,
        abs(uy as int) <= 2 * ONE,
    ensures
        r == box_corner(c, x as int, y as int, (ux as int, uy as int)),
{
    assert(abs(x * ux) <= LIMIT * (2 * ONE) && abs(y * uy) <= LIMIT * (2 * ONE) && abs(x * uy)
        <= LIMIT * (2 * ONE) && abs(y * ux) <= LIMIT * (2 * ONE)) by (nonlinear_arith)
        requires
            abs(x as int) <= LIMIT,
            abs(y as int) <= LIMIT,
            abs(ux as int) <= 2 * ONE,
            abs(uy as int) <= 2 * ONE,
    ;
    let px: i128 = (x as i128) * ux - (y as i128) * uy;
    let py: i128 = (x as i128) * uy + (y as i128) * ux;
    let dx = crate::fixed::div_trunc(px, ONE as i128);
    let dy = crate::fixed::div_trunc(py, ONE as i128);
    saturate_vec(c.x as i128 + dx, c.y as i128 + dy)
}

impl Polygon {
    /// A regular `count`-gon of the given radius around `center`, its
    /// vertices counter-clockwise from angle zero, with a spring between every
    /// pair of vertices. Static when `is_static` (inverse mass zero), else of
    /// unit mass per vertex. None when `count < 3`, the radius is negative
    /// or beyond `LIMIT`, the centre is out of range, or the stiffness is
    /// outside `[0, ONE]`.
    pub fn circle(
        radius: i64,
        center: Vec2,
        count: usize,
        is_static: bool,
        stiffness: i64,
        permanence_threshold: i64,
    ) -> (r: Option<Polygon>)
        ensures
            r is Some <==> (3 <= count <= i64::MAX && 0 <= radius <= LIMIT && center.in_limit() && 0
                <= stiffness <= ONE),
            r matches Some(p) ==> p@ == shaped(
                regular_layout(center, radius as int, count as int),
                if is_static {
                    0
                } else {
                    ONE
                },
                stiffness,
                permanence_threshold,
                0,
            ) && p@.wf(),
    {
        Self::regular(radius, center, count, is_static, stiffness, permanence_threshold, 0)
    }

    /// A regular `count`-gon as [`Polygon::circle`] makes it, whose springs
    /// never break, inflated by the pressure coefficient `pressure`. None
    /// also when the pressure is beyond `MAX_PRESSURE` in magnitude.
    pub fn pressure_circle(
        radius: i64,
        center: Vec2,
        count: usize,
        is_static: bool,
        stiffness: i64,
        pressure: i64,
    ) -> (r: Option<Polygon>)
        ensures
            r is Some <==> (3 <= count <= i64::MAX && 0 <= radius <= LIMIT && center.in_limit() && 0
                <= stiffness <= ONE && abs(pressure as int) <= MAX_PRESSURE),
            r matches Some(p) ==> p@ == shaped(
                regular_layout(center, radius as int, count as int),
                if is_static {
                    0
                } else {
                    ONE
                },
                stiffness,
                -1i64,
                pressure,
            ) && p@.wf(),
    {
        Self::regular(radius, center, count, is_static, stiffness, -1, pressure)
    }

    fn regular(
        radius: i64,
        center: Vec2,
        count: usize,
        is_static: bool,
        stiffness: i64,
        permanence_threshold: i64,
        pressure: i64,
    ) -> (r: Option<Polygon>)
        ensures
            r is Some <==> (3 <= count <= i64::MAX && 0 <= radius <= LIMIT && center.in_limit() && 0
                <= stiffness <= ONE && abs(pressure as int) <= MAX_PRESSURE),
            r matches Some(p) ==> p@ == shaped(
                regular_layout(center, radius as int, count as int),
                if is_static {
                    0
                } else {
                    ONE
                },
                stiffness,
                permanence_threshold,
                pressure,
            ) && p@.wf(),
    {
        if count < 3 || count as u64 > 0x7fff_ffff_ffff_ffffu64 || radius < 0 || radius > LIMIT || center.x < -LIMIT
            || center.x > LIMIT || center.y < -LIMIT || center.y > LIMIT || stiffness < 0
            || stiffness > ONE || pressure < -MAX_PRESSURE || pressure > MAX_PRESSURE {
            return None;
        }
        let ghost layout = regular_layout(center, radius as int, count as int);
        let mut points: Vec<Vec2> = Vec::new();
        let mut k: usize = 0;
        while k < count
            invariant
                3 <= count <= i64::MAX,
                k <= count,
                0 <= radius <= LIMIT,
                center.in_limit(),
                points@ == layout.subrange(0, k as int),
                layout == regular_layout(center, radius as int, count as int),
            decreases count - k,
        {
            let t = turn(k as i64, count as i64);
            let u = normalize(t.0, t.1);
            let v = offset_point(center, radius, u.0, u.1);
            points.push(v);
            k = k + 1;
            assert(points@ =~= layout.subrange(0, k as int));
        }
        assert(layout.subrange(0, count as int) =~= layout);
        let inverse_mass: i64 = if is_static {
            0
        } else {
            ONE
        };
        assert forall|i: int| 0 <= i < points@.len() implies #[trigger] points@[i].in_limit() by {
            assert(points@[i] == on_circle(center, radius as int, direction_turn(i, count as int)));
        }
        Some(build(&points, inverse_mass, stiffness, permanence_threshold, pressure))
    }

    /// A box of the given size centred on `center` and rotated by
    /// `rotation` radians (fixed point), with a spring between every pair of
    /// corners. Each corner has inverse mass `inverse_mass`, or zero when
    /// `is_static`. None when the centre is out of range, a side is negative
    /// or beyond `LIMIT`, or a coefficient is outside its range.
    pub fn new_box(
        center: Vec2,
        rotation: i64,
        size: Vec2,
        inverse_mass: i64,
        stiffness: i64,
        is_static: bool,
    ) -> (r: Option<Polygon>)
        ensures
            r is Some <==> (center.in_limit() && 0 <= size.x <= LIMIT && 0 <= size.y <= LIMIT && 0
                <= inverse_mass <= MAX_INV_MASS && 0 <= stiffness <= ONE),
            r matches Some(p) ==> p@ == shaped(
                box_layout(center, rotation as int, size),
                if is_static {
                    0
                } else {
                    inverse_mass
                },
                stiffness,
                -1i64,
                0,
            ) && p@.wf(),
    {
        if center.x < -LIMIT || center.x > LIMIT || center.y < -LIMIT || center.y > LIMIT || size.x
            < 0 || size.x > LIMIT || size.y < 0 || size.y > LIMIT || inverse_mass < 0 || inverse_mass
            > MAX_INV_MASS || stiffness < 0 || stiffness > ONE {
            return None;
        }
        let hx: i64 = size.x / 2;
        let hy: i64 = size.y / 2;
        let t = angle(rotation);
        let u = normalize(t.0, t.1);
        let mut points: Vec<Vec2> = Vec::new();
        points.push(corner(center, -hx, -hy, u.0, u.1));
        points.push(corner(center, hx, -hy, u.0, u.1));
        points.push(corner(center, hx, hy, u.0, u.1));
        points.push(corner(center, -hx, hy, u.0, u.1));
        assert(points@ =~= box_layout(center, rotation as int, size));
        let m: i64 = if is_static {
            0
        } else {
            inverse_mass
        };
        Some(build(&points, m, stiffness, -1, 0))
    }
}

impl Polygon {
    /// Whether the polygon is well formed.
    pub fn is_well_formed(&self) -> (r: bool)
        ensures
            r == self@.wf(),
    {
        let n = self.particles.len();
        if n < 3 {
            return false;
        }
        let mut i: usize = 0;
        while i < n
            invariant
                n == self.particles@.len(),
                i <= n,
                forall|m: int| 0 <= m < i ==> #[trigger] self.particles@[m].wf(),
            decreases n - i,
        {
            if !self.particles[i].is_valid() {
                return false;
            }
            i = i + 1;
        }
        let mut j: usize = 0;
        while j < self.springs.len()
            invariant
                n == self.particles@.len(),
                j <= self.springs@.len(),
                forall|m: int| 0 <= m < j ==> #[trigger] self.springs@[m].wf(n as nat),
            decreases self.springs@.len() - j,
        {
            if !self.springs[j].is_valid(n) {
                assert(!self@.springs[j as int].wf(self@.particles.len()));
                return false;
            }
            j = j + 1;
        }
        -MAX_PRESSURE <= self.pressure && self.pressure <= MAX_PRESSURE && self.center.is_in_limit()
            && self.bounds.is_valid()
    }
}

/// `q = |x / d|` (truncated) satisfies `q d <= |x|` and `(q d)^2 >= x^2 - 2 |x| d`.
proof fn lemma_trunc_square(x: int, d: int)
    requires
        d > 0,
    ensures
        abs(tdiv(x, d)) * d <= abs(x),
        (abs(tdiv(x, d)) * d) * (abs(tdiv(x, d)) * d) >= abs(x) * abs(x) - 2 * abs(x) * d,
{
    let q = abs(tdiv(x, d));
    let m = abs(x);
    lemma_div_bounds(x, d);
    vstd::arithmetic::div_mod::lemma_fundamental_div_mod(m, d);
    vstd::arithmetic::div_mod::lemma_mod_pos_bound(m, d);
    assert(q == m / d);
    assert(q * d > m - d) by (nonlinear_arith)
        requires
            m == d * (m / d) + m % d,
            m % d < d,
            q == m / d,
    ;
    if m >= d {
        assert((q * d) * (q * d) >= m * m - 2 * m * d) by (nonlinear_arith)
            requires
                q * d > m - d,
                m - d >= 0,
        ;
    } else {
        assert((q * d) * (q * d) >= m * m - 2 * m * d) by (nonlinear_arith)
            requires
                m < d,
                m >= 0,
        ;
    }
}

/// The offset `r * u / ONE` of a direction `u` of length `ONE` (up to the
/// rounding that `lemma_normalized_length` bounds) has length `r` up to
/// rounding: `r^2 (ONE^2 - 4 ONE) - 4 r ONE^2 <= (dx^2 + dy^2) ONE^2 <= r^2
/// (ONE^2 + 4 ONE + 4)`.
pub proof fn lemma_offset_radius(r: int, u: (int, int))
    requires
        r >= 0,
        ONE * ONE - 4 * ONE <= u.0 * u.0 + u.1 * u.1 <= ONE * ONE + 4 * ONE + 4,
        abs(u.0) <= ONE,
        abs(u.1) <= ONE,
    ensures
        ({
            let dx = tdiv(r * u.0, ONE as int);
            let dy = tdiv(r * u.1, ONE as int);
            &&& (dx * dx + dy * dy) * (ONE * ONE) <= r * r * (ONE * ONE + 4 * ONE + 4)
            &&& (dx * dx + dy * dy) * (ONE * ONE) >= r * r * (ONE * ONE - 4 * ONE) - 4 * r * (ONE * ONE)
        }),
{
    let x = r * u.0;
    let y = r * u.1;
    lemma_trunc_square(x, ONE as int);
    lemma_trunc_square(y, ONE as int);
    let dx = tdiv(x, ONE as int);
    let dy = tdiv(y, ONE as int);
    let px = abs(dx) * ONE;
    let py = abs(dy) * ONE;
    assert(abs(x) * abs(x) + abs(y) * abs(y) == r * r * (u.0 * u.0 + u.1 * u.1)) by (nonlinear_arith)
        requires
            x == r * u.0,
            y == r * u.1,
    ;
    assert((dx * dx + dy * dy) * (ONE * ONE) == px * px + py * py) by (nonlinear_arith)
        requires
            px == abs(dx) * ONE,
            py == abs(dy) * ONE,
    ;
    assert(px * px + py * py <= abs(x) * abs(x) + abs(y) * abs(y)) by (nonlinear_arith)
        requires
            0 <= px <= abs(x),
            0 <= py <= abs(y),
    ;
    assert(r * r * (u.0 * u.0 + u.1 * u.1) <= r * r * (ONE * ONE + 4 * ONE + 4)) by (nonlinear_arith)
        requires
            u.0 * u.0 + u.1 * u.1 <= ONE * ONE + 4 * ONE + 4,
    ;
    assert(r * r * (u.0 * u.0 + u.1 * u.1) >= r * r * (ONE * ONE - 4 * ONE)) by (nonlinear_arith)
        requires
            u.0 * u.0 + u.1 * u.1 >= ONE * ONE - 4 * ONE,
    ;
    assert(abs(x) + abs(y) <= 2 * r * ONE) by (nonlinear_arith)
        requires
            x == r * u.0,
            y == r * u.1,
            abs(u.0) <= ONE,
            abs(u.1) <= ONE,
            r >= 0,
    ;
    assert(2 * abs(x) * ONE + 2 * abs(y) * ONE <= 4 * r * (ONE * ONE)) by (nonlinear_arith)
        requires
            abs(x) + abs(y) <= 2 * r * ONE,
    ;
}

/// Vertex `k` of a regular layout lies at `c + r * u / ONE` (saturated) for
/// a direction `u` of length `ONE` up to rounding, so at distance `r` from
/// `c` up to rounding (`lemma_offset_radius`).
pub proof fn lemma_regular_vertex(c: Vec2, radius: int, count: int, k: int)
    requires
        0 <= k < count,
    ensures
        ({
            let u = direction_turn(k, count);
            &&& regular_layout(c, radius, count)[k] == sat_vec(
                c.x + tdiv(radius * u.0, ONE as int),
                c.y + tdiv(radius * u.1, ONE as int),
            )
            &&& ONE * ONE - 4 * ONE <= u.0 * u.0 + u.1 * u.1 <= ONE * ONE + 4 * ONE + 4
            &&& abs(u.0) <= ONE && abs(u.1) <= ONE
        }),
{
    let t = unit_turn(k, count);
    lemma_normalized_length(t.0, t.1);
}

} // verus!
