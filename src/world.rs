//! The world: every entity of a simulation, and the fixed-order step.
use vstd::prelude::*;
use crate::boundary::{all_finished, clamped, finish_all, finished, lines_bounced, segments_cross, Segment};
use crate::collision::{
    all_polygons_wf, cleared, collisions_resolved, models, pair_resolved, resolve_collisions, row_resolved,
    rows_resolved,
};
use crate::constraint::{
    all_wf, dist, links_applied, solve_links, solve_springs, spring_applied, spring_breaks,
    springs_applied, Link, Spring,
};
use crate::fixed::{LIMIT, ONE};
use crate::particle::{all_integrated, gravity_offset, integrate_all, Circle, Particle, Vec2, MAX_DT};
use crate::polygon::{
    aabb, centroid, lemma_kept_springs_wf, pair_row, polygon_advanced, rest_particles, shape_springs,
    shaped, polygon_finished, polygon_integrated, polygon_refreshed,
    polygon_solved, Bounds, Polygon, PolygonModel,
};

verus! {

/// Owns every entity of a simulation, the gravity and the world bound.
/// Entities are only appended; they are referred to by their index.
pub struct Solver {
    particles: Vec<Particle>,
    links: Vec<Link>,
    springs: Vec<Spring>,
    circles: Vec<Circle>,
    circle_links: Vec<Link>,
    polygons: Vec<Polygon>,
    static_lines: Vec<Segment>,
    gravity: Vec2,
    bounds: Bounds,
}

/// The mathematical value of a world.
#[verifier::ext_equal]
pub struct WorldModel {
    pub particles: Seq<Particle>,
    pub links: Seq<Link>,
    pub springs: Seq<Spring>,
    pub circles: Seq<Circle>,
    pub circle_links: Seq<Link>,
    pub polygons: Seq<PolygonModel>,
    pub static_lines: Seq<Segment>,
    pub gravity: Vec2,
    pub bounds: Bounds,
}

impl View for Solver {
    type V = WorldModel;

    closed spec fn view(&self) -> WorldModel {
        WorldModel {
            particles: self.particles@,
            links: self.links@,
            springs: self.springs@,
            circles: self.circles@,
            circle_links: self.circle_links@,
            polygons: models(self.polygons@),
            static_lines: self.static_lines@,
            gravity: self.gravity,
            bounds: self.bounds,
        }
    }
}

impl WorldModel {
    /// Every entity well formed, every constraint between existing entities,
    /// gravity and bound inside the coordinate range.
    pub open spec fn wf(self) -> bool {
        &&& self.particles.len() <= usize::MAX
        &&& self.circles.len() <= usize::MAX
        &&& all_wf(self.particles)
        &&& forall|i: int|
            0 <= i < self.links.len() ==> #[trigger] self.links[i].wf(self.particles.len())
        &&& forall|i: int|
            0 <= i < self.springs.len() ==> #[trigger] self.springs[i].wf(self.particles.len())
        &&& forall|i: int| 0 <= i < self.circles.len() ==> #[trigger] self.circles[i].wf()
        &&& forall|i: int|
            0 <= i < self.circle_links.len() ==> #[trigger] self.circle_links[i].wf(
                self.circles.len(),
            )
        &&& all_polygons_wf(self.polygons)
        &&& forall|i: int| 0 <= i < self.static_lines.len() ==> #[trigger] self.static_lines[i].wf()
        &&& self.gravity.in_limit()
        &&& self.bounds.wf()
    }
}

/// The particles of the circles.
pub open spec fn circle_points(cs: Seq<Circle>) -> Seq<Particle> {
    cs.map_values(|c: Circle| c.point)
}

/// The circles with their particles replaced by `ps`.
pub open spec fn with_points(cs: Seq<Circle>, ps: Seq<Particle>) -> Seq<Circle> {
    cs.map(|i: int, c: Circle| Circle { point: ps[i], ..c })
}

/// One step of duration `dt`, in fixed order: (1) integration under
/// gravity; (2) links, springs (broken ones dropped), circle links, polygon
/// pressure and springs; (3) polygon centres and boxes; (4) collisions
/// between polygons; (5) static lines, then the world bound.
pub open spec fn stepped(w: WorldModel, dt: int) -> WorldModel {
    let g = w.gravity;
    let sp = springs_applied(links_applied(all_integrated(w.particles, g, dt), w.links), w.springs);
    let cps = links_applied(all_integrated(circle_points(w.circles), g, dt), w.circle_links);
    let polys = collisions_resolved(
        w.polygons.map_values(|m: PolygonModel| polygon_advanced(m, g, dt)),
    );
    WorldModel {
        particles: all_finished(sp.0, w.static_lines, w.bounds),
        springs: sp.1,
        circles: with_points(w.circles, all_finished(cps, w.static_lines, w.bounds)),
        polygons: polys.map_values(
            |m: PolygonModel| polygon_finished(m, w.static_lines, w.bounds),
        ),
        ..w
    }
}

/// The bound of a new world: the whole coordinate range.
pub open spec fn default_bounds() -> Bounds {
    Bounds {
        pos: Vec2 { x: (-LIMIT) as i64, y: (-LIMIT) as i64 },
        size: Vec2 { x: (2 * LIMIT) as i64, y: (2 * LIMIT) as i64 },
    }
}

/// The state of a new world: no entity, no gravity, the whole range as bound.
pub open spec fn empty_world() -> WorldModel {
    WorldModel {
        particles: Seq::empty(),
        links: Seq::empty(),
        springs: Seq::empty(),
        circles: Seq::empty(),
        circle_links: Seq::empty(),
        polygons: Seq::empty(),
        static_lines: Seq::empty(),
        gravity: Vec2 { x: 0, y: 0 },
        bounds: default_bounds(),
    }
}

fn points_of(cs: &Vec<Circle>) -> (r: Vec<Particle>)
    ensures
        r@ == circle_points(cs@),
{
    let mut r: Vec<Particle> = Vec::new();
    let mut i: usize = 0;
    while i < cs.len()
        invariant
            i <= cs@.len(),
            r@ == circle_points(cs@.subrange(0, i as int)),
        decreases cs@.len() - i,
    {
        r.push(cs[i].point);
        i = i + 1;
        assert(r@ =~= circle_points(cs@.subrange(0, i as int)));
    }
    assert(cs@.subrange(0, cs@.len() as int) =~= cs@);
    r
}

fn set_points(cs: &mut Vec<Circle>, ps: &Vec<Particle>)
    requires
        ps@.len() == old(cs)@.len(),
    ensures
        final(cs)@ == with_points(old(cs)@, ps@),
{
    let ghost start = cs@;
    let n = cs.len();
    let mut i: usize = 0;
    while i < n
        invariant
            n == cs@.len() == start.len() == ps@.len(),
            i <= n,
            forall|m: int| 0 <= m < i ==> #[trigger] cs@[m] == (Circle { point: ps@[m], ..start[m] }),
            forall|m: int| i <= m < n ==> #[trigger] cs@[m] == start[m],
        decreases n - i,
    {
        let c = Circle { point: ps[i], ..cs[i] };
        cs.set(i, c);
        i = i + 1;
    }
    assert(cs@ =~= with_points(start, ps@));
}

impl Solver {
    /// A world with no entity, no gravity, and the whole coordinate range as bound.
    pub fn new() -> (r: Solver)
        ensures
            r@ == empty_world(),
            r@.wf(),
    {
        let r = Solver {
            particles: Vec::new(),
            links: Vec::new(),
            springs: Vec::new(),
            circles: Vec::new(),
            circle_links: Vec::new(),
            polygons: Vec::new(),
            static_lines: Vec::new(),
            gravity: Vec2 { x: 0, y: 0 },
            bounds: Bounds {
                pos: Vec2 { x: -LIMIT, y: -LIMIT },
                size: Vec2 { x: 2 * LIMIT, y: 2 * LIMIT },
            },
        };
        assert(models(r.polygons@) =~= Seq::<PolygonModel>::empty());
        assert(r@ =~= empty_world());
        r
    }

    /// Advances the simulation by one step of duration `dt`.
    pub fn update(&mut self, dt: i64)
        requires
            old(self)@.wf(),
            0 <= dt <= MAX_DT,
        ensures
            final(self)@ == stepped(old(self)@, dt as int),
            final(self)@.wf(),
            final(self)@.polygons.len() == old(self)@.polygons.len(),
            forall|i: int|
                0 <= i < final(self)@.polygons.len() ==> (#[trigger] final(self)@.polygons[i]).center
                    == centroid(final(self)@.polygons[i].particles) && final(self)@.polygons[i].bounds
                    == aabb(final(self)@.polygons[i].particles),
    {
        let ghost w = self@;
        assert(w.particles == self.particles@ && w.links == self.links@ && w.springs == self.springs@);
        assert(w.circles == self.circles@ && w.circle_links == self.circle_links@);
        assert(w.polygons == models(self.polygons@) && w.static_lines == self.static_lines@);
        assert(w.bounds == self.bounds && w.gravity == self.gravity);
        let g = self.gravity;
        // (1), (2): free particles, their links and springs.
        integrate_all(&mut self.particles, g, dt);
        solve_links(&mut self.particles, &self.links);
        let ghost before_springs = self.particles@;
        let kept = solve_springs(&mut self.particles, &self.springs);
        proof {
            lemma_kept_springs_wf(before_springs, w.springs);
        }
        self.springs = kept;
        // (1), (2): circles and their links.
        let mut pts = points_of(&self.circles);
        assert forall|i: int| 0 <= i < pts@.len() implies #[trigger] pts@[i].wf() by {
            assert(w.circles[i].wf());
        }
        integrate_all(&mut pts, g, dt);
        solve_links(&mut pts, &self.circle_links);
        // (1), (2), (3): polygons.
        let ghost ps1 = self.particles@;
        let ghost ss1 = self.springs@;
        let n = self.polygons.len();
        assert forall|m: int| 0 <= m < n implies #[trigger] self.polygons@[m]@ == w.polygons[m] by {
            assert(models(self.polygons@)[m] == self.polygons@[m]@);
        }
        assert forall|m: int| 0 <= m < n implies #[trigger] self.polygons@[m]@.wf() by {
            assert(w.polygons[m].wf());
        }
        let mut i: usize = 0;
        while i < n
            invariant
                n == self.polygons@.len() == w.polygons.len(),
                self.particles@ == ps1,
                self.springs@ == ss1,
                self.links@ == w.links,
                self.circles@ == w.circles,
                self.circle_links@ == w.circle_links,
                self.static_lines@ == w.static_lines,
                self.bounds == w.bounds,
                self.gravity == w.gravity,
                i <= n,
                g == w.gravity,
                g.in_limit(),
                0 <= dt <= MAX_DT,
                forall|m: int|
                    0 <= m < i ==> #[trigger] self.polygons@[m]@ == polygon_advanced(
                        w.polygons[m],
                        g,
                        dt as int,
                    ),
                forall|m: int| i <= m < n ==> #[trigger] self.polygons@[m]@ == w.polygons[m],
                forall|m: int| 0 <= m < n ==> #[trigger] self.polygons@[m]@.wf(),
            decreases n - i,
        {
            self.polygons[i].advance(g, dt);
            i = i + 1;
        }
        let ghost advanced = models(self.polygons@);
        assert(advanced =~= w.polygons.map_values(
            |m: PolygonModel| polygon_advanced(m, g, dt as int),
        ));
        assert(all_polygons_wf(advanced)) by {
            assert forall|m: int| 0 <= m < advanced.len() implies #[trigger] advanced[m].wf() by {
                assert(self.polygons@[m]@.wf());
            }
        }
        // (4): collisions.
        resolve_collisions(&mut self.polygons);
        let ghost collided = models(self.polygons@);
        // (5): static lines and bound.
        finish_all(&mut self.particles, &self.static_lines, self.bounds);
        finish_all(&mut pts, &self.static_lines, self.bounds);
        set_points(&mut self.circles, &pts);
        let ghost ps2 = self.particles@;
        let ghost cs2 = self.circles@;
        assert forall|m: int| 0 <= m < n implies #[trigger] self.polygons@[m]@ == collided[m] by {
            assert(models(self.polygons@)[m] == self.polygons@[m]@);
        }
        assert forall|m: int| 0 <= m < n implies #[trigger] self.polygons@[m]@.wf() by {
            assert(collided[m].wf());
        }
        let mut i: usize = 0;
        while i < n
            invariant
                n == self.polygons@.len() == collided.len(),
                self.particles@ == ps2,
                self.springs@ == ss1,
                self.links@ == w.links,
                self.circles@ == cs2,
                self.circle_links@ == w.circle_links,
                self.gravity == w.gravity,
                i <= n,
                self.static_lines@ == w.static_lines,
                self.bounds == w.bounds,
                w.bounds.wf(),
                forall|m: int| 0 <= m < w.static_lines.len() ==> #[trigger] w.static_lines[m].wf(),
                forall|m: int|
                    0 <= m < i ==> #[trigger] self.polygons@[m]@ == polygon_finished(
                        collided[m],
                        w.static_lines,
                        w.bounds,
                    ),
                forall|m: int| i <= m < n ==> #[trigger] self.polygons@[m]@ == collided[m],
                forall|m: int| 0 <= m < n ==> #[trigger] self.polygons@[m]@.wf(),
            decreases n - i,
        {
            self.polygons[i].finish(&self.static_lines, self.bounds);
            i = i + 1;
        }
        proof {
            let r = stepped(w, dt as int);
            assert(models(self.polygons@) =~= r.polygons);
            assert(self.circles@ =~= r.circles);
            assert(self@ =~= r);
            assert forall|m: int| 0 <= m < r.circles.len() implies #[trigger] r.circles[m].wf() by {
                assert(w.circles[m].wf());
            }
            assert(all_polygons_wf(r.polygons)) by {
                assert forall|m: int| 0 <= m < r.polygons.len() implies #[trigger] r.polygons[m].wf() by {
                    assert(self.polygons@[m]@.wf());
                }
            }
        }
    }
}

/// The world after the steps of durations `dts`, in order.
pub open spec fn run(w: WorldModel, dts: Seq<i64>) -> WorldModel
    decreases dts.len(),
{
    if dts.len() == 0 {
        w
    } else {
        stepped(run(w, dts.drop_last()), dts.last() as int)
    }
}

impl Solver {
    /// Runs one step for each duration of `dts`, in order.
    pub fn run_steps(&mut self, dts: &Vec<i64>)
        requires
            old(self)@.wf(),
            forall|i: int| 0 <= i < dts@.len() ==> 0 <= #[trigger] dts@[i] <= MAX_DT,
        ensures
            final(self)@ == run(old(self)@, dts@),
            final(self)@.wf(),
    {
        let ghost start = self@;
        let mut i: usize = 0;
        while i < dts.len()
            invariant
                i <= dts@.len(),
                self@.wf(),
                forall|m: int| 0 <= m < dts@.len() ==> 0 <= #[trigger] dts@[m] <= MAX_DT,
                self@ == run(start, dts@.subrange(0, i as int)),
            decreases dts@.len() - i,
        {
            let dt = dts[i];
            assert(0 <= dts@[i as int] <= MAX_DT);
            self.update(dt);
            proof {
                let pre = dts@.subrange(0, i as int + 1);
                assert(pre.drop_last() =~= dts@.subrange(0, i as int));
                assert(pre.last() == dt);
            }
            i = i + 1;
        }
        assert(dts@.subrange(0, dts@.len() as int) =~= dts@);
    }
}

/// Determinism: a step depends on nothing but the world's state and its
/// duration, so two worlds in the same state that are given the same
/// sequence of steps are in the same state after every one of them.
pub proof fn lemma_deterministic(w1: WorldModel, w2: WorldModel, dts: Seq<i64>)
    requires
        w1 == w2,
    ensures
        forall|n: int| 0 <= n <= dts.len() ==> #[trigger] run(w1, dts.subrange(0, n)) == run(w2, dts.subrange(0, n)),
{
}

/// Resuming a run: running the steps `a` and then the steps `b` gives the
/// same world as running `a` followed by `b` in one go.
pub proof fn lemma_run_concat(w: WorldModel, a: Seq<i64>, b: Seq<i64>)
    ensures
        run(run(w, a), b) == run(w, a + b),
    decreases b.len(),
{
    if b.len() == 0 {
        assert(a + b =~= a);
    } else {
        lemma_run_concat(w, a, b.drop_last());
        assert((a + b).drop_last() =~= a + b.drop_last());
        assert((a + b).last() == b.last());
    }
}

/// Bounds containment: after a step, every particle, circle and polygon
/// vertex lies inside the world bound.
pub proof fn lemma_bounds_containment(w: WorldModel, dt: int)
    requires
        w.wf(),
    ensures
        forall|i: int|
            0 <= i < stepped(w, dt).particles.len() ==> w.bounds.contains(
                #[trigger] stepped(w, dt).particles[i].pos,
            ),
        forall|i: int|
            0 <= i < stepped(w, dt).circles.len() ==> w.bounds.contains(
                #[trigger] stepped(w, dt).circles[i].point.pos,
            ),
        forall|i: int, k: int|
            0 <= i < stepped(w, dt).polygons.len() && 0 <= k < stepped(w, dt).polygons[i].particles.len()
                ==> w.bounds.contains(#[trigger] stepped(w, dt).polygons[i].particles[k].pos),
{
    let g = w.gravity;
    let cps = links_applied(all_integrated(circle_points(w.circles), g, dt), w.circle_links);
    lemma_links_len(all_integrated(circle_points(w.circles), g, dt), w.circle_links);
    assert(cps.len() == w.circles.len());
}

/// Links keep the number of particles.
pub proof fn lemma_links_len(ps: Seq<Particle>, ls: Seq<Link>)
    requires
        forall|i: int| 0 <= i < ls.len() ==> #[trigger] ls[i].wf(ps.len()),
    ensures
        links_applied(ps, ls).len() == ps.len(),
    decreases ls.len(),
{
    if ls.len() > 0 {
        let q = ls.drop_last();
        assert forall|i: int| 0 <= i < q.len() implies #[trigger] q[i].wf(ps.len()) by {
            assert(q[i] == ls[i]);
        }
        lemma_links_len(ps, q);
        assert(ls[ls.len() - 1].wf(ps.len()));
    }
}

/// Permanent springs: when every spring of the world has a negative
/// threshold, a step keeps all of them, however far they are stretched.
pub proof fn lemma_permanent_springs_stay(w: WorldModel, dt: int)
    requires
        forall|i: int| 0 <= i < w.springs.len() ==> #[trigger] w.springs[i].permanence_threshold < 0,
    ensures
        stepped(w, dt).springs == w.springs,
{
    crate::constraint::lemma_permanent_springs_kept(
        links_applied(all_integrated(w.particles, w.gravity, dt), w.links),
        w.springs,
    );
}

/// A polygon at rest inside the rectangle `b`: no pressure, no vertex
/// moving, every vertex inside `b`, and every spring at its rest length.
pub open spec fn at_rest(m: PolygonModel, b: Bounds) -> bool {
    &&& m.pressure == 0
    &&& forall|i: int|
        0 <= i < m.springs.len() ==> #[trigger] m.springs[i].wf(m.particles.len())
    &&& forall|k: int|
        0 <= k < m.particles.len() ==> #[trigger] m.particles[k].pos == m.particles[k].prev_pos
            && b.contains(m.particles[k].pos)
    &&& forall|i: int|
        0 <= i < m.springs.len() ==> #[trigger] m.springs[i].rest_length == dist(
            m.particles[m.springs[i].particle_a as int].pos,
            m.particles[m.springs[i].particle_b as int].pos,
        )
}

proof fn lemma_rest_integrated(ps: Seq<Particle>, dt: int, b: Bounds)
    requires
        b.wf(),
        forall|k: int|
            0 <= k < ps.len() ==> #[trigger] ps[k].pos == ps[k].prev_pos && b.contains(ps[k].pos),
    ensures
        all_integrated(ps, Vec2 { x: 0, y: 0 }, dt) == ps,
{
    let r = all_integrated(ps, Vec2 { x: 0, y: 0 }, dt);
    assert forall|k: int| 0 <= k < ps.len() implies #[trigger] r[k] == ps[k] by {
        assert(ps[k].pos == ps[k].prev_pos && b.contains(ps[k].pos));
        assert(0 * dt * dt == 0);
        assert(gravity_offset(0, dt) == 0);
    }
    assert(r =~= ps);
}

proof fn lemma_rest_springs(ps: Seq<Particle>, ss: Seq<Spring>, b: Bounds)
    requires
        b.wf(),
        forall|k: int| 0 <= k < ps.len() ==> b.contains(#[trigger] ps[k].pos),
        forall|i: int| 0 <= i < ss.len() ==> #[trigger] ss[i].wf(ps.len()),
        forall|i: int|
            0 <= i < ss.len() ==> #[trigger] ss[i].rest_length == dist(
                ps[ss[i].particle_a as int].pos,
                ps[ss[i].particle_b as int].pos,
            ),
    ensures
        springs_applied(ps, ss) == (ps, ss),
    decreases ss.len(),
{
    if ss.len() == 0 {
        assert(ss =~= Seq::<Spring>::empty());
    } else {
        let q = ss.drop_last();
        assert forall|i: int| 0 <= i < q.len() implies #[trigger] q[i].wf(ps.len()) by {
            assert(q[i] == ss[i]);
        }
        assert forall|i: int| 0 <= i < q.len() implies #[trigger] q[i].rest_length == dist(
            ps[q[i].particle_a as int].pos,
            ps[q[i].particle_b as int].pos,
        ) by {
            assert(q[i] == ss[i]);
        }
        lemma_rest_springs(ps, q, b);
        let s = ss.last();
        assert(s == ss[ss.len() - 1]);
        assert(s.wf(ps.len()));
        let i = s.particle_a as int;
        let j = s.particle_b as int;
        let d = dist(ps[i].pos, ps[j].pos);
        assert(d == s.rest_length);
        assert(s.permanence_threshold >= 0 ==> s.permanence_threshold * s.rest_length >= 0)
            by (nonlinear_arith)
            requires
                s.rest_length >= 0,
        ;
        assert(!spring_breaks(ps, s));
        if i != j {
            let a = ps[i];
            let c = ps[j];
            assert(b.contains(a.pos) && b.contains(c.pos));
            let dx = c.pos.x - a.pos.x;
            let dy = c.pos.y - a.pos.y;
            assert(dx * (d - s.rest_length) == 0);
            assert(dy * (d - s.rest_length) == 0);
            if d > 0 {
                vstd::arithmetic::div_mod::lemma_div_of0(d);
                vstd::arithmetic::div_mod::lemma_div_of0(ONE as int);
                if a.inverse_mass + c.inverse_mass != 0 {
                    vstd::arithmetic::div_mod::lemma_div_of0(a.inverse_mass + c.inverse_mass);
                }
            }
            assert(0 * s.stiffness == 0);
            assert(0 * a.inverse_mass == 0 && 0 * c.inverse_mass == 0);
            let r = crate::constraint::pair_corrected(a, c, s.rest_length as int, s.stiffness as int);
            assert(r.0 == a);
            assert(r.1 == c);
            assert(spring_applied(ps, s) =~= ps);
        }
        assert(q.push(s) =~= ss);
    }
}

proof fn lemma_rest_lines(p: Particle, ls: Seq<Segment>, k: nat)
    requires
        p.pos == p.prev_pos,
    ensures
        lines_bounced(p, ls, k) == p,
    decreases k,
{
    if k > 0 {
        lemma_rest_lines(p, ls, (k - 1) as nat);
        assert(!segments_cross(p.prev_pos, p.pos, ls[k - 1].a, ls[k - 1].b));
    }
}

/// Shape stability: a single polygon at rest, under zero gravity, keeps its
/// vertex layout exactly through a step, and is still at rest afterwards.
pub proof fn lemma_resting_polygon_step(w: WorldModel, dt: int)
    requires
        w.bounds.wf(),
        w.gravity == (Vec2 { x: 0, y: 0 }),
        w.polygons.len() == 1,
        at_rest(w.polygons[0], w.bounds),
    ensures
        stepped(w, dt).polygons.len() == 1,
        stepped(w, dt).polygons[0].particles == w.polygons[0].particles,
        stepped(w, dt).polygons[0].springs == w.polygons[0].springs,
        stepped(w, dt).polygons[0].pressure == w.polygons[0].pressure,
        stepped(w, dt).bounds == w.bounds,
        stepped(w, dt).gravity == w.gravity,
        at_rest(stepped(w, dt).polygons[0], w.bounds),
{
    let m = w.polygons[0];
    let g = w.gravity;
    let b = w.bounds;
    lemma_rest_integrated(m.particles, dt, b);
    let mi = polygon_integrated(m, g, dt);
    assert(mi =~= m);
    lemma_rest_springs(m.particles, m.springs, b);
    let ms = polygon_solved(mi);
    assert(ms =~= m);
    let m1 = polygon_advanced(m, g, dt);
    assert(m1 == polygon_refreshed(m));
    assert(m1.particles == m.particles && m1.springs == m.springs);
    let adv = w.polygons.map_values(|q: PolygonModel| polygon_advanced(q, g, dt));
    assert(adv[0] == m1);
    let cl = cleared(adv);
    assert(rows_resolved(cl, 0) == cl);
    assert(row_resolved(cl, 0, 0) == cl);
    assert(pair_resolved(cl, 0, 0) == cl);
    assert(row_resolved(cl, 0, 1) == cl);
    assert(rows_resolved(cl, 1) == cl);
    let polys = collisions_resolved(adv);
    assert(polys == cl);
    let mc = polys[0];
    assert(mc.particles == m.particles);
    let mf = polygon_finished(mc, w.static_lines, b);
    assert forall|k: int| 0 <= k < m.particles.len() implies #[trigger] mf.particles[k] == m.particles[k] by {
        let p = m.particles[k];
        assert(p.pos == p.prev_pos && b.contains(p.pos));
        lemma_rest_lines(p, w.static_lines, w.static_lines.len());
        assert(finished(p, w.static_lines, b) == clamped(p, b));
        assert(clamped(p, b) == p);
    }
    assert(mf.particles =~= m.particles);
    assert(stepped(w, dt).polygons[0] == mf);
}

/// Shape stability over any number of steps: a single polygon at rest under
/// zero gravity keeps its initial vertex layout after every run.
pub proof fn lemma_resting_polygon_run(w: WorldModel, dts: Seq<i64>)
    requires
        w.bounds.wf(),
        w.gravity == (Vec2 { x: 0, y: 0 }),
        w.polygons.len() == 1,
        at_rest(w.polygons[0], w.bounds),
    ensures
        run(w, dts).polygons.len() == 1,
        run(w, dts).polygons[0].particles == w.polygons[0].particles,
        run(w, dts).bounds == w.bounds,
        run(w, dts).gravity == w.gravity,
        at_rest(run(w, dts).polygons[0], w.bounds),
    decreases dts.len(),
{
    if dts.len() > 0 {
        lemma_resting_polygon_run(w, dts.drop_last());
        lemma_resting_polygon_step(run(w, dts.drop_last()), dts.last() as int);
    }
}

impl Solver {
    /// Adds a particle at rest at `pos`, of unit mass. Returns its index, or
    /// None (and leaves the world as it is) when `pos` is out of range.
    pub fn add_particle(&mut self, pos: Vec2) -> (r: Option<usize>)
        requires
            old(self)@.wf(),
        ensures
            final(self)@.wf(),
            pos.in_limit() ==> r == Some(old(self)@.particles.len() as usize) && final(self)@ == (WorldModel {
                particles: old(self)@.particles.push(Particle::new_spec(pos)),
                ..old(self)@
            }),
            !pos.in_limit() ==> r is None && final(self)@ == old(self)@,
    {
        if !pos.is_in_limit() {
            return None;
        }
        let i = self.particles.len();
        self.particles.push(Particle::new(pos));
        proof {
            assert(self.particles@.len() == self.particles.len());
            let w = old(self)@;
            assert(self@ =~= WorldModel { particles: w.particles.push(Particle::new_spec(pos)), ..w });
            assert forall|m: int| 0 <= m < self@.particles.len() implies #[trigger] self@.particles[m].wf() by {
                if m < w.particles.len() {
                    assert(w.particles[m].wf());
                }
            }
            assert forall|m: int| 0 <= m < w.links.len() implies #[trigger] w.links[m].wf(self@.particles.len()) by {
                assert(w.links[m].wf(w.particles.len()));
            }
            assert forall|m: int| 0 <= m < w.springs.len() implies #[trigger] w.springs[m].wf(self@.particles.len()) by {
                assert(w.springs[m].wf(w.particles.len()));
            }
        }
        Some(i)
    }

    /// Adds a particle. Returns its index, or None (and leaves the world as it
    /// is) when the particle is not well formed.
    pub fn add_particle_with(&mut self, p: Particle) -> (r: Option<usize>)
        requires
            old(self)@.wf(),
        ensures
            final(self)@.wf(),
            p.wf() ==> r == Some(old(self)@.particles.len() as usize) && final(self)@ == (WorldModel {
                particles: old(self)@.particles.push(p),
                ..old(self)@
            }),
            !p.wf() ==> r is None && final(self)@ == old(self)@,
    {
        if !p.is_valid() {
            return None;
        }
        let i = self.particles.len();
        self.particles.push(p);
        proof {
            assert(self.particles@.len() == self.particles.len());
            let w = old(self)@;
            assert(self@ =~= WorldModel { particles: w.particles.push(p), ..w });
            assert forall|m: int| 0 <= m < self@.particles.len() implies #[trigger] self@.particles[m].wf() by {
                if m < w.particles.len() {
                    assert(w.particles[m].wf());
                }
            }
            assert forall|m: int| 0 <= m < w.links.len() implies #[trigger] w.links[m].wf(self@.particles.len()) by {
                assert(w.links[m].wf(w.particles.len()));
            }
            assert forall|m: int| 0 <= m < w.springs.len() implies #[trigger] w.springs[m].wf(self@.particles.len()) by {
                assert(w.springs[m].wf(w.particles.len()));
            }
        }
        Some(i)
    }

    /// Adds a circle. Returns its index, or None (and leaves the world as it
    /// is) when the circle is not well formed.
    pub fn add_circle(&mut self, c: Circle) -> (r: Option<usize>)
        requires
            old(self)@.wf(),
        ensures
            final(self)@.wf(),
            c.wf() ==> r == Some(old(self)@.circles.len() as usize) && final(self)@ == (WorldModel {
                circles: old(self)@.circles.push(c),
                ..old(self)@
            }),
            !c.wf() ==> r is None && final(self)@ == old(self)@,
    {
        if !c.is_valid() {
            return None;
        }
        let i = self.circles.len();
        self.circles.push(c);
        proof {
            assert(self.circles@.len() == self.circles.len());
            let w = old(self)@;
            assert(self@ =~= WorldModel { circles: w.circles.push(c), ..w });
            assert forall|m: int| 0 <= m < self@.circles.len() implies #[trigger] self@.circles[m].wf() by {
                if m < w.circles.len() {
                    assert(w.circles[m].wf());
                }
            }
            assert forall|m: int| 0 <= m < w.circle_links.len() implies #[trigger] w.circle_links[m].wf(self@.circles.len()) by {
                assert(w.circle_links[m].wf(w.circles.len()));
            }
        }
        Some(i)
    }

    /// Adds a polygon. Returns its index, or None (and leaves the world as it
    /// is) when the polygon is not well formed.
    pub fn add_polygon(&mut self, p: Polygon) -> (r: Option<usize>)
        requires
            old(self)@.wf(),
        ensures
            final(self)@.wf(),
            p@.wf() ==> r == Some(old(self)@.polygons.len() as usize) && final(self)@ == (WorldModel {
                polygons: old(self)@.polygons.push(p@),
                ..old(self)@
            }),
            !p@.wf() ==> r is None && final(self)@ == old(self)@,
    {
        if !p.is_well_formed() {
            return None;
        }
        let ghost pm = p@;
        let i = self.polygons.len();
        self.polygons.push(p);
        proof {
            let w = old(self)@;
            assert(models(self.polygons@) =~= w.polygons.push(pm));
            assert(self@ =~= WorldModel { polygons: w.polygons.push(pm), ..w });
            assert forall|m: int| 0 <= m < self@.polygons.len() implies #[trigger] self@.polygons[m].wf() by {
                if m < w.polygons.len() {
                    assert(w.polygons[m].wf());
                }
            }
        }
        Some(i)
    }

    /// Adds a link between two existing particles. Returns its index, or
    /// None (and leaves the world as it is) when an index is out of range
    /// or the target distance is outside `[0, MAX_LEN]`.
    pub fn add_particle_link(&mut self, l: Link) -> (r: Option<usize>)
        requires
            old(self)@.wf(),
        ensures
            final(self)@.wf(),
            l.wf(old(self)@.particles.len()) ==> r == Some(old(self)@.links.len() as usize) && final(self)@
                == (WorldModel { links: old(self)@.links.push(l), ..old(self)@ }),
            !l.wf(old(self)@.particles.len()) ==> r is None && final(self)@ == old(self)@,
    {
        if !l.is_valid(self.particles.len()) {
            return None;
        }
        let i = self.links.len();
        self.links.push(l);
        proof {
            let w = old(self)@;
            assert(self@ =~= WorldModel { links: w.links.push(l), ..w });
            assert forall|m: int| 0 <= m < self@.links.len() implies #[trigger] self@.links[m].wf(w.particles.len()) by {
                if m < w.links.len() {
                    assert(w.links[m].wf(w.particles.len()));
                }
            }
        }
        Some(i)
    }

    /// Adds a spring between two existing particles. Returns its index, or
    /// None (and leaves the world as it is) when an index is out of range
    /// or a coefficient is outside its range.
    pub fn add_particle_spring(&mut self, s: Spring) -> (r: Option<usize>)
        requires
            old(self)@.wf(),
        ensures
            final(self)@.wf(),
            s.wf(old(self)@.particles.len()) ==> r == Some(old(self)@.springs.len() as usize) && final(self)@
                == (WorldModel { springs: old(self)@.springs.push(s), ..old(self)@ }),
            !s.wf(old(self)@.particles.len()) ==> r is None && final(self)@ == old(self)@,
    {
        if !s.is_valid(self.particles.len()) {
            return None;
        }
        let i = self.springs.len();
        self.springs.push(s);
        proof {
            let w = old(self)@;
            assert(self@ =~= WorldModel { springs: w.springs.push(s), ..w });
            assert forall|m: int| 0 <= m < self@.springs.len() implies #[trigger] self@.springs[m].wf(w.particles.len()) by {
                if m < w.springs.len() {
                    assert(w.springs[m].wf(w.particles.len()));
                }
            }
        }
        Some(i)
    }

    /// Adds a link between two existing circles. Returns its index, or None
    /// (and leaves the world as it is) when an index is out of range or the
    /// target distance is outside `[0, MAX_LEN]`.
    pub fn add_circle_link(&mut self, l: Link) -> (r: Option<usize>)
        requires
            old(self)@.wf(),
        ensures
            final(self)@.wf(),
            l.wf(old(self)@.circles.len()) ==> r == Some(old(self)@.circle_links.len() as usize)
                && final(self)@ == (WorldModel {
                circle_links: old(self)@.circle_links.push(l),
                ..old(self)@
            }),
            !l.wf(old(self)@.circles.len()) ==> r is None && final(self)@ == old(self)@,
    {
        if !l.is_valid(self.circles.len()) {
            return None;
        }
        let i = self.circle_links.len();
        self.circle_links.push(l);
        proof {
            let w = old(self)@;
            assert(self@ =~= WorldModel { circle_links: w.circle_links.push(l), ..w });
            assert forall|m: int| 0 <= m < self@.circle_links.len() implies #[trigger] self@.circle_links[m].wf(w.circles.len()) by {
                if m < w.circle_links.len() {
                    assert(w.circle_links[m].wf(w.circles.len()));
                }
            }
        }
        Some(i)
    }

    /// Adds a static line from `a` to `b`. Returns its index, or None (and
    /// leaves the world as it is) when an endpoint is out of range.
    pub fn add_static_line(&mut self, a: Vec2, b: Vec2) -> (r: Option<usize>)
        requires
            old(self)@.wf(),
        ensures
            final(self)@.wf(),
            (a.in_limit() && b.in_limit()) ==> r == Some(old(self)@.static_lines.len() as usize)
                && final(self)@ == (WorldModel {
                static_lines: old(self)@.static_lines.push(Segment { a, b }),
                ..old(self)@
            }),
            !(a.in_limit() && b.in_limit()) ==> r is None && final(self)@ == old(self)@,
    {
        if !a.is_in_limit() || !b.is_in_limit() {
            return None;
        }
        let i = self.static_lines.len();
        self.static_lines.push(Segment { a, b });
        proof {
            let w = old(self)@;
            assert(self@ =~= WorldModel { static_lines: w.static_lines.push(Segment { a, b }), ..w });
            assert forall|m: int| 0 <= m < self@.static_lines.len() implies #[trigger] self@.static_lines[m].wf() by {
                if m < w.static_lines.len() {
                    assert(w.static_lines[m].wf());
                }
            }
        }
        Some(i)
    }

    /// Sets the gravity. Returns false (and leaves the world as it is) when
    /// `g` is out of range.
    pub fn set_gravity(&mut self, g: Vec2) -> (r: bool)
        requires
            old(self)@.wf(),
        ensures
            final(self)@.wf(),
            r == g.in_limit(),
            r ==> final(self)@ == (WorldModel { gravity: g, ..old(self)@ }),
            !r ==> final(self)@ == old(self)@,
    {
        if !g.is_in_limit() {
            return false;
        }
        self.gravity = g;
        assert(self@ =~= WorldModel { gravity: g, ..old(self)@ });
        true
    }

    /// Sets the world bound. Returns false (and leaves the world as it is)
    /// when the rectangle is not well formed.
    pub fn set_bounds(&mut self, b: Bounds) -> (r: bool)
        requires
            old(self)@.wf(),
        ensures
            final(self)@.wf(),
            r == b.wf(),
            r ==> final(self)@ == (WorldModel { bounds: b, ..old(self)@ }),
            !r ==> final(self)@ == old(self)@,
    {
        if !b.is_valid() {
            return false;
        }
        self.bounds = b;
        assert(self@ =~= WorldModel { bounds: b, ..old(self)@ });
        true
    }

    /// Replaces vertex `k` of polygon `i`, to displace it or give it a
    /// velocity. Returns false (and leaves the world as it is) when an index
    /// is out of range or the particle is not well formed.
    pub fn set_polygon_particle(&mut self, i: usize, k: usize, p: Particle) -> (r: bool)
        requires
            old(self)@.wf(),
        ensures
            final(self)@.wf(),
            r == (i < old(self)@.polygons.len() && k < old(self)@.polygons[i as int].particles.len()
                && p.wf()),
            r ==> final(self)@ == (WorldModel {
                polygons: old(self)@.polygons.update(
                    i as int,
                    PolygonModel {
                        particles: old(self)@.polygons[i as int].particles.update(k as int, p),
                        ..old(self)@.polygons[i as int]
                    },
                ),
                ..old(self)@
            }),
            !r ==> final(self)@ == old(self)@,
    {
        let ghost w = self@;
        if i >= self.polygons.len() {
            return false;
        }
        assert(self.polygons@[i as int]@ == w.polygons[i as int]);
        if k >= self.polygons[i].particles.len() || !p.is_valid() {
            return false;
        }
        self.polygons[i].particles.set(k, p);
        proof {
            let np = PolygonModel {
                particles: w.polygons[i as int].particles.update(k as int, p),
                ..w.polygons[i as int]
            };
            assert(models(self.polygons@) =~= w.polygons.update(i as int, np));
            assert(self@ =~= WorldModel { polygons: w.polygons.update(i as int, np), ..w });
            assert(w.polygons[i as int].wf());
            assert forall|q: int| 0 <= q < np.particles.len() implies #[trigger] np.particles[q].wf() by {
                if q != k {
                    assert(w.polygons[i as int].particles[q].wf());
                }
            }
            assert forall|m: int| 0 <= m < self@.polygons.len() implies #[trigger] self@.polygons[m].wf() by {
                if m != i {
                    assert(w.polygons[m].wf());
                }
            }
        }
        true
    }

    pub fn gravity(&self) -> (r: Vec2)
        ensures
            r == self@.gravity,
    {
        self.gravity
    }

    pub fn bounds(&self) -> (r: Bounds)
        ensures
            r == self@.bounds,
    {
        self.bounds
    }

    /// The particle of index `i`, or None when out of range.
    pub fn get_particle(&self, i: usize) -> (r: Option<Particle>)
        ensures
            i < self@.particles.len() ==> r == Some(self@.particles[i as int]),
            i >= self@.particles.len() ==> r is None,
    {
        if i < self.particles.len() {
            Some(self.particles[i])
        } else {
            None
        }
    }

    /// The circle of index `i`, or None when out of range.
    pub fn get_circle(&self, i: usize) -> (r: Option<Circle>)
        ensures
            i < self@.circles.len() ==> r == Some(self@.circles[i as int]),
            i >= self@.circles.len() ==> r is None,
    {
        if i < self.circles.len() {
            Some(self.circles[i])
        } else {
            None
        }
    }

    /// The polygon of index `i`, or None when out of range.
    pub fn get_polygon(&self, i: usize) -> (r: Option<&Polygon>)
        ensures
            i < self@.polygons.len() ==> r is Some && r->0@ == self@.polygons[i as int],
            i >= self@.polygons.len() ==> r is None,
    {
        if i < self.polygons.len() {
            assert(self.polygons@[i as int]@ == self@.polygons[i as int]);
            Some(&self.polygons[i])
        } else {
            None
        }
    }

    pub fn get_particles(&self) -> (r: &Vec<Particle>)
        ensures
            r@ == self@.particles,
    {
        &self.particles
    }

    pub fn get_circles(&self) -> (r: &Vec<Circle>)
        ensures
            r@ == self@.circles,
    {
        &self.circles
    }

    pub fn get_polygons(&self) -> (r: &Vec<Polygon>)
        ensures
            models(r@) == self@.polygons,
    {
        &self.polygons
    }

    pub fn get_particle_links(&self) -> (r: &Vec<Link>)
        ensures
            r@ == self@.links,
    {
        &self.links
    }

    pub fn get_particle_springs(&self) -> (r: &Vec<Spring>)
        ensures
            r@ == self@.springs,
    {
        &self.springs
    }

    pub fn get_circle_links(&self) -> (r: &Vec<Link>)
        ensures
            r@ == self@.circle_links,
    {
        &self.circle_links
    }

    pub fn get_static_lines(&self) -> (r: &Vec<Segment>)
        ensures
            r@ == self@.static_lines,
    {
        &self.static_lines
    }

    pub fn get_particle_len(&self) -> (r: usize)
        ensures
            r == self@.particles.len(),
    {
        self.particles.len()
    }

    pub fn get_circles_len(&self) -> (r: usize)
        ensures
            r == self@.circles.len(),
    {
        self.circles.len()
    }

    pub fn get_polygons_len(&self) -> (r: usize)
        ensures
            r == self@.polygons.len(),
    {
        self.polygons.len()
    }
}

/// Spring breaking in a step: a spring with a threshold `t >= 0` whose
/// relative stretch exceeds `t` once the step has integrated the particles
/// and solved the links is no longer in the world after that step.
pub proof fn lemma_stretched_spring_leaves(w: WorldModel, dt: int)
    requires
        w.springs.len() == 1,
        w.springs[0].wf(w.particles.len()),
        forall|i: int| 0 <= i < w.links.len() ==> #[trigger] w.links[i].wf(w.particles.len()),
        w.springs[0].permanence_threshold >= 0,
        ({
            let ps = links_applied(all_integrated(w.particles, w.gravity, dt), w.links);
            let s = w.springs[0];
            (dist(ps[s.particle_a as int].pos, ps[s.particle_b as int].pos) - s.rest_length) * ONE
                > s.permanence_threshold * s.rest_length
        }),
    ensures
        stepped(w, dt).springs.len() == 0,
{
    let ps = links_applied(all_integrated(w.particles, w.gravity, dt), w.links);
    lemma_links_len(all_integrated(w.particles, w.gravity, dt), w.links);
    assert(w.springs =~= seq![w.springs[0]]);
    crate::constraint::lemma_stretched_spring_breaks(ps, w.springs[0]);
}

/// The converse: a spring whose relative stretch does not exceed its
/// threshold once the step has integrated the particles and solved the links
/// (or whose threshold is negative) stays in the world after that step.
pub proof fn lemma_unstretched_spring_stays(w: WorldModel, dt: int)
    requires
        w.springs.len() == 1,
        ({
            let ps = links_applied(all_integrated(w.particles, w.gravity, dt), w.links);
            let s = w.springs[0];
            s.permanence_threshold < 0 || (dist(ps[s.particle_a as int].pos, ps[s.particle_b as int].pos)
                - s.rest_length) * ONE <= s.permanence_threshold * s.rest_length
        }),
    ensures
        stepped(w, dt).springs == w.springs,
{
    let ps = links_applied(all_integrated(w.particles, w.gravity, dt), w.links);
    let ss = w.springs;
    assert(ss.drop_last() =~= Seq::<Spring>::empty());
    assert(springs_applied(ps, Seq::<Spring>::empty()) == (ps, Seq::<Spring>::empty()));
    assert(!spring_breaks(ps, ss.last()));
    assert(Seq::<Spring>::empty().push(ss.last()) =~= ss);
}

/// A spring of a freshly built shape joins two of its vertices at their
/// current distance.
pub open spec fn spring_at_rest(ps: Seq<Particle>, s: Spring) -> bool {
    &&& s.wf(ps.len())
    &&& s.rest_length == dist(ps[s.particle_a as int].pos, ps[s.particle_b as int].pos)
}

proof fn lemma_pair_row_at_rest(ps: Seq<Particle>, a: int, m: int, k: int, t: int)
    requires
        0 <= a < ps.len(),
        m <= ps.len(),
        ps.len() <= usize::MAX,
        forall|q: int| 0 <= q < ps.len() ==> (#[trigger] ps[q]).pos.in_limit(),
        0 <= k <= ONE,
    ensures
        forall|q: int|
            0 <= q < pair_row(ps, a, m, k, t).len() ==> spring_at_rest(ps, #[trigger] pair_row(ps, a, m, k, t)[q]),
    decreases m - a,
{
    if m > a + 1 {
        lemma_pair_row_at_rest(ps, a, m - 1, k, t);
        assert(ps[a].pos.in_limit() && ps[m - 1].pos.in_limit());
        let ux = ps[m - 1].pos.x - ps[a].pos.x;
        let uy = ps[m - 1].pos.y - ps[a].pos.y;
        assert(ux * ux <= 4 * LIMIT * LIMIT && uy * uy <= 4 * LIMIT * LIMIT) by (nonlinear_arith)
            requires
                -2 * LIMIT <= ux <= 2 * LIMIT,
                -2 * LIMIT <= uy <= 2 * LIMIT,
        ;
        assert(ux * ux >= 0 && uy * uy >= 0) by (nonlinear_arith);
        crate::fixed::lemma_floor_sqrt_bound((ux * ux + uy * uy) as nat);
        let r = pair_row(ps, a, m, k, t);
        let prev = pair_row(ps, a, m - 1, k, t);
        assert forall|q: int| 0 <= q < r.len() implies spring_at_rest(ps, #[trigger] r[q]) by {
            if q < prev.len() {
                assert(r[q] == prev[q]);
            } else {
                assert(r[q].particle_a as int == a && r[q].particle_b as int == m - 1);
            }
        }
    }
}

proof fn lemma_shape_springs_at_rest(ps: Seq<Particle>, r: nat, k: int, t: int)
    requires
        r <= ps.len(),
        ps.len() <= usize::MAX,
        forall|q: int| 0 <= q < ps.len() ==> (#[trigger] ps[q]).pos.in_limit(),
        0 <= k <= ONE,
    ensures
        forall|q: int|
            0 <= q < shape_springs(ps, r, k, t).len() ==> spring_at_rest(ps, #[trigger] shape_springs(ps, r, k, t)[q]),
    decreases r,
{
    if r > 0 {
        lemma_shape_springs_at_rest(ps, (r - 1) as nat, k, t);
        lemma_pair_row_at_rest(ps, r - 1, ps.len() as int, k, t);
        let x = shape_springs(ps, (r - 1) as nat, k, t);
        let y = pair_row(ps, r - 1, ps.len() as int, k, t);
        let z = shape_springs(ps, r, k, t);
        assert(z == x + y);
        assert forall|q: int| 0 <= q < z.len() implies spring_at_rest(ps, #[trigger] z[q]) by {
            if q < x.len() {
                assert(z[q] == x[q]);
            } else {
                assert(z[q] == y[q - x.len()]);
            }
        }
    }
}

/// A polygon built from points inside the rectangle `b`, without pressure,
/// is at rest inside `b`: its vertices do not move and its springs are at
/// their rest length.
pub proof fn lemma_shaped_at_rest(
    points: Seq<Vec2>,
    inverse_mass: i64,
    stiffness: i64,
    permanence_threshold: i64,
    b: Bounds,
)
    requires
        b.wf(),
        0 <= stiffness <= ONE,
        points.len() <= usize::MAX,
        forall|q: int| 0 <= q < points.len() ==> b.contains(#[trigger] points[q]),
    ensures
        at_rest(shaped(points, inverse_mass, stiffness, permanence_threshold, 0), b),
{
    let ps = rest_particles(points, inverse_mass);
    assert forall|q: int| 0 <= q < ps.len() implies (#[trigger] ps[q]).pos.in_limit() by {
        assert(b.contains(points[q]));
    }
    lemma_shape_springs_at_rest(ps, ps.len(), stiffness as int, permanence_threshold as int);
    let m = shaped(points, inverse_mass, stiffness, permanence_threshold, 0);
    assert forall|q: int| 0 <= q < m.springs.len() implies #[trigger] m.springs[q].wf(m.particles.len()) by {
        assert(spring_at_rest(ps, m.springs[q]));
    }
    assert forall|q: int| 0 <= q < m.springs.len() implies #[trigger] m.springs[q].rest_length == dist(
        m.particles[m.springs[q].particle_a as int].pos,
        m.particles[m.springs[q].particle_b as int].pos,
    ) by {
        assert(spring_at_rest(ps, m.springs[q]));
    }
    assert forall|q: int| 0 <= q < m.particles.len() implies #[trigger] m.particles[q].pos
        == m.particles[q].prev_pos && b.contains(m.particles[q].pos) by {
        assert(b.contains(points[q]));
    }
}

/// Shape stability of a built polygon: a world whose only polygon was built
/// from points inside the bound (for instance by `Polygon::circle`), without
/// pressure and under zero gravity, keeps that polygon's vertex layout after
/// any number of steps.
pub proof fn lemma_built_polygon_keeps_shape(
    w: WorldModel,
    dts: Seq<i64>,
    points: Seq<Vec2>,
    inverse_mass: i64,
    stiffness: i64,
    permanence_threshold: i64,
)
    requires
        w.bounds.wf(),
        w.gravity == (Vec2 { x: 0, y: 0 }),
        w.polygons == seq![shaped(points, inverse_mass, stiffness, permanence_threshold, 0)],
        0 <= stiffness <= ONE,
        points.len() <= usize::MAX,
        forall|q: int| 0 <= q < points.len() ==> w.bounds.contains(#[trigger] points[q]),
    ensures
        run(w, dts).polygons.len() == 1,
        run(w, dts).polygons[0].particles == rest_particles(points, inverse_mass),
{
    lemma_shaped_at_rest(points, inverse_mass, stiffness, permanence_threshold, w.bounds);
    lemma_resting_polygon_run(w, dts);
}

} // verus!
