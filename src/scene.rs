//! Builders of particle and circle grids held together by springs or links.
use vstd::prelude::*;
use crate::constraint::{dist, distance, Link, Spring};
use crate::fixed::{floor_sqrt, isqrt, LIMIT, MAX_LEN, ONE};
use crate::particle::{Circle, Particle, Vec2};
use crate::world::{Solver, WorldModel};

verus! {

/// Largest grid spacing (raw, 2^42), so that a diagonal stays a valid length.
pub const MAX_SPACING: i64 = 4398046511104;

/// Position of cell `i` of a grid `cx` cells wide with spacing `dist`, in
/// row-major order from `pos`.
pub open spec fn grid_point(pos: Vec2, cx: int, i: int, dist: int) -> Vec2 {
    Vec2 { x: (pos.x + (i % cx) * dist) as i64, y: (pos.y + (i / cx) * dist) as i64 }
}

/// The grid fits the coordinate range and its spacing is valid.
pub open spec fn grid_ok(pos: Vec2, cx: int, cy: int, dist: int) -> bool {
    &&& pos.in_limit()
    &&& 0 <= dist <= MAX_SPACING
    &&& (cx == 0 || cy == 0 || (pos.x + (cx - 1) * dist <= LIMIT && pos.y + (cy - 1) * dist
        <= LIMIT))
}

/// Length of a cell's diagonal.
pub open spec fn diagonal(dist: int) -> int {
    floor_sqrt((2 * dist * dist) as nat) as int
}

/// The constraints of cell `(x, y)` at index `idx` of a grid `cx` wide, as
/// `(other, length)` pairs toward earlier cells: its left neighbour, the
/// cell above, the cell above and to the right, the cell above and to the left.
pub open spec fn cell_pairs(idx: int, x: int, y: int, cx: int, d: int, diag: int) -> Seq<(int, int)> {
    let left = if x > 0 {
        seq![(idx - 1, d)]
    } else {
        Seq::empty()
    };
    let up = if y > 0 {
        seq![(idx - cx, d)] + if x < cx - 1 {
            seq![(idx - cx + 1, diag)]
        } else {
            Seq::empty()
        }
    } else {
        Seq::empty()
    };
    let up_left = if x > 0 && y > 0 {
        seq![(idx - cx - 1, diag)]
    } else {
        Seq::empty()
    };
    left + up + up_left
}

/// The constraints of the first `n` cells, in order, the first cell at `base`.
pub open spec fn grid_pairs(base: int, cx: int, n: nat, d: int, diag: int) -> Seq<(int, int, int)>
    decreases n,
{
    if n == 0 {
        Seq::empty()
    } else {
        let i = n - 1;
        grid_pairs(base, cx, (n - 1) as nat, d, diag) + cell_pairs(base + i, i % cx, i / cx, cx, d, diag).map_values(
            |p: (int, int)| (p.0, base + i, p.1),
        )
    }
}

/// Springs of a particle grid.
pub open spec fn grid_springs(pairs: Seq<(int, int, int)>, k: i64, t: i64) -> Seq<Spring> {
    pairs.map_values(
        |p: (int, int, int)| Spring {
            particle_a: p.0 as usize,
            particle_b: p.1 as usize,
            rest_length: p.2 as i64,
            stiffness: k,
            permanence_threshold: t,
        },
    )
}

/// Links of a circle grid.
pub open spec fn grid_links(pairs: Seq<(int, int, int)>) -> Seq<Link> {
    pairs.map_values(
        |p: (int, int, int)| Link {
            particle_a: p.0 as usize,
            particle_b: p.1 as usize,
            target_distance: p.2 as i64,
        },
    )
}

/// Particles at rest on the first `n` cells of a grid.
pub open spec fn grid_particles(pos: Vec2, cx: int, n: nat, dist: int) -> Seq<Particle> {
    Seq::new(n, |i: int| Particle::new_spec(grid_point(pos, cx, i, dist)))
}

/// Circles on the first `n` cells of a grid.
pub open spec fn grid_circles(pos: Vec2, cx: int, n: nat, dist: int, radius: i64) -> Seq<Circle> {
    Seq::new(n, |i: int| Circle { point: Particle::new_spec(grid_point(pos, cx, i, dist)), radius })
}

proof fn lemma_cell_in_grid(pos: Vec2, cx: int, cy: int, i: int, dist: int)
    requires
        grid_ok(pos, cx, cy, dist),
        cx >= 1,
        cy >= 1,
        0 <= i < cx * cy,
    ensures
        grid_point(pos, cx, i, dist).in_limit(),
        0 <= (i % cx) * dist <= (cx - 1) * dist,
        0 <= (i / cx) * dist <= (cy - 1) * dist,
        0 <= i % cx < cx,
        0 <= i / cx < cy,
        i % cx <= i,
        i / cx > 0 ==> i >= cx + i % cx,
{
    vstd::arithmetic::div_mod::lemma_fundamental_div_mod(i, cx);
    vstd::arithmetic::div_mod::lemma_mod_pos_bound(i, cx);
    vstd::arithmetic::div_mod::lemma_div_pos_is_pos(i, cx);
    let x = i % cx;
    let y = i / cx;
    assert(y < cy) by {
        if y >= cy {
            assert(cx * y >= cx * cy) by (nonlinear_arith)
                requires
                    y >= cy,
                    cx >= 1,
            ;
        }
    }
    assert(x * dist <= (cx - 1) * dist) by (nonlinear_arith)
        requires
            x <= cx - 1,
            dist >= 0,
    ;
    assert(y * dist <= (cy - 1) * dist) by (nonlinear_arith)
        requires
            y <= cy - 1,
            dist >= 0,
    ;
    assert(x * dist >= 0 && y * dist >= 0) by (nonlinear_arith)
        requires
            x >= 0,
            y >= 0,
            dist >= 0,
    ;
    assert(cx * y >= 0) by (nonlinear_arith)
        requires
            y >= 0,
            cx >= 1,
    ;
    if y > 0 {
        assert(cx * y >= cx) by (nonlinear_arith)
            requires
                y >= 1,
                cx >= 1,
        ;
    }
}

/// The constraints of one cell: `(other, length)` pairs.
fn cell_pairs_of(idx: usize, x: usize, y: usize, cx: usize, d: i64, diag: i64) -> (r: Vec<(usize, i64)>)
    requires
        x < cx,
        y > 0 ==> idx >= cx + x,
        x <= idx,
    ensures
        r@.len() == cell_pairs(idx as int, x as int, y as int, cx as int, d as int, diag as int).len(),
        forall|m: int|
            0 <= m < r@.len() ==> (r@[m].0 as int, r@[m].1 as int) == #[trigger] cell_pairs(
                idx as int,
                x as int,
                y as int,
                cx as int,
                d as int,
                diag as int,
            )[m],
        forall|m: int| 0 <= m < r@.len() ==> #[trigger] r@[m].0 < idx,
        forall|m: int| 0 <= m < r@.len() ==> #[trigger] r@[m].1 == d || r@[m].1 == diag,
{
    let mut r: Vec<(usize, i64)> = Vec::new();
    if x > 0 {
        r.push((idx - 1, d));
    }
    if y > 0 {
        r.push((idx - cx, d));
        if x + 1 < cx {
            r.push((idx - cx + 1, diag));
        }
    }
    if x > 0 && y > 0 {
        r.push((idx - cx - 1, diag));
    }
    proof {
        let s = cell_pairs(idx as int, x as int, y as int, cx as int, d as int, diag as int);
        let rv = r@.map_values(|p: (usize, i64)| (p.0 as int, p.1 as int));
        assert(rv =~= s);
        assert forall|m: int| 0 <= m < r@.len() implies (r@[m].0 as int, r@[m].1 as int) == #[trigger] s[m] by {
            assert(rv[m] == s[m]);
        }
    }
    r
}

/// Adds a `count_x` by `count_y` grid of particles at rest, `dist` apart,
/// from `pos` in row-major order, with a spring (stiffness `stiffness`,
/// threshold `permanence_threshold`) from each particle to its left
/// neighbour and to the three cells above it that exist. Returns false and
/// leaves the world as it is when the grid does not fit the coordinate
/// range, the spacing or the stiffness is out of range, or the particles
/// would not fit in memory.
pub fn spawn_particle_array(
    solver: &mut Solver,
    pos: Vec2,
    count_x: u32,
    count_y: u32,
    dist: i64,
    stiffness: i64,
    permanence_threshold: i64,
) -> (r: bool)
    requires
        old(solver)@.wf(),
    ensures
        final(solver)@.wf(),
        !r ==> final(solver)@ == old(solver)@,
        r ==> grid_ok(pos, count_x as int, count_y as int, dist as int) && 0 <= stiffness <= ONE,
        r ==> final(solver)@ == (WorldModel {
            particles: old(solver)@.particles + grid_particles(
                pos,
                count_x as int,
                (count_x * count_y) as nat,
                dist as int,
            ),
            springs: old(solver)@.springs + grid_springs(
                grid_pairs(
                    old(solver)@.particles.len() as int,
                    count_x as int,
                    (count_x * count_y) as nat,
                    dist as int,
                    diagonal(dist as int),
                ),
                stiffness,
                permanence_threshold,
            ),
            ..old(solver)@
        }),
        (grid_ok(pos, count_x as int, count_y as int, dist as int) && 0 <= stiffness <= ONE
            && old(solver)@.particles.len() + count_x * count_y <= usize::MAX) ==> r,
{
    if !pos.is_in_limit() || dist < 0 || dist > MAX_SPACING || stiffness < 0 || stiffness > ONE {
        return false;
    }
    if count_x == 0 || count_y == 0 {
        proof {
            let w = solver@;
            assert(count_x * count_y == 0) by (nonlinear_arith)
                requires
                    count_x == 0 || count_y == 0,
            ;
            assert(grid_particles(pos, count_x as int, 0, dist as int) =~= Seq::<Particle>::empty());
            assert(w.particles + Seq::<Particle>::empty() =~= w.particles);
            assert(w.springs + grid_springs(Seq::empty(), stiffness, permanence_threshold) =~= w.springs);
            assert(solver@ =~= WorldModel {
                particles: w.particles + grid_particles(pos, count_x as int, 0, dist as int),
                springs: w.springs + grid_springs(
                    grid_pairs(w.particles.len() as int, count_x as int, 0, dist as int, diagonal(dist as int)),
                    stiffness,
                    permanence_threshold,
                ),
                ..w
            });
        }
        return true;
    }
    assert((count_x - 1) * dist <= 0x1_0000_0000 * MAX_SPACING && (count_y - 1) * dist <= 0x1_0000_0000
        * MAX_SPACING) by (nonlinear_arith)
        requires
            0 <= dist <= MAX_SPACING,
            1 <= count_x <= 0xffff_ffff,
            1 <= count_y <= 0xffff_ffff,
    ;
    if pos.x as i128 + (count_x as i128 - 1) * (dist as i128) > LIMIT as i128 || pos.y as i128 + (
    count_y as i128 - 1) * (dist as i128) > LIMIT as i128 {
        return false;
    }
    assert(count_x * count_y <= 0xffff_ffff * 0xffff_ffff) by (nonlinear_arith)
        requires
            count_x <= 0xffff_ffff,
            count_y <= 0xffff_ffff,
    ;
    let n64: u64 = (count_x as u64) * (count_y as u64);
    let base = solver.get_particle_len();
    if n64 > (usize::MAX - base) as u64 {
        return false;
    }
    let n = n64 as usize;
    let cx = count_x as usize;
    assert(2 * dist * dist <= 0x40_0000_0000_0000_0000_0000) by (nonlinear_arith)
        requires
            0 <= dist <= MAX_SPACING,
    ;
    assert(2 * dist * dist >= 0) by (nonlinear_arith);
    let diag = isqrt((2 * (dist as i128) * (dist as i128)) as u128) as i64;
    let ghost w = solver@;
    let ghost pairs_all = grid_pairs(base as int, cx as int, n as nat, dist as int, diag as int);
    let mut i: usize = 0;
    while i < n
        invariant
            solver@.wf(),
            n == count_x * count_y,
            cx == count_x,
            cx >= 1,
            count_y >= 1,
            base == w.particles.len(),
            base + n <= usize::MAX,
            i <= n,
            grid_ok(pos, count_x as int, count_y as int, dist as int),
            0 <= stiffness <= ONE,
            0 <= diag <= MAX_LEN,
            diag == diagonal(dist as int),
            solver@ == (WorldModel {
                particles: w.particles + grid_particles(pos, cx as int, i as nat, dist as int),
                springs: w.springs + grid_springs(
                    grid_pairs(base as int, cx as int, i as nat, dist as int, diag as int),
                    stiffness,
                    permanence_threshold,
                ),
                ..w
            }),
        decreases n - i,
    {
        let x = i % cx;
        let y = i / cx;
        proof {
            lemma_cell_in_grid(pos, cx as int, count_y as int, i as int, dist as int);
        }
        let p = Vec2 { x: pos.x + (x as i64) * dist, y: pos.y + (y as i64) * dist };
        assert(p == grid_point(pos, cx as int, i as int, dist as int));
        let idx = solver.add_particle(p).unwrap();
        assert(idx == base + i);
        let pairs = cell_pairs_of(idx, x, y, cx, dist, diag);
        let ghost mid = solver@;
        let mut j: usize = 0;
        while j < pairs.len()
            invariant
                solver@.wf(),
                0 <= stiffness <= ONE,
                idx == base + i,
                solver@.particles.len() == idx + 1,
                forall|m: int| 0 <= m < pairs@.len() ==> #[trigger] pairs@[m].0 < idx,
                forall|m: int| 0 <= m < pairs@.len() ==> #[trigger] pairs@[m].1 == dist || pairs@[m].1 == diag,
                0 <= dist <= MAX_LEN,
                0 <= diag <= MAX_LEN,
                j <= pairs@.len(),
                solver@ == (WorldModel {
                    springs: mid.springs + pairs@.subrange(0, j as int).map_values(
                        |q: (usize, i64)| Spring {
                            particle_a: q.0,
                            particle_b: idx,
                            rest_length: q.1,
                            stiffness,
                            permanence_threshold,
                        },
                    ),
                    ..mid
                }),
            decreases pairs@.len() - j,
        {
            let q = pairs[j];
            let s = Spring {
                particle_a: q.0,
                particle_b: idx,
                rest_length: q.1,
                stiffness,
                permanence_threshold,
            };
            assert(pairs@[j as int].0 < idx);
            let ghost before = solver@;
            let k = solver.add_particle_spring(s);
            proof {
                let f = |q: (usize, i64)| Spring {
                    particle_a: q.0,
                    particle_b: idx,
                    rest_length: q.1,
                    stiffness,
                    permanence_threshold,
                };
                assert(pairs@.subrange(0, j as int + 1).map_values(f) =~= pairs@.subrange(
                    0,
                    j as int,
                ).map_values(f).push(s));
                assert(solver@ =~= WorldModel {
                    springs: mid.springs + pairs@.subrange(0, j as int + 1).map_values(f),
                    ..mid
                });
            }
            j = j + 1;
        }
        proof {
            let f = |q: (usize, i64)| Spring {
                particle_a: q.0,
                particle_b: idx,
                rest_length: q.1,
                stiffness,
                permanence_threshold,
            };
            let cell = cell_pairs(idx as int, x as int, y as int, cx as int, dist as int, diag as int);
            let g = |p: (int, int)| (p.0, base + i, p.1);
            assert(pairs@.subrange(0, pairs@.len() as int) =~= pairs@);
            assert(pairs@.map_values(f) =~= grid_springs(cell.map_values(g), stiffness, permanence_threshold));
            let gp_next = grid_pairs(base as int, cx as int, (i + 1) as nat, dist as int, diag as int);
            let gp = grid_pairs(base as int, cx as int, i as nat, dist as int, diag as int);
            assert(gp_next == gp + cell.map_values(g));
            assert(grid_springs(gp_next, stiffness, permanence_threshold) =~= grid_springs(gp, stiffness, permanence_threshold)
                + grid_springs(cell.map_values(g), stiffness, permanence_threshold));
            assert(grid_particles(pos, cx as int, (i + 1) as nat, dist as int) =~= grid_particles(
                pos,
                cx as int,
                i as nat,
                dist as int,
            ).push(Particle::new_spec(p)));
            assert(solver@ =~= WorldModel {
                particles: w.particles + grid_particles(pos, cx as int, (i + 1) as nat, dist as int),
                springs: w.springs + grid_springs(gp_next, stiffness, permanence_threshold),
                ..w
            });
        }
        i = i + 1;
    }
    true
}

/// Adds a `count_x` by `count_y` grid of circles of the given radius, at
/// rest, `dist` apart, from `pos` in row-major order, with a link from each
/// circle to its left neighbour and to the three cells above it that exist.
/// Returns false and leaves the world as it is when the grid does not fit
/// the coordinate range, the spacing or the radius is out of range, or the
/// circles would not fit in memory.
pub fn spawn_circle_array(
    solver: &mut Solver,
    pos: Vec2,
    count_x: u32,
    count_y: u32,
    dist: i64,
    radius: i64,
) -> (r: bool)
    requires
        old(solver)@.wf(),
    ensures
        final(solver)@.wf(),
        !r ==> final(solver)@ == old(solver)@,
        r ==> grid_ok(pos, count_x as int, count_y as int, dist as int) && 0 <= radius <= LIMIT,
        r ==> final(solver)@ == (WorldModel {
            circles: old(solver)@.circles + grid_circles(
                pos,
                count_x as int,
                (count_x * count_y) as nat,
                dist as int,
                radius,
            ),
            circle_links: old(solver)@.circle_links + grid_links(
                grid_pairs(
                    old(solver)@.circles.len() as int,
                    count_x as int,
                    (count_x * count_y) as nat,
                    dist as int,
                    diagonal(dist as int),
                ),
            ),
            ..old(solver)@
        }),
        (grid_ok(pos, count_x as int, count_y as int, dist as int) && 0 <= radius <= LIMIT
            && old(solver)@.circles.len() + count_x * count_y <= usize::MAX) ==> r,
{
    if !pos.is_in_limit() || dist < 0 || dist > MAX_SPACING || radius < 0 || radius > LIMIT {
        return false;
    }
    if count_x == 0 || count_y == 0 {
        proof {
            let w = solver@;
            assert(count_x * count_y == 0) by (nonlinear_arith)
                requires
                    count_x == 0 || count_y == 0,
            ;
            assert(grid_circles(pos, count_x as int, 0, dist as int, radius) =~= Seq::<Circle>::empty());
            assert(w.circles + Seq::<Circle>::empty() =~= w.circles);
            assert(w.circle_links + grid_links(Seq::empty()) =~= w.circle_links);
            assert(solver@ =~= WorldModel {
                circles: w.circles + grid_circles(pos, count_x as int, 0, dist as int, radius),
                circle_links: w.circle_links + grid_links(
                    grid_pairs(w.circles.len() as int, count_x as int, 0, dist as int, diagonal(dist as int)),
                ),
                ..w
            });
        }
        return true;
    }
    assert((count_x - 1) * dist <= 0x1_0000_0000 * MAX_SPACING && (count_y - 1) * dist <= 0x1_0000_0000
        * MAX_SPACING) by (nonlinear_arith)
        requires
            0 <= dist <= MAX_SPACING,
            1 <= count_x <= 0xffff_ffff,
            1 <= count_y <= 0xffff_ffff,
    ;
    if pos.x as i128 + (count_x as i128 - 1) * (dist as i128) > LIMIT as i128 || pos.y as i128 + (
    count_y as i128 - 1) * (dist as i128) > LIMIT as i128 {
        return false;
    }
    assert(count_x * count_y <= 0xffff_ffff * 0xffff_ffff) by (nonlinear_arith)
        requires
            count_x <= 0xffff_ffff,
            count_y <= 0xffff_ffff,
    ;
    let n64: u64 = (count_x as u64) * (count_y as u64);
    let base = solver.get_circles_len();
    if n64 > (usize::MAX - base) as u64 {
        return false;
    }
    let n = n64 as usize;
    let cx = count_x as usize;
    assert(2 * dist * dist <= 0x40_0000_0000_0000_0000_0000) by (nonlinear_arith)
        requires
            0 <= dist <= MAX_SPACING,
    ;
    assert(2 * dist * dist >= 0) by (nonlinear_arith);
    let diag = isqrt((2 * (dist as i128) * (dist as i128)) as u128) as i64;
    let ghost w = solver@;
    let ghost pairs_all = grid_pairs(base as int, cx as int, n as nat, dist as int, diag as int);
    let mut i: usize = 0;
    while i < n
        invariant
            solver@.wf(),
            n == count_x * count_y,
            cx == count_x,
            cx >= 1,
            count_y >= 1,
            base == w.circles.len(),
            base + n <= usize::MAX,
            i <= n,
            grid_ok(pos, count_x as int, count_y as int, dist as int),
            0 <= radius <= LIMIT,
            0 <= diag <= MAX_LEN,
            diag == diagonal(dist as int),
            solver@ == (WorldModel {
                circles: w.circles + grid_circles(pos, cx as int, i as nat, dist as int, radius),
                circle_links: w.circle_links + grid_links(
                    grid_pairs(base as int, cx as int, i as nat, dist as int, diag as int),
                ),
                ..w
            }),
        decreases n - i,
    {
        let x = i % cx;
        let y = i / cx;
        proof {
            lemma_cell_in_grid(pos, cx as int, count_y as int, i as int, dist as int);
        }
        let p = Vec2 { x: pos.x + (x as i64) * dist, y: pos.y + (y as i64) * dist };
        assert(p == grid_point(pos, cx as int, i as int, dist as int));
        let idx = solver.add_circle(Circle::new(p, radius)).unwrap();
        assert(idx == base + i);
        let pairs = cell_pairs_of(idx, x, y, cx, dist, diag);
        let ghost mid = solver@;
        let mut j: usize = 0;
        while j < pairs.len()
            invariant
                solver@.wf(),
                0 <= radius <= LIMIT,
                idx == base + i,
                solver@.circles.len() == idx + 1,
                forall|m: int| 0 <= m < pairs@.len() ==> #[trigger] pairs@[m].0 < idx,
                forall|m: int| 0 <= m < pairs@.len() ==> #[trigger] pairs@[m].1 == dist || pairs@[m].1 == diag,
                0 <= dist <= MAX_LEN,
                0 <= diag <= MAX_LEN,
                j <= pairs@.len(),
                solver@ == (WorldModel {
                    circle_links: mid.circle_links + pairs@.subrange(0, j as int).map_values(
                        |q: (usize, i64)| Link { particle_a: q.0, particle_b: idx, target_distance: q.1 },
                    ),
                    ..mid
                }),
            decreases pairs@.len() - j,
        {
            let q = pairs[j];
            let s = Link { particle_a: q.0, particle_b: idx, target_distance: q.1 };
            assert(pairs@[j as int].0 < idx);
            let k = solver.add_circle_link(s);
            proof {
                let f = |q: (usize, i64)| Link { particle_a: q.0, particle_b: idx, target_distance: q.1 };
                assert(pairs@.subrange(0, j as int + 1).map_values(f) =~= pairs@.subrange(
                    0,
                    j as int,
                ).map_values(f).push(s));
                assert(solver@ =~= WorldModel {
                    circle_links: mid.circle_links + pairs@.subrange(0, j as int + 1).map_values(f),
                    ..mid
                });
            }
            j = j + 1;
        }
        proof {
            let f = |q: (usize, i64)| Link { particle_a: q.0, particle_b: idx, target_distance: q.1 };
            let cell = cell_pairs(idx as int, x as int, y as int, cx as int, dist as int, diag as int);
            let g = |p: (int, int)| (p.0, base + i, p.1);
            assert(pairs@.subrange(0, pairs@.len() as int) =~= pairs@);
            assert(pairs@.map_values(f) =~= grid_links(cell.map_values(g)));
            let gp_next = grid_pairs(base as int, cx as int, (i + 1) as nat, dist as int, diag as int);
            let gp = grid_pairs(base as int, cx as int, i as nat, dist as int, diag as int);
            assert(gp_next == gp + cell.map_values(g));
            assert(grid_links(gp_next) =~= grid_links(gp) + grid_links(cell.map_values(g)));
            assert(grid_circles(pos, cx as int, (i + 1) as nat, dist as int, radius) =~= grid_circles(
                pos,
                cx as int,
                i as nat,
                dist as int,
                radius,
            ).push(Circle { point: Particle::new_spec(p), radius }));
            assert(solver@ =~= WorldModel {
                circles: w.circles + grid_circles(pos, cx as int, (i + 1) as nat, dist as int, radius),
                circle_links: w.circle_links + grid_links(gp_next),
                ..w
            });
        }
        i = i + 1;
    }
    true
}

/// Adds three particles at rest, at `pos + (r, r)`, `pos` and `pos + (0, r)`,
/// with springs between the first and the two others (rest length `r`) and
/// between the last two (rest length the diagonal). Returns false and leaves
/// the world as it is when a point is out of range, `r` is outside
/// `[0, MAX_SPACING]`, or the stiffness is outside `[0, ONE]`.
pub fn spawn_particle_triangle(
    solver: &mut Solver,
    pos: Vec2,
    r: i64,
    stiffness: i64,
    permanence_threshold: i64,
) -> (ok: bool)
    requires
        old(solver)@.wf(),
        old(solver)@.particles.len() + 3 <= usize::MAX,
    ensures
        final(solver)@.wf(),
        !ok ==> final(solver)@ == old(solver)@,
        ok <==> (pos.in_limit() && 0 <= r <= MAX_SPACING && pos.x + r <= LIMIT && pos.y + r <= LIMIT
            && 0 <= stiffness <= ONE),
        ok ==> ({
            let n = old(solver)@.particles.len() as usize;
            let mk = |a: usize, b: usize, len: int| Spring {
                particle_a: a,
                particle_b: b,
                rest_length: len as i64,
                stiffness,
                permanence_threshold,
            };
            final(solver)@ == WorldModel {
                particles: old(solver)@.particles + seq![
                    Particle::new_spec(Vec2 { x: (pos.x + r) as i64, y: (pos.y + r) as i64 }),
                    Particle::new_spec(pos),
                    Particle::new_spec(Vec2 { x: pos.x, y: (pos.y + r) as i64 }),
                ],
                springs: old(solver)@.springs + seq![
                    mk(n, (n + 1) as usize, r as int),
                    mk(n, (n + 2) as usize, r as int),
                    mk((n + 1) as usize, (n + 2) as usize, diagonal(r as int)),
                ],
                ..old(solver)@
            }
        }),
{
    if !pos.is_in_limit() || r < 0 || r > MAX_SPACING || pos.x > LIMIT - r || pos.y > LIMIT - r
        || stiffness < 0 || stiffness > ONE {
        return false;
    }
    assert(2 * r * r <= 0x40_0000_0000_0000_0000_0000 && 2 * r * r >= 0) by (nonlinear_arith)
        requires
            0 <= r <= MAX_SPACING,
    ;
    let diag = isqrt((2 * (r as i128) * (r as i128)) as u128) as i64;
    let ghost w = solver@;
    let n = solver.get_particle_len();
    let a = solver.add_particle(Vec2 { x: pos.x + r, y: pos.y + r }).unwrap();
    let b = solver.add_particle(pos).unwrap();
    let c = solver.add_particle(Vec2 { x: pos.x, y: pos.y + r }).unwrap();
    let s1 = Spring { particle_a: a, particle_b: b, rest_length: r, stiffness, permanence_threshold };
    let s2 = Spring { particle_a: a, particle_b: c, rest_length: r, stiffness, permanence_threshold };
    let s3 = Spring {
        particle_a: b,
        particle_b: c,
        rest_length: diag,
        stiffness,
        permanence_threshold,
    };
    solver.add_particle_spring(s1);
    solver.add_particle_spring(s2);
    solver.add_particle_spring(s3);
    proof {
        let ps = seq![
            Particle::new_spec(Vec2 { x: (pos.x + r) as i64, y: (pos.y + r) as i64 }),
            Particle::new_spec(pos),
            Particle::new_spec(Vec2 { x: pos.x, y: (pos.y + r) as i64 }),
        ];
        assert(solver@.particles =~= w.particles + ps);
        assert(solver@.springs =~= w.springs + seq![s1, s2, s3]);
    }
    true
}

/// Adds a particle at rest at `pos`, and, when a particle was there before
/// it, a link from the previous particle to the new one at their current
/// distance. Returns the new particle's index, or None (and leaves the
/// world as it is) when `pos` is out of range.
pub fn spawn_linked_particle(solver: &mut Solver, pos: Vec2) -> (r: Option<usize>)
    requires
        old(solver)@.wf(),
    ensures
        final(solver)@.wf(),
        !pos.in_limit() ==> r is None && final(solver)@ == old(solver)@,
        pos.in_limit() ==> r == Some(old(solver)@.particles.len() as usize),
        pos.in_limit() && old(solver)@.particles.len() == 0 ==> final(solver)@ == (WorldModel {
            particles: old(solver)@.particles.push(Particle::new_spec(pos)),
            ..old(solver)@
        }),
        pos.in_limit() && old(solver)@.particles.len() > 0 ==> ({
            let n = old(solver)@.particles.len();
            final(solver)@ == WorldModel {
                particles: old(solver)@.particles.push(Particle::new_spec(pos)),
                links: old(solver)@.links.push(
                    Link {
                        particle_a: (n - 1) as usize,
                        particle_b: n as usize,
                        target_distance: dist(old(solver)@.particles[n - 1].pos, pos) as i64,
                    },
                ),
                ..old(solver)@
            }
        }),
{
    let ghost w = solver@;
    let idx = match solver.add_particle(pos) {
        Some(i) => i,
        None => {
            return None;
        },
    };
    if idx > 0 {
        let prev = solver.get_particle(idx - 1).unwrap();
        assert(prev == w.particles[idx - 1]);
        assert(w.particles[idx - 1].wf());
        let d = distance(prev.pos, pos);
        let l = Link { particle_a: idx - 1, particle_b: idx, target_distance: d as i64 };
        assert(l.wf(solver@.particles.len()));
        solver.add_particle_link(l);
        assert(solver@ =~= WorldModel {
            particles: w.particles.push(Particle::new_spec(pos)),
            links: w.links.push(l),
            ..w
        });
        assert(l == Link {
            particle_a: (w.particles.len() - 1) as usize,
            particle_b: w.particles.len() as usize,
            target_distance: dist(w.particles[w.particles.len() - 1].pos, pos) as i64,
        });
    }
    Some(idx)
}

/// Adds a circle at rest at `pos`, and, when a circle was there before it,
/// a link from the previous circle to the new one at their current
/// distance. Returns the new circle's index, or None (and leaves the world
/// as it is) when `pos` or the radius is out of range.
pub fn spawn_linked_circle(solver: &mut Solver, pos: Vec2, radius: i64) -> (r: Option<usize>)
    requires
        old(solver)@.wf(),
    ensures
        final(solver)@.wf(),
        !(pos.in_limit() && 0 <= radius <= LIMIT) ==> r is None && final(solver)@ == old(solver)@,
        (pos.in_limit() && 0 <= radius <= LIMIT) ==> r == Some(old(solver)@.circles.len() as usize),
        (pos.in_limit() && 0 <= radius <= LIMIT) && old(solver)@.circles.len() == 0 ==> final(solver)@
            == (WorldModel {
            circles: old(solver)@.circles.push(Circle { point: Particle::new_spec(pos), radius }),
            ..old(solver)@
        }),
        (pos.in_limit() && 0 <= radius <= LIMIT) && old(solver)@.circles.len() > 0 ==> ({
            let n = old(solver)@.circles.len();
            final(solver)@ == WorldModel {
                circles: old(solver)@.circles.push(Circle { point: Particle::new_spec(pos), radius }),
                circle_links: old(solver)@.circle_links.push(
                    Link {
                        particle_a: (n - 1) as usize,
                        particle_b: n as usize,
                        target_distance: dist(old(solver)@.circles[n - 1].point.pos, pos) as i64,
                    },
                ),
                ..old(solver)@
            }
        }),
{
    let ghost w = solver@;
    let idx = match solver.add_circle(Circle::new(pos, radius)) {
        Some(i) => i,
        None => {
            return None;
        },
    };
    if idx > 0 {
        let prev = solver.get_circle(idx - 1).unwrap();
        assert(prev == w.circles[idx - 1]);
        assert(w.circles[idx - 1].wf());
        let d = distance(prev.point.pos, pos);
        let l = Link { particle_a: idx - 1, particle_b: idx, target_distance: d as i64 };
        assert(l.wf(solver@.circles.len()));
        solver.add_circle_link(l);
        assert(solver@ =~= WorldModel {
            circles: w.circles.push(Circle { point: Particle::new_spec(pos), radius }),
            circle_links: w.circle_links.push(l),
            ..w
        });
        assert(l == Link {
            particle_a: (w.circles.len() - 1) as usize,
            particle_b: w.circles.len() as usize,
            target_distance: dist(w.circles[w.circles.len() - 1].point.pos, pos) as i64,
        });
    }
    Some(idx)
}

} // verus!
