use bendy::boundary::Segment;
use bendy::constraint::{Link, Spring};
use bendy::fixed::ONE;
use bendy::particle::{Circle, Particle, Vec2};
use bendy::polygon::{Bounds, Polygon};
use bendy::world::Solver;

fn v(x: i64, y: i64) -> Vec2 {
    Vec2::new(x, y)
}

fn units(x: i64) -> i64 {
    x * ONE
}

#[test]
fn gravity_integration_exact() {
    let mut s = Solver::new();
    assert!(s.set_gravity(v(0, units(980))));
    assert_eq!(s.add_particle(v(0, 0)), Some(0));
    s.update(327);
    let p = s.get_particle(0).unwrap();
    assert_eq!(p.pos, v(0, 1598));
    assert_eq!(p.prev_pos, v(0, 0));
}

#[test]
fn static_particle_does_not_move() {
    let mut s = Solver::new();
    assert!(s.set_gravity(v(0, units(980))));
    let p = Particle::with_inverse_mass(v(units(3), units(4)), 0);
    assert_eq!(s.add_particle_with(p), Some(0));
    for _ in 0..10 {
        s.update(327);
    }
    assert_eq!(s.get_particle(0).unwrap(), p);
}

#[test]
fn velocity_is_kept_by_integration() {
    let mut s = Solver::new();
    let p = Particle {
        pos: v(units(1), 0),
        prev_pos: v(0, 0),
        inverse_mass: ONE,
    };
    s.add_particle_with(p).unwrap();
    s.update(327);
    s.update(327);
    assert_eq!(s.get_particle(0).unwrap().pos, v(units(3), 0));
}

#[test]
fn link_moves_equal_particles_half_the_error_each() {
    let mut s = Solver::new();
    s.add_particle(v(0, 0)).unwrap();
    s.add_particle(v(units(10), 0)).unwrap();
    let l = Link { particle_a: 0, particle_b: 1, target_distance: units(6) };
    assert_eq!(s.add_particle_link(l), Some(0));
    s.update(0);
    assert_eq!(s.get_particle(0).unwrap().pos, v(units(2), 0));
    assert_eq!(s.get_particle(1).unwrap().pos, v(units(8), 0));
}

#[test]
fn link_with_static_end_moves_the_other_fully() {
    let mut s = Solver::new();
    s.add_particle_with(Particle::with_inverse_mass(v(0, 0), 0)).unwrap();
    s.add_particle(v(0, units(10))).unwrap();
    let l = Link { particle_a: 0, particle_b: 1, target_distance: units(4) };
    s.add_particle_link(l).unwrap();
    s.update(0);
    assert_eq!(s.get_particle(0).unwrap().pos, v(0, 0));
    assert_eq!(s.get_particle(1).unwrap().pos, v(0, units(4)));
}

fn stretched_spring(threshold: i64) -> Solver {
    let mut s = Solver::new();
    s.add_particle(v(0, 0)).unwrap();
    s.add_particle(v(units(10), 0)).unwrap();
    let sp = Spring {
        particle_a: 0,
        particle_b: 1,
        rest_length: units(5),
        stiffness: ONE / 2,
        permanence_threshold: threshold,
    };
    assert_eq!(s.add_particle_spring(sp), Some(0));
    s
}

#[test]
fn spring_breaks_past_its_threshold() {
    let mut s = stretched_spring(ONE / 2);
    s.update(0);
    assert!(s.get_particle_springs().is_empty());
    assert_eq!(s.get_particle(0).unwrap().pos, v(0, 0));
    assert_eq!(s.get_particle(1).unwrap().pos, v(units(10), 0));
    s.update(0);
    assert!(s.get_particle_springs().is_empty());
}

#[test]
fn spring_with_negative_threshold_never_breaks() {
    let mut s = stretched_spring(-1);
    s.update(0);
    assert_eq!(s.get_particle_springs().len(), 1);
    assert_eq!(s.get_particle(0).unwrap().pos, v(81920, 0));
    assert_eq!(s.get_particle(1).unwrap().pos, v(units(10) - 81920, 0));
}

#[test]
fn spring_within_threshold_survives() {
    let mut s = stretched_spring(units(2));
    s.update(0);
    assert_eq!(s.get_particle_springs().len(), 1);
}

#[test]
fn resting_polygon_keeps_its_shape() {
    let mut s = Solver::new();
    let p = Polygon::circle(units(10), v(units(100), units(100)), 5, false, ONE, -1).unwrap();
    let start = p.particles.clone();
    s.add_polygon(p).unwrap();
    for _ in 0..200 {
        s.update(327);
    }
    assert_eq!(s.get_polygon(0).unwrap().particles, start);
}

#[test]
fn regular_polygon_layout() {
    let c = v(units(50), units(60));
    let p = Polygon::circle(units(10), c, 4, false, ONE, -1).unwrap();
    assert_eq!(p.particles.len(), 4);
    assert_eq!(p.particles[0].pos, v(units(60), units(60)));
    assert_eq!(p.particles[1].pos, v(units(50), units(70)));
    assert_eq!(p.particles[2].pos, v(units(40), units(60)));
    assert_eq!(p.particles[3].pos, v(units(50), units(50)));
    assert_eq!(p.springs.len(), 6);
    assert_eq!(p.center, c);
    assert_eq!(p.bounds, Bounds::new(v(units(40), units(50)), v(units(20), units(20))));
}

#[test]
fn box_layout_without_rotation() {
    let p = Polygon::new_box(v(0, 0), 0, v(units(4), units(2)), ONE, ONE, false).unwrap();
    let corners: Vec<Vec2> = p.particles.iter().map(|q| q.pos).collect();
    assert_eq!(
        corners,
        vec![
            v(-units(2), -units(1)),
            v(units(2), -units(1)),
            v(units(2), units(1)),
            v(-units(2), units(1))
        ]
    );
    assert_eq!(p.springs.len(), 6);
    assert_eq!(p.springs[0].rest_length, units(4));
}

#[test]
fn polygon_needs_three_points() {
    let pts = vec![v(0, 0), v(units(1), 0)];
    assert!(Polygon::from_points(&pts, ONE, ONE, -1, 0).is_none());
    assert!(Polygon::circle(units(1), v(0, 0), 2, false, ONE, -1).is_none());
    let tri = vec![v(0, 0), v(units(1), 0), v(0, units(1))];
    let p = Polygon::from_points(&tri, ONE, ONE, -1, 0).unwrap();
    assert_eq!(p.springs.len(), 3);
}

#[test]
fn lookups_out_of_range_are_absent() {
    let mut s = Solver::new();
    s.add_particle(v(0, 0)).unwrap();
    assert!(s.get_particle(1).is_none());
    assert!(s.get_circle(0).is_none());
    assert!(s.get_polygon(0).is_none());
    let l = Link { particle_a: 0, particle_b: 5, target_distance: 0 };
    assert_eq!(s.add_particle_link(l), None);
    assert_eq!(s.get_particle_links().len(), 0);
}

#[test]
fn bounds_clamp_particles() {
    let mut s = Solver::new();
    assert!(s.set_bounds(Bounds::new(v(0, 0), v(units(100), units(100)))));
    let p = Particle {
        pos: v(units(99), units(50)),
        prev_pos: v(units(90), units(50)),
        inverse_mass: ONE,
    };
    s.add_particle_with(p).unwrap();
    s.add_circle(Circle::new(v(units(1), units(1)), units(2))).unwrap();
    assert!(s.set_gravity(v(0, -units(100000))));
    for _ in 0..5 {
        s.update(327);
        let q = s.get_particle(0).unwrap().pos;
        assert!(q.x >= 0 && q.x <= units(100) && q.y >= 0 && q.y <= units(100));
        let c = s.get_circle(0).unwrap().point.pos;
        assert!(c.x >= 0 && c.x <= units(100) && c.y >= 0 && c.y <= units(100));
    }
    assert_eq!(s.get_particle(0).unwrap().pos.x, units(100));
    assert_eq!(s.get_circle(0).unwrap().point.pos.y, 0);
}

#[test]
fn static_line_reverses_a_crossing_move() {
    let mut s = Solver::new();
    assert_eq!(s.add_static_line(v(-units(10), units(5)), v(units(10), units(5))), Some(0));
    let p = Particle {
        pos: v(0, units(4)),
        prev_pos: v(0, units(2)),
        inverse_mass: ONE,
    };
    s.add_particle_with(p).unwrap();
    s.update(0);
    let q = s.get_particle(0).unwrap();
    assert_eq!(q.pos, v(0, units(4)));
    assert_eq!(q.prev_pos, v(0, units(6)));
}

#[test]
fn circle_links_hold_circles() {
    let mut s = Solver::new();
    s.add_circle(Circle::new(v(0, 0), units(1))).unwrap();
    s.add_circle(Circle::new(v(0, units(10)), units(1))).unwrap();
    let l = Link { particle_a: 0, particle_b: 1, target_distance: units(6) };
    assert_eq!(s.add_circle_link(l), Some(0));
    s.update(0);
    assert_eq!(s.get_circle(0).unwrap().point.pos, v(0, units(2)));
    assert_eq!(s.get_circle(1).unwrap().point.pos, v(0, units(8)));
}

#[test]
fn pressure_pushes_vertices_outward() {
    let c = v(units(100), units(100));
    let p = Polygon::pressure_circle(units(10), c, 6, false, 0, ONE / 4).unwrap();
    let before: Vec<i64> = p.particles.iter().map(|q| dist2(q.pos, c)).collect();
    let mut s = Solver::new();
    s.add_polygon(p).unwrap();
    s.update(0);
    let after = &s.get_polygon(0).unwrap().particles;
    for (q, b) in after.iter().zip(before.iter()) {
        assert!(dist2(q.pos, c) > *b);
    }
}

fn dist2(a: Vec2, b: Vec2) -> i64 {
    let dx = (a.x - b.x) / 256;
    let dy = (a.y - b.y) / 256;
    dx * dx + dy * dy
}

#[test]
fn contact_pushes_vertex_out_of_static_box() {
    let mut s = Solver::new();
    let block = Polygon::new_box(v(0, 0), 0, v(units(10), units(10)), ONE, ONE, true).unwrap();
    s.add_polygon(block).unwrap();
    let tri = vec![v(0, units(4)), v(units(3), units(9)), v(-units(3), units(9))];
    let t = Polygon::from_points(&tri, ONE, ONE, -1, 0).unwrap();
    s.add_polygon(t).unwrap();
    s.update(0);
    let block = s.get_polygon(0).unwrap();
    assert_eq!(block.collisions.len(), 1);
    let c = block.collisions[0];
    assert_eq!(c.polygon, 0);
    assert_eq!(c.other, 1);
    assert_eq!(c.vertex, 0);
    assert!(c.depth > 0);
    let n = c.normal;
    let dp = c.displace_point;
    assert!(dp.x as i128 * n.x as i128 + dp.y as i128 * n.y as i128 <= 0);
    assert_eq!(c.displacement_a, v(0, 0));
    assert_eq!(c.displacement_b, v(0, 0));
    let y = s.get_polygon(1).unwrap().particles[0].pos.y;
    assert!(y >= units(5) - 2 && y <= units(5) + 2);
    assert_eq!(s.get_polygon(0).unwrap().particles[2].pos, v(units(5), units(5)));
}

#[test]
fn contact_between_static_bodies_is_skipped() {
    let mut s = Solver::new();
    let a = Polygon::new_box(v(0, 0), 0, v(units(10), units(10)), ONE, ONE, true).unwrap();
    let b = Polygon::new_box(v(units(4), 0), 0, v(units(10), units(10)), ONE, ONE, true).unwrap();
    let pa = a.particles.clone();
    let pb = b.particles.clone();
    s.add_polygon(a).unwrap();
    s.add_polygon(b).unwrap();
    s.update(327);
    assert!(s.get_polygon(0).unwrap().collisions.is_empty());
    assert!(s.get_polygon(1).unwrap().collisions.is_empty());
    assert_eq!(s.get_polygon(0).unwrap().particles, pa);
    assert_eq!(s.get_polygon(1).unwrap().particles, pb);
}

fn triangle_grid() -> Solver {
    let mut s = Solver::new();
    assert!(s.set_gravity(v(0, units(980))));
    assert!(s.set_bounds(Bounds::new(v(0, 0), v(units(1920), units(1080)))));
    let size = 15;
    for x in 0..3 {
        for y in 0..3 {
            let c = v(units(100 + x * size * 2), units(100 + y * size * 2));
            let p = Polygon::circle(units(size), c, 3, false, ONE, -1).unwrap();
            s.add_polygon(p).unwrap();
        }
    }
    s
}

fn record(steps: usize) -> Vec<Vec<Vec2>> {
    let mut s = triangle_grid();
    let mut frames = Vec::new();
    for _ in 0..steps {
        s.update(327);
        let mut frame = Vec::new();
        for p in s.get_polygons().iter() {
            for q in p.particles.iter() {
                frame.push(q.pos);
            }
        }
        frames.push(frame);
    }
    frames
}

#[test]
fn replay_matches_recording() {
    let first = record(3000);
    let second = record(3000);
    assert_eq!(first.len(), 3000);
    let mut mismatches = 0;
    for (a, b) in first.iter().zip(second.iter()) {
        assert_eq!(a.len(), 27);
        for (p, q) in a.iter().zip(b.iter()) {
            if p != q {
                mismatches += 1;
            }
        }
    }
    assert_eq!(mismatches, 0);
}

#[test]
fn boxes_thrown_at_each_other_end_apart() {
    let scale = 30;
    let mut s = Solver::new();
    assert!(s.set_bounds(Bounds::new(v(0, 0), v(units(1920) / scale, units(1080) / scale))));
    let size = v(units(100) / scale, units(100) / scale);
    let b1 = Polygon::new_box(v(units(200) / scale, units(200) / scale), 0, size, ONE, ONE, false).unwrap();
    let b2 = Polygon::new_box(v(units(1600) / scale, units(200) / scale), 0, size, ONE, ONE, false).unwrap();
    s.add_polygon(b1).unwrap();
    s.add_polygon(b2).unwrap();
    for (i, push) in [(0usize, units(10)), (1usize, -units(10))] {
        for k in 0..4 {
            let mut p = s.get_polygon(i).unwrap().particles[k];
            p.prev_pos = v(p.pos.x - push, p.pos.y);
            assert!(s.set_polygon_particle(i, k, p));
        }
    }
    for _ in 0..600 {
        s.update(1092);
    }
    let a = s.get_polygon(0).unwrap().bounds;
    let b = s.get_polygon(1).unwrap().bounds;
    let apart = a.pos.x + a.size.x < b.pos.x || b.pos.x + b.size.x < a.pos.x;
    assert!(apart);
    let va: Vec<i64> = s.get_polygon(0).unwrap().particles.iter().map(|q| q.pos.x - q.prev_pos.x).collect();
    let vb: Vec<i64> = s.get_polygon(1).unwrap().particles.iter().map(|q| q.pos.x - q.prev_pos.x).collect();
    let closing = if a.pos.x < b.pos.x {
        va.iter().sum::<i64>() - vb.iter().sum::<i64>()
    } else {
        vb.iter().sum::<i64>() - va.iter().sum::<i64>()
    };
    assert!(closing <= 0);
}

#[test]
fn resumed_run_matches_single_run() {
    let mut a = triangle_grid();
    let mut b = triangle_grid();
    a.run_steps(&vec![327; 40]);
    a.run_steps(&vec![327; 60]);
    b.run_steps(&vec![327; 100]);
    assert_eq!(bendy::record::frame_positions(&a), bendy::record::frame_positions(&b));
    let mut c = triangle_grid();
    for _ in 0..100 {
        c.update(327);
    }
    assert_eq!(bendy::record::frame_positions(&c), bendy::record::frame_positions(&b));
}

#[test]
fn contact_with_mobile_edge_closes() {
    let ring: Vec<Particle> = [(0, 0), (400, 0), (400, 400), (0, 400)]
        .iter()
        .map(|(x, y)| Particle::new(v(units(*x), units(*y))))
        .collect();
    let p = Particle::new(v(units(200), units(100)));
    let c = bendy::collision::compute_contact(&ring, v(units(200), units(200)), 0, p, 0, 1, 0).unwrap();
    assert_eq!(c.depth, units(100));
    assert_eq!(c.influence_a, ONE / 2);
    assert_eq!(c.influence_b, ONE / 2);
    let edge_mid = (c.new_a.y + c.new_b.y) / 2;
    assert!((c.new_point.y - edge_mid).abs() <= 16);
    assert!(c.new_point.y < units(100) && c.new_a.y > 0);
}

#[test]
fn pressure_inflates_a_clockwise_ring() {
    let c = v(units(100), units(100));
    let cw = vec![
        v(units(110), units(100)),
        v(units(100), units(90)),
        v(units(90), units(100)),
        v(units(100), units(110)),
    ];
    let p = Polygon::from_points(&cw, ONE, 0, -1, ONE / 4).unwrap();
    let mut s = Solver::new();
    s.add_polygon(p).unwrap();
    s.update(0);
    for (q, b) in s.get_polygon(0).unwrap().particles.iter().zip(cw.iter()) {
        assert!(dist2(q.pos, c) > dist2(*b, c));
    }
}
