use bendy::constraint::{Link, Spring};
use bendy::fixed::ONE;
use bendy::particle::Vec2;
use bendy::record::{count_mismatches, format_frame, frame_positions, parse_frame};
use bendy::polygon::Polygon;
use bendy::scene::{
    spawn_circle_array, spawn_linked_circle, spawn_linked_particle, spawn_particle_array,
    spawn_particle_triangle,
};
use bendy::world::Solver;

fn v(x: i64, y: i64) -> Vec2 {
    Vec2::new(x, y)
}

const D: i64 = 10 * ONE;
const DIAG: i64 = 926819;

#[test]
fn particle_grid_layout_and_springs() {
    let mut s = Solver::new();
    assert!(spawn_particle_array(&mut s, v(0, 0), 2, 2, D, ONE, -1));
    let pos: Vec<Vec2> = s.get_particles().iter().map(|p| p.pos).collect();
    assert_eq!(pos, vec![v(0, 0), v(D, 0), v(0, D), v(D, D)]);
    let pairs: Vec<(usize, usize, i64)> = s
        .get_particle_springs()
        .iter()
        .map(|sp| (sp.particle_a, sp.particle_b, sp.rest_length))
        .collect();
    assert_eq!(
        pairs,
        vec![(0, 1, D), (0, 2, D), (1, 2, DIAG), (2, 3, D), (1, 3, D), (0, 3, DIAG)]
    );
    assert!(s.get_particle_springs().iter().all(|sp| sp.stiffness == ONE && sp.permanence_threshold == -1));
}

#[test]
fn particle_grid_rejects_bad_spacing() {
    let mut s = Solver::new();
    assert!(!spawn_particle_array(&mut s, v(0, 0), 2, 2, -1, ONE, -1));
    assert!(!spawn_particle_array(&mut s, v(0, 0), 2, 2, D, 2 * ONE, -1));
    assert_eq!(s.get_particle_len(), 0);
    assert!(spawn_particle_array(&mut s, v(0, 0), 0, 7, D, ONE, -1));
    assert_eq!(s.get_particle_len(), 0);
}

#[test]
fn circle_grid_links() {
    let mut s = Solver::new();
    assert!(spawn_circle_array(&mut s, v(0, 0), 3, 1, D, ONE));
    assert_eq!(s.get_circles_len(), 3);
    let links: Vec<Link> = s.get_circle_links().clone();
    assert_eq!(
        links,
        vec![
            Link { particle_a: 0, particle_b: 1, target_distance: D },
            Link { particle_a: 1, particle_b: 2, target_distance: D }
        ]
    );
    assert_eq!(s.get_circle(2).unwrap().point.pos, v(2 * D, 0));
    assert_eq!(s.get_circle(2).unwrap().radius, ONE);
}

#[test]
fn triangle_of_particles() {
    let mut s = Solver::new();
    assert!(spawn_particle_triangle(&mut s, v(0, 0), D, ONE / 2, -1));
    let pos: Vec<Vec2> = s.get_particles().iter().map(|p| p.pos).collect();
    assert_eq!(pos, vec![v(D, D), v(0, 0), v(0, D)]);
    let springs: Vec<Spring> = s.get_particle_springs().clone();
    assert_eq!(springs.len(), 3);
    assert_eq!((springs[2].particle_a, springs[2].particle_b, springs[2].rest_length), (1, 2, DIAG));
}

#[test]
fn linked_particles_keep_their_spawn_distance() {
    let mut s = Solver::new();
    assert_eq!(spawn_linked_particle(&mut s, v(0, 0)), Some(0));
    assert!(s.get_particle_links().is_empty());
    assert_eq!(spawn_linked_particle(&mut s, v(3 * ONE, 4 * ONE)), Some(1));
    assert_eq!(
        s.get_particle_links()[0],
        Link { particle_a: 0, particle_b: 1, target_distance: 5 * ONE }
    );
    assert_eq!(spawn_linked_circle(&mut s, v(0, 0), ONE), Some(0));
    assert_eq!(spawn_linked_circle(&mut s, v(0, 6 * ONE), ONE), Some(1));
    assert_eq!(s.get_circle_links()[0].target_distance, 6 * ONE);
}

#[test]
fn frame_text_round_trip() {
    let frame = vec![v(1, -2), v(30, 0), v(i64::MIN, i64::MAX)];
    let text = format_frame(&frame);
    assert_eq!(
        String::from_utf8(text.clone()).unwrap(),
        "1,-2,30,0,-9223372036854775808,9223372036854775807"
    );
    assert_eq!(parse_frame(&text), Some(frame));
    assert_eq!(parse_frame(&Vec::new()), Some(Vec::new()));
    assert_eq!(format_frame(&Vec::new()), Vec::<u8>::new());
}

#[test]
fn frame_parser_rejects_other_text() {
    for bad in ["01,2", "-0,1", "1,", "1", "a,b", "1,2,", "1,,2", "1,2 ", "9223372036854775808,0", "-,1"] {
        assert_eq!(parse_frame(&bad.as_bytes().to_vec()), None, "{}", bad);
    }
    assert_eq!(parse_frame(&b"0,-9223372036854775808".to_vec()), Some(vec![v(0, i64::MIN)]));
}

#[test]
fn mismatches_are_counted() {
    let a = vec![vec![v(0, 0), v(1, 1)], vec![v(2, 2)]];
    let b = vec![vec![v(0, 0), v(1, 2)], vec![v(3, 2), v(9, 9)], vec![v(5, 5)]];
    assert_eq!(count_mismatches(&a, &b), 2);
    assert_eq!(count_mismatches(&a, &a), 0);
}

#[test]
fn frame_lists_polygon_vertices_in_order() {
    let mut s = Solver::new();
    let p = Polygon::circle(10 * ONE, v(50 * ONE, 50 * ONE), 4, false, ONE, -1).unwrap();
    let q = Polygon::circle(10 * ONE, v(90 * ONE, 50 * ONE), 3, false, ONE, -1).unwrap();
    let expected: Vec<Vec2> = p.particles.iter().chain(q.particles.iter()).map(|x| x.pos).collect();
    s.add_polygon(p).unwrap();
    s.add_polygon(q).unwrap();
    assert_eq!(frame_positions(&s), expected);
    assert_eq!(frame_positions(&s).len(), 7);
}
