use bendy::phase::{inspect_step, CollisionPhase, InspectKey, SpawnMode, SpawnType, TestCase};

#[test]
fn phase_cycles_forward_and_back() {
    let mut p = CollisionPhase::Points;
    let names = ["PointA", "RealIntersection", "Influence", "PenOnNormal", "DisplacementB", "NewPoint"];
    for (i, n) in names.iter().enumerate() {
        assert_eq!(p.name(), *n);
        assert_eq!(p.is_last(), i == 5);
        p.increase();
    }
    assert_eq!(p, CollisionPhase::Points);
    p.decrease();
    assert_eq!(p, CollisionPhase::NewPoints);
    p.increase();
    assert_eq!(p, CollisionPhase::Points);
}

#[test]
fn inspection_moves_to_next_contact_after_last_phase() {
    let (p, i) = inspect_step(CollisionPhase::NewPoints, 3, InspectKey::Forward);
    assert_eq!((p, i), (CollisionPhase::Points, 4));
    let (p, i) = inspect_step(CollisionPhase::Influence, 3, InspectKey::Forward);
    assert_eq!((p, i), (CollisionPhase::Penetration, 3));
    let (p, i) = inspect_step(CollisionPhase::Points, 3, InspectKey::Back);
    assert_eq!((p, i), (CollisionPhase::NewPoints, 3));
    let (p, i) = inspect_step(CollisionPhase::Influence, 3, InspectKey::Other);
    assert_eq!((p, i), (CollisionPhase::Influence, 3));
}

#[test]
fn selectors_cycle() {
    let mut m = SpawnMode::Single;
    for _ in 0..4 {
        m.increase();
    }
    assert_eq!(m, SpawnMode::Single);
    m.increase();
    assert_eq!(m.name(), "Grid");
    let mut t = SpawnType::Static;
    t.increase();
    assert_eq!(t, SpawnType::Particle);
    assert_eq!(SpawnType::PressurePolygon.name(), "PressurePolygon");
    let mut c = TestCase::Circle2;
    c.increase();
    assert_eq!(c.name(), "Playground");
}
