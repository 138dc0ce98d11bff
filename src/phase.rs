//! Step-through inspection of a contact, and the selectors of an
//! interactive scene editor.
use vstd::prelude::*;

verus! {

/// The stage of a contact's resolution being inspected.
#[derive(Clone, Copy, Debug, PartialEq, Eq, Structural)]
pub enum CollisionPhase {
    Points,
    RealIntersection,
    Influence,
    Penetration,
    Displacement,
    NewPoints,
}

/// The stage after `p`, wrapping from the last to the first.
pub open spec fn phase_after(p: CollisionPhase) -> CollisionPhase {
    match p {
        CollisionPhase::Points => CollisionPhase::RealIntersection,
        CollisionPhase::RealIntersection => CollisionPhase::Influence,
        CollisionPhase::Influence => CollisionPhase::Penetration,
        CollisionPhase::Penetration => CollisionPhase::Displacement,
        CollisionPhase::Displacement => CollisionPhase::NewPoints,
        CollisionPhase::NewPoints => CollisionPhase::Points,
    }
}

/// The stage before `p`, wrapping from the first to the last.
pub open spec fn phase_before(p: CollisionPhase) -> CollisionPhase {
    match p {
        CollisionPhase::Points => CollisionPhase::NewPoints,
        CollisionPhase::RealIntersection => CollisionPhase::Points,
        CollisionPhase::Influence => CollisionPhase::RealIntersection,
        CollisionPhase::Penetration => CollisionPhase::Influence,
        CollisionPhase::Displacement => CollisionPhase::Penetration,
        CollisionPhase::NewPoints => CollisionPhase::Displacement,
    }
}

/// The label of each stage.
pub open spec fn phase_name(p: CollisionPhase) -> Seq<char> {
    match p {
        CollisionPhase::Points => "PointA"@,
        CollisionPhase::RealIntersection => "RealIntersection"@,
        CollisionPhase::Influence => "Influence"@,
        CollisionPhase::Penetration => "PenOnNormal"@,
        CollisionPhase::Displacement => "DisplacementB"@,
        CollisionPhase::NewPoints => "NewPoint"@,
    }
}

impl CollisionPhase {
    pub fn name(&self) -> (r: &'static str)
        ensures
            r@ == phase_name(*self),
    {
        match *self {
            CollisionPhase::Points => "PointA",
            CollisionPhase::RealIntersection => "RealIntersection",
            CollisionPhase::Influence => "Influence",
            CollisionPhase::Penetration => "PenOnNormal",
            CollisionPhase::Displacement => "DisplacementB",
            CollisionPhase::NewPoints => "NewPoint",
        }
    }

    /// Moves to the next stage, wrapping around.
    pub fn increase(&mut self)
        ensures
            *final(self) == phase_after(*old(self)),
    {
        *self = match *self {
            CollisionPhase::Points => CollisionPhase::RealIntersection,
            CollisionPhase::RealIntersection => CollisionPhase::Influence,
            CollisionPhase::Influence => CollisionPhase::Penetration,
            CollisionPhase::Penetration => CollisionPhase::Displacement,
            CollisionPhase::Displacement => CollisionPhase::NewPoints,
            CollisionPhase::NewPoints => CollisionPhase::Points,
        }
    }

    /// Moves to the previous stage, wrapping around.
    pub fn decrease(&mut self)
        ensures
            *final(self) == phase_before(*old(self)),
    {
        *self = match *self {
            CollisionPhase::Points => CollisionPhase::NewPoints,
            CollisionPhase::RealIntersection => CollisionPhase::Points,
            CollisionPhase::Influence => CollisionPhase::RealIntersection,
            CollisionPhase::Penetration => CollisionPhase::Influence,
            CollisionPhase::Displacement => CollisionPhase::Penetration,
            CollisionPhase::NewPoints => CollisionPhase::Displacement,
        }
    }

    /// Whether this is the last stage.
    pub fn is_last(&self) -> (r: bool)
        ensures
            r == (*self == CollisionPhase::NewPoints),
    {
        matches!(*self, CollisionPhase::NewPoints)
    }
}

/// Stepping forward then back, or back then forward, returns to the same
/// stage; six steps forward make a full cycle.
pub proof fn lemma_phase_cycle(p: CollisionPhase)
    ensures
        phase_before(phase_after(p)) == p,
        phase_after(phase_before(p)) == p,
        phase_after(phase_after(phase_after(phase_after(phase_after(phase_after(p)))))) == p,
{
}

/// A key press while a contact is inspected.
#[derive(Clone, Copy, Debug, PartialEq, Eq, Structural)]
pub enum InspectKey {
    Forward,
    Back,
    Other,
}

/// The inspection state after a key: forward moves to the next stage, and
/// past the last stage to the next contact; back moves to the previous stage.
pub open spec fn inspected(phase: CollisionPhase, index: int, key: InspectKey) -> (CollisionPhase, int) {
    match key {
        InspectKey::Forward => (
            phase_after(phase),
            if phase == CollisionPhase::NewPoints {
                index + 1
            } else {
                index
            },
        ),
        InspectKey::Back => (phase_before(phase), index),
        InspectKey::Other => (phase, index),
    }
}

/// One key press while the contact `index` is inspected.
pub fn inspect_step(phase: CollisionPhase, index: usize, key: InspectKey) -> (r: (
    CollisionPhase,
    usize,
))
    requires
        index < usize::MAX,
    ensures
        (r.0, r.1 as int) == inspected(phase, index as int, key),
{
    let mut p = phase;
    let mut i = index;
    match key {
        InspectKey::Forward => {
            if p.is_last() {
                i = i + 1;
            }
            p.increase();
        },
        InspectKey::Back => {
            p.decrease();
        },
        InspectKey::Other => {},
    }
    (p, i)
}

/// How a click spawns entities in the scene editor.
#[derive(Clone, Copy, Debug, PartialEq, Eq, Structural)]
pub enum SpawnMode {
    Single,
    Grid,
    Last,
    Spam,
}

impl SpawnMode {
    pub fn name(&self) -> (r: &'static str)
        ensures
            *self == SpawnMode::Single ==> r@ == "Single"@,
            *self == SpawnMode::Grid ==> r@ == "Grid"@,
            *self == SpawnMode::Last ==> r@ == "Last"@,
            *self == SpawnMode::Spam ==> r@ == "Spam"@,
    {
        match *self {
            SpawnMode::Single => "Single",
            SpawnMode::Grid => "Grid",
            SpawnMode::Last => "Last",
            SpawnMode::Spam => "Spam",
        }
    }

    /// Cycles to the next mode.
    pub fn increase(&mut self)
        ensures
            *old(self) == SpawnMode::Single ==> *final(self) == SpawnMode::Grid,
            *old(self) == SpawnMode::Grid ==> *final(self) == SpawnMode::Last,
            *old(self) == SpawnMode::Last ==> *final(self) == SpawnMode::Spam,
            *old(self) == SpawnMode::Spam ==> *final(self) == SpawnMode::Single,
    {
        *self = match *self {
            SpawnMode::Single => SpawnMode::Grid,
            SpawnMode::Grid => SpawnMode::Last,
            SpawnMode::Last => SpawnMode::Spam,
            SpawnMode::Spam => SpawnMode::Single,
        }
    }
}

/// What a click spawns in the scene editor.
#[derive(Clone, Copy, Debug, PartialEq, Eq, Structural)]
pub enum SpawnType {
    Particle,
    Circle,
    Polygon,
    PressurePolygon,
    Static,
}

impl SpawnType {
    pub fn name(&self) -> (r: &'static str)
        ensures
            *self == SpawnType::Particle ==> r@ == "Particle"@,
            *self == SpawnType::Circle ==> r@ == "Circle"@,
            *self == SpawnType::Polygon ==> r@ == "Polygon"@,
            *self == SpawnType::PressurePolygon ==> r@ == "PressurePolygon"@,
            *self == SpawnType::Static ==> r@ == "Static"@,
    {
        match *self {
            SpawnType::Particle => "Particle",
            SpawnType::Circle => "Circle",
            SpawnType::Polygon => "Polygon",
            SpawnType::PressurePolygon => "PressurePolygon",
            SpawnType::Static => "Static",
        }
    }

    /// Cycles to the next type.
    pub fn increase(&mut self)
        ensures
            *old(self) == SpawnType::Particle ==> *final(self) == SpawnType::Circle,
            *old(self) == SpawnType::Circle ==> *final(self) == SpawnType::Polygon,
            *old(self) == SpawnType::Polygon ==> *final(self) == SpawnType::PressurePolygon,
            *old(self) == SpawnType::PressurePolygon ==> *final(self) == SpawnType::Static,
            *old(self) == SpawnType::Static ==> *final(self) == SpawnType::Particle,
    {
        *self = match *self {
            SpawnType::Particle => SpawnType::Circle,
            SpawnType::Circle => SpawnType::Polygon,
            SpawnType::Polygon => SpawnType::PressurePolygon,
            SpawnType::PressurePolygon => SpawnType::Static,
            SpawnType::Static => SpawnType::Particle,
        }
    }
}

/// The preset scenes of the scene editor.
#[derive(Clone, Copy, Debug, PartialEq, Eq, Structural)]
pub enum TestCase {
    Playground,
    Triangle1,
    Triangle2,
    Circle1,
    Circle2,
}

impl TestCase {
    pub fn name(&self) -> (r: &'static str)
        ensures
            *self == TestCase::Playground ==> r@ == "Playground"@,
            *self == TestCase::Triangle1 ==> r@ == "Triangle1"@,
            *self == TestCase::Triangle2 ==> r@ == "Triangle2"@,
            *self == TestCase::Circle1 ==> r@ == "Circle1"@,
            *self == TestCase::Circle2 ==> r@ == "Circle2"@,
    {
        match *self {
            TestCase::Playground => "Playground",
            TestCase::Triangle1 => "Triangle1",
            TestCase::Triangle2 => "Triangle2",
            TestCase::Circle1 => "Circle1",
            TestCase::Circle2 => "Circle2",
        }
    }

    /// Cycles to the next scene.
    pub fn increase(&mut self)
        ensures
            *old(self) == TestCase::Playground ==> *final(self) == TestCase::Triangle1,
            *old(self) == TestCase::Triangle1 ==> *final(self) == TestCase::Triangle2,
            *old(self) == TestCase::Triangle2 ==> *final(self) == TestCase::Circle1,
            *old(self) == TestCase::Circle1 ==> *final(self) == TestCase::Circle2,
            *old(self) == TestCase::Circle2 ==> *final(self) == TestCase::Playground,
    {
        *self = match *self {
            TestCase::Playground => TestCase::Triangle1,
            TestCase::Triangle1 => TestCase::Triangle2,
            TestCase::Triangle2 => TestCase::Circle1,
            TestCase::Circle1 => TestCase::Circle2,
            TestCase::Circle2 => TestCase::Playground,
        }
    }
}

} // verus!
