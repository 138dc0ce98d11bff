//! A deterministic fixed-step 2D particle, spring and soft-polygon simulator.
//!
//! Every quantity is a fixed-point integer (see [`fixed`]), so a step is exact
//! integer arithmetic and the same world and step durations always give the
//! same result. A step ([`world::Solver::update`]) runs in fixed order:
//! Verlet integration under gravity; links, springs (which may break),
//! circle links and polygon pressure and springs; polygon centres and
//! bounding boxes; polygon-polygon contacts; static lines and the world bound.
//!
//! - [`fixed`]: fixed-point arithmetic, saturation, integer square root.
//! - [`particle`]: vectors, particles, circles, integration.
//! - [`constraint`]: links and springs.
//! - [`polygon`]: soft-body polygons and their construction.
//! - [`trig`]: fixed-point cosine and sine for polygon layouts.
//! - [`collision`]: contact detection and five-stage resolution.
//! - [`boundary`]: static lines and the world bound.
//! - [`world`]: the solver that owns everything, and the step.
//! - [`scene`]: grids and small structures built from the above.
//! - [`record`]: the text format of recorded runs.
//! - [`phase`]: step-through inspection of a contact, scene-editor selectors.
pub mod boundary;
pub mod collision;
pub mod constraint;
pub mod fixed;
pub mod particle;
pub mod phase;
pub mod polygon;
pub mod record;
pub mod scene;
pub mod trig;
pub mod world;
