//! Start-up ordering for a small 3D scene that lives in an entity-component world.
//!
//! Scene setup creates a plane, a cube, a light and a camera, and last of all a
//! sentinel entity. While exactly one sentinel exists the world is ready; the
//! first tick that finds it ready tags every entity that is not the cube as
//! "not in scene" and despawns the sentinel with everything below it, after
//! which the world is never ready again.
//!
//! The library decides; the engine acts. A [`Registry`] holds what the decisions
//! read of the engine's world: for each entity its identifier, its parent and
//! its marker components. A [`Stage`] is a registry together with the phase that
//! the process has reached, and keeps what holds of the world in each phase.

pub mod entity;
pub mod lifecycle;
pub mod marks;
pub mod hierarchy;
pub mod registry;
pub mod report;
pub mod setup;
pub mod stage;
pub mod tagger;

pub use entity::EntityId;
pub use marks::{Marker, Marks};
pub use registry::{Lookup, Record, Registry};
pub use setup::{setup, SceneIds};
pub use tagger::{mark_as_dont_safe, should_run, tick, Tagging};
pub use report::log_line;
pub use stage::{Phase, Stage};
