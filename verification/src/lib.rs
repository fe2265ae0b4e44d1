//! A fixed population of point particles in a bounded square arena:
//! random-walk motion, pairwise proximity detection, and the chunking that
//! lets both phases be handed to independent workers.
//!
//! Coordinates are fixed-point integers: `UNITS_PER_ONE` units make up one
//! unit of arena length, so every constant of the model is exact.

pub mod particle;
pub mod partition;
pub mod motion;
pub mod collision;
pub mod system;
pub mod simulation;

pub use collision::thread_collide_main;
pub use motion::thread_main;
pub use particle::Particle;
pub use partition::{partition, Chunk};
pub use system::ParticleSystem;
