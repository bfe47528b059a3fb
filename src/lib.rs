//! A predator-prey-producer ecosystem on the integer plane: a spatial index
//! with exact nearest and radius queries, and the hunting, mating and
//! evasion state machines that drive each animal, tick by tick.
//!
//! Units: positions and radii in thousandths of a world unit, speeds in
//! whole units per second, durations in milliseconds, health and energy in
//! thousandths.

pub mod geometry;
pub mod spatial_index;
pub mod timer;
pub mod movement;
pub mod agent;
pub mod hunting;
pub mod reproduction;
pub mod escape;
pub mod life;
pub mod sync;
pub mod grass;
pub mod world;
