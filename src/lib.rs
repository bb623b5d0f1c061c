//! Core of a flocking simulation ("boids"): every tick, each agent steers by
//! separation, alignment, cohesion and an optional target, using only the
//! agents near it.
//!
//! - `grid`: quantisation of positions to cells and the packed 64-bit cell key.
//! - `spatial`: the uniform-grid index, rebuilt every tick, answering
//!   radius queries with a superset of the agents within the radius.
//! - `store`: the fixed-capacity structure-of-arrays agent store.
//! - `neighbors`: the flocking policy and the per-behaviour neighbour lists.
//! - `fixed`, `steering`: the steering arithmetic, in fixed point.
//! - `dispatch`: the partition of agent slots into chunks of parallel work.
//! - `engine`: store and index together, and one whole tick.
//!
//! All quantities are integers. Positions, cell sizes, radii and squared
//! thresholds share one fixed-point unit; velocities, speeds and forces share
//! another; weights are in thousandths. The caller picks both units.

pub mod config;
pub mod dispatch;
pub mod engine;
pub mod fixed;
pub mod grid;
pub mod neighbors;
pub mod spatial;
pub mod steering;
pub mod store;
