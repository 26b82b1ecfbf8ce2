//! Verified core of a carrier simulation: a population of carriers picks up
//! free items, hauls each one to a freshly sampled drop point, releases it
//! nearby, rests for a sampled cooldown, and becomes available again.
//!
//! All coordinates are fixed-point, in thousandths of a world unit; all
//! durations are in milliseconds.  Each tick runs four stages in order —
//! assignment, carry movement, drop movement, cooldown — and the movement
//! stages funnel their structural changes through a deferred mutation queue
//! that is drained at the stage boundary.

pub mod geom;
pub mod rng;
pub mod sample;
pub mod world;
pub mod queue;
pub mod systems;
pub mod laws;

use vstd::prelude::*;

verus! {

/// Fixed-point scale: coordinates count thousandths of a world unit.
pub const MILLI: i64 = 1000;

/// Squared arrival threshold: 0.1 square world units, in squared milli-units.
pub const ARRIVAL_THRESHOLD_SQ: i64 = 100_000;

/// Largest per-axis distance compatible with an arrived threshold test:
/// any axis delta of a squared distance below `ARRIVAL_THRESHOLD_SQ`.
pub const ARRIVAL_AXIS_BOUND: i64 = 316;

/// Largest accepted placement-area side (1000 world units).
pub const SIZE_LIMIT: i64 = 1_000_000;

/// Largest accepted movement speed, in milli-units per second.
pub const SPEED_LIMIT: i64 = 100_000;

/// Largest accepted tick duration, in milliseconds.
pub const TICK_MS_LIMIT: u64 = 1000;

/// Largest per-tick movement step (`SPEED_LIMIT` over one full second).
pub const STEP_LIMIT: i64 = 100_000;

/// Every item position stays within this bound on each axis: half the
/// placement area, plus one arrival radius and one scatter radius of slack.
pub const ITEM_POS_LIMIT: i64 = 550_000;

/// Every carrier position stays within this bound on each axis: an item
/// position plus the worst one-tick overshoot past it.
pub const ROBOT_POS_LIMIT: i64 = 800_000;

/// Height at which entities sit and travel (2 world units).
pub const ENTITY_Y: i64 = 2 * MILLI;

/// Side of the square a released item scatters over (2 world units, so
/// at most 1 unit from the carrier on each axis).
pub const SCATTER_SPREAD: i64 = 2 * MILLI;

/// Exclusive upper bound of a sampled cooldown, in milliseconds (3 seconds).
pub const COOLDOWN_MAX_MS: u64 = 3000;

} // verus!
