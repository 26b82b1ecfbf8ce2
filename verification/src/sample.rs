//! Verified shaping of raw random draws into the simulation's values:
//! placement positions on the map, scatter positions around a drop point,
//! and cooldown durations.
//!
//! Each sampler splits in two: a pure function from draws to a value, with
//! an exact contract, and a thin caller that feeds it fresh draws and
//! keeps only what holds of every possible outcome (the range bounds).

use bevy_turborand::{GlobalRng, RngComponent};
use vstd::prelude::*;

use crate::geom::{coords_within, Position};
use crate::rng::{global_u64_below, rng_u64_below};
use crate::{COOLDOWN_MAX_MS, SIZE_LIMIT};

verus! {

/// The position determined by one pair of uniform draws on a square of
/// side `size` centred on the origin, at height `y`.
pub open spec fn position_from_draws_spec(dx: int, dz: int, size: int, y: int) -> Position {
    Position { x: (dx - size / 2) as i64, y: y as i64, z: (dz - size / 2) as i64 }
}

/// `c` lies on the centred side of length `size`.
pub open spec fn on_map_axis(c: int, size: int) -> bool {
    -(size / 2) <= c < size - size / 2
}

/// `p` lies over the centred placement square of side `size`, at height `y`.
pub open spec fn on_map(p: Position, size: int, y: int) -> bool {
    &&& on_map_axis(p.x as int, size)
    &&& on_map_axis(p.z as int, size)
    &&& p.y == y
}

/// Turns two uniform draws on `0..size` into a placement position.
pub fn position_from_draws(dx: u64, dz: u64, size: i64, y: i64) -> (p: Position)
    requires
        1 <= size <= SIZE_LIMIT,
        dx < size as u64,
        dz < size as u64,
        -1_000_000 <= y <= 1_000_000,
    ensures
        p == position_from_draws_spec(dx as int, dz as int, size as int, y as int),
        on_map(p, size as int, y as int),
        coords_within(p, SIZE_LIMIT as int),
{
    let half = (size as u64) / 2;
    let px = dx as i64 - half as i64;
    let pz = dz as i64 - half as i64;
    Position { x: px, y, z: pz }
}

/// Mirrors the startup sampler: a uniform position on the placement
/// square, drawn from the global stream.
pub fn generate_random_position_on_map(size: i64, global_rng: &mut GlobalRng, y: i64) -> (p:
    Position)
    requires
        1 <= size <= SIZE_LIMIT,
        -1_000_000 <= y <= 1_000_000,
    ensures
        on_map(p, size as int, y as int),
        coords_within(p, SIZE_LIMIT as int),
{
    let dx = global_u64_below(global_rng, size as u64);
    let dz = global_u64_below(global_rng, size as u64);
    position_from_draws(dx, dz, size, y)
}

/// The same uniform map sampler on a carrier's private stream: used to
/// pick each fresh drop destination.
pub fn generate_random_position_on_map_rng(size: i64, rng: &mut RngComponent, y: i64) -> (p:
    Position)
    requires
        1 <= size <= SIZE_LIMIT,
        -1_000_000 <= y <= 1_000_000,
    ensures
        on_map(p, size as int, y as int),
        coords_within(p, SIZE_LIMIT as int),
{
    let dx = rng_u64_below(rng, size as u64);
    let dz = rng_u64_below(rng, size as u64);
    position_from_draws(dx, dz, size, y)
}

/// The position determined by one pair of uniform draws on a square of
/// side `offset` centred on `pos`, at height `y`.
pub open spec fn offset_from_draws_spec(dx: int, dz: int, pos: Position, offset: int, y: int) -> Position {
    Position {
        x: (pos.x + dx - offset / 2) as i64,
        y: y as i64,
        z: (pos.z + dz - offset / 2) as i64,
    }
}

/// `c` lies within half of `offset` of `base`.
pub open spec fn near_axis(c: int, base: int, offset: int) -> bool {
    -(offset / 2) <= c - base < offset - offset / 2
}

/// `p` lies over the square of side `offset` centred on `base`, at height `y`.
pub open spec fn near_pos(p: Position, base: Position, offset: int, y: int) -> bool {
    &&& near_axis(p.x as int, base.x as int, offset)
    &&& near_axis(p.z as int, base.z as int, offset)
    &&& p.y == y
}

/// Turns two uniform draws on `0..offset` into a position near `pos`.
pub fn offset_from_draws(dx: u64, dz: u64, pos: Position, offset: i64, y: i64) -> (p: Position)
    requires
        1 <= offset <= 100_000,
        dx < offset as u64,
        dz < offset as u64,
        coords_within(pos, 2_000_000),
        -1_000_000 <= y <= 1_000_000,
    ensures
        p == offset_from_draws_spec(dx as int, dz as int, pos, offset as int, y as int),
        near_pos(p, pos, offset as int, y as int),
{
    let half = (offset as u64) / 2;
    let px = pos.x + (dx as i64 - half as i64);
    let pz = pos.z + (dz as i64 - half as i64);
    Position { x: px, y, z: pz }
}

/// Mirrors the scatter sampler: a uniform position on the square of side
/// `offset` around `pos`, where a carried item is released.
pub fn generate_random_position_by_offset(
    rng: &mut RngComponent,
    y: i64,
    pos: Position,
    offset: i64,
) -> (p: Position)
    requires
        1 <= offset <= 100_000,
        coords_within(pos, 2_000_000),
        -1_000_000 <= y <= 1_000_000,
    ensures
        near_pos(p, pos, offset as int, y as int),
{
    let dx = rng_u64_below(rng, offset as u64);
    let dz = rng_u64_below(rng, offset as u64);
    offset_from_draws(dx, dz, pos, offset, y)
}

/// Samples the resting time entered after a drop: uniform on `[0, 3)`
/// seconds, in milliseconds.
pub fn sample_cooldown_ms(rng: &mut RngComponent) -> (t: u64)
    ensures
        t < COOLDOWN_MAX_MS,
{
    rng_u64_below(rng, COOLDOWN_MAX_MS)
}

} // verus!
