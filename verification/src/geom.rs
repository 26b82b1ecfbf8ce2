//! Fixed-point geometry: positions in milli-units, squared distances, an
//! integer square root, and the one-tick movement step toward a target.
//!
//! Movement mirrors `position += normalize(target - position) * step`: with
//! integer coordinates the step along each axis is `delta * step / length`,
//! rounded to the nearest integer (half away from zero).  Rounding to
//! nearest, rather than truncating, is what makes progress strict: whenever
//! the step is positive and no longer than the distance, the squared
//! distance to the target strictly shrinks (`lemma_move_monotonic`).

use vstd::arithmetic::div_mod::{
    lemma_div_by_self, lemma_div_is_ordered, lemma_div_pos_is_pos, lemma_multiply_divide_lt,
};
use vstd::prelude::*;

use crate::STEP_LIMIT;

verus! {

/// A point of the simulation, each axis in thousandths of a world unit.
#[derive(Clone, Copy, PartialEq, Eq, Structural, Debug)]
pub struct Position {
    pub x: i64,
    pub y: i64,
    pub z: i64,
}

pub open spec fn abs_i(v: int) -> int {
    if v >= 0 {
        v
    } else {
        -v
    }
}

pub open spec fn min_i(a: int, b: int) -> int {
    if a <= b {
        a
    } else {
        b
    }
}

pub open spec fn max_i(a: int, b: int) -> int {
    if a <= b {
        b
    } else {
        a
    }
}

/// Every axis of `p` lies in `[-m, m]`.
pub open spec fn coords_within(p: Position, m: int) -> bool {
    &&& -m <= p.x <= m
    &&& -m <= p.y <= m
    &&& -m <= p.z <= m
}

/// Squared Euclidean distance between two points, in squared milli-units.
pub open spec fn dist2_spec(a: Position, b: Position) -> int {
    let dx = a.x - b.x;
    let dy = a.y - b.y;
    let dz = a.z - b.z;
    dx * dx + dy * dy + dz * dz
}

proof fn lemma_square_bound(v: int, b: int)
    requires
        -b <= v <= b,
        0 <= b,
    ensures
        0 <= v * v <= b * b,
{
    assert(0 <= v * v <= b * b) by (nonlinear_arith)
        requires
            -b <= v <= b,
            0 <= b,
    ;
}

proof fn lemma_sq_neg(u: int)
    ensures
        u * u == (-u) * (-u),
{
    assert(u * u == (-u) * (-u)) by (nonlinear_arith);
}

/// Squared distance does not depend on the order of its endpoints, and
/// each single axis's square is below the whole.
pub proof fn lemma_dist2_axes(p: Position, t: Position)
    ensures
        dist2_spec(p, t) == dist2_spec(t, p),
        dist2_spec(p, t) == (t.x - p.x) * (t.x - p.x) + (t.y - p.y) * (t.y - p.y) + (t.z - p.z) * (
        t.z - p.z),
        (t.x - p.x) * (t.x - p.x) <= dist2_spec(p, t),
        (t.y - p.y) * (t.y - p.y) <= dist2_spec(p, t),
        (t.z - p.z) * (t.z - p.z) <= dist2_spec(p, t),
        0 <= dist2_spec(p, t),
{
    lemma_sq_neg(t.x - p.x);
    lemma_sq_neg(t.y - p.y);
    lemma_sq_neg(t.z - p.z);
    lemma_square_bound(t.x - p.x, abs_i(t.x - p.x));
    lemma_square_bound(t.y - p.y, abs_i(t.y - p.y));
    lemma_square_bound(t.z - p.z, abs_i(t.z - p.z));
}

/// Squared distance between two bounded points.
pub fn dist_sq(a: &Position, b: &Position) -> (r: i64)
    requires
        coords_within(*a, 2_000_000),
        coords_within(*b, 2_000_000),
    ensures
        r == dist2_spec(*a, *b),
        0 <= r <= 48_000_000_000_000,
{
    let dx = a.x - b.x;
    let dy = a.y - b.y;
    let dz = a.z - b.z;
    proof {
        lemma_square_bound(dx as int, 4_000_000);
        lemma_square_bound(dy as int, 4_000_000);
        lemma_square_bound(dz as int, 4_000_000);
    }
    dx * dx + dy * dy + dz * dz
}

/// `r` is the integer square root of `n`.
pub open spec fn is_isqrt(n: int, r: int) -> bool {
    &&& 0 <= r
    &&& r * r <= n
    &&& n < (r + 1) * (r + 1)
}

/// The integer square root of `n`, as a mathematical value.
pub open spec fn isqrt_spec(n: int) -> int {
    choose|r: int| is_isqrt(n, r)
}

proof fn lemma_isqrt_exists(n: int)
    requires
        0 <= n,
    ensures
        exists|r: int| is_isqrt(n, r),
    decreases n,
{
    if n == 0 {
        assert(is_isqrt(0, 0));
    } else {
        lemma_isqrt_exists(n - 1);
        let r = choose|r: int| #[trigger] is_isqrt(n - 1, r);
        if n < (r + 1) * (r + 1) {
            assert(is_isqrt(n, r));
        } else {
            // n - 1 < (r + 1) * (r + 1) <= n, so n is exactly (r + 1) * (r + 1)
            assert(n == (r + 1) * (r + 1));
            assert((r + 1) * (r + 1) < (r + 2) * (r + 2)) by (nonlinear_arith)
                requires
                    0 <= r,
            ;
            assert(is_isqrt(n, r + 1));
        }
    }
}

proof fn lemma_isqrt_unique(n: int, r1: int, r2: int)
    requires
        is_isqrt(n, r1),
        is_isqrt(n, r2),
    ensures
        r1 == r2,
{
    if r1 < r2 {
        assert((r1 + 1) * (r1 + 1) <= r2 * r2) by (nonlinear_arith)
            requires
                0 <= r1,
                r1 < r2,
        ;
    }
    if r2 < r1 {
        assert((r2 + 1) * (r2 + 1) <= r1 * r1) by (nonlinear_arith)
            requires
                0 <= r2,
                r2 < r1,
        ;
    }
}

/// `isqrt_spec(n)` really is the integer square root of `n`.
pub proof fn lemma_isqrt_spec_props(n: int)
    requires
        0 <= n,
    ensures
        is_isqrt(n, isqrt_spec(n)),
{
    lemma_isqrt_exists(n);
}

pub proof fn lemma_isqrt_spec_of(n: int, r: int)
    requires
        0 <= n,
        is_isqrt(n, r),
    ensures
        isqrt_spec(n) == r,
{
    lemma_isqrt_spec_props(n);
    lemma_isqrt_unique(n, r, isqrt_spec(n));
}

/// Integer square root by binary search.
pub fn isqrt(n: u64) -> (r: u64)
    requires
        n < 0x4000_0000_0000_0000,
    ensures
        is_isqrt(n as int, r as int),
        r < 0x8000_0000,
{
    let mut lo: u64 = 0;
    let mut hi: u64 = 0x8000_0000;
    assert(0x8000_0000int * 0x8000_0000int == 0x4000_0000_0000_0000int) by (nonlinear_arith);
    while lo + 1 < hi
        invariant
            lo < hi <= 0x8000_0000,
            lo * lo <= n,
            (n as int) < (hi as int) * (hi as int),
        decreases hi - lo,
    {
        let mid = lo + (hi - lo) / 2;
        assert(lo < mid < hi);
        assert(mid * mid <= 0x4000_0000_0000_0000) by (nonlinear_arith)
            requires
                mid <= 0x8000_0000u64,
        ;
        if mid * mid <= n {
            lo = mid;
        } else {
            hi = mid;
        }
    }
    lo
}

/// The magnitude of a one-tick axis step: `a * s / l` rounded to nearest,
/// half away from zero, written over integers as `(2as + l) / 2l`.
pub open spec fn mag_move_spec(a: int, s: int, l: int) -> int {
    (2 * a * s + l) / (2 * l)
}

/// The signed one-tick step along one axis whose delta to the target is
/// `delta`, for a step length `s` and a full distance `l`.
pub open spec fn axis_move_spec(delta: int, s: int, l: int) -> int {
    if delta >= 0 {
        mag_move_spec(delta, s, l)
    } else {
        -mag_move_spec(-delta, s, l)
    }
}

/// An axis step magnitude never exceeds the step length.
pub proof fn lemma_mag_move_le_s(a: int, s: int, l: int)
    requires
        0 <= a <= l,
        0 <= s,
        1 <= l,
    ensures
        0 <= mag_move_spec(a, s, l) <= s,
{
    assert(2 * a * s + l < (2 * l) * (s + 1)) by (nonlinear_arith)
        requires
            0 <= a <= l,
            0 <= s,
            1 <= l,
    ;
    lemma_multiply_divide_lt(2 * a * s + l, 2 * l, s + 1);
    assert(0 <= 2 * a * s + l) by (nonlinear_arith)
        requires
            0 <= a,
            0 <= s,
            1 <= l,
    ;
    lemma_div_pos_is_pos(2 * a * s + l, 2 * l);
}

/// When the step is no longer than the distance, an axis step never
/// overshoots that axis's delta.
pub proof fn lemma_mag_move_le_a(a: int, s: int, l: int)
    requires
        0 <= a <= l,
        0 <= s <= l,
        1 <= l,
    ensures
        mag_move_spec(a, s, l) <= a,
{
    assert(2 * a * s + l < (2 * l) * (a + 1)) by (nonlinear_arith)
        requires
            0 <= a,
            0 <= s <= l,
            1 <= l,
    ;
    lemma_multiply_divide_lt(2 * a * s + l, 2 * l, a + 1);
}

/// An axis whose delta carries at least half a step's worth of the whole
/// distance moves by at least one milli-unit.
pub proof fn lemma_mag_move_ge_1(a: int, s: int, l: int)
    requires
        1 <= l,
        2 * a * s >= l,
    ensures
        mag_move_spec(a, s, l) >= 1,
{
    assert(2 * a * s + l >= 2 * l);
    lemma_div_is_ordered(2 * l, 2 * a * s + l, 2 * l);
    lemma_div_by_self(2 * l);
}

fn axis_move_mag(a: u64, s: u64, l: u64) -> (m: u64)
    requires
        a <= l,
        a <= 4_000_000,
        s <= STEP_LIMIT as u64,
        1 <= l <= 0x8000_0000,
    ensures
        m == mag_move_spec(a as int, s as int, l as int),
        m <= s,
{
    proof {
        lemma_mag_move_le_s(a as int, s as int, l as int);
        assert(2 * (a as int) * (s as int) <= 800_000_000_000) by (nonlinear_arith)
            requires
                a <= 4_000_000u64,
                s <= 100_000u64,
        ;
    }
    (2 * a * s + l) / (2 * l)
}

fn axis_move(delta: i64, s: i64, l: i64) -> (m: i64)
    requires
        -4_000_000 <= delta <= 4_000_000,
        -l <= delta <= l,
        0 <= s <= STEP_LIMIT,
        1 <= l <= 0x8000_0000,
    ensures
        m == axis_move_spec(delta as int, s as int, l as int),
        -s <= m <= s,
{
    if delta >= 0 {
        axis_move_mag(delta as u64, s as u64, l as u64) as i64
    } else {
        -(axis_move_mag((-delta) as u64, s as u64, l as u64) as i64)
    }
}

/// Where one tick of movement from `p` toward `t` with step length `s`
/// lands: each axis advances by its share of the step, rounded to nearest.
pub open spec fn move_toward_spec(p: Position, t: Position, s: int) -> Position {
    let l = isqrt_spec(dist2_spec(p, t));
    Position {
        x: (p.x + axis_move_spec(t.x - p.x, s, l)) as i64,
        y: (p.y + axis_move_spec(t.y - p.y, s, l)) as i64,
        z: (p.z + axis_move_spec(t.z - p.z, s, l)) as i64,
    }
}

proof fn lemma_abs_le_isqrt(delta: int, d2: int, l: int)
    requires
        delta * delta <= d2,
        is_isqrt(d2, l),
    ensures
        -l <= delta <= l,
{
    if delta > l {
        assert((l + 1) * (l + 1) <= delta * delta) by (nonlinear_arith)
            requires
                0 <= l,
                l < delta,
        ;
    }
    if delta < -l {
        assert((l + 1) * (l + 1) <= delta * delta) by (nonlinear_arith)
            requires
                0 <= l,
                delta < -l,
        ;
    }
}

/// One tick of movement from `p` toward `t`.
///
/// The caller keeps the zero-length guard: the arrival test runs first, so
/// this is only reached with a positive squared distance, and the length
/// divided by is at least one.
pub fn move_toward(p: &Position, t: &Position, step: i64) -> (r: Position)
    requires
        coords_within(*p, 2_000_000),
        coords_within(*t, 2_000_000),
        1 <= dist2_spec(*p, *t),
        0 <= step <= STEP_LIMIT,
    ensures
        r == move_toward_spec(*p, *t, step as int),
        coords_within(r, 2_100_000),
{
    let dx = t.x - p.x;
    let dy = t.y - p.y;
    let dz = t.z - p.z;
    proof {
        lemma_square_bound(dx as int, 4_000_000);
        lemma_square_bound(dy as int, 4_000_000);
        lemma_square_bound(dz as int, 4_000_000);
    }
    let d2 = dx * dx + dy * dy + dz * dz;
    proof {
        lemma_dist2_axes(*p, *t);
    }
    assert(d2 == dist2_spec(*p, *t));
    let l_u = isqrt(d2 as u64);
    let l = l_u as i64;
    proof {
        lemma_isqrt_spec_of(d2 as int, l as int);
        lemma_abs_le_isqrt(dx as int, d2 as int, l as int);
        lemma_abs_le_isqrt(dy as int, d2 as int, l as int);
        lemma_abs_le_isqrt(dz as int, d2 as int, l as int);
        // l >= 1 because d2 >= 1
        if l == 0 {
            assert(is_isqrt(d2 as int, 0));
            assert((0int + 1) * (0int + 1) == 1) by (nonlinear_arith);
            assert(d2 < 1);
        }
    }
    let mx = axis_move(dx, step, l);
    let my = axis_move(dy, step, l);
    let mz = axis_move(dz, step, l);
    Position { x: p.x + mx, y: p.y + my, z: p.z + mz }
}

/// The envelope one axis can land in: between the old and target axis
/// values, or — only when overshooting — within two steps of the target.
pub open spec fn axis_env(pc: int, tc: int, nc: int, s: int) -> bool {
    ||| min_i(pc, tc) <= nc <= max_i(pc, tc)
    ||| tc - 2 * s <= nc <= tc + 2 * s
}

proof fn lemma_axis_env(pc: int, tc: int, s: int, l: int)
    requires
        abs_i(tc - pc) <= l,
        1 <= l,
        0 <= s,
    ensures
        axis_env(pc, tc, pc + axis_move_spec(tc - pc, s, l), s),
{
    let delta = tc - pc;
    let a = abs_i(delta);
    lemma_mag_move_le_s(a, s, l);
    if s <= l {
        lemma_mag_move_le_a(a, s, l);
    } else {
        // overshoot: the new delta is at most l + s < 2s in magnitude
        assert(a <= l);
    }
}

/// After one tick of movement each axis lies in its envelope, so movement
/// toward a target inside some box never escapes far from that box.
pub proof fn lemma_move_toward_bounds(p: Position, t: Position, s: int)
    requires
        coords_within(p, 2_000_000),
        coords_within(t, 2_000_000),
        1 <= dist2_spec(p, t),
        0 <= s <= STEP_LIMIT,
    ensures
        axis_env(p.x as int, t.x as int, move_toward_spec(p, t, s).x as int, s),
        axis_env(p.y as int, t.y as int, move_toward_spec(p, t, s).y as int, s),
        axis_env(p.z as int, t.z as int, move_toward_spec(p, t, s).z as int, s),
{
    let d2 = dist2_spec(p, t);
    let l = isqrt_spec(d2);
    lemma_isqrt_spec_props(d2);
    lemma_dist2_axes(p, t);
    lemma_abs_le_isqrt(t.x - p.x, d2, l);
    lemma_abs_le_isqrt(t.y - p.y, d2, l);
    lemma_abs_le_isqrt(t.z - p.z, d2, l);
    if l == 0 {
        assert(d2 < 1);
    }
    lemma_mag_move_le_s(abs_i(t.x - p.x), s, l);
    lemma_mag_move_le_s(abs_i(t.y - p.y), s, l);
    lemma_mag_move_le_s(abs_i(t.z - p.z), s, l);
    lemma_axis_env(p.x as int, t.x as int, s, l);
    lemma_axis_env(p.y as int, t.y as int, s, l);
    lemma_axis_env(p.z as int, t.z as int, s, l);
}

proof fn lemma_axis_shrink(delta: int, s: int, l: int)
    requires
        1 <= l,
        0 <= s <= l,
        abs_i(delta) <= l,
    ensures
        abs_i(axis_move_spec(delta, s, l)) <= s,
        (delta - axis_move_spec(delta, s, l)) * (delta - axis_move_spec(delta, s, l)) <= delta
            * delta,
        2 * abs_i(delta) * s >= l ==> (delta - axis_move_spec(delta, s, l)) * (delta
            - axis_move_spec(delta, s, l)) < delta * delta,
{
    if delta >= 0 {
        lemma_mag_move_le_s(delta, s, l);
        lemma_mag_move_le_a(delta, s, l);
        let rest = delta - mag_move_spec(delta, s, l);
        assert(0 <= rest <= delta);
        assert(rest * rest <= delta * delta) by (nonlinear_arith)
            requires
                0 <= rest <= delta,
        ;
        if 2 * delta * s >= l {
            lemma_mag_move_ge_1(delta, s, l);
            assert(rest * rest < delta * delta) by (nonlinear_arith)
                requires
                    0 <= rest <= delta - 1,
            ;
        }
    } else {
        let a = -delta;
        lemma_mag_move_le_s(a, s, l);
        lemma_mag_move_le_a(a, s, l);
        let rest = delta + mag_move_spec(a, s, l);
        assert(rest == delta - axis_move_spec(delta, s, l));
        assert(delta <= rest <= 0);
        assert(rest * rest <= delta * delta) by (nonlinear_arith)
            requires
                delta <= rest <= 0,
        ;
        if 2 * a * s >= l {
            lemma_mag_move_ge_1(a, s, l);
            assert(rest * rest < delta * delta) by (nonlinear_arith)
                requires
                    delta + 1 <= rest <= 0,
                    delta <= -1,
            ;
        }
    }
}

/// Strict progress: while the target is not yet reached and the step is
/// positive but no longer than the remaining distance, one tick of movement
/// strictly shrinks the squared distance to the target.
pub proof fn lemma_move_monotonic(p: Position, t: Position, s: int)
    requires
        coords_within(p, 2_000_000),
        coords_within(t, 2_000_000),
        1 <= dist2_spec(p, t),
        1 <= s <= STEP_LIMIT,
        s <= isqrt_spec(dist2_spec(p, t)),
    ensures
        dist2_spec(move_toward_spec(p, t, s), t) < dist2_spec(p, t),
{
    let d2 = dist2_spec(p, t);
    let l = isqrt_spec(d2);
    lemma_isqrt_spec_props(d2);
    lemma_dist2_axes(p, t);
    let dx = t.x - p.x;
    let dy = t.y - p.y;
    let dz = t.z - p.z;
    lemma_abs_le_isqrt(dx, d2, l);
    lemma_abs_le_isqrt(dy, d2, l);
    lemma_abs_le_isqrt(dz, d2, l);
    lemma_axis_shrink(dx, s, l);
    lemma_axis_shrink(dy, s, l);
    lemma_axis_shrink(dz, s, l);
    let mx = axis_move_spec(dx, s, l);
    let my = axis_move_spec(dy, s, l);
    let mz = axis_move_spec(dz, s, l);
    let n = move_toward_spec(p, t, s);
    assert(n.x == p.x + mx && n.y == p.y + my && n.z == p.z + mz);
    lemma_dist2_axes(n, t);
    assert(t.x - n.x == dx - mx && t.y - n.y == dy - my && t.z - n.z == dz - mz);
    assert(dist2_spec(n, t) == (dx - mx) * (dx - mx) + (dy - my) * (dy - my) + (dz - mz) * (dz
        - mz));
    // the axis of largest magnitude carries at least a third of d2 and
    // therefore moves by at least one milli-unit
    let amax = max_i(abs_i(dx), max_i(abs_i(dy), abs_i(dz)));
    lemma_square_bound(dx, amax);
    lemma_square_bound(dy, amax);
    lemma_square_bound(dz, amax);
    assert(3 * (amax * amax) >= d2);
    assert(2 * amax * s >= l) by (nonlinear_arith)
        requires
            3 * (amax * amax) >= l * l,
            1 <= s,
            1 <= l,
            0 <= amax,
    ;
    if abs_i(dx) == amax {
        assert(2 * abs_i(dx) * s >= l);
        assert((dx - mx) * (dx - mx) < dx * dx);
    } else if abs_i(dy) == amax {
        assert(2 * abs_i(dy) * s >= l);
        assert((dy - my) * (dy - my) < dy * dy);
    } else {
        assert(abs_i(dz) == amax);
        assert(2 * abs_i(dz) * s >= l);
        assert((dz - mz) * (dz - mz) < dz * dz);
    }
}

/// Inside the arrival threshold no axis delta exceeds the arrival radius.
pub proof fn lemma_arrival_axis_bound(p: Position, t: Position)
    requires
        dist2_spec(p, t) < crate::ARRIVAL_THRESHOLD_SQ,
    ensures
        abs_i(t.x - p.x) <= crate::ARRIVAL_AXIS_BOUND,
        abs_i(t.y - p.y) <= crate::ARRIVAL_AXIS_BOUND,
        abs_i(t.z - p.z) <= crate::ARRIVAL_AXIS_BOUND,
{
    lemma_dist2_axes(p, t);
    assert forall|d: int| d * d < 100_000 implies abs_i(d) <= 316 by {
        if abs_i(d) >= 317 {
            assert(d * d >= 317 * 317) by (nonlinear_arith)
                requires
                    abs_i(d) >= 317,
            ;
        }
    }
}

} // verus!
