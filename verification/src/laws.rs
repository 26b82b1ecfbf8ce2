//! The store-wide laws, stated on their own and proved from the
//! invariant that every stage maintains.

use vstd::prelude::*;

use crate::geom::{coords_within, dist2_spec, isqrt_spec, lemma_move_monotonic};
use crate::systems::{carry_rel, drop_rel, step_of};
use crate::world::{
    at_most_one_state, config_ok, count_attached, count_carrying, count_dropping, is_attached,
    is_dropping, lemma_count_dropping_zero, ref_of, wf, wf_robot, Configuration, Robot, World,
};
use crate::{ARRIVAL_THRESHOLD_SQ, STEP_LIMIT};

verus! {

/// Law: a carrier bears at most one of `CarryTarget`, `DropTarget` and
/// `Cooldown` at any instant; none of the three means idle.
pub proof fn lemma_states_mutually_exclusive(w: World, i: int)
    requires
        wf(w),
        0 <= i < w.robots@.len(),
    ensures
        at_most_one_state(w.robots@[i]),
{
    assert(wf_robot(w, i));
}

/// Law: as many items bear the attached marker as there are carriers
/// engaged with an item — one per carrying carrier plus one per
/// drop-heading carrier, since the marker stays on the item for the whole
/// transport, both legs included.
pub proof fn lemma_attached_matches_busy(w: World)
    requires
        wf(w),
    ensures
        count_attached(w.items@) == count_carrying(w.robots@) + count_dropping(w.robots@),
{
}

/// Law: while no carrier is on its drop leg, the attached-item count
/// equals the carrying-carrier count exactly.
///
/// The restriction is necessary: with one carrier heading to its drop,
/// its child item still bears the marker while the carrier no longer
/// bears `CarryTarget`, so the unrestricted equality fails there.
pub proof fn lemma_attached_matches_carrying(w: World)
    requires
        wf(w),
        forall|i: int| 0 <= i < w.robots@.len() ==> !is_dropping(#[trigger] w.robots@[i]),
    ensures
        count_attached(w.items@) == count_carrying(w.robots@),
{
    lemma_count_dropping_zero(w.robots@);
}

/// Law: an item bears the attached marker exactly when some carrier is
/// engaged with it, and that carrier is unique.
pub proof fn lemma_attached_iff_held(w: World, k: int)
    requires
        wf(w),
        0 <= k < w.items@.len(),
    ensures
        is_attached(w.items@[k]) <==> exists|i: int|
            0 <= i < w.robots@.len() && #[trigger] ref_of(w.robots@[i]) == Some(k),
        forall|i1: int, i2: int|
            0 <= i1 < w.robots@.len() && 0 <= i2 < w.robots@.len() && #[trigger] ref_of(
                w.robots@[i1],
            ) == Some(k) && #[trigger] ref_of(w.robots@[i2]) == Some(k) ==> i1 == i2,
{
    if exists|i: int| 0 <= i < w.robots@.len() && #[trigger] ref_of(w.robots@[i]) == Some(k) {
        let i = choose|i: int| 0 <= i < w.robots@.len() && #[trigger] ref_of(w.robots@[i]) == Some(
            k,
        );
        assert(wf_robot(w, i));
        let r = w.robots@[i];
        match r.carry_target {
            Some(ct) => {
                assert(is_attached(w.items@[ct.item as int]));
            },
            None => {
                assert(r.children@.len() > 0);
                assert(is_attached(w.items@[r.children@[0] as int]));
            },
        }
    }
}

/// Law: while a carrier is in the carrying state and has not yet crossed
/// the arrival threshold, its squared distance to the carry target
/// strictly shrinks from one tick to the next, provided the tick's step —
/// speed times elapsed time — is positive and no longer than the current
/// distance (here in integer form: at most the distance's integer root).
pub proof fn lemma_carrying_progress(o: Robot, n: Robot, cfg: Configuration, dt_ms: u64)
    requires
        config_ok(cfg),
        coords_within(o.position, 2_000_000),
        o.carry_target matches Some(ct) && coords_within(ct.position, 2_000_000),
        (o.carry_target matches Some(ct) ==> dist2_spec(o.position, ct.position)
            >= ARRIVAL_THRESHOLD_SQ),
        carry_rel(o, n, cfg, dt_ms),
        1 <= step_of(cfg, dt_ms) <= STEP_LIMIT,
        (o.carry_target matches Some(ct) ==> step_of(cfg, dt_ms) <= isqrt_spec(
            dist2_spec(o.position, ct.position),
        )),
    ensures
        (o.carry_target matches Some(ct) ==> dist2_spec(n.position, ct.position) < dist2_spec(
            o.position,
            ct.position,
        )),
{
    match o.carry_target {
        Some(ct) => {
            lemma_move_monotonic(o.position, ct.position, step_of(cfg, dt_ms));
        },
        None => {},
    }
}

/// Law: the same strict progress on the drop leg, toward the sampled
/// destination.
pub proof fn lemma_drop_heading_progress(o: Robot, n: Robot, cfg: Configuration, dt_ms: u64)
    requires
        config_ok(cfg),
        coords_within(o.position, 2_000_000),
        o.drop_target matches Some(t) && coords_within(t.position, 2_000_000),
        (o.drop_target matches Some(t) ==> dist2_spec(o.position, t.position)
            >= ARRIVAL_THRESHOLD_SQ),
        drop_rel(o, n, cfg, dt_ms),
        1 <= step_of(cfg, dt_ms) <= STEP_LIMIT,
        (o.drop_target matches Some(t) ==> step_of(cfg, dt_ms) <= isqrt_spec(
            dist2_spec(o.position, t.position),
        )),
    ensures
        (o.drop_target matches Some(t) ==> dist2_spec(n.position, t.position) < dist2_spec(
            o.position,
            t.position,
        )),
{
    match o.drop_target {
        Some(t) => {
            lemma_move_monotonic(o.position, t.position, step_of(cfg, dt_ms));
        },
        None => {},
    }
}

} // verus!
