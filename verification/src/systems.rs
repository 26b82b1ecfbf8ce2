//! The four per-tick stages, in their fixed order: assignment, carry
//! movement, drop movement, cooldown.  Assignment mutates the store
//! directly and sequentially; the three other stages run a read-mostly
//! pass over the carriers (only a carrier's own position, timer and
//! stream change in place) and funnel every structural change through
//! the deferred mutation queue, drained at the stage boundary.

use bevy_turborand::GlobalRng;
use vstd::prelude::*;

use crate::geom::{
    coords_within, dist2_spec, dist_sq, lemma_arrival_axis_bound, lemma_move_toward_bounds,
    min_i, move_toward, move_toward_spec, Position,
};
use crate::queue::{apply_mutation, mutation_valid, robot_of, Mutation};
use crate::sample::{
    generate_random_position_by_offset, generate_random_position_on_map,
    generate_random_position_on_map_rng, near_pos, on_map, sample_cooldown_ms,
};
use crate::world::{
    config_ok, is_attached, is_idle, lemma_nonstructural_update_wf, lemma_pair_wf,
    lemma_push_item_wf, lemma_push_robot_wf, new_item, new_robot_from_global, ref_of, wf, wf_robot,
    AttachedToRobot, CarryTarget, Configuration, Cooldown, Robot, RobotTarget, World,
};
use crate::{
    ARRIVAL_THRESHOLD_SQ, COOLDOWN_MAX_MS, ENTITY_Y, ITEM_POS_LIMIT, ROBOT_POS_LIMIT,
    SCATTER_SPREAD, SIZE_LIMIT, STEP_LIMIT, TICK_MS_LIMIT,
};

verus! {

/// The step length of one tick: `speed * elapsed` in milli-units.
pub open spec fn step_of(cfg: Configuration, dt_ms: u64) -> int {
    (cfg.speed * dt_ms) / 1000
}

fn step_len(cfg: &Configuration, dt_ms: u64) -> (step: i64)
    requires
        config_ok(*cfg),
        dt_ms <= TICK_MS_LIMIT,
    ensures
        step == step_of(*cfg, dt_ms),
        0 <= step <= STEP_LIMIT,
{
    proof {
        assert((cfg.speed as int) * (dt_ms as int) <= 100_000_000) by (nonlinear_arith)
            requires
                0 <= cfg.speed <= 100_000,
                dt_ms <= 1000u64,
        ;
        assert((cfg.speed as int) * (dt_ms as int) >= 0) by (nonlinear_arith)
            requires
                0 <= cfg.speed,
                0 <= dt_ms,
        ;
    }
    let prod = (cfg.speed as u64) * dt_ms;
    (prod / 1000) as i64
}

/// The unchanged parts of a carrier whose pass only spent randomness.
pub open spec fn same_but_rng(o: Robot, n: Robot) -> bool {
    &&& n.position == o.position
    &&& n.carry_target == o.carry_target
    &&& n.drop_target == o.drop_target
    &&& n.cooldown == o.cooldown
    &&& n.children@ == o.children@
}

/// One tick of movement toward `target`; everything else kept.
pub open spec fn moved_toward(o: Robot, n: Robot, target: Position, cfg: Configuration, dt_ms: u64) -> bool {
    &&& n.position == move_toward_spec(o.position, target, step_of(cfg, dt_ms))
    &&& n.rng == o.rng
    &&& n.carry_target == o.carry_target
    &&& n.drop_target == o.drop_target
    &&& n.cooldown == o.cooldown
    &&& n.children@ == o.children@
}

// --- cooldown stage ------------------------------------------------------

/// What the cooldown stage does to one carrier: a resting carrier's timer
/// shrinks by the elapsed time, saturating at zero, and a timer that
/// saturates means the attribute is removed and the carrier is idle again.
pub open spec fn cooldown_expired(o: Robot, dt_ms: u64) -> bool {
    match o.cooldown {
        Some(cd) => cd.time_left <= dt_ms,
        None => false,
    }
}

pub open spec fn cooldown_rel(o: Robot, n: Robot, dt_ms: u64) -> bool {
    match o.cooldown {
        Some(cd) => if cd.time_left <= dt_ms {
            &&& n.position == o.position
            &&& n.rng == o.rng
            &&& n.carry_target == o.carry_target
            &&& n.drop_target == o.drop_target
            &&& n.cooldown is None
            &&& n.children@ == o.children@
        } else {
            &&& n.position == o.position
            &&& n.rng == o.rng
            &&& n.carry_target == o.carry_target
            &&& n.drop_target == o.drop_target
            &&& n.cooldown == (Some(Cooldown { time_left: (cd.time_left - dt_ms) as u64 }))
            &&& n.children@ == o.children@
        },
        None => n == o,
    }
}

/// Mid-stage state: timers decremented, removal still pending.
spec fn cooldown_pass_rel(o: Robot, n: Robot, dt_ms: u64) -> bool {
    match o.cooldown {
        Some(cd) => {
            &&& n.position == o.position
            &&& n.rng == o.rng
            &&& n.carry_target == o.carry_target
            &&& n.drop_target == o.drop_target
            &&& n.cooldown == (Some(
                Cooldown {
                    time_left: if cd.time_left <= dt_ms {
                        0u64
                    } else {
                        (cd.time_left - dt_ms) as u64
                    },
                },
            ))
            &&& n.children@ == o.children@
        },
        None => n == o,
    }
}

/// A command list holding one `EndCooldown` per expired carrier, no two
/// for the same carrier.
spec fn cooldown_muts_ok(w0: World, muts: Seq<Mutation>, dt_ms: u64) -> bool {
    &&& forall|a: int|
        0 <= a < muts.len() ==> ((#[trigger] muts[a]) matches Mutation::EndCooldown { robot }
            && (robot as int) < w0.robots@.len() && cooldown_expired(
            w0.robots@[robot as int],
            dt_ms,
        ))
    &&& forall|a1: int, a2: int|
        0 <= a1 < a2 < muts.len() ==> robot_of(#[trigger] muts[a1]) != robot_of(
            #[trigger] muts[a2],
        )
}

spec fn has_cmd(muts: Seq<Mutation>, hi: int, i: int) -> bool {
    exists|a: int| 0 <= a < hi && robot_of(#[trigger] muts[a]) == i
}

/// Cooldown stage: parallel-safe timer decrement with deferred removal.
pub fn robot_cooldown_system(w: &mut World, dt_ms: u64)
    requires
        wf(*old(w)),
    ensures
        wf(*final(w)),
        final(w).items@ == old(w).items@,
        final(w).robots@.len() == old(w).robots@.len(),
        forall|i: int|
            0 <= i < old(w).robots@.len() ==> cooldown_rel(
                old(w).robots@[i],
                #[trigger] final(w).robots@[i],
                dt_ms,
            ),
{
    let n = w.robots.len();
    let mut muts: Vec<Mutation> = Vec::new();
    let mut i: usize = 0;
    while i < n
        invariant
            wf(*w),
            n == old(w).robots@.len(),
            w.robots@.len() == n,
            w.items@ == old(w).items@,
            0 <= i <= n,
            forall|j: int|
                0 <= j < i ==> cooldown_pass_rel(
                    old(w).robots@[j],
                    #[trigger] w.robots@[j],
                    dt_ms,
                ),
            forall|j: int| i <= j < n ==> #[trigger] w.robots@[j] == old(w).robots@[j],
            cooldown_muts_ok(*old(w), muts@, dt_ms),
            forall|a: int| 0 <= a < muts@.len() ==> robot_of(#[trigger] muts@[a]) < i,
            forall|j: int|
                0 <= j < i && cooldown_expired(#[trigger] old(w).robots@[j], dt_ms) ==> has_cmd(
                    muts@,
                    muts@.len() as int,
                    j,
                ),
        decreases n - i,
    {
        let ghost muts0 = muts@;
        let ghost w_top = *w;
        match w.robots[i].cooldown {
            Some(cd) => {
                let left = if cd.time_left <= dt_ms {
                    0
                } else {
                    cd.time_left - dt_ms
                };
                let r = &mut w.robots[i];
                r.cooldown = Some(Cooldown { time_left: left });
                if left == 0 {
                    muts.push(Mutation::EndCooldown { robot: i });
                    proof {
                        assert(muts@ == muts0.push(Mutation::EndCooldown { robot: i }));
                        assert(robot_of(muts@[muts@.len() - 1]) == i as int);
                        assert forall|j: int|
                            0 <= j < i + 1 && cooldown_expired(
                                #[trigger] old(w).robots@[j],
                                dt_ms,
                            ) implies has_cmd(muts@, muts@.len() as int, j) by {
                            if j < i {
                                assert(has_cmd(muts0, muts0.len() as int, j));
                                let a = choose|a: int|
                                    0 <= a < muts0.len() && robot_of(#[trigger] muts0[a]) == j;
                                assert(robot_of(muts@[a]) == j);
                            } else {
                                assert(robot_of(muts@[muts@.len() - 1]) == j);
                            }
                        }
                    }
                } else {
                    proof {
                        assert(!cooldown_expired(old(w).robots@[i as int], dt_ms));
                    }
                }
                proof {
                    assert(wf_robot(w_top, i as int));
                    lemma_nonstructural_update_wf(w_top, *w, i as int);
                }
            },
            None => {},
        }
        i = i + 1;
    }
    // drain the queue: removals decided above are applied by one committer
    let ghost wp = *w;
    let mut mi: usize = 0;
    while mi < muts.len()
        invariant
            wf(*w),
            w.robots@.len() == wp.robots@.len(),
            wp.robots@.len() == old(w).robots@.len(),
            w.items@ == wp.items@,
            wp.items@ == old(w).items@,
            0 <= mi <= muts@.len(),
            cooldown_muts_ok(*old(w), muts@, dt_ms),
            forall|a: int| 0 <= a < muts@.len() ==> robot_of(#[trigger] muts@[a]) < wp.robots@.len(),
            forall|j: int|
                0 <= j < wp.robots@.len() ==> cooldown_pass_rel(
                    old(w).robots@[j],
                    #[trigger] wp.robots@[j],
                    dt_ms,
                ),
            forall|j: int|
                0 <= j < wp.robots@.len() && cooldown_expired(#[trigger] old(w).robots@[j], dt_ms)
                    ==> has_cmd(muts@, muts@.len() as int, j),
            forall|j: int|
                0 <= j < wp.robots@.len() && !has_cmd(muts@, mi as int, j)
                    ==> #[trigger] w.robots@[j] == wp.robots@[j],
            forall|j: int|
                0 <= j < wp.robots@.len() && has_cmd(muts@, mi as int, j) ==> cooldown_rel(
                    old(w).robots@[j],
                    #[trigger] w.robots@[j],
                    dt_ms,
                ),
        decreases muts@.len() - mi,
    {
        let ghost w_before = *w;
        let m = &muts[mi];
        proof {
            let j = robot_of(muts@[mi as int]);
            assert(!has_cmd(muts@, mi as int, j)) by {
                if has_cmd(muts@, mi as int, j) {
                    let a = choose|a: int|
                        0 <= a < mi && robot_of(#[trigger] muts@[a]) == j;
                    assert(robot_of(muts@[a]) == robot_of(muts@[mi as int]));
                }
            }
            assert(w.robots@[j] == wp.robots@[j]);
            assert(mutation_valid(*w, muts@[mi as int]));
        }
        apply_mutation(w, m);
        proof {
            let j = robot_of(muts@[mi as int]);
            assert forall|jj: int|
                0 <= jj < wp.robots@.len() && !has_cmd(muts@, mi + 1, jj) implies #[trigger] w
                .robots@[jj] == wp.robots@[jj] by {
                assert(!has_cmd(muts@, mi as int, jj)) by {
                    if has_cmd(muts@, mi as int, jj) {
                        let a = choose|a: int|
                            0 <= a < mi && robot_of(#[trigger] muts@[a]) == jj;
                        assert(0 <= a < mi + 1 && robot_of(muts@[a]) == jj);
                    }
                }
                assert(jj != j);
                assert(w.robots@[jj] == w_before.robots@[jj]);
            }
            assert forall|jj: int|
                0 <= jj < wp.robots@.len() && has_cmd(muts@, mi + 1, jj) implies cooldown_rel(
                old(w).robots@[jj],
                #[trigger] w.robots@[jj],
                dt_ms,
            ) by {
                if jj == j {
                    assert(cooldown_expired(old(w).robots@[j], dt_ms));
                    assert(cooldown_pass_rel(old(w).robots@[j], wp.robots@[j], dt_ms));
                    assert(w.robots@[j].cooldown is None);
                } else {
                    assert(has_cmd(muts@, mi as int, jj)) by {
                        let a = choose|a: int|
                            0 <= a < mi + 1 && robot_of(#[trigger] muts@[a]) == jj;
                        assert(a != mi);
                        assert(0 <= a < mi && robot_of(muts@[a]) == jj);
                    }
                    assert(w.robots@[jj] == w_before.robots@[jj]);
                }
            }
        }
        mi = mi + 1;
    }
    proof {
        assert forall|j: int| 0 <= j < old(w).robots@.len() implies cooldown_rel(
            old(w).robots@[j],
            #[trigger] w.robots@[j],
            dt_ms,
        ) by {
            if !has_cmd(muts@, muts@.len() as int, j) {
                assert(w.robots@[j] == wp.robots@[j]);
                match old(w).robots@[j].cooldown {
                    Some(cd) => {
                        assert(cd.time_left > dt_ms);
                    },
                    None => {},
                }
            }
        }
    }
}

// --- carry-movement stage ------------------------------------------------

/// The carrier has reached its carry target: squared distance below the
/// arrival threshold.  Only this test governs the transition.
pub open spec fn carry_arrived(r: Robot) -> bool {
    match r.carry_target {
        Some(ct) => dist2_spec(r.position, ct.position) < ARRIVAL_THRESHOLD_SQ,
        None => false,
    }
}

/// The carry-to-drop transition: `CarryTarget` swapped for a `DropTarget`
/// at a freshly sampled on-map destination, the carried item attached as
/// the carrier's child, position kept.
pub open spec fn begun_drop(o: Robot, n: Robot, cfg: Configuration) -> bool {
    &&& n.position == o.position
    &&& n.carry_target is None
    &&& (n.drop_target matches Some(t) && on_map(t.position, cfg.size as int, ENTITY_Y as int))
    &&& n.cooldown == o.cooldown
    &&& (o.carry_target matches Some(ct) && n.children@ == seq![ct.item])
}

/// What the carry stage does to one carrier: nothing unless carrying;
/// one movement step toward the target while the squared distance is at
/// least the threshold; the transition exactly when it is below.
pub open spec fn carry_rel(o: Robot, n: Robot, cfg: Configuration, dt_ms: u64) -> bool {
    match o.carry_target {
        Some(ct) => if dist2_spec(o.position, ct.position) < ARRIVAL_THRESHOLD_SQ {
            begun_drop(o, n, cfg)
        } else {
            moved_toward(o, n, ct.position, cfg, dt_ms)
        },
        None => n == o,
    }
}

/// Mid-stage state: moved or (for arrived carriers) randomness spent,
/// transitions still pending in the queue.
spec fn carry_pass_rel(o: Robot, n: Robot, cfg: Configuration, dt_ms: u64) -> bool {
    match o.carry_target {
        Some(ct) => if dist2_spec(o.position, ct.position) < ARRIVAL_THRESHOLD_SQ {
            same_but_rng(o, n)
        } else {
            moved_toward(o, n, ct.position, cfg, dt_ms)
        },
        None => n == o,
    }
}

spec fn carry_muts_ok(w0: World, muts: Seq<Mutation>, cfg: Configuration) -> bool {
    &&& forall|a: int|
        0 <= a < muts.len() ==> ((#[trigger] muts[a]) matches Mutation::BeginDrop {
            robot,
            destination,
        } && (robot as int) < w0.robots@.len() && carry_arrived(w0.robots@[robot as int]) && on_map(
            destination,
            cfg.size as int,
            ENTITY_Y as int,
        ) && coords_within(destination, (SIZE_LIMIT / 2) as int) && destination.y == ENTITY_Y)
    &&& forall|a1: int, a2: int|
        0 <= a1 < a2 < muts.len() ==> robot_of(#[trigger] muts[a1]) != robot_of(
            #[trigger] muts[a2],
        )
}

/// Carry-movement stage: parallel-safe movement toward each carried
/// item's former position, with the carry-to-drop transitions deferred.
pub fn robot_move_to_carry_system(w: &mut World, cfg: &Configuration, dt_ms: u64)
    requires
        wf(*old(w)),
        config_ok(*cfg),
        dt_ms <= TICK_MS_LIMIT,
    ensures
        wf(*final(w)),
        final(w).items@ == old(w).items@,
        final(w).robots@.len() == old(w).robots@.len(),
        forall|i: int|
            0 <= i < old(w).robots@.len() ==> carry_rel(
                old(w).robots@[i],
                #[trigger] final(w).robots@[i],
                *cfg,
                dt_ms,
            ),
{
    let step = step_len(cfg, dt_ms);
    let n = w.robots.len();
    let mut muts: Vec<Mutation> = Vec::new();
    let mut i: usize = 0;
    while i < n
        invariant
            wf(*w),
            config_ok(*cfg),
            dt_ms <= TICK_MS_LIMIT,
            step == step_of(*cfg, dt_ms),
            0 <= step <= STEP_LIMIT,
            n == old(w).robots@.len(),
            w.robots@.len() == n,
            w.items@ == old(w).items@,
            0 <= i <= n,
            forall|j: int|
                0 <= j < i ==> carry_pass_rel(
                    old(w).robots@[j],
                    #[trigger] w.robots@[j],
                    *cfg,
                    dt_ms,
                ),
            forall|j: int| i <= j < n ==> #[trigger] w.robots@[j] == old(w).robots@[j],
            carry_muts_ok(*old(w), muts@, *cfg),
            forall|a: int| 0 <= a < muts@.len() ==> robot_of(#[trigger] muts@[a]) < i,
            forall|j: int|
                0 <= j < i && carry_arrived(#[trigger] old(w).robots@[j]) ==> has_cmd(
                    muts@,
                    muts@.len() as int,
                    j,
                ),
        decreases n - i,
    {
        let ghost muts0 = muts@;
        let ghost w_top = *w;
        proof {
            assert(wf_robot(w_top, i as int));
        }
        match w.robots[i].carry_target {
            Some(ct) => {
                let pos = w.robots[i].position;
                let d2 = dist_sq(&pos, &ct.position);
                if d2 < ARRIVAL_THRESHOLD_SQ {
                    let dest = generate_random_position_on_map_rng(
                        cfg.size,
                        &mut w.robots[i].rng,
                        ENTITY_Y,
                    );
                    proof {
                        lemma_nonstructural_update_wf(w_top, *w, i as int);
                        assert(carry_arrived(old(w).robots@[i as int]));
                    }
                    muts.push(Mutation::BeginDrop { robot: i, destination: dest });
                    proof {
                        assert(muts@ == muts0.push(
                            Mutation::BeginDrop { robot: i, destination: dest },
                        ));
                        assert(robot_of(muts@[muts@.len() - 1]) == i as int);
                        assert forall|j: int|
                            0 <= j < i + 1 && carry_arrived(
                                #[trigger] old(w).robots@[j],
                            ) implies has_cmd(muts@, muts@.len() as int, j) by {
                            if j < i {
                                assert(has_cmd(muts0, muts0.len() as int, j));
                                let a = choose|a: int|
                                    0 <= a < muts0.len() && robot_of(#[trigger] muts0[a]) == j;
                                assert(robot_of(muts@[a]) == j);
                            } else {
                                assert(robot_of(muts@[muts@.len() - 1]) == j);
                            }
                        }
                    }
                } else {
                    let np = move_toward(&pos, &ct.position, step);
                    proof {
                        lemma_move_toward_bounds(pos, ct.position, step as int);
                        assert(coords_within(np, ROBOT_POS_LIMIT as int));
                    }
                    let r = &mut w.robots[i];
                    r.position = np;
                    proof {
                        lemma_nonstructural_update_wf(w_top, *w, i as int);
                        assert(!carry_arrived(old(w).robots@[i as int]));
                    }
                }
            },
            None => {},
        }
        i = i + 1;
    }
    // drain the queue: the swap-and-attach transitions commit here
    let ghost wp = *w;
    let mut mi: usize = 0;
    while mi < muts.len()
        invariant
            wf(*w),
            config_ok(*cfg),
            w.robots@.len() == wp.robots@.len(),
            wp.robots@.len() == old(w).robots@.len(),
            w.items@ == wp.items@,
            wp.items@ == old(w).items@,
            0 <= mi <= muts@.len(),
            carry_muts_ok(*old(w), muts@, *cfg),
            forall|a: int| 0 <= a < muts@.len() ==> robot_of(#[trigger] muts@[a]) < wp.robots@.len(),
            forall|j: int|
                0 <= j < wp.robots@.len() ==> carry_pass_rel(
                    old(w).robots@[j],
                    #[trigger] wp.robots@[j],
                    *cfg,
                    dt_ms,
                ),
            forall|j: int|
                0 <= j < wp.robots@.len() && carry_arrived(#[trigger] old(w).robots@[j])
                    ==> has_cmd(muts@, muts@.len() as int, j),
            forall|j: int|
                0 <= j < wp.robots@.len() && !has_cmd(muts@, mi as int, j)
                    ==> #[trigger] w.robots@[j] == wp.robots@[j],
            forall|j: int|
                0 <= j < wp.robots@.len() && has_cmd(muts@, mi as int, j) ==> carry_rel(
                    old(w).robots@[j],
                    #[trigger] w.robots@[j],
                    *cfg,
                    dt_ms,
                ),
        decreases muts@.len() - mi,
    {
        let ghost w_before = *w;
        let m = &muts[mi];
        proof {
            let j = robot_of(muts@[mi as int]);
            assert(!has_cmd(muts@, mi as int, j)) by {
                if has_cmd(muts@, mi as int, j) {
                    let a = choose|a: int| 0 <= a < mi && robot_of(#[trigger] muts@[a]) == j;
                    assert(robot_of(muts@[a]) == robot_of(muts@[mi as int]));
                }
            }
            assert(w.robots@[j] == wp.robots@[j]);
            assert(carry_pass_rel(old(w).robots@[j], wp.robots@[j], *cfg, dt_ms));
            assert(mutation_valid(*w, muts@[mi as int]));
        }
        apply_mutation(w, m);
        proof {
            let j = robot_of(muts@[mi as int]);
            assert forall|jj: int|
                0 <= jj < wp.robots@.len() && !has_cmd(muts@, mi + 1, jj) implies #[trigger] w
                .robots@[jj] == wp.robots@[jj] by {
                assert(!has_cmd(muts@, mi as int, jj)) by {
                    if has_cmd(muts@, mi as int, jj) {
                        let a = choose|a: int| 0 <= a < mi && robot_of(#[trigger] muts@[a]) == jj;
                        assert(0 <= a < mi + 1 && robot_of(muts@[a]) == jj);
                    }
                }
                assert(jj != j);
                assert(w.robots@[jj] == w_before.robots@[jj]);
            }
            assert forall|jj: int|
                0 <= jj < wp.robots@.len() && has_cmd(muts@, mi + 1, jj) implies carry_rel(
                old(w).robots@[jj],
                #[trigger] w.robots@[jj],
                *cfg,
                dt_ms,
            ) by {
                if jj == j {
                    assert(carry_arrived(old(w).robots@[j]));
                    assert(carry_pass_rel(old(w).robots@[j], wp.robots@[j], *cfg, dt_ms));
                } else {
                    assert(has_cmd(muts@, mi as int, jj)) by {
                        let a = choose|a: int|
                            0 <= a < mi + 1 && robot_of(#[trigger] muts@[a]) == jj;
                        assert(a != mi);
                        assert(0 <= a < mi && robot_of(muts@[a]) == jj);
                    }
                    assert(w.robots@[jj] == w_before.robots@[jj]);
                }
            }
        }
        mi = mi + 1;
    }
    proof {
        assert forall|j: int| 0 <= j < old(w).robots@.len() implies carry_rel(
            old(w).robots@[j],
            #[trigger] w.robots@[j],
            *cfg,
            dt_ms,
        ) by {
            if !has_cmd(muts@, muts@.len() as int, j) {
                assert(w.robots@[j] == wp.robots@[j]);
                assert(!carry_arrived(old(w).robots@[j]));
            }
        }
    }
}

// --- drop-movement stage -------------------------------------------------

/// The carrier has reached its drop destination.
pub open spec fn drop_arrived(r: Robot) -> bool {
    match r.drop_target {
        Some(t) => dist2_spec(r.position, t.position) < ARRIVAL_THRESHOLD_SQ,
        None => false,
    }
}

/// The drop-to-cooldown transition: children released, `DropTarget`
/// swapped for a sampled `Cooldown` below three seconds, position kept.
pub open spec fn finished_drop(o: Robot, n: Robot) -> bool {
    &&& n.position == o.position
    &&& n.carry_target == o.carry_target
    &&& n.drop_target is None
    &&& (n.cooldown matches Some(cd) && cd.time_left < COOLDOWN_MAX_MS)
    &&& n.children@.len() == 0
}

/// What the drop stage does to one carrier: nothing unless drop-heading;
/// one movement step toward the destination while the squared distance is
/// at least the threshold; the transition exactly when it is below.
pub open spec fn drop_rel(o: Robot, n: Robot, cfg: Configuration, dt_ms: u64) -> bool {
    match o.drop_target {
        Some(t) => if dist2_spec(o.position, t.position) < ARRIVAL_THRESHOLD_SQ {
            finished_drop(o, n)
        } else {
            moved_toward(o, n, t.position, cfg, dt_ms)
        },
        None => n == o,
    }
}

/// Some arrived carrier holds item `k` as a child: `k` is about to be
/// scattered and released.
pub open spec fn dropped_on(w0: World, k: int) -> bool {
    exists|i: int|
        0 <= i < w0.robots@.len() && drop_arrived(#[trigger] w0.robots@[i])
            && w0.robots@[i].children@.contains(k as usize)
}

spec fn drop_pass_rel(o: Robot, n: Robot, cfg: Configuration, dt_ms: u64) -> bool {
    match o.drop_target {
        Some(t) => if dist2_spec(o.position, t.position) < ARRIVAL_THRESHOLD_SQ {
            same_but_rng(o, n)
        } else {
            moved_toward(o, n, t.position, cfg, dt_ms)
        },
        None => n == o,
    }
}

spec fn drop_muts_ok(w0: World, muts: Seq<Mutation>) -> bool {
    &&& forall|a: int|
        0 <= a < muts.len() ==> ((#[trigger] muts[a]) matches Mutation::FinishDrop {
            robot,
            scattered,
            time_left,
        } && (robot as int) < w0.robots@.len() && drop_arrived(w0.robots@[robot as int])
            && scattered@.len() == w0.robots@[robot as int].children@.len() && (forall|j: int|
            0 <= j < scattered@.len() ==> coords_within(#[trigger] scattered@[j], ITEM_POS_LIMIT as int)
                && near_pos(
                scattered@[j],
                w0.robots@[robot as int].position,
                SCATTER_SPREAD as int,
                ENTITY_Y as int,
            )) && time_left < COOLDOWN_MAX_MS)
    &&& forall|a1: int, a2: int|
        0 <= a1 < a2 < muts.len() ==> robot_of(#[trigger] muts[a1]) != robot_of(
            #[trigger] muts[a2],
        )
}

/// The single child an arrived carrier is about to release, as an index.
spec fn child_of(w0: World, i: int) -> int {
    if w0.robots@[i].children@.len() > 0 {
        w0.robots@[i].children@[0] as int
    } else {
        -1
    }
}

spec fn touched(w0: World, muts: Seq<Mutation>, hi: int, k: int) -> bool {
    exists|a: int| 0 <= a < hi && child_of(w0, robot_of(#[trigger] muts[a])) == k
}

/// Drop-movement stage: parallel-safe movement toward each sampled
/// destination; on arrival the release, scatter and cooldown entry are
/// deferred to the queue.
pub fn robot_move_to_drop_system(w: &mut World, cfg: &Configuration, dt_ms: u64)
    requires
        wf(*old(w)),
        config_ok(*cfg),
        dt_ms <= TICK_MS_LIMIT,
    ensures
        wf(*final(w)),
        final(w).robots@.len() == old(w).robots@.len(),
        final(w).items@.len() == old(w).items@.len(),
        forall|i: int|
            0 <= i < old(w).robots@.len() ==> drop_rel(
                old(w).robots@[i],
                #[trigger] final(w).robots@[i],
                *cfg,
                dt_ms,
            ),
        forall|i: int, j: int|
            0 <= i < old(w).robots@.len() && drop_arrived(#[trigger] old(w).robots@[i]) && 0 <= j
                < old(w).robots@[i].children@.len() ==> {
                let k = #[trigger] old(w).robots@[i].children@[j] as int;
                &&& !is_attached(final(w).items@[k])
                &&& near_pos(
                    final(w).items@[k].position,
                    old(w).robots@[i].position,
                    SCATTER_SPREAD as int,
                    ENTITY_Y as int,
                )
            },
        forall|k: int|
            0 <= k < old(w).items@.len() && !dropped_on(*old(w), k)
                ==> #[trigger] final(w).items@[k] == old(w).items@[k],
{
    let step = step_len(cfg, dt_ms);
    let n = w.robots.len();
    let mut muts: Vec<Mutation> = Vec::new();
    let mut i: usize = 0;
    while i < n
        invariant
            wf(*w),
            config_ok(*cfg),
            dt_ms <= TICK_MS_LIMIT,
            step == step_of(*cfg, dt_ms),
            0 <= step <= STEP_LIMIT,
            n == old(w).robots@.len(),
            w.robots@.len() == n,
            w.items@ == old(w).items@,
            0 <= i <= n,
            forall|j: int|
                0 <= j < i ==> drop_pass_rel(
                    old(w).robots@[j],
                    #[trigger] w.robots@[j],
                    *cfg,
                    dt_ms,
                ),
            forall|j: int| i <= j < n ==> #[trigger] w.robots@[j] == old(w).robots@[j],
            drop_muts_ok(*old(w), muts@),
            forall|a: int| 0 <= a < muts@.len() ==> robot_of(#[trigger] muts@[a]) < i,
            forall|j: int|
                0 <= j < i && drop_arrived(#[trigger] old(w).robots@[j]) ==> has_cmd(
                    muts@,
                    muts@.len() as int,
                    j,
                ),
        decreases n - i,
    {
        let ghost muts0 = muts@;
        let ghost w_top = *w;
        proof {
            assert(wf_robot(w_top, i as int));
        }
        match w.robots[i].drop_target {
            Some(t) => {
                let base = w.robots[i].position;
                let d2 = dist_sq(&base, &t.position);
                if d2 < ARRIVAL_THRESHOLD_SQ {
                    proof {
                        // the carrier sits within the arrival radius of its
                        // on-map destination, so scatter stays in bounds
                        lemma_arrival_axis_bound(base, t.position);
                        assert(coords_within(base, 501_000));
                    }
                    let nch = w.robots[i].children.len();
                    let mut scattered: Vec<Position> = Vec::new();
                    let mut j: usize = 0;
                    while j < nch
                        invariant
                            wf(*w),
                            (i as int) < w.robots@.len(),
                            coords_within(base, 501_000),
                            0 <= j <= nch,
                            scattered@.len() == j,
                            w.items@ == w_top.items@,
                            w.robots@.len() == w_top.robots@.len(),
                            forall|jj: int|
                                0 <= jj < w.robots@.len() && jj != i as int
                                    ==> #[trigger] w.robots@[jj] == w_top.robots@[jj],
                            same_but_rng(w_top.robots@[i as int], w.robots@[i as int]),
                            forall|jj: int|
                                0 <= jj < j ==> coords_within(
                                    #[trigger] scattered@[jj],
                                    ITEM_POS_LIMIT as int,
                                ) && near_pos(
                                    scattered@[jj],
                                    base,
                                    SCATTER_SPREAD as int,
                                    ENTITY_Y as int,
                                ),
                        decreases nch - j,
                    {
                        let ghost w_iter = *w;
                        let p = generate_random_position_by_offset(
                            &mut w.robots[i].rng,
                            ENTITY_Y,
                            base,
                            SCATTER_SPREAD,
                        );
                        proof {
                            assert(wf_robot(w_iter, i as int));
                            lemma_nonstructural_update_wf(w_iter, *w, i as int);
                        }
                        scattered.push(p);
                        j = j + 1;
                    }
                    let ghost w_mid = *w;
                    let tl = sample_cooldown_ms(&mut w.robots[i].rng);
                    proof {
                        assert(wf_robot(w_mid, i as int));
                        lemma_nonstructural_update_wf(w_mid, *w, i as int);
                        assert(drop_arrived(old(w).robots@[i as int]));
                        assert(same_but_rng(old(w).robots@[i as int], w.robots@[i as int]));
                    }
                    muts.push(
                        Mutation::FinishDrop { robot: i, scattered, time_left: tl },
                    );
                    proof {
                        assert(robot_of(muts@[muts@.len() - 1]) == i as int);
                        assert forall|jx: int|
                            0 <= jx < i + 1 && drop_arrived(
                                #[trigger] old(w).robots@[jx],
                            ) implies has_cmd(muts@, muts@.len() as int, jx) by {
                            if jx < i {
                                assert(has_cmd(muts0, muts0.len() as int, jx));
                                let a = choose|a: int|
                                    0 <= a < muts0.len() && robot_of(#[trigger] muts0[a]) == jx;
                                assert(muts@[a] == muts0[a]);
                                assert(robot_of(muts@[a]) == jx);
                            } else {
                                assert(robot_of(muts@[muts@.len() - 1]) == jx);
                            }
                        }
                    }
                } else {
                    let np = move_toward(&base, &t.position, step);
                    proof {
                        lemma_move_toward_bounds(base, t.position, step as int);
                        assert(coords_within(np, ROBOT_POS_LIMIT as int));
                    }
                    let r = &mut w.robots[i];
                    r.position = np;
                    proof {
                        lemma_nonstructural_update_wf(w_top, *w, i as int);
                        assert(!drop_arrived(old(w).robots@[i as int]));
                    }
                }
            },
            None => {},
        }
        i = i + 1;
    }
    // drain the queue: releases, scatters and cooldown entries commit here
    let ghost wp = *w;
    let mut mi: usize = 0;
    while mi < muts.len()
        invariant
            wf(*w),
            wf(*old(w)),
            config_ok(*cfg),
            w.robots@.len() == wp.robots@.len(),
            wp.robots@.len() == old(w).robots@.len(),
            w.items@.len() == wp.items@.len(),
            wp.items@ == old(w).items@,
            0 <= mi <= muts@.len(),
            drop_muts_ok(*old(w), muts@),
            forall|a: int| 0 <= a < muts@.len() ==> robot_of(#[trigger] muts@[a]) < wp.robots@.len(),
            forall|j: int|
                0 <= j < wp.robots@.len() ==> drop_pass_rel(
                    old(w).robots@[j],
                    #[trigger] wp.robots@[j],
                    *cfg,
                    dt_ms,
                ),
            forall|j: int|
                0 <= j < wp.robots@.len() && drop_arrived(#[trigger] old(w).robots@[j])
                    ==> has_cmd(muts@, muts@.len() as int, j),
            forall|j: int|
                0 <= j < wp.robots@.len() && !has_cmd(muts@, mi as int, j)
                    ==> #[trigger] w.robots@[j] == wp.robots@[j],
            forall|j: int|
                0 <= j < wp.robots@.len() && has_cmd(muts@, mi as int, j) ==> drop_rel(
                    old(w).robots@[j],
                    #[trigger] w.robots@[j],
                    *cfg,
                    dt_ms,
                ),
            forall|k: int|
                0 <= k < wp.items@.len() && !touched(*old(w), muts@, mi as int, k)
                    ==> #[trigger] w.items@[k] == wp.items@[k],
            forall|j: int|
                0 <= j < wp.robots@.len() && has_cmd(muts@, mi as int, j) ==> (forall|jj: int|
                    0 <= jj < old(w).robots@[j].children@.len() ==> {
                        let k = #[trigger] old(w).robots@[j].children@[jj] as int;
                        &&& !is_attached(w.items@[k])
                        &&& near_pos(
                            w.items@[k].position,
                            old(w).robots@[j].position,
                            SCATTER_SPREAD as int,
                            ENTITY_Y as int,
                        )
                    }),
        decreases muts@.len() - mi,
    {
        let ghost w_before = *w;
        let m = &muts[mi];
        proof {
            let j = robot_of(muts@[mi as int]);
            assert(!has_cmd(muts@, mi as int, j)) by {
                if has_cmd(muts@, mi as int, j) {
                    let a = choose|a: int| 0 <= a < mi && robot_of(#[trigger] muts@[a]) == j;
                    assert(robot_of(muts@[a]) == robot_of(muts@[mi as int]));
                }
            }
            assert(w.robots@[j] == wp.robots@[j]);
            assert(drop_pass_rel(old(w).robots@[j], wp.robots@[j], *cfg, dt_ms));
            assert(wf_robot(*old(w), j));
            assert(mutation_valid(*w, muts@[mi as int]));
        }
        apply_mutation(w, m);
        proof {
            let j = robot_of(muts@[mi as int]);
            let oj = old(w).robots@[j];
            assert(wf_robot(*old(w), j));
            assert(oj.children@.len() == 1);
            let kk = oj.children@[0] as int;
            assert(child_of(*old(w), j) == kk);
            assert forall|jj: int|
                0 <= jj < wp.robots@.len() && !has_cmd(muts@, mi + 1, jj) implies #[trigger] w
                .robots@[jj] == wp.robots@[jj] by {
                assert(!has_cmd(muts@, mi as int, jj)) by {
                    if has_cmd(muts@, mi as int, jj) {
                        let a = choose|a: int| 0 <= a < mi && robot_of(#[trigger] muts@[a]) == jj;
                        assert(0 <= a < mi + 1 && robot_of(muts@[a]) == jj);
                    }
                }
                assert(jj != j);
                assert(w.robots@[jj] == w_before.robots@[jj]);
            }
            assert forall|jj: int|
                0 <= jj < wp.robots@.len() && has_cmd(muts@, mi + 1, jj) implies drop_rel(
                old(w).robots@[jj],
                #[trigger] w.robots@[jj],
                *cfg,
                dt_ms,
            ) by {
                if jj == j {
                    assert(drop_arrived(old(w).robots@[j]));
                    assert(drop_pass_rel(old(w).robots@[j], wp.robots@[j], *cfg, dt_ms));
                } else {
                    assert(has_cmd(muts@, mi as int, jj)) by {
                        let a = choose|a: int|
                            0 <= a < mi + 1 && robot_of(#[trigger] muts@[a]) == jj;
                        assert(a != mi);
                        assert(0 <= a < mi && robot_of(muts@[a]) == jj);
                    }
                    assert(w.robots@[jj] == w_before.robots@[jj]);
                }
            }
            assert forall|k: int|
                0 <= k < wp.items@.len() && !touched(*old(w), muts@, mi + 1, k) implies #[trigger] w
                .items@[k] == wp.items@[k] by {
                assert(!touched(*old(w), muts@, mi as int, k)) by {
                    if touched(*old(w), muts@, mi as int, k) {
                        let a = choose|a: int|
                            0 <= a < mi && child_of(*old(w), robot_of(#[trigger] muts@[a])) == k;
                        assert(0 <= a < mi + 1 && child_of(*old(w), robot_of(muts@[a])) == k);
                    }
                }
                assert(k != kk);
                assert forall|jz: int|
                    0 <= jz < w_before.robots@[j].children@.len() implies k
                    != #[trigger] w_before.robots@[j].children@[jz] as int by {
                    assert(w_before.robots@[j] == wp.robots@[j]);
                    assert(wp.robots@[j].children@ == oj.children@);
                    assert(jz == 0);
                }
                assert(w.items@[k] == w_before.items@[k]);
            }
            assert forall|jj: int| #![trigger has_cmd(muts@, mi + 1, jj)]
                0 <= jj < wp.robots@.len() && has_cmd(muts@, mi + 1, jj) implies (forall|jz: int|
                0 <= jz < old(w).robots@[jj].children@.len() ==> {
                    let k = #[trigger] old(w).robots@[jj].children@[jz] as int;
                    &&& !is_attached(w.items@[k])
                    &&& near_pos(
                        w.items@[k].position,
                        old(w).robots@[jj].position,
                        SCATTER_SPREAD as int,
                        ENTITY_Y as int,
                    )
                }) by {
                if jj == j {
                    assert forall|jz: int|
                        0 <= jz < old(w).robots@[j].children@.len() implies {
                        let k = #[trigger] old(w).robots@[j].children@[jz] as int;
                        &&& !is_attached(w.items@[k])
                        &&& near_pos(
                            w.items@[k].position,
                            old(w).robots@[j].position,
                            SCATTER_SPREAD as int,
                            ENTITY_Y as int,
                        )
                    } by {
                        assert(jz == 0);
                        assert(w_before.robots@[j].children@ == oj.children@);
                        assert(w.items@[kk] == (RobotTarget {
                            position: (muts@[mi as int])->FinishDrop_scattered@[0],
                            attached: None,
                        }));
                    }
                } else {
                    assert(has_cmd(muts@, mi as int, jj)) by {
                        let a = choose|a: int|
                            0 <= a < mi + 1 && robot_of(#[trigger] muts@[a]) == jj;
                        assert(a != mi);
                        assert(0 <= a < mi && robot_of(muts@[a]) == jj);
                    }
                    assert(wf_robot(*old(w), jj));
                    assert forall|jz: int|
                        0 <= jz < old(w).robots@[jj].children@.len() implies {
                        let k = #[trigger] old(w).robots@[jj].children@[jz] as int;
                        &&& !is_attached(w.items@[k])
                        &&& near_pos(
                            w.items@[k].position,
                            old(w).robots@[jj].position,
                            SCATTER_SPREAD as int,
                            ENTITY_Y as int,
                        )
                    } by {
                        assert(jz == 0);
                        let k = old(w).robots@[jj].children@[0] as int;
                        // distinct carriers hold distinct children
                        assert(ref_of(old(w).robots@[jj]) == Some(k));
                        assert(ref_of(old(w).robots@[j]) == Some(kk));
                        assert(k != kk);
                        assert forall|jz2: int|
                            0 <= jz2 < w_before.robots@[j].children@.len() implies k
                            != #[trigger] w_before.robots@[j].children@[jz2] as int by {
                            assert(w_before.robots@[j] == wp.robots@[j]);
                            assert(jz2 == 0);
                        }
                        assert(w.items@[k] == w_before.items@[k]);
                    }
                }
            }
        }
        mi = mi + 1;
    }
    proof {
        assert forall|j: int| 0 <= j < old(w).robots@.len() implies drop_rel(
            old(w).robots@[j],
            #[trigger] w.robots@[j],
            *cfg,
            dt_ms,
        ) by {
            if !has_cmd(muts@, muts@.len() as int, j) {
                assert(w.robots@[j] == wp.robots@[j]);
                assert(!drop_arrived(old(w).robots@[j]));
            }
        }
        assert forall|i2: int, j2: int|
            0 <= i2 < old(w).robots@.len() && drop_arrived(#[trigger] old(w).robots@[i2]) && 0 <= j2
                < old(w).robots@[i2].children@.len() implies {
            let k = #[trigger] old(w).robots@[i2].children@[j2] as int;
            &&& !is_attached(w.items@[k])
            &&& near_pos(
                w.items@[k].position,
                old(w).robots@[i2].position,
                SCATTER_SPREAD as int,
                ENTITY_Y as int,
            )
        } by {
            assert(has_cmd(muts@, muts@.len() as int, i2));
        }
        assert forall|k: int|
            0 <= k < old(w).items@.len() && !dropped_on(*old(w), k) implies #[trigger] w.items@[k]
            == old(w).items@[k] by {
            assert(!touched(*old(w), muts@, muts@.len() as int, k)) by {
                if touched(*old(w), muts@, muts@.len() as int, k) {
                    let a = choose|a: int|
                        0 <= a < muts@.len() && child_of(*old(w), robot_of(#[trigger] muts@[a]))
                            == k;
                    let rj = robot_of(muts@[a]);
                    assert(drop_arrived(old(w).robots@[rj]));
                    assert(wf_robot(*old(w), rj));
                    assert(old(w).robots@[rj].children@.len() > 0);
                    assert(old(w).robots@[rj].children@[0] as int == k);
                    assert(old(w).robots@[rj].children@.contains(k as usize));
                    assert(dropped_on(*old(w), k));
                }
            }
        }
    }
}


// --- assignment stage ----------------------------------------------------

/// How many of the first `n` carriers are idle.
pub open spec fn count_idle_pref(rs: Seq<Robot>, n: int) -> int
    decreases n,
{
    if n <= 0 {
        0
    } else {
        count_idle_pref(rs, n - 1) + if is_idle(rs[n - 1]) {
            1int
        } else {
            0int
        }
    }
}

/// How many of the first `n` items are unattached.
pub open spec fn count_unattached_pref(its: Seq<RobotTarget>, n: int) -> int
    decreases n,
{
    if n <= 0 {
        0
    } else {
        count_unattached_pref(its, n - 1) + if is_attached(its[n - 1]) {
            0int
        } else {
            1int
        }
    }
}

/// The indices of the unattached items among the first `n`, in store
/// order: the sequence the assignment stage consumes from the front.
pub open spec fn free_items(its: Seq<RobotTarget>, n: int) -> Seq<usize>
    decreases n,
{
    if n <= 0 {
        Seq::empty()
    } else {
        let p = free_items(its, n - 1);
        if is_attached(its[n - 1]) {
            p
        } else {
            p.push((n - 1) as usize)
        }
    }
}

/// The free list is exactly the unattached items in store order: its
/// `r`-th entry is the unattached item of rank `r`.
spec fn free_list_ok(its: Seq<RobotTarget>, free: Seq<usize>) -> bool {
    &&& free.len() == count_unattached_pref(its, its.len() as int)
    &&& forall|m: int| 0 <= m <= its.len() ==> 0 <= #[trigger] count_unattached_pref(its, m) <= m
    &&& forall|r: int|
        0 <= r < free.len() ==> {
            let k = #[trigger] free[r] as int;
            &&& k < its.len()
            &&& !is_attached(its[k])
            &&& count_unattached_pref(its, k) == r
        }
    &&& forall|k: int|
        0 <= k < its.len() && !is_attached(#[trigger] its[k]) ==> {
            &&& count_unattached_pref(its, k) < free.len()
            &&& free[count_unattached_pref(its, k)] == k as usize
        }
}

proof fn lemma_count_unattached_pref_bounds(its: Seq<RobotTarget>, n: int)
    requires
        0 <= n,
    ensures
        0 <= count_unattached_pref(its, n) <= n,
    decreases n,
{
    if n > 0 {
        lemma_count_unattached_pref_bounds(its, n - 1);
    }
}

proof fn lemma_free_items_props(its: Seq<RobotTarget>, n: int)
    requires
        0 <= n <= its.len(),
        its.len() <= usize::MAX,
    ensures
        free_items(its, n).len() == count_unattached_pref(its, n),
        forall|r: int|
            0 <= r < free_items(its, n).len() ==> {
                let k = #[trigger] free_items(its, n)[r] as int;
                &&& k < n
                &&& !is_attached(its[k])
                &&& count_unattached_pref(its, k) == r
            },
        forall|k: int|
            0 <= k < n && !is_attached(#[trigger] its[k]) ==> {
                &&& count_unattached_pref(its, k) < free_items(its, n).len()
                &&& free_items(its, n)[count_unattached_pref(its, k)] == k as usize
            },
    decreases n,
{
    if n > 0 {
        lemma_free_items_props(its, n - 1);
        let p = free_items(its, n - 1);
        let f = free_items(its, n);
        if !is_attached(its[n - 1]) {
            assert(f == p.push((n - 1) as usize));
            assert(f[p.len() as int] == (n - 1) as usize);
            assert forall|r: int| 0 <= r < f.len() implies {
                let k = #[trigger] f[r] as int;
                &&& k < n
                &&& !is_attached(its[k])
                &&& count_unattached_pref(its, k) == r
            } by {
                if r < p.len() {
                    assert(f[r] == p[r]);
                } else {
                    assert(r == p.len());
                    assert(f[r] == (n - 1) as usize);
                    assert(count_unattached_pref(its, n - 1) == p.len());
                }
            }
            assert forall|k: int| 0 <= k < n && !is_attached(#[trigger] its[k]) implies {
                &&& count_unattached_pref(its, k) < f.len()
                &&& f[count_unattached_pref(its, k)] == k as usize
            } by {
                lemma_count_unattached_pref_bounds(its, k);
                if k < n - 1 {
                    assert(f[count_unattached_pref(its, k)] == p[count_unattached_pref(its, k)]);
                } else {
                    assert(count_unattached_pref(its, k) == p.len());
                }
            }
        } else {
            assert(f == p);
            assert forall|k: int| 0 <= k < n && !is_attached(#[trigger] its[k]) implies {
                &&& count_unattached_pref(its, k) < f.len()
                &&& f[count_unattached_pref(its, k)] == k as usize
            } by {
                assert(k != n - 1);
            }
        }
    }
}

/// The item the idle carrier at index `i` claims: the next unattached
/// item in enumeration order, one per idle carrier seen so far.
pub open spec fn assigned_to(w0: World, i: int) -> int {
    free_items(w0.items@, w0.items@.len() as int)[count_idle_pref(w0.robots@, i)] as int
}

/// What the assignment stage does to one carrier: each idle carrier, in
/// store order, claims the next unattached item while one remains — the
/// pairing is first-available, never nearest — and is untouched once the
/// unattached sequence is exhausted.  Busy carriers are untouched.
pub open spec fn assignment_robot_rel(w0: World, n: Robot, i: int) -> bool {
    let o = w0.robots@[i];
    if is_idle(o) && count_idle_pref(w0.robots@, i) < count_unattached_pref(
        w0.items@,
        w0.items@.len() as int,
    ) {
        let k = assigned_to(w0, i);
        &&& n.position == o.position
        &&& n.rng == o.rng
        &&& n.carry_target == (Some(
            CarryTarget { item: k as usize, position: w0.items@[k].position },
        ))
        &&& n.drop_target is None
        &&& n.cooldown is None
        &&& n.children@ == o.children@
    } else {
        n == o
    }
}

/// What the assignment stage does to one item: the unattached items are
/// consumed from the front of the enumeration order, one per idle
/// carrier; each consumed item gains the marker, everything else is
/// untouched.
pub open spec fn assignment_item_rel(w0: World, n_it: RobotTarget, k: int) -> bool {
    let o = w0.items@[k];
    if !is_attached(o) && count_unattached_pref(w0.items@, k) < count_idle_pref(
        w0.robots@,
        w0.robots@.len() as int,
    ) {
        n_it == (RobotTarget { position: o.position, attached: Some(AttachedToRobot {}) })
    } else {
        n_it == o
    }
}

/// One pairing extends the consumed prefix of the free list by one.
proof fn lemma_item_progress(w0: World, wa: World, wb: World, free: Seq<usize>, used_old: int, k: usize)
    requires
        w0.items@.len() <= usize::MAX,
        free_list_ok(w0.items@, free),
        0 <= used_old < free.len(),
        free[used_old] == k,
        (k as int) < w0.items@.len(),
        wa.items@.len() == w0.items@.len(),
        wb.items@.len() == w0.items@.len(),
        forall|kx: int|
            0 <= kx < w0.items@.len() ==> (if !is_attached(w0.items@[kx])
                && count_unattached_pref(w0.items@, kx) < used_old {
                #[trigger] wa.items@[kx] == (RobotTarget {
                    position: w0.items@[kx].position,
                    attached: Some(AttachedToRobot {}),
                })
            } else {
                wa.items@[kx] == w0.items@[kx]
            }),
        wb.items@[k as int] == (RobotTarget {
            position: w0.items@[k as int].position,
            attached: Some(AttachedToRobot {}),
        }),
        forall|kx: int|
            0 <= kx < w0.items@.len() && kx != k as int ==> #[trigger] wb.items@[kx]
                == wa.items@[kx],
    ensures
        forall|kx: int|
            0 <= kx < w0.items@.len() ==> (if !is_attached(w0.items@[kx])
                && count_unattached_pref(w0.items@, kx) < used_old + 1 {
                #[trigger] wb.items@[kx] == (RobotTarget {
                    position: w0.items@[kx].position,
                    attached: Some(AttachedToRobot {}),
                })
            } else {
                wb.items@[kx] == w0.items@[kx]
            }),
{
    assert forall|kx: int| 0 <= kx < w0.items@.len() implies (if !is_attached(w0.items@[kx])
        && count_unattached_pref(w0.items@, kx) < used_old + 1 {
        #[trigger] wb.items@[kx] == (RobotTarget {
            position: w0.items@[kx].position,
            attached: Some(AttachedToRobot {}),
        })
    } else {
        wb.items@[kx] == w0.items@[kx]
    }) by {
        if kx != k as int {
            assert(wb.items@[kx] == wa.items@[kx]);
            if !is_attached(w0.items@[kx]) && count_unattached_pref(w0.items@, kx) < used_old
                + 1 {
                assert(count_unattached_pref(w0.items@, kx) < used_old) by {
                    if count_unattached_pref(w0.items@, kx) == used_old {
                        assert(free[used_old] == kx as usize);
                    }
                }
            }
        } else {
            assert(!is_attached(w0.items@[k as int]));
            assert(count_unattached_pref(w0.items@, k as int) == used_old);
        }
    }
}

/// Assignment stage: the one sequential stage.  It walks the carriers in
/// store order with a single cursor over the unattached items and mutates
/// the store directly.
#[verifier::rlimit(100)]
pub fn robot_target_system(w: &mut World)
    requires
        wf(*old(w)),
    ensures
        wf(*final(w)),
        final(w).robots@.len() == old(w).robots@.len(),
        final(w).items@.len() == old(w).items@.len(),
        forall|i: int|
            0 <= i < old(w).robots@.len() ==> assignment_robot_rel(
                *old(w),
                #[trigger] final(w).robots@[i],
                i,
            ),
        forall|k: int|
            0 <= k < old(w).items@.len() ==> assignment_item_rel(
                *old(w),
                #[trigger] final(w).items@[k],
                k,
            ),
{
    let ghost w0 = *old(w);
    let ghost nfree_total = count_unattached_pref(w0.items@, w0.items@.len() as int);
    // enumerate the unattached items once, in store order
    let mut free: Vec<usize> = Vec::new();
    let mut t: usize = 0;
    let ni = w.items.len();
    while t < ni
        invariant
            *w == w0,
            w0 == *old(w),
            ni == w0.items@.len(),
            0 <= t <= ni,
            free@ == free_items(w0.items@, t as int),
        decreases ni - t,
    {
        if w.items[t].attached.is_none() {
            free.push(t);
        }
        t = t + 1;
    }
    proof {
        lemma_free_items_props(w0.items@, w0.items@.len() as int);
        assert forall|m: int|
            0 <= m <= w0.items@.len() implies 0 <= #[trigger] count_unattached_pref(w0.items@, m)
            <= m by {
            lemma_count_unattached_pref_bounds(w0.items@, m);
        }
        assert(free_list_ok(w0.items@, free@));
    }
    let nfree = free.len();
    let n = w.robots.len();
    let mut used: usize = 0;
    let mut i: usize = 0;
    while i < n
        invariant
            wf(*w),
            n == w0.robots@.len(),
            w.robots@.len() == n,
            w.items@.len() == w0.items@.len(),
            w0.items@.len() <= usize::MAX,
            ni == w0.items@.len(),
            free@ == free_items(w0.items@, w0.items@.len() as int),
            free_list_ok(w0.items@, free@),
            nfree == free@.len(),
            nfree == nfree_total,
            0 <= i <= n,
            0 <= used <= nfree,
            used as int == min_i(count_idle_pref(w0.robots@, i as int), nfree as int),
            forall|j: int| 0 <= j < i ==> assignment_robot_rel(w0, #[trigger] w.robots@[j], j),
            forall|j: int| i <= j < n ==> #[trigger] w.robots@[j] == w0.robots@[j],
            forall|k: int|
                0 <= k < w0.items@.len() ==> (if !is_attached(w0.items@[k])
                    && count_unattached_pref(w0.items@, k) < used {
                    #[trigger] w.items@[k] == (RobotTarget {
                        position: w0.items@[k].position,
                        attached: Some(AttachedToRobot {}),
                    })
                } else {
                    w.items@[k] == w0.items@[k]
                }),
        decreases n - i,
    {
        let ghost w_top = *w;
        let idle = w.robots[i].carry_target.is_none() && w.robots[i].drop_target.is_none()
            && w.robots[i].cooldown.is_none() && w.robots[i].children.len() == 0;
        proof {
            assert(idle == is_idle(w0.robots@[i as int]));
        }
        if idle && used < nfree {
            let k = free[used];
            proof {
                assert(free@[used as int] == k);
                assert(!is_attached(w0.items@[k as int]));
                assert(count_unattached_pref(w0.items@, k as int) == used as int);
                // not yet consumed, so untouched and still unattached
                assert(w.items@[k as int] == w0.items@[k as int]);
            }
            let pos = w.items[k].position;
            let slot = &mut w.items[k];
            slot.attached = Some(AttachedToRobot {});
            let r = &mut w.robots[i];
            r.carry_target = Some(CarryTarget { item: k, position: pos });
            used = used + 1;
            proof {
                lemma_pair_wf(w_top, *w, i as int, k as int);
                assert(assigned_to(w0, i as int) == k as int);
                assert(assignment_robot_rel(w0, w.robots@[i as int], i as int));
                lemma_item_progress(w0, w_top, *w, free@, used - 1, k);
            }
        } else {
            proof {
                assert(assignment_robot_rel(w0, w.robots@[i as int], i as int)) by {
                    if is_idle(w0.robots@[i as int]) {
                        assert(used == nfree);
                        assert(count_idle_pref(w0.robots@, i as int) >= nfree as int);
                    }
                }
            }
        }
        i = i + 1;
    }
    proof {
        assert forall|k: int| 0 <= k < w0.items@.len() implies assignment_item_rel(
            w0,
            #[trigger] w.items@[k],
            k,
        ) by {
            assert(used as int == min_i(count_idle_pref(w0.robots@, n as int), nfree as int));
            if !is_attached(w0.items@[k]) {
                assert(count_unattached_pref(w0.items@, k) < nfree as int);
            }
        }
    }
}

// --- startup placement ---------------------------------------------------

/// Startup: spawn the configured count of items at uniform positions on
/// the placement square, all unattached.
pub fn place_items(w: &mut World, cfg: &Configuration, global_rng: &mut GlobalRng)
    requires
        wf(*old(w)),
        config_ok(*cfg),
    ensures
        wf(*final(w)),
        final(w).robots@ == old(w).robots@,
        final(w).items@.len() == old(w).items@.len() + cfg.count,
        forall|k: int|
            0 <= k < old(w).items@.len() ==> #[trigger] final(w).items@[k] == old(w).items@[k],
        forall|k: int|
            old(w).items@.len() <= k < final(w).items@.len() ==> !is_attached(
                #[trigger] final(w).items@[k],
            ) && on_map(final(w).items@[k].position, cfg.size as int, ENTITY_Y as int),
{
    let total: usize = cfg.count;
    let mut idx: usize = 0;
    while idx < total
        invariant
            wf(*w),
            config_ok(*cfg),
            0 <= idx <= total,
            w.robots@ == old(w).robots@,
            w.items@.len() == old(w).items@.len() + idx,
            forall|k: int|
                0 <= k < old(w).items@.len() ==> #[trigger] w.items@[k] == old(w).items@[k],
            forall|k: int|
                old(w).items@.len() <= k < w.items@.len() ==> !is_attached(#[trigger] w.items@[k])
                    && on_map(w.items@[k].position, cfg.size as int, ENTITY_Y as int),
        decreases total - idx,
    {
        let ghost w_top = *w;
        let p = generate_random_position_on_map(cfg.size, global_rng, ENTITY_Y);
        let it = new_item(p);
        w.items.push(it);
        proof {
            lemma_push_item_wf(w_top, *w, it);
        }
        idx = idx + 1;
    }
}

/// Startup: spawn the configured count of carriers at uniform positions
/// on the placement square, all idle, each with a private stream forked
/// off the global one.
pub fn place_robots(w: &mut World, cfg: &Configuration, global_rng: &mut GlobalRng)
    requires
        wf(*old(w)),
        config_ok(*cfg),
    ensures
        wf(*final(w)),
        final(w).items@ == old(w).items@,
        final(w).robots@.len() == old(w).robots@.len() + cfg.count,
        forall|j: int|
            0 <= j < old(w).robots@.len() ==> #[trigger] final(w).robots@[j] == old(w).robots@[j],
        forall|j: int|
            old(w).robots@.len() <= j < final(w).robots@.len() ==> is_idle(
                #[trigger] final(w).robots@[j],
            ) && on_map(final(w).robots@[j].position, cfg.size as int, ENTITY_Y as int),
{
    let total: usize = cfg.count;
    let mut idx: usize = 0;
    while idx < total
        invariant
            wf(*w),
            config_ok(*cfg),
            0 <= idx <= total,
            w.items@ == old(w).items@,
            w.robots@.len() == old(w).robots@.len() + idx,
            forall|j: int|
                0 <= j < old(w).robots@.len() ==> #[trigger] w.robots@[j] == old(w).robots@[j],
            forall|j: int|
                old(w).robots@.len() <= j < w.robots@.len() ==> is_idle(#[trigger] w.robots@[j])
                    && on_map(w.robots@[j].position, cfg.size as int, ENTITY_Y as int),
        decreases total - idx,
    {
        let ghost w_top = *w;
        let p = generate_random_position_on_map(cfg.size, global_rng, ENTITY_Y);
        let r = new_robot_from_global(p, global_rng);
        proof {
            assert(is_idle(r));
        }
        w.robots.push(r);
        proof {
            lemma_push_robot_wf(w_top, *w, r);
        }
        idx = idx + 1;
    }
}

// --- one tick ------------------------------------------------------------

/// Everything one tick does, through its intermediate states: `w1` after
/// assignment, `w2` after carry movement, `w3` after drop movement, `w4`
/// at the end.  Each stage's full per-carrier and per-item relation holds
/// between consecutive states, in the fixed stage order.
pub open spec fn tick_rel(
    w0: World,
    w1: World,
    w2: World,
    w3: World,
    w4: World,
    cfg: Configuration,
    dt_ms: u64,
) -> bool {
    &&& w1.robots@.len() == w0.robots@.len() && w1.items@.len() == w0.items@.len()
    &&& forall|i: int|
        0 <= i < w0.robots@.len() ==> assignment_robot_rel(w0, #[trigger] w1.robots@[i], i)
    &&& forall|k: int|
        0 <= k < w0.items@.len() ==> assignment_item_rel(w0, #[trigger] w1.items@[k], k)
    &&& w2.items@ == w1.items@ && w2.robots@.len() == w1.robots@.len()
    &&& forall|i: int|
        0 <= i < w1.robots@.len() ==> carry_rel(w1.robots@[i], #[trigger] w2.robots@[i], cfg, dt_ms)
    &&& w3.robots@.len() == w2.robots@.len() && w3.items@.len() == w2.items@.len()
    &&& forall|i: int|
        0 <= i < w2.robots@.len() ==> drop_rel(w2.robots@[i], #[trigger] w3.robots@[i], cfg, dt_ms)
    &&& forall|i: int, j: int|
        0 <= i < w2.robots@.len() && drop_arrived(#[trigger] w2.robots@[i]) && 0 <= j
            < w2.robots@[i].children@.len() ==> {
            let k = #[trigger] w2.robots@[i].children@[j] as int;
            &&& !is_attached(w3.items@[k])
            &&& near_pos(
                w3.items@[k].position,
                w2.robots@[i].position,
                SCATTER_SPREAD as int,
                ENTITY_Y as int,
            )
        }
    &&& forall|k: int|
        0 <= k < w2.items@.len() && !dropped_on(w2, k) ==> #[trigger] w3.items@[k] == w2.items@[k]
    &&& w4.items@ == w3.items@ && w4.robots@.len() == w3.robots@.len()
    &&& forall|i: int|
        0 <= i < w3.robots@.len() ==> cooldown_rel(w3.robots@[i], #[trigger] w4.robots@[i], dt_ms)
}

/// One simulation tick: assignment, carry movement, drop movement,
/// cooldown, in that fixed order, each stage's deferred mutations applied
/// before the next stage starts.  The intermediate states witness each
/// stage's full contract; the tick preserves the store invariant and
/// never creates or destroys an entity.
pub fn tick(w: &mut World, cfg: &Configuration, dt_ms: u64)
    requires
        wf(*old(w)),
        config_ok(*cfg),
        dt_ms <= TICK_MS_LIMIT,
    ensures
        wf(*final(w)),
        final(w).robots@.len() == old(w).robots@.len(),
        final(w).items@.len() == old(w).items@.len(),
        exists|w1: World, w2: World, w3: World|
            #[trigger] tick_rel(*old(w), w1, w2, w3, *final(w), *cfg, dt_ms),
{
    robot_target_system(w);
    let ghost s1 = *w;
    robot_move_to_carry_system(w, cfg, dt_ms);
    let ghost s2 = *w;
    robot_move_to_drop_system(w, cfg, dt_ms);
    let ghost s3 = *w;
    robot_cooldown_system(w, dt_ms);
    proof {
        assert(tick_rel(*old(w), s1, s2, s3, *w, *cfg, dt_ms));
    }
}

} // verus!
