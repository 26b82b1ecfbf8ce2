//! The entity store and its invariant.
//!
//! Entities are records in two vectors: carriers (`Robot`) and items
//! (`RobotTarget`), referenced by index.  A carrier's state is carried by
//! which of its optional attributes is present — `CarryTarget`,
//! `DropTarget`, `Cooldown`, or none of the three for idle — and an item's
//! by its optional `AttachedToRobot` marker.  `wf` is the invariant every
//! stage preserves: states are mutually exclusive, references are valid and
//! unique, every attached item has exactly one holder, positions stay in
//! their boxes, and the attached-item count matches the busy-carrier count.

use bevy_turborand::{GlobalRng, RngComponent};
use vstd::prelude::*;

use crate::geom::{coords_within, Position};
use crate::rng::{fork_rng_component, global_rng_with_seed, rng_component_with_seed};
use crate::{COOLDOWN_MAX_MS, ITEM_POS_LIMIT, ROBOT_POS_LIMIT, SIZE_LIMIT, SPEED_LIMIT};

verus! {

/// The simulation parameters threaded into every stage: entity count,
/// placement-area side and movement speed (fixed-point), and the viewing
/// position that only the host's display consumes.
#[derive(Clone, Copy, PartialEq, Eq, Structural, Debug)]
pub struct Configuration {
    pub count: usize,
    pub size: i64,
    pub speed: i64,
    pub camera: Position,
}

/// The accepted parameter ranges: a positive placement side and a
/// non-negative speed, both within the fixed-point working range.
pub open spec fn config_ok(cfg: Configuration) -> bool {
    &&& 1 <= cfg.size <= SIZE_LIMIT
    &&& 0 <= cfg.speed <= SPEED_LIMIT
}

/// The carrying attribute: which item is held, and the position the
/// carrier is heading to (the item's position when it was claimed).
#[derive(Clone, Copy, PartialEq, Eq, Structural, Debug)]
pub struct CarryTarget {
    pub item: usize,
    pub position: Position,
}

/// The drop-heading attribute: the sampled destination.
#[derive(Clone, Copy, PartialEq, Eq, Structural, Debug)]
pub struct DropTarget {
    pub position: Position,
}

/// The resting attribute: remaining rest, in milliseconds.
#[derive(Clone, Copy, PartialEq, Eq, Structural, Debug)]
pub struct Cooldown {
    pub time_left: u64,
}

/// The marker an item bears from the moment a carrier claims it until the
/// moment it is released.
#[derive(Clone, Copy, PartialEq, Eq, Structural, Debug)]
pub struct AttachedToRobot {}

/// A carrier: its position, its private random stream, its at-most-one
/// state attribute, and the items currently attached to it as children.
pub struct Robot {
    pub position: Position,
    pub rng: RngComponent,
    pub carry_target: Option<CarryTarget>,
    pub drop_target: Option<DropTarget>,
    pub cooldown: Option<Cooldown>,
    pub children: Vec<usize>,
}

/// An item: its position and its optional attached marker.
#[derive(Clone, PartialEq, Eq, Debug)]
pub struct RobotTarget {
    pub position: Position,
    pub attached: Option<AttachedToRobot>,
}

/// The entity store.
pub struct World {
    pub robots: Vec<Robot>,
    pub items: Vec<RobotTarget>,
}

pub open spec fn is_carrying(r: Robot) -> bool {
    r.carry_target is Some
}

pub open spec fn is_dropping(r: Robot) -> bool {
    r.drop_target is Some
}

pub open spec fn is_cooling(r: Robot) -> bool {
    r.cooldown is Some
}

/// Idle: none of the three state attributes, and no attached children.
pub open spec fn is_idle(r: Robot) -> bool {
    &&& !is_carrying(r)
    &&& !is_dropping(r)
    &&& !is_cooling(r)
    &&& r.children@.len() == 0
}

/// At most one of the three state attributes is present.
pub open spec fn at_most_one_state(r: Robot) -> bool {
    &&& is_carrying(r) ==> !is_dropping(r) && !is_cooling(r)
    &&& is_dropping(r) ==> !is_cooling(r)
}

pub open spec fn is_attached(it: RobotTarget) -> bool {
    it.attached is Some
}

/// The item a carrier is engaged with, if any: the claimed item while
/// carrying, the attached child while heading to the drop.
pub open spec fn ref_of(r: Robot) -> Option<int> {
    match r.carry_target {
        Some(ct) => Some(ct.item as int),
        None => if r.children@.len() > 0 {
            Some(r.children@[0] as int)
        } else {
            None
        },
    }
}

/// Everything `wf` asks of the carrier at index `i`.
pub open spec fn wf_robot(w: World, i: int) -> bool {
    let r = w.robots@[i];
    &&& at_most_one_state(r)
    &&& coords_within(r.position, ROBOT_POS_LIMIT as int)
    &&& (r.carry_target matches Some(ct) ==> {
        &&& (ct.item as int) < w.items@.len()
        &&& is_attached(w.items@[ct.item as int])
        &&& coords_within(ct.position, ITEM_POS_LIMIT as int)
        &&& r.children@.len() == 0
    })
    &&& (r.drop_target matches Some(dt) ==> {
        &&& coords_within(dt.position, (SIZE_LIMIT / 2) as int)
        &&& dt.position.y == crate::ENTITY_Y
        &&& r.children@.len() == 1
    })
    &&& (r.children@.len() > 0 ==> {
        &&& is_dropping(r)
        &&& r.children@.len() == 1
        &&& (r.children@[0] as int) < w.items@.len()
        &&& is_attached(w.items@[r.children@[0] as int])
    })
    &&& (r.cooldown matches Some(cd) ==> cd.time_left < COOLDOWN_MAX_MS)
}

/// Everything `wf` asks of the item at index `k`.
pub open spec fn wf_item(w: World, k: int) -> bool {
    coords_within(w.items@[k].position, ITEM_POS_LIMIT as int)
}

/// How many items bear the attached marker.
pub open spec fn count_attached(its: Seq<RobotTarget>) -> int
    decreases its.len(),
{
    if its.len() == 0 {
        0
    } else {
        count_attached(its.drop_last()) + if is_attached(its.last()) {
            1int
        } else {
            0int
        }
    }
}

/// How many carriers are in the carrying state.
pub open spec fn count_carrying(rs: Seq<Robot>) -> int
    decreases rs.len(),
{
    if rs.len() == 0 {
        0
    } else {
        count_carrying(rs.drop_last()) + if is_carrying(rs.last()) {
            1int
        } else {
            0int
        }
    }
}

/// How many carriers are in the drop-heading state.
pub open spec fn count_dropping(rs: Seq<Robot>) -> int
    decreases rs.len(),
{
    if rs.len() == 0 {
        0
    } else {
        count_dropping(rs.drop_last()) + if is_dropping(rs.last()) {
            1int
        } else {
            0int
        }
    }
}

/// The store invariant; every stage takes it and gives it back.
pub open spec fn wf(w: World) -> bool {
    &&& forall|i: int| 0 <= i < w.robots@.len() ==> #[trigger] wf_robot(w, i)
    &&& forall|k: int| 0 <= k < w.items@.len() ==> #[trigger] wf_item(w, k)
    &&& forall|k: int|
        0 <= k < w.items@.len() && is_attached(#[trigger] w.items@[k]) ==> exists|i: int|
            0 <= i < w.robots@.len() && #[trigger] ref_of(w.robots@[i]) == Some(k)
    &&& forall|i1: int, i2: int|
        0 <= i1 < w.robots@.len() && 0 <= i2 < w.robots@.len() && i1 != i2 && #[trigger] ref_of(
            w.robots@[i1],
        ) is Some ==> ref_of(w.robots@[i1]) != #[trigger] ref_of(w.robots@[i2])
    &&& count_attached(w.items@) == count_carrying(w.robots@) + count_dropping(w.robots@)
}

// --- counting lemmas -----------------------------------------------------

pub proof fn lemma_count_attached_update(its: Seq<RobotTarget>, k: int, v: RobotTarget)
    requires
        0 <= k < its.len(),
    ensures
        count_attached(its.update(k, v)) == count_attached(its) + (if is_attached(v) {
            1int
        } else {
            0int
        }) - (if is_attached(its[k]) {
            1int
        } else {
            0int
        }),
    decreases its.len(),
{
    let su = its.update(k, v);
    if k == its.len() - 1 {
        assert(su.drop_last() =~= its.drop_last());
        assert(su.last() == v);
    } else {
        assert(su.drop_last() =~= its.drop_last().update(k, v));
        assert(su.last() == its.last());
        lemma_count_attached_update(its.drop_last(), k, v);
    }
}

pub proof fn lemma_count_attached_push(its: Seq<RobotTarget>, v: RobotTarget)
    ensures
        count_attached(its.push(v)) == count_attached(its) + if is_attached(v) {
            1int
        } else {
            0int
        },
{
    assert(its.push(v).drop_last() =~= its);
    assert(its.push(v).last() == v);
}

pub proof fn lemma_count_carrying_update(rs: Seq<Robot>, i: int, v: Robot)
    requires
        0 <= i < rs.len(),
    ensures
        count_carrying(rs.update(i, v)) == count_carrying(rs) + (if is_carrying(v) {
            1int
        } else {
            0int
        }) - (if is_carrying(rs[i]) {
            1int
        } else {
            0int
        }),
    decreases rs.len(),
{
    let su = rs.update(i, v);
    if i == rs.len() - 1 {
        assert(su.drop_last() =~= rs.drop_last());
        assert(su.last() == v);
    } else {
        assert(su.drop_last() =~= rs.drop_last().update(i, v));
        assert(su.last() == rs.last());
        lemma_count_carrying_update(rs.drop_last(), i, v);
    }
}

pub proof fn lemma_count_carrying_push(rs: Seq<Robot>, v: Robot)
    ensures
        count_carrying(rs.push(v)) == count_carrying(rs) + if is_carrying(v) {
            1int
        } else {
            0int
        },
{
    assert(rs.push(v).drop_last() =~= rs);
    assert(rs.push(v).last() == v);
}

pub proof fn lemma_count_dropping_update(rs: Seq<Robot>, i: int, v: Robot)
    requires
        0 <= i < rs.len(),
    ensures
        count_dropping(rs.update(i, v)) == count_dropping(rs) + (if is_dropping(v) {
            1int
        } else {
            0int
        }) - (if is_dropping(rs[i]) {
            1int
        } else {
            0int
        }),
    decreases rs.len(),
{
    let su = rs.update(i, v);
    if i == rs.len() - 1 {
        assert(su.drop_last() =~= rs.drop_last());
        assert(su.last() == v);
    } else {
        assert(su.drop_last() =~= rs.drop_last().update(i, v));
        assert(su.last() == rs.last());
        lemma_count_dropping_update(rs.drop_last(), i, v);
    }
}

pub proof fn lemma_count_dropping_push(rs: Seq<Robot>, v: Robot)
    ensures
        count_dropping(rs.push(v)) == count_dropping(rs) + if is_dropping(v) {
            1int
        } else {
            0int
        },
{
    assert(rs.push(v).drop_last() =~= rs);
    assert(rs.push(v).last() == v);
}

/// A sequence with no carrier in the drop-heading state counts zero.
pub proof fn lemma_count_dropping_zero(rs: Seq<Robot>)
    requires
        forall|i: int| 0 <= i < rs.len() ==> !is_dropping(#[trigger] rs[i]),
    ensures
        count_dropping(rs) == 0,
    decreases rs.len(),
{
    if rs.len() > 0 {
        assert(!is_dropping(rs.last()));
        lemma_count_dropping_zero(rs.drop_last());
    }
}

/// The invariant survives any rewrite of one carrier that keeps its
/// structural fields — state attributes' presence, references, children —
/// and keeps its position and timer within their bounds.  This covers the
/// in-place work of the parallel passes: movement, timer decrement, and
/// spending the private stream.
pub proof fn lemma_nonstructural_update_wf(w0: World, w1: World, i: int)
    requires
        wf(w0),
        0 <= i < w0.robots@.len(),
        w1.items@ == w0.items@,
        w1.robots@.len() == w0.robots@.len(),
        forall|j: int| 0 <= j < w0.robots@.len() && j != i ==> #[trigger] w1.robots@[j] == w0.robots@[j],
        w1.robots@[i].carry_target == w0.robots@[i].carry_target,
        w1.robots@[i].drop_target == w0.robots@[i].drop_target,
        w1.robots@[i].children@ == w0.robots@[i].children@,
        w1.robots@[i].cooldown is Some <==> w0.robots@[i].cooldown is Some,
        (w1.robots@[i].cooldown matches Some(cd) ==> cd.time_left < COOLDOWN_MAX_MS),
        coords_within(w1.robots@[i].position, ROBOT_POS_LIMIT as int),
    ensures
        wf(w1),
{
    let o = w0.robots@[i];
    let n = w1.robots@[i];
    assert(wf_robot(w0, i));
    assert forall|j: int| 0 <= j < w1.robots@.len() implies #[trigger] ref_of(w1.robots@[j])
        == ref_of(w0.robots@[j]) by {
        if j != i {
            assert(w1.robots@[j] == w0.robots@[j]);
        }
    }
    assert forall|j: int| 0 <= j < w1.robots@.len() implies #[trigger] wf_robot(w1, j) by {
        assert(wf_robot(w0, j));
        if j != i {
            assert(w1.robots@[j] == w0.robots@[j]);
        }
    }
    assert forall|k: int| 0 <= k < w1.items@.len() implies #[trigger] wf_item(w1, k) by {
        assert(wf_item(w0, k));
    }
    assert forall|k: int|
        0 <= k < w1.items@.len() && is_attached(#[trigger] w1.items@[k]) implies exists|j: int|
        0 <= j < w1.robots@.len() && #[trigger] ref_of(w1.robots@[j]) == Some(k) by {
        assert(is_attached(w0.items@[k]));
        let jw = choose|j: int|
            0 <= j < w0.robots@.len() && #[trigger] ref_of(w0.robots@[j]) == Some(k);
        assert(ref_of(w1.robots@[jw]) == Some(k));
    }
    assert forall|i1: int, i2: int|
        0 <= i1 < w1.robots@.len() && 0 <= i2 < w1.robots@.len() && i1 != i2 && #[trigger] ref_of(
            w1.robots@[i1],
        ) is Some implies ref_of(w1.robots@[i1]) != #[trigger] ref_of(w1.robots@[i2]) by {
        assert(ref_of(w1.robots@[i1]) == ref_of(w0.robots@[i1]));
        assert(ref_of(w1.robots@[i2]) == ref_of(w0.robots@[i2]));
    }
    assert(w1.robots@ =~= w0.robots@.update(i, n));
    lemma_count_carrying_update(w0.robots@, i, n);
    lemma_count_dropping_update(w0.robots@, i, n);
    assert(is_carrying(n) == is_carrying(o));
    assert(is_dropping(n) == is_dropping(o));
}


/// The invariant survives one pairing: an idle carrier claims one
/// unattached item; the item gains the marker, the carrier the
/// `CarryTarget`.
pub proof fn lemma_pair_wf(w0: World, w1: World, i: int, k: int)
    requires
        wf(w0),
        0 <= i < w0.robots@.len(),
        0 <= k < w0.items@.len(),
        is_idle(w0.robots@[i]),
        !is_attached(w0.items@[k]),
        k == k as usize as int,
        w1.robots@.len() == w0.robots@.len(),
        w1.items@.len() == w0.items@.len(),
        forall|j: int| 0 <= j < w0.robots@.len() && j != i ==> #[trigger] w1.robots@[j] == w0.robots@[j],
        forall|x: int| 0 <= x < w0.items@.len() && x != k ==> #[trigger] w1.items@[x] == w0.items@[x],
        w1.robots@[i].position == w0.robots@[i].position,
        w1.robots@[i].rng == w0.robots@[i].rng,
        w1.robots@[i].carry_target == (Some(
            CarryTarget { item: k as usize, position: w0.items@[k].position },
        )),
        w1.robots@[i].drop_target is None,
        w1.robots@[i].cooldown is None,
        w1.robots@[i].children@ == w0.robots@[i].children@,
        w1.items@[k] == (RobotTarget {
            position: w0.items@[k].position,
            attached: Some(AttachedToRobot {}),
        }),
    ensures
        wf(w1),
{
    let o = w0.robots@[i];
    let n = w1.robots@[i];
    assert(wf_robot(w0, i));
    assert(wf_item(w0, k));
    assert(ref_of(o) is None);
    assert(ref_of(n) == Some(k));
    // no carrier referenced the unattached item
    assert forall|j: int|
        0 <= j < w0.robots@.len() implies ref_of(#[trigger] w0.robots@[j]) != Some(k) by {
        assert(wf_robot(w0, j));
        let rj = w0.robots@[j];
        match rj.carry_target {
            Some(ct) => {
                assert(is_attached(w0.items@[ct.item as int]));
            },
            None => {
                if rj.children@.len() > 0 {
                    assert(is_attached(w0.items@[rj.children@[0] as int]));
                }
            },
        }
    }
    assert forall|j: int|
        0 <= j < w1.robots@.len() && j != i implies #[trigger] ref_of(w1.robots@[j]) == ref_of(
        w0.robots@[j],
    ) by {
        assert(w1.robots@[j] == w0.robots@[j]);
    }
    assert forall|j: int| 0 <= j < w1.robots@.len() implies #[trigger] wf_robot(w1, j) by {
        assert(wf_robot(w0, j));
        if j != i {
            let rj = w1.robots@[j];
            assert(rj == w0.robots@[j]);
            match rj.carry_target {
                Some(ct) => {
                    assert(ref_of(rj) == Some(ct.item as int));
                    assert(ct.item as int != k);
                    assert(w1.items@[ct.item as int] == w0.items@[ct.item as int]);
                },
                None => {},
            }
            if rj.children@.len() > 0 {
                assert(ref_of(rj) == Some(rj.children@[0] as int));
                assert(rj.children@[0] as int != k);
                assert(w1.items@[rj.children@[0] as int] == w0.items@[rj.children@[0] as int]);
            }
        }
    }
    assert forall|x: int| 0 <= x < w1.items@.len() implies #[trigger] wf_item(w1, x) by {
        assert(wf_item(w0, x));
    }
    assert forall|x: int|
        0 <= x < w1.items@.len() && is_attached(#[trigger] w1.items@[x]) implies exists|j: int|
        0 <= j < w1.robots@.len() && #[trigger] ref_of(w1.robots@[j]) == Some(x) by {
        if x == k {
            assert(ref_of(w1.robots@[i]) == Some(x));
        } else {
            assert(is_attached(w0.items@[x]));
            let jw = choose|j: int|
                0 <= j < w0.robots@.len() && #[trigger] ref_of(w0.robots@[j]) == Some(x);
            assert(jw != i);
            assert(ref_of(w1.robots@[jw]) == Some(x));
        }
    }
    assert forall|i1: int, i2: int|
        0 <= i1 < w1.robots@.len() && 0 <= i2 < w1.robots@.len() && i1 != i2 && #[trigger] ref_of(
            w1.robots@[i1],
        ) is Some implies ref_of(w1.robots@[i1]) != #[trigger] ref_of(w1.robots@[i2]) by {
        if i1 != i && i2 != i {
            assert(ref_of(w1.robots@[i1]) == ref_of(w0.robots@[i1]));
            assert(ref_of(w1.robots@[i2]) == ref_of(w0.robots@[i2]));
        } else if i1 == i {
            assert(ref_of(w1.robots@[i2]) == ref_of(w0.robots@[i2]));
            assert(ref_of(w0.robots@[i2]) != Some(k));
        } else {
            assert(ref_of(w1.robots@[i1]) == ref_of(w0.robots@[i1]));
            assert(ref_of(w0.robots@[i1]) != Some(k));
        }
    }
    assert(w1.robots@ =~= w0.robots@.update(i, n));
    assert(w1.items@ =~= w0.items@.update(k, w1.items@[k]));
    lemma_count_carrying_update(w0.robots@, i, n);
    lemma_count_dropping_update(w0.robots@, i, n);
    lemma_count_attached_update(w0.items@, k, w1.items@[k]);
}

/// The invariant survives appending one fresh unattached item.
pub proof fn lemma_push_item_wf(w0: World, w1: World, it: RobotTarget)
    requires
        wf(w0),
        w1.robots@ == w0.robots@,
        w1.items@ == w0.items@.push(it),
        !is_attached(it),
        coords_within(it.position, ITEM_POS_LIMIT as int),
    ensures
        wf(w1),
{
    assert forall|j: int| 0 <= j < w1.robots@.len() implies #[trigger] wf_robot(w1, j) by {
        assert(wf_robot(w0, j));
        let rj = w1.robots@[j];
        match rj.carry_target {
            Some(ct) => {
                assert(w1.items@[ct.item as int] == w0.items@[ct.item as int]);
            },
            None => {},
        }
        if rj.children@.len() > 0 {
            assert(w1.items@[rj.children@[0] as int] == w0.items@[rj.children@[0] as int]);
        }
    }
    assert forall|x: int| 0 <= x < w1.items@.len() implies #[trigger] wf_item(w1, x) by {
        if x < w0.items@.len() {
            assert(wf_item(w0, x));
            assert(w1.items@[x] == w0.items@[x]);
        } else {
            assert(w1.items@[x] == it);
        }
    }
    assert forall|x: int|
        0 <= x < w1.items@.len() && is_attached(#[trigger] w1.items@[x]) implies exists|j: int|
        0 <= j < w1.robots@.len() && #[trigger] ref_of(w1.robots@[j]) == Some(x) by {
        assert(x < w0.items@.len());
        assert(is_attached(w0.items@[x]));
        let jw = choose|j: int|
            0 <= j < w0.robots@.len() && #[trigger] ref_of(w0.robots@[j]) == Some(x);
        assert(ref_of(w1.robots@[jw]) == Some(x));
    }
    lemma_count_attached_push(w0.items@, it);
}

/// The invariant survives appending one fresh idle carrier.
pub proof fn lemma_push_robot_wf(w0: World, w1: World, r: Robot)
    requires
        wf(w0),
        w1.items@ == w0.items@,
        w1.robots@ == w0.robots@.push(r),
        is_idle(r),
        coords_within(r.position, ROBOT_POS_LIMIT as int),
    ensures
        wf(w1),
{
    assert(ref_of(r) is None);
    assert forall|j: int| 0 <= j < w1.robots@.len() implies #[trigger] wf_robot(w1, j) by {
        if j < w0.robots@.len() {
            assert(wf_robot(w0, j));
            assert(w1.robots@[j] == w0.robots@[j]);
        } else {
            assert(w1.robots@[j] == r);
        }
    }
    assert forall|x: int| 0 <= x < w1.items@.len() implies #[trigger] wf_item(w1, x) by {
        assert(wf_item(w0, x));
    }
    assert forall|x: int|
        0 <= x < w1.items@.len() && is_attached(#[trigger] w1.items@[x]) implies exists|j: int|
        0 <= j < w1.robots@.len() && #[trigger] ref_of(w1.robots@[j]) == Some(x) by {
        assert(is_attached(w0.items@[x]));
        let jw = choose|j: int|
            0 <= j < w0.robots@.len() && #[trigger] ref_of(w0.robots@[j]) == Some(x);
        assert(ref_of(w1.robots@[jw]) == Some(x));
    }
    assert forall|i1: int, i2: int|
        0 <= i1 < w1.robots@.len() && 0 <= i2 < w1.robots@.len() && i1 != i2 && #[trigger] ref_of(
            w1.robots@[i1],
        ) is Some implies ref_of(w1.robots@[i1]) != #[trigger] ref_of(w1.robots@[i2]) by {
        assert(i1 < w0.robots@.len());
        assert(ref_of(w1.robots@[i1]) == ref_of(w0.robots@[i1]));
        if i2 < w0.robots@.len() {
            assert(ref_of(w1.robots@[i2]) == ref_of(w0.robots@[i2]));
        } else {
            assert(ref_of(w1.robots@[i2]) is None);
        }
    }
    lemma_count_carrying_push(w0.robots@, r);
    lemma_count_dropping_push(w0.robots@, r);
}

// --- construction --------------------------------------------------------

/// A fresh idle carrier at `position`, its stream seeded with `seed`.
pub fn new_robot(position: Position, seed: u64) -> (r: Robot)
    ensures
        r.position == position,
        r.carry_target is None,
        r.drop_target is None,
        r.cooldown is None,
        r.children@.len() == 0,
{
    Robot {
        position,
        rng: rng_component_with_seed(seed),
        carry_target: None,
        drop_target: None,
        cooldown: None,
        children: Vec::new(),
    }
}

/// A fresh idle carrier at `position`, its stream forked off the global one.
pub fn new_robot_from_global(position: Position, global: &mut GlobalRng) -> (r: Robot)
    ensures
        r.position == position,
        r.carry_target is None,
        r.drop_target is None,
        r.cooldown is None,
        r.children@.len() == 0,
{
    Robot {
        position,
        rng: fork_rng_component(global),
        carry_target: None,
        drop_target: None,
        cooldown: None,
        children: Vec::new(),
    }
}

/// A fresh unattached item at `position`.
pub fn new_item(position: Position) -> (it: RobotTarget)
    ensures
        it.position == position,
        it.attached is None,
{
    RobotTarget { position, attached: None }
}

/// The global placement stream, seeded with `seed`.
pub fn new_global_rng(seed: u64) -> GlobalRng {
    global_rng_with_seed(seed)
}

/// An empty well-formed store.
pub fn new_world() -> (w: World)
    ensures
        wf(w),
        w.robots@.len() == 0,
        w.items@.len() == 0,
{
    let w = World { robots: Vec::new(), items: Vec::new() };
    proof {
        assert(count_attached(w.items@) == 0);
        assert(count_carrying(w.robots@) == 0);
        assert(count_dropping(w.robots@) == 0);
    }
    w
}

/// Where an item is shown: an attached child rides its carrier with the
/// fixed vertical offset; every other item sits at its own position.
pub fn item_display_position(w: &World, k: usize) -> (p: Position)
    requires
        wf(*w),
        (k as int) < w.items@.len(),
    ensures
        (forall|i: int|
            0 <= i < w.robots@.len() ==> !(#[trigger] w.robots@[i].children@.contains(k))) ==> p
            == w.items@[k as int].position,
        forall|i: int|
            0 <= i < w.robots@.len() && #[trigger] w.robots@[i].children@.contains(k) ==> p == (
            Position {
                x: w.robots@[i].position.x,
                y: (w.robots@[i].position.y + crate::ENTITY_Y) as i64,
                z: w.robots@[i].position.z,
            }),
{
    let mut i: usize = 0;
    let n = w.robots.len();
    while i < n
        invariant
            wf(*w),
            (k as int) < w.items@.len(),
            n == w.robots@.len(),
            0 <= i <= n,
            forall|j: int| 0 <= j < i ==> !(#[trigger] w.robots@[j].children@.contains(k)),
        decreases n - i,
    {
        let r = &w.robots[i];
        if r.children.len() == 1 && r.children[0] == k {
            proof {
                assert(wf_robot(*w, i as int));
                assert(w.robots@[i as int].children@.contains(k));
                assert(ref_of(w.robots@[i as int]) == Some(k as int));
                assert forall|j: int|
                    0 <= j < w.robots@.len() && #[trigger] w.robots@[j].children@.contains(
                        k,
                    ) implies j == i as int by {
                    assert(wf_robot(*w, j));
                    assert(w.robots@[j].children@[0] == k);
                    assert(ref_of(w.robots@[j]) == Some(k as int));
                }
            }
            return Position {
                x: r.position.x,
                y: r.position.y + crate::ENTITY_Y,
                z: r.position.z,
            };
        }
        proof {
            assert(wf_robot(*w, i as int));
            if w.robots@[i as int].children@.contains(k) {
                let j = choose|j: int|
                    0 <= j < w.robots@[i as int].children@.len() && w.robots@[i as int].children@[j]
                        == k;
                assert(j == 0);
            }
        }
        i = i + 1;
    }
    proof {
        assert(wf_item(*w, k as int));
    }
    w.items[k].position
}

} // verus!
