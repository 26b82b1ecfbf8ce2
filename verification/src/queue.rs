//! The deferred mutation queue.
//!
//! During a movement stage's pass over the carriers, structural changes —
//! attribute swaps, attachment and detachment — are not applied in place:
//! each carrier's decision is recorded as one `Mutation` command, and the
//! queue is drained by a single committer at the stage boundary.  A
//! command enqueued during stage N is visible to stage N+1, never to
//! another carrier of stage N.
//!
//! `apply_mutation` both performs a command and carries the proof that the
//! store invariant survives it.

use vstd::prelude::*;

use crate::geom::{coords_within, Position};
use crate::world::{
    at_most_one_state, count_attached, count_carrying, count_dropping, is_attached, is_carrying,
    is_cooling, is_dropping, lemma_count_attached_update, lemma_count_carrying_update,
    lemma_count_dropping_update, ref_of, wf, wf_item, wf_robot, AttachedToRobot, Cooldown,
    DropTarget, Robot, RobotTarget, World,
};
use crate::{COOLDOWN_MAX_MS, ENTITY_Y, ITEM_POS_LIMIT, SIZE_LIMIT};

verus! {

/// One deferred structural change, the full transition decided for one
/// carrier during a parallel pass.
pub enum Mutation {
    /// Swap `CarryTarget` for `DropTarget { destination }` and attach the
    /// carried item as the carrier's child.
    BeginDrop { robot: usize, destination: Position },
    /// Release every attached child at its scattered position, then swap
    /// `DropTarget` for `Cooldown { time_left }`.
    FinishDrop { robot: usize, scattered: Vec<Position>, time_left: u64 },
    /// Remove an expired `Cooldown`, returning the carrier to idle.
    EndCooldown { robot: usize },
}

/// The carrier a command addresses.
pub open spec fn robot_of(m: Mutation) -> int {
    match m {
        Mutation::BeginDrop { robot, .. } => robot as int,
        Mutation::FinishDrop { robot, .. } => robot as int,
        Mutation::EndCooldown { robot } => robot as int,
    }
}

/// What must hold of the store for a command to be applicable.  The
/// stages enqueue only valid commands, and validity of a pending command
/// survives the application of any other carrier's command.
pub open spec fn mutation_valid(w: World, m: Mutation) -> bool {
    match m {
        Mutation::BeginDrop { robot, destination } => {
            &&& (robot as int) < w.robots@.len()
            &&& is_carrying(w.robots@[robot as int])
            &&& coords_within(destination, (SIZE_LIMIT / 2) as int)
            &&& destination.y == ENTITY_Y
        },
        Mutation::FinishDrop { robot, scattered, time_left } => {
            &&& (robot as int) < w.robots@.len()
            &&& is_dropping(w.robots@[robot as int])
            &&& scattered@.len() == w.robots@[robot as int].children@.len()
            &&& forall|j: int|
                0 <= j < scattered@.len() ==> coords_within(
                    #[trigger] scattered@[j],
                    ITEM_POS_LIMIT as int,
                )
            &&& time_left < COOLDOWN_MAX_MS
        },
        Mutation::EndCooldown { robot } => {
            &&& (robot as int) < w.robots@.len()
            &&& is_cooling(w.robots@[robot as int])
        },
    }
}

/// How `BeginDrop` rewrites its carrier.
pub open spec fn begin_drop_rel(o: Robot, n: Robot, destination: Position) -> bool {
    &&& o.carry_target matches Some(ct) && n.children@ == seq![ct.item]
    &&& n.position == o.position
    &&& n.rng == o.rng
    &&& n.carry_target is None
    &&& n.drop_target == (Some(DropTarget { position: destination }))
    &&& n.cooldown == o.cooldown
}

/// How `FinishDrop` rewrites its carrier.
pub open spec fn finish_drop_rel(o: Robot, n: Robot, time_left: u64) -> bool {
    &&& n.position == o.position
    &&& n.rng == o.rng
    &&& n.carry_target == o.carry_target
    &&& n.drop_target is None
    &&& n.cooldown == (Some(Cooldown { time_left }))
    &&& n.children@.len() == 0
}

/// How `EndCooldown` rewrites its carrier.
pub open spec fn end_cooldown_rel(o: Robot, n: Robot) -> bool {
    &&& n.position == o.position
    &&& n.rng == o.rng
    &&& n.carry_target == o.carry_target
    &&& n.drop_target == o.drop_target
    &&& n.cooldown is None
    &&& n.children@ == o.children@
}

/// Exactly what applying one command changes: the named carrier follows
/// its rewrite, released items take their scattered positions, and every
/// other record is untouched.
pub open spec fn apply_rel(w0: World, w1: World, m: Mutation) -> bool {
    match m {
        Mutation::BeginDrop { robot, destination } => {
            &&& w1.items@ == w0.items@
            &&& w1.robots@.len() == w0.robots@.len()
            &&& begin_drop_rel(w0.robots@[robot as int], w1.robots@[robot as int], destination)
            &&& forall|i: int|
                0 <= i < w0.robots@.len() && i != robot as int ==> #[trigger] w1.robots@[i]
                    == w0.robots@[i]
        },
        Mutation::FinishDrop { robot, scattered, time_left } => {
            let o = w0.robots@[robot as int];
            &&& w1.robots@.len() == w0.robots@.len()
            &&& w1.items@.len() == w0.items@.len()
            &&& finish_drop_rel(o, w1.robots@[robot as int], time_left)
            &&& forall|i: int|
                0 <= i < w0.robots@.len() && i != robot as int ==> #[trigger] w1.robots@[i]
                    == w0.robots@[i]
            &&& forall|j: int|
                0 <= j < o.children@.len() ==> #[trigger] w1.items@[o.children@[j] as int] == (
                RobotTarget { position: scattered@[j], attached: None })
            &&& forall|k: int|
                0 <= k < w0.items@.len() && (forall|j: int|
                    0 <= j < o.children@.len() ==> k != #[trigger] o.children@[j] as int)
                    ==> #[trigger] w1.items@[k] == w0.items@[k]
        },
        Mutation::EndCooldown { robot } => {
            &&& w1.items@ == w0.items@
            &&& w1.robots@.len() == w0.robots@.len()
            &&& end_cooldown_rel(w0.robots@[robot as int], w1.robots@[robot as int])
            &&& forall|i: int|
                0 <= i < w0.robots@.len() && i != robot as int ==> #[trigger] w1.robots@[i]
                    == w0.robots@[i]
        },
    }
}

proof fn lemma_begin_drop_wf(w0: World, w1: World, robot: int, destination: Position)
    requires
        wf(w0),
        0 <= robot < w0.robots@.len(),
        is_carrying(w0.robots@[robot]),
        coords_within(destination, (SIZE_LIMIT / 2) as int),
        destination.y == ENTITY_Y,
        apply_rel(w0, w1, Mutation::BeginDrop { robot: robot as usize, destination }),
        robot == robot as usize as int,
    ensures
        wf(w1),
{
    let o = w0.robots@[robot];
    let n = w1.robots@[robot];
    let ct = o.carry_target.unwrap();
    assert(wf_robot(w0, robot));
    assert(n.children@ == seq![ct.item]);
    assert(n.children@.len() == 1 && n.children@[0] == ct.item);
    assert(ref_of(o) == Some(ct.item as int));
    assert(ref_of(n) == Some(ct.item as int));
    assert forall|i: int| 0 <= i < w1.robots@.len() implies #[trigger] wf_robot(w1, i) by {
        assert(wf_robot(w0, i));
        if i != robot {
            assert(w1.robots@[i] == w0.robots@[i]);
        }
    }
    assert forall|i: int| 0 <= i < w1.robots@.len() implies #[trigger] ref_of(w1.robots@[i])
        == ref_of(w0.robots@[i]) by {
        if i != robot {
            assert(w1.robots@[i] == w0.robots@[i]);
        }
    }
    assert forall|k: int| 0 <= k < w1.items@.len() implies #[trigger] wf_item(w1, k) by {
        assert(wf_item(w0, k));
    }
    assert forall|k: int|
        0 <= k < w1.items@.len() && is_attached(#[trigger] w1.items@[k]) implies exists|i: int|
        0 <= i < w1.robots@.len() && #[trigger] ref_of(w1.robots@[i]) == Some(k) by {
        assert(is_attached(w0.items@[k]));
        let iw = choose|i: int|
            0 <= i < w0.robots@.len() && #[trigger] ref_of(w0.robots@[i]) == Some(k);
        assert(ref_of(w1.robots@[iw]) == Some(k));
    }
    assert forall|i1: int, i2: int|
        0 <= i1 < w1.robots@.len() && 0 <= i2 < w1.robots@.len() && i1 != i2 && #[trigger] ref_of(
            w1.robots@[i1],
        ) is Some implies ref_of(w1.robots@[i1]) != #[trigger] ref_of(w1.robots@[i2]) by {
        assert(ref_of(w1.robots@[i1]) == ref_of(w0.robots@[i1]));
        assert(ref_of(w1.robots@[i2]) == ref_of(w0.robots@[i2]));
    }
    assert(w1.robots@ =~= w0.robots@.update(robot, n));
    lemma_count_carrying_update(w0.robots@, robot, n);
    lemma_count_dropping_update(w0.robots@, robot, n);
}

proof fn lemma_finish_drop_wf(
    w0: World,
    w1: World,
    robot: int,
    scattered: Vec<Position>,
    time_left: u64,
)
    requires
        wf(w0),
        0 <= robot < w0.robots@.len(),
        mutation_valid(
            w0,
            Mutation::FinishDrop { robot: robot as usize, scattered, time_left },
        ),
        apply_rel(w0, w1, Mutation::FinishDrop { robot: robot as usize, scattered, time_left }),
        robot == robot as usize as int,
    ensures
        wf(w1),
{
    let o = w0.robots@[robot];
    let n = w1.robots@[robot];
    assert(wf_robot(w0, robot));
    assert(o.children@.len() == 1);
    let c = o.children@[0] as int;
    assert(ref_of(o) == Some(c));
    assert(ref_of(n) is None);
    let newit = (RobotTarget { position: scattered@[0], attached: None });
    assert(w1.items@[c] == newit);
    assert forall|k: int| 0 <= k < w0.items@.len() && k != c implies #[trigger] w1.items@[k]
        == w0.items@[k] by {
        assert forall|j: int| 0 <= j < o.children@.len() implies k != #[trigger] o.children@[j] as int by {
            assert(j == 0);
        }
    }
    assert forall|i: int| 0 <= i < w1.robots@.len() && i != robot implies #[trigger] ref_of(
        w1.robots@[i],
    ) == ref_of(w0.robots@[i]) by {
        assert(w1.robots@[i] == w0.robots@[i]);
    }
    // no other carrier references the released item
    assert forall|i: int| 0 <= i < w0.robots@.len() && i != robot implies ref_of(w0.robots@[i])
        != Some(c) by {
        assert(ref_of(w0.robots@[robot]) == Some(c));
    }
    assert forall|i: int| 0 <= i < w1.robots@.len() implies #[trigger] wf_robot(w1, i) by {
        assert(wf_robot(w0, i));
        if i == robot {
            assert(at_most_one_state(o));
        } else {
            let r = w1.robots@[i];
            assert(r == w0.robots@[i]);
            match r.carry_target {
                Some(ct2) => {
                    assert(ref_of(r) == Some(ct2.item as int));
                    assert(ct2.item as int != c);
                    assert(w1.items@[ct2.item as int] == w0.items@[ct2.item as int]);
                },
                None => {},
            }
            if r.children@.len() > 0 {
                assert(ref_of(r) == Some(r.children@[0] as int));
                assert(r.children@[0] as int != c);
                assert(w1.items@[r.children@[0] as int] == w0.items@[r.children@[0] as int]);
            }
        }
    }
    assert forall|k: int| 0 <= k < w1.items@.len() implies #[trigger] wf_item(w1, k) by {
        assert(wf_item(w0, k));
        if k == c {
            assert(coords_within(scattered@[0], ITEM_POS_LIMIT as int));
        }
    }
    assert forall|k: int|
        0 <= k < w1.items@.len() && is_attached(#[trigger] w1.items@[k]) implies exists|i: int|
        0 <= i < w1.robots@.len() && #[trigger] ref_of(w1.robots@[i]) == Some(k) by {
        assert(k != c);
        assert(is_attached(w0.items@[k]));
        let iw = choose|i: int|
            0 <= i < w0.robots@.len() && #[trigger] ref_of(w0.robots@[i]) == Some(k);
        assert(iw != robot);
        assert(ref_of(w1.robots@[iw]) == Some(k));
    }
    assert forall|i1: int, i2: int|
        0 <= i1 < w1.robots@.len() && 0 <= i2 < w1.robots@.len() && i1 != i2 && #[trigger] ref_of(
            w1.robots@[i1],
        ) is Some implies ref_of(w1.robots@[i1]) != #[trigger] ref_of(w1.robots@[i2]) by {
        assert(i1 != robot);
        assert(ref_of(w1.robots@[i1]) == ref_of(w0.robots@[i1]));
        if i2 != robot {
            assert(ref_of(w1.robots@[i2]) == ref_of(w0.robots@[i2]));
        } else {
            assert(ref_of(w1.robots@[i2]) is None);
        }
    }
    assert(w1.robots@ =~= w0.robots@.update(robot, n));
    assert(w1.items@ =~= w0.items@.update(c, newit));
    assert(is_attached(w0.items@[c]));
    lemma_count_attached_update(w0.items@, c, newit);
    lemma_count_carrying_update(w0.robots@, robot, n);
    lemma_count_dropping_update(w0.robots@, robot, n);
    assert(is_carrying(n) == is_carrying(o));
}

proof fn lemma_end_cooldown_wf(w0: World, w1: World, robot: int)
    requires
        wf(w0),
        0 <= robot < w0.robots@.len(),
        is_cooling(w0.robots@[robot]),
        apply_rel(w0, w1, Mutation::EndCooldown { robot: robot as usize }),
        robot == robot as usize as int,
    ensures
        wf(w1),
{
    let o = w0.robots@[robot];
    let n = w1.robots@[robot];
    assert(wf_robot(w0, robot));
    assert(o.children@.len() == 0);
    assert(ref_of(o) is None && ref_of(n) is None);
    assert forall|i: int| 0 <= i < w1.robots@.len() implies #[trigger] wf_robot(w1, i) by {
        assert(wf_robot(w0, i));
        if i != robot {
            assert(w1.robots@[i] == w0.robots@[i]);
        }
    }
    assert forall|i: int| 0 <= i < w1.robots@.len() implies #[trigger] ref_of(w1.robots@[i])
        == ref_of(w0.robots@[i]) by {
        if i != robot {
            assert(w1.robots@[i] == w0.robots@[i]);
        }
    }
    assert forall|k: int|
        0 <= k < w1.items@.len() && is_attached(#[trigger] w1.items@[k]) implies exists|i: int|
        0 <= i < w1.robots@.len() && #[trigger] ref_of(w1.robots@[i]) == Some(k) by {
        assert(is_attached(w0.items@[k]));
        let iw = choose|i: int|
            0 <= i < w0.robots@.len() && #[trigger] ref_of(w0.robots@[i]) == Some(k);
        assert(ref_of(w1.robots@[iw]) == Some(k));
    }
    assert forall|i1: int, i2: int|
        0 <= i1 < w1.robots@.len() && 0 <= i2 < w1.robots@.len() && i1 != i2 && #[trigger] ref_of(
            w1.robots@[i1],
        ) is Some implies ref_of(w1.robots@[i1]) != #[trigger] ref_of(w1.robots@[i2]) by {
        assert(ref_of(w1.robots@[i1]) == ref_of(w0.robots@[i1]));
        assert(ref_of(w1.robots@[i2]) == ref_of(w0.robots@[i2]));
    }
    assert forall|k: int| 0 <= k < w1.items@.len() implies #[trigger] wf_item(w1, k) by {
        assert(wf_item(w0, k));
    }
    assert(w1.robots@ =~= w0.robots@.update(robot, n));
    lemma_count_carrying_update(w0.robots@, robot, n);
    lemma_count_dropping_update(w0.robots@, robot, n);
}

/// Applies one deferred command; the store invariant survives.
pub fn apply_mutation(w: &mut World, m: &Mutation)
    requires
        wf(*old(w)),
        mutation_valid(*old(w), *m),
    ensures
        wf(*final(w)),
        apply_rel(*old(w), *final(w), *m),
{
    match m {
        Mutation::BeginDrop { robot, destination } => {
            let i = *robot;
            proof {
                assert(wf_robot(*old(w), i as int));
            }
            let r = &mut w.robots[i];
            let ct = r.carry_target.unwrap();
            r.carry_target = None;
            r.drop_target = Some(DropTarget { position: *destination });
            r.children.push(ct.item);
            proof {
                assert(w.robots@[i as int].children@ =~= seq![ct.item]);
                assert(apply_rel(*old(w), *w, *m));
                lemma_begin_drop_wf(*old(w), *w, i as int, *destination);
            }
        },
        Mutation::FinishDrop { robot, scattered, time_left } => {
            let i = *robot;
            let ghost o = old(w).robots@[i as int];
            proof {
                assert(wf_robot(*old(w), i as int));
            }
            let num = w.robots[i].children.len();
            let mut j: usize = 0;
            while j < num
                invariant
                    wf(*old(w)),
                    mutation_valid(*old(w), *m),
                    m == (Mutation::FinishDrop {
                        robot: i,
                        scattered: *scattered,
                        time_left: *time_left,
                    }),
                    o == old(w).robots@[i as int],
                    (i as int) < old(w).robots@.len(),
                    num == o.children@.len(),
                    0 <= j <= num,
                    w.robots@ == old(w).robots@,
                    w.items@.len() == old(w).items@.len(),
                    forall|jj: int|
                        0 <= jj < j ==> #[trigger] w.items@[o.children@[jj] as int] == (
                        RobotTarget { position: scattered@[jj], attached: None }),
                    forall|k: int|
                        0 <= k < old(w).items@.len() && (forall|jj: int|
                            0 <= jj < j ==> k != #[trigger] o.children@[jj] as int)
                            ==> #[trigger] w.items@[k] == old(w).items@[k],
                decreases num - j,
            {
                proof {
                    assert(wf_robot(*old(w), i as int));
                    assert(o.children@.len() == 1);
                }
                let k = w.robots[i].children[j];
                let p = scattered[j];
                let slot = &mut w.items[k];
                *slot = RobotTarget { position: p, attached: None };
                j = j + 1;
            }
            let time = *time_left;
            let r = &mut w.robots[i];
            r.drop_target = None;
            r.cooldown = Some(Cooldown { time_left: time });
            r.children = Vec::new();
            proof {
                assert(w.robots@[i as int].children@.len() == 0);
                assert(apply_rel(*old(w), *w, *m));
                lemma_finish_drop_wf(*old(w), *w, i as int, *scattered, *time_left);
            }
        },
        Mutation::EndCooldown { robot } => {
            let i = *robot;
            let r = &mut w.robots[i];
            r.cooldown = None;
            proof {
                assert(apply_rel(*old(w), *w, *m));
                lemma_end_cooldown_wf(*old(w), *w, i as int);
            }
        },
    }
}

} // verus!
