use carrier_sim::geom::{dist_sq, isqrt, move_toward, Position};
use carrier_sim::sample::{
    generate_random_position_by_offset, generate_random_position_on_map_rng, sample_cooldown_ms,
};
use carrier_sim::systems::{
    place_items, place_robots, robot_cooldown_system, robot_move_to_carry_system,
    robot_move_to_drop_system, robot_target_system, tick,
};
use carrier_sim::world::{
    new_global_rng, new_item, new_robot, new_world, AttachedToRobot, Configuration, Cooldown,
    DropTarget, World,
};

fn test_config() -> Configuration {
    Configuration {
        count: 1,
        size: 100_000,
        speed: 5_000,
        camera: Position { x: 0, y: 90_000, z: 90_000 },
    }
}

fn busy_count(w: &World) -> (usize, usize, usize) {
    let attached = w.items.iter().filter(|it| it.attached.is_some()).count();
    let carrying = w.robots.iter().filter(|r| r.carry_target.is_some()).count();
    let dropping = w.robots.iter().filter(|r| r.drop_target.is_some()).count();
    (attached, carrying, dropping)
}

#[test]
fn dist_sq_exact_value() {
    let a = Position { x: 1000, y: 2000, z: 3000 };
    let b = Position { x: 4000, y: 6000, z: 3000 };
    assert_eq!(dist_sq(&a, &b), 9_000_000 + 16_000_000);
    assert_eq!(dist_sq(&a, &a), 0);
}

#[test]
fn isqrt_exact_values() {
    assert_eq!(isqrt(0), 0);
    assert_eq!(isqrt(1), 1);
    assert_eq!(isqrt(99), 9);
    assert_eq!(isqrt(100), 10);
    assert_eq!(isqrt(0x3FFF_FFFF_FFFF_FFFF), 0x7FFF_FFFF);
}

#[test]
fn movement_step_exact_straight() {
    let p = Position { x: 0, y: 2000, z: 0 };
    let t = Position { x: 10_000, y: 2000, z: 0 };
    let n = move_toward(&p, &t, 500);
    assert_eq!(n, Position { x: 500, y: 2000, z: 0 });
}

#[test]
fn movement_step_exact_oblique() {
    let p = Position { x: 0, y: 0, z: 0 };
    let t = Position { x: 3000, y: 4000, z: 0 };
    let n = move_toward(&p, &t, 1000);
    // length 5000: each axis advances by its rounded share of the step
    assert_eq!(n, Position { x: 600, y: 800, z: 0 });
}

#[test]
fn movement_shrinks_distance() {
    let mut p = Position { x: -40_000, y: 2000, z: 30_000 };
    let t = Position { x: 1000, y: 2000, z: -2000 };
    let mut d2 = dist_sq(&p, &t);
    while d2 >= 100_000 {
        p = move_toward(&p, &t, 700);
        let nd2 = dist_sq(&p, &t);
        assert!(nd2 < d2);
        d2 = nd2;
    }
}

#[test]
fn assignment_prefers_first_item() {
    // 1 idle carrier, 2 unattached items in enumeration order A, B: the
    // pairing is first-available, never nearest — B is closer here
    let mut w = new_world();
    w.robots.push(new_robot(Position { x: 0, y: 2000, z: 0 }, 11));
    let a = Position { x: 30_000, y: 2000, z: 0 };
    let b = Position { x: -4000, y: 2000, z: 0 };
    w.items.push(new_item(a));
    w.items.push(new_item(b));
    robot_target_system(&mut w);
    assert!(w.items[0].attached.is_some());
    assert!(w.items[1].attached.is_none());
    let ct = w.robots[0].carry_target.unwrap();
    assert_eq!(ct.item, 0);
    assert_eq!(ct.position, a);
    // the carrier then walks to A's position and swaps to drop-heading
    let cfg = test_config();
    let mut ticks = 0;
    while w.robots[0].carry_target.is_some() {
        robot_move_to_carry_system(&mut w, &cfg, 100);
        ticks += 1;
        assert!(ticks < 1000);
    }
    assert!(w.robots[0].drop_target.is_some());
    assert_eq!(w.robots[0].children.len(), 1);
    assert_eq!(w.robots[0].children[0], 0);
    // the fresh destination lies on the placement square
    let d = w.robots[0].drop_target.unwrap().position;
    assert!(-50_000 <= d.x && d.x < 50_000);
    assert!(-50_000 <= d.z && d.z < 50_000);
    assert_eq!(d.y, 2000);
    // B stayed unattached and unmoved throughout
    assert!(w.items[1].attached.is_none());
    assert_eq!(w.items[1].position, b);
}

#[test]
fn assignment_leaves_carrier_idle_without_items() {
    let mut w = new_world();
    w.robots.push(new_robot(Position { x: 0, y: 2000, z: 0 }, 3));
    robot_target_system(&mut w);
    assert!(w.robots[0].carry_target.is_none());
    assert!(w.robots[0].drop_target.is_none());
    assert!(w.robots[0].cooldown.is_none());
}

#[test]
fn carry_threshold_is_strict() {
    // squared distance exactly at the threshold does not transition yet
    let cfg = test_config();
    let mut w = new_world();
    w.items.push(new_item(Position { x: 300, y: 2000, z: 100 }));
    w.items[0].attached = Some(AttachedToRobot {});
    let mut r = new_robot(Position { x: 0, y: 2000, z: 0 }, 5);
    r.carry_target = Some(carrier_sim::world::CarryTarget {
        item: 0,
        position: Position { x: 300, y: 2000, z: 100 },
    });
    w.robots.push(r);
    assert_eq!(
        dist_sq(&w.robots[0].position, &w.robots[0].carry_target.unwrap().position),
        100_000
    );
    robot_move_to_carry_system(&mut w, &cfg, 100);
    // moved, no transition
    assert!(w.robots[0].carry_target.is_some());
    assert!(w.robots[0].drop_target.is_none());
    assert_ne!(w.robots[0].position, Position { x: 0, y: 2000, z: 0 });
}

#[test]
fn carry_transitions_below_threshold() {
    let cfg = test_config();
    let mut w = new_world();
    w.items.push(new_item(Position { x: 300, y: 2000, z: 99 }));
    w.items[0].attached = Some(AttachedToRobot {});
    let mut r = new_robot(Position { x: 0, y: 2000, z: 0 }, 5);
    r.carry_target = Some(carrier_sim::world::CarryTarget {
        item: 0,
        position: Position { x: 300, y: 2000, z: 99 },
    });
    w.robots.push(r);
    // 300^2 + 99^2 = 99_801 < 100_000: arrived
    robot_move_to_carry_system(&mut w, &cfg, 100);
    assert!(w.robots[0].carry_target.is_none());
    assert!(w.robots[0].drop_target.is_some());
    assert_eq!(w.robots[0].children, vec![0]);
    // the carrier did not move on the transition tick
    assert_eq!(w.robots[0].position, Position { x: 0, y: 2000, z: 0 });
}

#[test]
fn drop_releases_item_near_carrier() {
    let cfg = test_config();
    let mut w = new_world();
    w.items.push(new_item(Position { x: 7000, y: 2000, z: 0 }));
    w.items[0].attached = Some(AttachedToRobot {});
    let mut r = new_robot(Position { x: 10_000, y: 2000, z: -3000 }, 9);
    r.drop_target = Some(DropTarget { position: Position { x: 10_100, y: 2000, z: -3000 } });
    r.children.push(0);
    w.robots.push(r);
    // squared distance 10_000 < 100_000: arrived, so release and rest
    robot_move_to_drop_system(&mut w, &cfg, 100);
    assert!(w.items[0].attached.is_none());
    let p = w.items[0].position;
    assert!((p.x - 10_000).abs() <= 1000);
    assert!((p.z + 3000).abs() <= 1000);
    assert_eq!(p.y, 2000);
    assert!(w.robots[0].drop_target.is_none());
    assert_eq!(w.robots[0].children.len(), 0);
    let cd = w.robots[0].cooldown.unwrap();
    assert!(cd.time_left < 3000);
}

#[test]
fn drop_keeps_moving_until_threshold() {
    let cfg = test_config();
    let mut w = new_world();
    w.items.push(new_item(Position { x: 0, y: 2000, z: 0 }));
    w.items[0].attached = Some(AttachedToRobot {});
    let mut r = new_robot(Position { x: 0, y: 2000, z: 20_000 }, 9);
    r.drop_target = Some(DropTarget { position: Position { x: 0, y: 2000, z: 0 } });
    r.children.push(0);
    w.robots.push(r);
    robot_move_to_drop_system(&mut w, &cfg, 100);
    // step 500 along -z, far from the threshold: no release yet
    assert_eq!(w.robots[0].position, Position { x: 0, y: 2000, z: 19_500 });
    assert!(w.robots[0].drop_target.is_some());
    assert!(w.items[0].attached.is_some());
}

#[test]
fn cooldown_decrement_exact() {
    let mut w = new_world();
    let mut r = new_robot(Position { x: 0, y: 2000, z: 0 }, 2);
    r.cooldown = Some(Cooldown { time_left: 500 });
    w.robots.push(r);
    robot_cooldown_system(&mut w, 100);
    assert_eq!(w.robots[0].cooldown.unwrap().time_left, 400);
}

#[test]
fn cooldown_expiry_returns_carrier_to_idle() {
    // remaining 50 ms against a 100 ms tick: the saturating subtraction
    // reaches zero and the carrier is idle the same tick
    let mut w = new_world();
    let mut r = new_robot(Position { x: 0, y: 2000, z: 0 }, 2);
    r.cooldown = Some(Cooldown { time_left: 50 });
    w.robots.push(r);
    robot_cooldown_system(&mut w, 100);
    assert!(w.robots[0].cooldown.is_none());
    assert!(w.robots[0].carry_target.is_none());
    assert!(w.robots[0].drop_target.is_none());
    // and is eligible on the very next assignment pass
    w.items.push(new_item(Position { x: 500, y: 2000, z: 0 }));
    robot_target_system(&mut w);
    assert!(w.robots[0].carry_target.is_some());
    assert_eq!(w.robots[0].carry_target.unwrap().item, 0);
}

#[test]
fn sampled_positions_stay_on_map() {
    let mut w = new_world();
    w.robots.push(new_robot(Position { x: 0, y: 2000, z: 0 }, 77));
    for _ in 0..200 {
        let p = generate_random_position_on_map_rng(100_000, &mut w.robots[0].rng, 2000);
        assert!(-50_000 <= p.x && p.x < 50_000);
        assert!(-50_000 <= p.z && p.z < 50_000);
        assert_eq!(p.y, 2000);
    }
}

#[test]
fn sampled_scatter_stays_near_base() {
    let mut w = new_world();
    w.robots.push(new_robot(Position { x: 0, y: 2000, z: 0 }, 78));
    let base = Position { x: 12_345, y: 2000, z: -9000 };
    for _ in 0..200 {
        let p = generate_random_position_by_offset(&mut w.robots[0].rng, 2000, base, 2000);
        assert!(-1000 <= p.x - base.x && p.x - base.x < 1000);
        assert!(-1000 <= p.z - base.z && p.z - base.z < 1000);
        assert_eq!(p.y, 2000);
    }
}

#[test]
fn sampled_cooldowns_stay_below_three_seconds() {
    let mut w = new_world();
    w.robots.push(new_robot(Position { x: 0, y: 2000, z: 0 }, 79));
    for _ in 0..500 {
        let t = sample_cooldown_ms(&mut w.robots[0].rng);
        assert!(t < 3000);
    }
}

#[test]
fn display_position_follows_carrier_while_held() {
    let mut w = new_world();
    w.items.push(new_item(Position { x: 4000, y: 2000, z: 5000 }));
    w.items.push(new_item(Position { x: -100, y: 2000, z: 300 }));
    w.items[0].attached = Some(AttachedToRobot {});
    let mut r = new_robot(Position { x: 1000, y: 2000, z: -7000 }, 21);
    r.drop_target = Some(DropTarget { position: Position { x: 900, y: 2000, z: -7000 } });
    r.children.push(0);
    w.robots.push(r);
    // the held item rides its carrier with the fixed vertical offset
    assert_eq!(
        carrier_sim::world::item_display_position(&w, 0),
        Position { x: 1000, y: 4000, z: -7000 }
    );
    // a free item sits at its own position
    assert_eq!(
        carrier_sim::world::item_display_position(&w, 1),
        Position { x: -100, y: 2000, z: 300 }
    );
}

#[test]
fn placement_spawns_configured_count() {
    let mut w = new_world();
    let cfg = Configuration {
        count: 8,
        size: 100_000,
        speed: 5_000,
        camera: Position { x: 0, y: 90_000, z: 90_000 },
    };
    let mut global = new_global_rng(42);
    place_items(&mut w, &cfg, &mut global);
    place_robots(&mut w, &cfg, &mut global);
    assert_eq!(w.items.len(), 8);
    assert_eq!(w.robots.len(), 8);
    for it in w.items.iter() {
        assert!(it.attached.is_none());
        assert!(-50_000 <= it.position.x && it.position.x < 50_000);
        assert_eq!(it.position.y, 2000);
    }
    for r in w.robots.iter() {
        assert!(r.carry_target.is_none() && r.drop_target.is_none() && r.cooldown.is_none());
        assert!(r.children.is_empty());
    }
}

#[test]
fn ticks_preserve_attachment_balance() {
    // the attached-item count equals the busy-carrier count after every
    // tick, and every carrier bears at most one state attribute
    // step 300 a tick: below the arrival radius, so every leg converges
    let cfg = Configuration {
        count: 13,
        size: 20_000,
        speed: 3_000,
        camera: Position { x: 0, y: 90_000, z: 90_000 },
    };
    let mut global = new_global_rng(7);
    let mut w = new_world();
    place_items(&mut w, &cfg, &mut global);
    place_robots(&mut w, &cfg, &mut global);
    let mut seen_carrying = false;
    let mut seen_dropping = false;
    let mut seen_cooling = false;
    for _ in 0..600 {
        tick(&mut w, &cfg, 100);
        let (attached, carrying, dropping) = busy_count(&w);
        assert_eq!(attached, carrying + dropping);
        for r in w.robots.iter() {
            let states = r.carry_target.is_some() as u32 + r.drop_target.is_some() as u32
                + r.cooldown.is_some() as u32;
            assert!(states <= 1);
            if r.carry_target.is_some() {
                seen_carrying = true;
            }
            if r.drop_target.is_some() {
                seen_dropping = true;
                assert_eq!(r.children.len(), 1);
            }
            if r.cooldown.is_some() {
                seen_cooling = true;
            }
        }
    }
    // the run actually exercised the whole cycle
    assert!(seen_carrying && seen_dropping && seen_cooling);
}
