//! Scenario tests for the simulation core.

use invaders_core::world::{Entity, Kind, Vec2, WinSize, World};
use invaders_core::motion::movable_system;
use invaders_core::collision::{
    collide, enemy_laser_hit_player_system, player_laser_hit_enemy_system,
};
use invaders_core::explosion::{
    explosion_animation_system, explosion_to_spawn_system, EXPLOSION_LEN,
};
use invaders_core::score::Scoreboard;
use invaders_core::state::{EnemyCount, PlayerState, NEVER_SHOT};
use invaders_core::tick::tick;

fn ent(kind: Kind, x: i64, y: i64, w: i64, h: i64) -> Entity {
    Entity {
        id: 0,
        kind,
        pos: Vec2 { x, y },
        scale: Vec2 { x: 1, y: 1 },
        size: Vec2 { x: w, y: h },
        vel: Vec2 { x: 0, y: 0 },
        movable: false,
        auto_despawn: false,
        timer_elapsed: 0,
        frame: 0,
    }
}

fn win() -> WinSize {
    WinSize { w: 598, h: 676 }
}

#[test]
fn scenario_a_player_death() {
    let mut w = World::new();
    w.spawn(ent(Kind::Player, 0, 0, 144, 75));
    w.spawn(ent(Kind::EnemyLaser, 0, 0, 17, 55));
    let mut ps = PlayerState { on: true, last_shot: NEVER_SHOT };
    let mut sb = Scoreboard { score: 5 };
    enemy_laser_hit_player_system(&mut w, &mut ps, 42, &mut sb);
    assert_eq!(w.len(), 1);
    let left = w.entity_at(0);
    assert!(matches!(left.kind, Kind::ExplosionToSpawn));
    assert_eq!(left.pos, Vec2 { x: 0, y: 0 });
    assert!(!ps.on);
    assert_eq!(ps.last_shot, 42);
    assert_eq!(sb.score, 0);
}

#[test]
fn scenario_b_no_overlap_no_change() {
    let mut w = World::new();
    w.spawn(ent(Kind::PlayerLaser, 100, 100, 9, 54));
    w.spawn(ent(Kind::Enemy, 500, 500, 144, 75));
    let mut count = EnemyCount(1);
    let mut sb = Scoreboard { score: 3 };
    player_laser_hit_enemy_system(&mut w, &mut count, &mut sb);
    assert_eq!(w.len(), 2);
    assert!(matches!(w.entity_at(0).kind, Kind::PlayerLaser));
    assert!(matches!(w.entity_at(1).kind, Kind::Enemy));
    assert_eq!(sb.score, 3);
    assert_eq!(count.0, 1);
}

#[test]
fn scenario_b_is_idempotent() {
    let mut w = World::new();
    w.spawn(ent(Kind::PlayerLaser, 100, 100, 9, 54));
    w.spawn(ent(Kind::Enemy, 500, 500, 144, 75));
    let mut count = EnemyCount(1);
    let mut sb = Scoreboard { score: 3 };
    player_laser_hit_enemy_system(&mut w, &mut count, &mut sb);
    let first: Vec<Entity> = vec![w.entity_at(0), w.entity_at(1)];
    player_laser_hit_enemy_system(&mut w, &mut count, &mut sb);
    assert_eq!(w.len(), 2);
    assert_eq!(w.entity_at(0), first[0]);
    assert_eq!(w.entity_at(1), first[1]);
    assert_eq!(sb.score, 3);
    assert_eq!(count.0, 1);
}

#[test]
fn scenario_c_explosion_lifetime() {
    let interval = 50;
    let mut w = World::new();
    w.spawn(ent(Kind::Explosion, 0, 0, 0, 0));
    for k in 1..=15u64 {
        explosion_animation_system(&mut w, interval, interval, EXPLOSION_LEN);
        assert_eq!(w.len(), 1);
        assert_eq!(w.entity_at(0).frame, k);
    }
    explosion_animation_system(&mut w, interval, interval, EXPLOSION_LEN);
    assert_eq!(w.len(), 0);
}

#[test]
fn motion_advances_by_velocity_each_tick() {
    let mut w = World::new();
    let mut e = ent(Kind::Enemy, 10, 20, 144, 75);
    e.movable = true;
    e.vel = Vec2 { x: 1, y: 2 };
    w.spawn(e);
    movable_system(&mut w, &win(), 1, 3);
    assert_eq!(w.entity_at(0).pos, Vec2 { x: 13, y: 26 });
    movable_system(&mut w, &win(), 1, 3);
    assert_eq!(w.entity_at(0).pos, Vec2 { x: 16, y: 32 });
}

#[test]
fn motion_never_despawns_without_auto_despawn() {
    let mut w = World::new();
    let mut e = ent(Kind::Enemy, 100_000, 100_000, 144, 75);
    e.movable = true;
    e.vel = Vec2 { x: 5, y: 5 };
    w.spawn(e);
    movable_system(&mut w, &win(), 1, 1);
    assert_eq!(w.len(), 1);
    assert_eq!(w.entity_at(0).pos, Vec2 { x: 100_005, y: 100_005 });
}

#[test]
fn bounds_despawn_on_first_exit_tick_only() {
    // Window 676 high plus the 200 margin: outside means y > 538.
    let mut w = World::new();
    let mut e = ent(Kind::PlayerLaser, 0, 537, 9, 54);
    e.movable = true;
    e.auto_despawn = true;
    e.vel = Vec2 { x: 0, y: 1 };
    w.spawn(e);
    movable_system(&mut w, &win(), 1, 1);
    // y == 538 touches the boundary: still inside.
    assert_eq!(w.len(), 1);
    assert_eq!(w.entity_at(0).pos.y, 538);
    movable_system(&mut w, &win(), 1, 1);
    // y == 539 is the first position outside: despawned this tick.
    assert_eq!(w.len(), 0);
}

#[test]
fn one_laser_two_enemies_kills_only_first() {
    let mut w = World::new();
    w.spawn(ent(Kind::PlayerLaser, 0, 0, 10, 10));
    w.spawn(ent(Kind::Enemy, 0, 0, 144, 75));
    w.spawn(ent(Kind::Enemy, 5, 5, 144, 75));
    let mut count = EnemyCount(2);
    let mut sb = Scoreboard { score: 0 };
    player_laser_hit_enemy_system(&mut w, &mut count, &mut sb);
    assert_eq!(sb.score, 1);
    assert_eq!(count.0, 1);
    assert_eq!(w.len(), 2);
    // The second enemy survives; one request sits at the first enemy's spot.
    assert!(matches!(w.entity_at(0).kind, Kind::Enemy));
    assert_eq!(w.entity_at(0).pos, Vec2 { x: 5, y: 5 });
    assert!(matches!(w.entity_at(1).kind, Kind::ExplosionToSpawn));
    assert_eq!(w.entity_at(1).pos, Vec2 { x: 0, y: 0 });
}

#[test]
fn touching_boxes_do_not_collide() {
    // Half-extents 5 + 5 against a distance of 10: strict overlap fails.
    let a = ent(Kind::PlayerLaser, 0, 0, 10, 10);
    let b = ent(Kind::Enemy, 10, 0, 10, 10);
    assert!(!collide(&a, &b));
    let c = ent(Kind::Enemy, 9, 0, 10, 10);
    assert!(collide(&a, &c));
}

#[test]
fn spawn_request_becomes_explosion() {
    let mut w = World::new();
    w.spawn(ent(Kind::Player, 0, 0, 144, 75));
    w.spawn(ent(Kind::ExplosionToSpawn, 7, 8, 0, 0));
    explosion_to_spawn_system(&mut w);
    assert_eq!(w.len(), 2);
    assert!(matches!(w.entity_at(0).kind, Kind::Player));
    let ex = w.entity_at(1);
    assert!(matches!(ex.kind, Kind::Explosion));
    assert_eq!(ex.pos, Vec2 { x: 7, y: 8 });
    assert_eq!(ex.frame, 0);
    assert_eq!(ex.timer_elapsed, 0);
}

#[test]
fn player_state_transitions() {
    let mut ps = PlayerState::default();
    assert!(!ps.on);
    assert_eq!(ps.last_shot, NEVER_SHOT);
    ps.spawned();
    assert!(ps.on);
    assert_eq!(ps.last_shot, NEVER_SHOT);
    ps.shot(17);
    assert!(!ps.on);
    assert_eq!(ps.last_shot, 17);
}

#[test]
fn respawn_gating() {
    let ps = PlayerState::default();
    // Never shot: the very first spawn is not delayed.
    assert!(ps.respawn_due(0, 2));
    let dead = PlayerState { on: false, last_shot: 10 };
    assert!(!dead.respawn_due(11, 2));
    assert!(!dead.respawn_due(12, 2));
    assert!(dead.respawn_due(13, 2));
    let alive = PlayerState { on: true, last_shot: NEVER_SHOT };
    assert!(!alive.respawn_due(100, 2));
}

#[test]
fn scoreboard_reads_its_counter() {
    let sb = Scoreboard::new();
    assert_eq!(sb.value(), 0);
    let sb = Scoreboard { score: 9 };
    assert_eq!(sb.value(), 9);
}

#[test]
fn full_tick_kill_converts_request_same_tick() {
    let mut w = World::new();
    let mut player = ent(Kind::Player, 0, 0, 144, 75);
    player.movable = true;
    w.spawn(player);
    w.spawn(ent(Kind::Enemy, 300, 300, 144, 75));
    let mut laser = ent(Kind::PlayerLaser, 295, 295, 9, 54);
    laser.movable = true;
    laser.auto_despawn = true;
    laser.vel = Vec2 { x: 0, y: 1 };
    w.spawn(laser);
    let mut sb = Scoreboard { score: 0 };
    let mut count = EnemyCount(1);
    let mut ps = PlayerState { on: true, last_shot: NEVER_SHOT };
    tick(&mut w, &mut sb, &mut count, &mut ps, &win(), 1, 1, 7, 10, 50, EXPLOSION_LEN);
    assert_eq!(sb.score, 1);
    assert_eq!(count.0, 0);
    assert!(ps.on);
    // Player stays; the laser and the enemy are gone; the kill's request was
    // converted into an explosion within the same tick.
    assert_eq!(w.len(), 2);
    assert!(matches!(w.entity_at(0).kind, Kind::Player));
    let ex = w.entity_at(1);
    assert!(matches!(ex.kind, Kind::Explosion));
    assert_eq!(ex.pos, Vec2 { x: 300, y: 300 });
    assert_eq!(ex.frame, 0);
    assert_eq!(ex.timer_elapsed, 10);
}

#[test]
fn full_tick_player_death_resets_score() {
    let mut w = World::new();
    w.spawn(ent(Kind::Player, 0, 0, 144, 75));
    w.spawn(ent(Kind::EnemyLaser, 0, 0, 17, 55));
    let mut sb = Scoreboard { score: 8 };
    let mut count = EnemyCount(0);
    let mut ps = PlayerState { on: true, last_shot: NEVER_SHOT };
    tick(&mut w, &mut sb, &mut count, &mut ps, &win(), 1, 1, 33, 10, 50, EXPLOSION_LEN);
    assert_eq!(sb.score, 0);
    assert!(!ps.on);
    assert_eq!(ps.last_shot, 33);
    assert_eq!(w.len(), 1);
    assert!(matches!(w.entity_at(0).kind, Kind::Explosion));
    assert_eq!(w.entity_at(0).pos, Vec2 { x: 0, y: 0 });
}

#[test]
fn enemy_count_decrements_once_per_kill() {
    let mut w = World::new();
    w.spawn(ent(Kind::PlayerLaser, 0, 0, 10, 10));
    w.spawn(ent(Kind::PlayerLaser, 200, 200, 10, 10));
    w.spawn(ent(Kind::Enemy, 0, 0, 144, 75));
    w.spawn(ent(Kind::Enemy, 200, 200, 144, 75));
    let mut count = EnemyCount(2);
    let mut sb = Scoreboard { score: 0 };
    player_laser_hit_enemy_system(&mut w, &mut count, &mut sb);
    assert_eq!(count.0, 0);
    assert_eq!(sb.score, 2);
    // Both lasers and both enemies gone, two requests left.
    assert_eq!(w.len(), 2);
    assert!(matches!(w.entity_at(0).kind, Kind::ExplosionToSpawn));
    assert!(matches!(w.entity_at(1).kind, Kind::ExplosionToSpawn));
}

#[test]
fn no_player_means_no_death_pass() {
    let mut w = World::new();
    w.spawn(ent(Kind::EnemyLaser, 0, 0, 17, 55));
    let mut ps = PlayerState { on: false, last_shot: 3 };
    let mut sb = Scoreboard { score: 4 };
    enemy_laser_hit_player_system(&mut w, &mut ps, 99, &mut sb);
    assert_eq!(w.len(), 1);
    assert!(!ps.on);
    assert_eq!(ps.last_shot, 3);
    assert_eq!(sb.score, 4);
}
