//! One fixed-timestep tick: motion first, then the two collision passes,
//! then explosion-request conversion, then explosion animation. The order
//! matters only through the live entity set; the score display is read by
//! the presentation layer after the tick.

use vstd::prelude::*;
use crate::world::{Entity, Kind, WinSize, World, win_ok, DIM_LIMIT};
use crate::motion::{motion_pass, moved_in_range, movable_system};
use crate::collision::{
    count_kind, effect_entity, find_kind_from, first_hit_from, pl_pass_from, remove_ids_from,
    spawn_effects_from, player_laser_hit_enemy_system, enemy_laser_hit_player_system,
};
use crate::explosion::{
    anim_pass, explosions_ok, kind_positions_from, remove_kind_from, explosion_to_spawn_system,
    explosion_animation_system,
};
use crate::score::Scoreboard;
use crate::state::{EnemyCount, PlayerState};

verus! {

/// The world after the player-laser pass.
pub open spec fn pl_world(s: Seq<Entity>, next: u64) -> Seq<Entity> {
    let pass = pl_pass_from(s, Seq::empty(), 0);
    remove_ids_from(s, pass.0, 0)
        + spawn_effects_from(Kind::ExplosionToSpawn, pass.1, next, 0)
}

/// How many enemies the player-laser pass kills.
pub open spec fn pl_kills(s: Seq<Entity>) -> nat {
    pl_pass_from(s, Seq::empty(), 0).1.len()
}

/// Whether the enemy-laser pass hits: exactly one player, and some enemy
/// laser overlaps it.
pub open spec fn el_hit(s: Seq<Entity>) -> bool {
    &&& count_kind(s, Kind::Player) == 1
    &&& first_hit_from(s, s[find_kind_from(s, Kind::Player, 0)], Kind::EnemyLaser, 0) < s.len()
}

/// The world after the enemy-laser pass.
pub open spec fn el_world(s: Seq<Entity>, next: u64) -> Seq<Entity> {
    if el_hit(s) {
        let pi = find_kind_from(s, Kind::Player, 0);
        let li = first_hit_from(s, s[pi], Kind::EnemyLaser, 0);
        remove_ids_from(s, seq![s[pi].id, s[li].id], 0)
            + seq![effect_entity(Kind::ExplosionToSpawn, s[pi].pos, next)]
    } else {
        s
    }
}

/// The world after explosion-request conversion.
pub open spec fn convert_world(s: Seq<Entity>, next: u64) -> Seq<Entity> {
    remove_kind_from(s, Kind::ExplosionToSpawn, 0)
        + spawn_effects_from(Kind::Explosion, kind_positions_from(s, Kind::ExplosionToSpawn, 0), next, 0)
}

/// Law (no double despawn): on a world where no player laser overlaps any
/// enemy, the player-laser pass kills nothing and leaves the world exactly
/// as it stands — so re-running it on the unchanged world changes nothing,
/// and by its contract neither the score nor the enemy count moves.
pub proof fn lemma_pl_world_no_overlap(s: Seq<Entity>, next: u64)
    requires
        forall|a: int, b: int| 0 <= a < s.len() && 0 <= b < s.len()
            && (#[trigger] s[a]).kind == Kind::PlayerLaser && (#[trigger] s[b]).kind == Kind::Enemy
            ==> !crate::collision::overlaps(s[a], s[b]),
    ensures
        pl_kills(s) == 0,
        pl_world(s, next) == s,
{
    crate::collision::lemma_pl_pass_no_overlap(s, Seq::empty(), 0);
    crate::collision::lemma_remove_ids_none(s, Seq::empty(), 0);
    assert(s.subrange(0, s.len() as int) =~= s);
    assert(pl_world(s, next) =~= s);
}

/// The first index of a kind points at an entity of that kind whenever one
/// exists.
proof fn lemma_find_kind_props(s: Seq<Entity>, k: Kind, j: int)
    requires
        0 <= j,
        find_kind_from(s, k, j) < s.len(),
    ensures
        j <= find_kind_from(s, k, j) < s.len(),
        s[find_kind_from(s, k, j)].kind == k,
    decreases s.len() - j,
{
    if j < s.len() && s[j].kind != k {
        lemma_find_kind_props(s, k, j + 1);
    }
}

/// Law (no double despawn, enemy side): with no enemy laser overlapping any
/// player, the enemy-laser pass leaves the world exactly as it stands.
pub proof fn lemma_el_world_no_overlap(s: Seq<Entity>, next: u64)
    requires
        forall|a: int, b: int| 0 <= a < s.len() && 0 <= b < s.len()
            && (#[trigger] s[a]).kind == Kind::EnemyLaser && (#[trigger] s[b]).kind == Kind::Player
            ==> !crate::collision::overlaps(s[a], s[b]),
    ensures
        !el_hit(s),
        el_world(s, next) == s,
{
    if count_kind(s, Kind::Player) == 1 {
        let pi = find_kind_from(s, Kind::Player, 0);
        lemma_count_finds(s, Kind::Player, 0);
        lemma_find_kind_props(s, Kind::Player, 0);
        assert forall|m: int| 0 <= m < s.len() && (#[trigger] s[m]).kind == Kind::EnemyLaser
            implies !crate::collision::overlaps(s[m], s[pi]) by {
            assert(!crate::collision::overlaps(s[m], s[pi]));
        };
        crate::collision::lemma_first_hit_none(s, s[pi], Kind::EnemyLaser, 0);
    }
}

/// Where an entity of kind `k` is counted, the first-index scan finds one.
proof fn lemma_count_finds(s: Seq<Entity>, k: Kind, i: int)
    requires
        0 <= i,
        crate::collision::count_live_from(s, k, Seq::empty(), i) > 0,
    ensures
        find_kind_from(s, k, i) < s.len(),
    decreases s.len() - i,
{
    if i < s.len() && s[i].kind != k {
        lemma_count_finds(s, k, i + 1);
    }
}

/// Run one simulation tick: motion, player-laser collisions, enemy-laser
/// collision, explosion-request conversion, explosion animation, in that
/// order. The contract chains the five passes' effects; `now` is the
/// simulation time recorded on a player death, `delta` the elapsed time fed
/// to the explosion timers.
pub fn tick(
    world: &mut World,
    scoreboard: &mut Scoreboard,
    enemy_count: &mut EnemyCount,
    player_state: &mut PlayerState,
    win: &WinSize,
    time_step: i64,
    base_speed: i64,
    now: i64,
    delta: u64,
    interval: u64,
    explosion_len: u64,
)
    requires
        ({
            let s0 = old(world)@;
            let n0 = old(world).next_id;
            let s1 = motion_pass(s0, *win, time_step, base_speed);
            let s2 = pl_world(s1, n0);
            let n2 = (n0 + pl_kills(s1)) as u64;
            let s3 = el_world(s2, n2);
            let n3 = if el_hit(s2) { (n2 + 1) as u64 } else { n2 };
            &&& old(world).wf()
            &&& win_ok(*win)
            &&& 0 <= time_step <= DIM_LIMIT
            &&& 0 <= base_speed <= DIM_LIMIT
            &&& forall|i: int| 0 <= i < s0.len()
                ==> moved_in_range(#[trigger] s0[i], time_step, base_speed)
            &&& count_kind(s1, Kind::Enemy) <= old(enemy_count).0
            &&& old(scoreboard).score + count_kind(s1, Kind::Enemy) <= usize::MAX
            &&& n0 + count_kind(s1, Kind::Enemy) <= u64::MAX
            &&& n2 < u64::MAX
            &&& n3 + count_kind(s3, Kind::ExplosionToSpawn) <= u64::MAX
            &&& interval > 0
            &&& explosions_ok(convert_world(s3, n3), delta, interval, explosion_len)
        }),
    ensures
        ({
            let s0 = old(world)@;
            let n0 = old(world).next_id;
            let s1 = motion_pass(s0, *win, time_step, base_speed);
            let s2 = pl_world(s1, n0);
            let n2 = (n0 + pl_kills(s1)) as u64;
            let s3 = el_world(s2, n2);
            let n3 = if el_hit(s2) { (n2 + 1) as u64 } else { n2 };
            let s4 = convert_world(s3, n3);
            let n4 = (n3 + kind_positions_from(s3, Kind::ExplosionToSpawn, 0).len()) as u64;
            &&& final(world)@ == anim_pass(s4, delta, interval, explosion_len)
            &&& final(world).next_id == n4
            &&& final(world).wf()
            &&& final(enemy_count).0 == old(enemy_count).0 - pl_kills(s1)
            &&& final(scoreboard).score == if el_hit(s2) {
                0int
            } else {
                old(scoreboard).score + pl_kills(s1)
            }
            &&& if el_hit(s2) {
                !final(player_state).on && final(player_state).last_shot == now
            } else {
                *final(player_state) == *old(player_state)
            }
        }),
{
    movable_system(world, win, time_step, base_speed);
    player_laser_hit_enemy_system(world, enemy_count, scoreboard);
    enemy_laser_hit_player_system(world, player_state, now, scoreboard);
    explosion_to_spawn_system(world);
    explosion_animation_system(world, delta, interval, explosion_len);
}

} // verus!
