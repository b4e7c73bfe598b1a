//! Projectile-versus-target collision: player lasers against enemies, and
//! enemy lasers against the player.
//!
//! A pair collides when the boxes `size * scale` centred at the positions
//! strictly overlap on both axes. Within one pass, a projectile kills at most
//! the first target (in entity order) that overlaps it, and an entity marked
//! despawned is skipped for all later pairings, so nothing is despawned or
//! scored twice. Despawns and spawns are deferred to the end of the pass.

use vstd::prelude::*;
use crate::world::{Entity, Kind, Vec2, World, entity_ok, ids_unique, pos_ok, DIM_LIMIT};
use crate::score::Scoreboard;
use crate::state::{EnemyCount, PlayerState};

verus! {

/// Magnitude of an integer.
pub open spec fn mag(x: int) -> int {
    if x < 0 { -x } else { x }
}

/// Strict axis-aligned overlap of the collision boxes of `a` and `b`:
/// `|d| < half_a + half_b` on both axes, with both sides doubled so that odd
/// box sizes lose nothing. Touching edges do not collide.
pub open spec fn overlaps(a: Entity, b: Entity) -> bool {
    &&& 2 * mag(a.pos.x - b.pos.x) < a.size.x * a.scale.x + b.size.x * b.scale.x
    &&& 2 * mag(a.pos.y - b.pos.y) < a.size.y * a.scale.y + b.size.y * b.scale.y
}

/// The product of a size and a scale stays small.
proof fn lemma_box_bound(size: i64, scale: i64)
    requires
        0 <= size <= DIM_LIMIT,
        0 <= scale <= DIM_LIMIT,
    ensures
        0 <= size * scale <= DIM_LIMIT * DIM_LIMIT,
{
    assert(0 <= size * scale <= DIM_LIMIT * DIM_LIMIT) by (nonlinear_arith)
        requires
            0 <= size <= DIM_LIMIT,
            0 <= scale <= DIM_LIMIT,
    ;
}

/// The strict AABB overlap test.
pub fn collide(a: &Entity, b: &Entity) -> (r: bool)
    requires
        entity_ok(*a),
        entity_ok(*b),
    ensures
        r == overlaps(*a, *b),
{
    proof {
        lemma_box_bound(a.size.x, a.scale.x);
        lemma_box_bound(a.size.y, a.scale.y);
        lemma_box_bound(b.size.x, b.scale.x);
        lemma_box_bound(b.size.y, b.scale.y);
    }
    let dx = if a.pos.x >= b.pos.x { a.pos.x - b.pos.x } else { b.pos.x - a.pos.x };
    let dy = if a.pos.y >= b.pos.y { a.pos.y - b.pos.y } else { b.pos.y - a.pos.y };
    2 * dx < a.size.x * a.scale.x + b.size.x * b.scale.x
        && 2 * dy < a.size.y * a.scale.y + b.size.y * b.scale.y
}

/// How many entities of kind `k` at or after `i` are not yet marked dead.
pub open spec fn count_live_from(s: Seq<Entity>, k: Kind, dead: Seq<u64>, i: int) -> nat
    decreases s.len() - i,
{
    if i < 0 || i >= s.len() {
        0
    } else {
        let rest = count_live_from(s, k, dead, i + 1);
        if s[i].kind == k && !dead.contains(s[i].id) {
            rest + 1
        } else {
            rest
        }
    }
}

/// How many entities of kind `k` the world holds.
pub open spec fn count_kind(s: Seq<Entity>, k: Kind) -> nat {
    count_live_from(s, k, Seq::empty(), 0)
}

/// First index at or after `i` whose entity has kind `k`, or `s.len()`.
pub open spec fn find_kind_from(s: Seq<Entity>, k: Kind, i: int) -> int
    decreases s.len() - i,
{
    if i < 0 || i >= s.len() {
        s.len() as int
    } else if s[i].kind == k {
        i
    } else {
        find_kind_from(s, k, i + 1)
    }
}

/// First index at or after `j` holding a live enemy that overlaps `laser`,
/// or `s.len()`.
pub open spec fn first_enemy_hit_from(s: Seq<Entity>, laser: Entity, dead: Seq<u64>, j: int) -> int
    decreases s.len() - j,
{
    if j < 0 || j >= s.len() {
        s.len() as int
    } else if s[j].kind == Kind::Enemy && !dead.contains(s[j].id) && overlaps(laser, s[j]) {
        j
    } else {
        first_enemy_hit_from(s, laser, dead, j + 1)
    }
}

/// First index at or after `j` holding an entity of kind `k` that overlaps
/// `target`, or `s.len()`.
pub open spec fn first_hit_from(s: Seq<Entity>, target: Entity, k: Kind, j: int) -> int
    decreases s.len() - j,
{
    if j < 0 || j >= s.len() {
        s.len() as int
    } else if s[j].kind == k && overlaps(s[j], target) {
        j
    } else {
        first_hit_from(s, target, k, j + 1)
    }
}

/// The player-laser pass over the lasers at or after `i`, with `dead` the
/// identities already despawned this tick. Yields the identities despawned
/// (including those in `dead`) and the positions where explosion requests
/// are due, one per kill, in kill order.
pub open spec fn pl_pass_from(s: Seq<Entity>, dead: Seq<u64>, i: int) -> (Seq<u64>, Seq<Vec2>)
    decreases s.len() - i,
{
    if i < 0 || i >= s.len() {
        (dead, Seq::empty())
    } else if s[i].kind == Kind::PlayerLaser && !dead.contains(s[i].id) {
        let j = first_enemy_hit_from(s, s[i], dead, 0);
        if j < s.len() {
            let marked = dead.push(s[j].id).push(s[i].id);
            let rest = pl_pass_from(s, marked, i + 1);
            (rest.0, seq![s[j].pos] + rest.1)
        } else {
            pl_pass_from(s, dead, i + 1)
        }
    } else {
        pl_pass_from(s, dead, i + 1)
    }
}

/// The entities of `s` at or after `i` whose identity is not in `dead`,
/// in order.
pub open spec fn remove_ids_from(s: Seq<Entity>, dead: Seq<u64>, i: int) -> Seq<Entity>
    decreases s.len() - i,
{
    if i < 0 || i >= s.len() {
        Seq::empty()
    } else {
        let rest = remove_ids_from(s, dead, i + 1);
        if dead.contains(s[i].id) {
            rest
        } else {
            seq![s[i]] + rest
        }
    }
}

/// A fresh entity of kind `k` at position `p`: the one-tick explosion
/// request marker, or a newly spawned explosion at frame zero.
pub open spec fn effect_entity(k: Kind, p: Vec2, id: u64) -> Entity {
    Entity {
        id,
        kind: k,
        pos: p,
        scale: Vec2 { x: 0, y: 0 },
        size: Vec2 { x: 0, y: 0 },
        vel: Vec2 { x: 0, y: 0 },
        movable: false,
        auto_despawn: false,
        timer_elapsed: 0,
        frame: 0,
    }
}

/// One entity of kind `k` per position at or after `j`, with identities
/// `next + j`, `next + j + 1`, ...
pub open spec fn spawn_effects_from(k: Kind, ps: Seq<Vec2>, next: u64, j: int) -> Seq<Entity>
    decreases ps.len() - j,
{
    if j < 0 || j >= ps.len() {
        Seq::empty()
    } else {
        seq![effect_entity(k, ps[j], (next + j) as u64)] + spawn_effects_from(k, ps, next, j + 1)
    }
}

/// Apply the deferred commands of a collision pass: remove every entity
/// whose identity is in `dead`, then spawn one entity of kind `k` per
/// listed position, with fresh identities.
pub(crate) fn apply_commands(world: &mut World, dead: &Vec<u64>, k: Kind, positions: &Vec<Vec2>)
    requires
        old(world).wf(),
        forall|t: int| 0 <= t < positions@.len() ==> pos_ok(#[trigger] positions@[t]),
        old(world).next_id + positions@.len() <= u64::MAX,
    ensures
        final(world)@ == remove_ids_from(old(world)@, dead@, 0)
            + spawn_effects_from(k, positions@, old(world).next_id, 0),
        final(world).next_id == old(world).next_id + positions@.len(),
        final(world).wf(),
{
    let ghost s = world@;
    let ghost next0 = world.next_id;
    let n = world.len();
    let mut out: Vec<Entity> = Vec::new();
    let mut i: usize = 0;
    while i < n
        invariant
            n == s.len(),
            world@ == s,
            world.next_id == next0,
            world.wf(),
            0 <= i <= n,
            remove_ids_from(s, dead@, 0) == out@ + remove_ids_from(s, dead@, i as int),
            forall|t: int| 0 <= t < out@.len()
                ==> exists|j: int| 0 <= j < i && #[trigger] out@[t] == s[j],
            ids_unique(out@),
            forall|t: int| 0 <= t < out@.len() ==> entity_ok(#[trigger] out@[t]),
            forall|t: int| 0 <= t < out@.len() ==> (#[trigger] out@[t]).id < next0,
        decreases n - i,
    {
        let e = world.entity_at(i);
        if !crate::world::ids_contain(dead, e.id) {
            proof {
                assert forall|t: int| 0 <= t < out@.len()
                    implies (#[trigger] out@[t]).id != e.id by {
                    let j = choose|j: int| 0 <= j < i && out@[t] == s[j];
                    assert(out@[t].id == s[j].id);
                };
            }
            out.push(e);
        }
        proof {
            assert(remove_ids_from(s, dead@, i as int)
                == if dead@.contains(s[i as int].id) {
                    remove_ids_from(s, dead@, i as int + 1)
                } else {
                    seq![s[i as int]] + remove_ids_from(s, dead@, i as int + 1)
                });
            assert(remove_ids_from(s, dead@, 0)
                =~= out@ + remove_ids_from(s, dead@, i as int + 1));
        }
        i = i + 1;
    }
    proof {
        assert(remove_ids_from(s, dead@, n as int) =~= Seq::<Entity>::empty());
        assert(remove_ids_from(s, dead@, 0) =~= out@);
    }
    let m = positions.len();
    let ghost base = out@;
    let mut t: usize = 0;
    while t < m
        invariant
            m == positions@.len(),
            0 <= t <= m,
            next0 + m <= u64::MAX,
            world.next_id == next0,
            forall|q: int| 0 <= q < positions@.len() ==> pos_ok(#[trigger] positions@[q]),
            base + spawn_effects_from(k, positions@, next0, 0)
                == out@ + spawn_effects_from(k, positions@, next0, t as int),
            ids_unique(out@),
            forall|q: int| 0 <= q < out@.len() ==> entity_ok(#[trigger] out@[q]),
            forall|q: int| 0 <= q < out@.len() ==> (#[trigger] out@[q]).id < next0 + t,
        decreases m - t,
    {
        let fresh = Entity {
            id: world.next_id + t as u64,
            kind: k,
            pos: positions[t],
            scale: Vec2 { x: 0, y: 0 },
            size: Vec2 { x: 0, y: 0 },
            vel: Vec2 { x: 0, y: 0 },
            movable: false,
            auto_despawn: false,
            timer_elapsed: 0,
            frame: 0,
        };
        assert(fresh == effect_entity(k, positions@[t as int], (next0 + t) as u64));
        out.push(fresh);
        proof {
            assert(spawn_effects_from(k, positions@, next0, t as int)
                == seq![effect_entity(k, positions@[t as int], (next0 + t) as u64)]
                    + spawn_effects_from(k, positions@, next0, t as int + 1));
            assert(base + spawn_effects_from(k, positions@, next0, 0)
                =~= out@ + spawn_effects_from(k, positions@, next0, t as int + 1));
        }
        t = t + 1;
    }
    proof {
        assert(spawn_effects_from(k, positions@, next0, m as int) =~= Seq::<Entity>::empty());
        assert(out@ =~= base + spawn_effects_from(k, positions@, next0, 0));
    }
    world.entities = out;
    world.next_id = world.next_id + m as u64;
}

/// What the first-hit scan found: a live, overlapping enemy.
proof fn lemma_first_enemy_hit_props(s: Seq<Entity>, laser: Entity, dead: Seq<u64>, j: int)
    requires
        0 <= j,
        first_enemy_hit_from(s, laser, dead, j) < s.len(),
    ensures
        j <= first_enemy_hit_from(s, laser, dead, j) < s.len(),
        s[first_enemy_hit_from(s, laser, dead, j)].kind == Kind::Enemy,
        !dead.contains(s[first_enemy_hit_from(s, laser, dead, j)].id),
        overlaps(laser, s[first_enemy_hit_from(s, laser, dead, j)]),
    decreases s.len() - j,
{
    if j >= s.len() {
    } else if s[j].kind == Kind::Enemy && !dead.contains(s[j].id) && overlaps(laser, s[j]) {
    } else {
        lemma_first_enemy_hit_props(s, laser, dead, j + 1);
    }
}

/// Marking one live entity of kind `k` dead lowers the live count by one
/// exactly when it sits in the counted suffix.
proof fn lemma_count_live_mark(s: Seq<Entity>, k: Kind, dead: Seq<u64>, m: int, i: int)
    requires
        ids_unique(s),
        0 <= m < s.len(),
        s[m].kind == k,
        !dead.contains(s[m].id),
        0 <= i <= s.len(),
    ensures
        count_live_from(s, k, dead.push(s[m].id), i)
            == count_live_from(s, k, dead, i) - (if i <= m { 1int } else { 0int }),
    decreases s.len() - i,
{
    let marked = dead.push(s[m].id);
    if i >= s.len() {
    } else {
        lemma_count_live_mark(s, k, dead, m, i + 1);
        if i == m {
            assert(marked.contains(s[m].id)) by {
                assert(marked[marked.len() - 1] == s[m].id);
            };
        } else {
            assert(s[i].id != s[m].id);
            assert(marked.contains(s[i].id) == dead.contains(s[i].id)) by {
                if dead.contains(s[i].id) {
                    let w = choose|w: int| 0 <= w < dead.len() && dead[w] == s[i].id;
                    assert(marked[w] == s[i].id);
                }
                if marked.contains(s[i].id) {
                    let w = choose|w: int| 0 <= w < marked.len() && marked[w] == s[i].id;
                    assert(w < dead.len());
                }
            };
        }
    }
}

/// Marking an identity that no entity of kind `k` carries leaves the live
/// count of `k` alone.
proof fn lemma_count_live_other(s: Seq<Entity>, k: Kind, dead: Seq<u64>, x: u64, i: int)
    requires
        forall|j: int| 0 <= j < s.len() && (#[trigger] s[j]).id == x ==> s[j].kind != k,
        0 <= i <= s.len(),
    ensures
        count_live_from(s, k, dead.push(x), i) == count_live_from(s, k, dead, i),
    decreases s.len() - i,
{
    let marked = dead.push(x);
    if i >= s.len() {
    } else {
        lemma_count_live_other(s, k, dead, x, i + 1);
        assert(s[i].id != x || s[i].kind != k);
        assert(marked.contains(s[i].id) == dead.contains(s[i].id) || s[i].id == x) by {
            if dead.contains(s[i].id) {
                let w = choose|w: int| 0 <= w < dead.len() && dead[w] == s[i].id;
                assert(marked[w] == s[i].id);
            }
            if marked.contains(s[i].id) && s[i].id != x {
                let w = choose|w: int| 0 <= w < marked.len() && marked[w] == s[i].id;
                assert(w < dead.len());
            }
        };
    }
}

/// Each kill claims a distinct live enemy, so the number of kills is bounded
/// by the live enemy count.
pub proof fn lemma_pl_kills_bound(s: Seq<Entity>, dead: Seq<u64>, i: int)
    requires
        ids_unique(s),
        0 <= i,
    ensures
        pl_pass_from(s, dead, i).1.len() <= count_live_from(s, Kind::Enemy, dead, 0),
    decreases s.len() - i,
{
    if i >= s.len() {
    } else if s[i].kind == Kind::PlayerLaser && !dead.contains(s[i].id) {
        let j = first_enemy_hit_from(s, s[i], dead, 0);
        if j < s.len() {
            lemma_first_enemy_hit_props(s, s[i], dead, 0);
            let d1 = dead.push(s[j].id);
            let marked = d1.push(s[i].id);
            lemma_count_live_mark(s, Kind::Enemy, dead, j, 0);
            assert forall|w: int| 0 <= w < s.len() && (#[trigger] s[w]).id == s[i].id
                implies s[w].kind != Kind::Enemy by {
                assert(w == i);
            };
            lemma_count_live_other(s, Kind::Enemy, d1, s[i].id, 0);
            lemma_pl_kills_bound(s, marked, i + 1);
        } else {
            lemma_pl_kills_bound(s, dead, i + 1);
        }
    } else {
        lemma_pl_kills_bound(s, dead, i + 1);
    }
}

/// The positions an explosion request is due at all belong to the playfield.
proof fn lemma_pl_requests_pos_ok(s: Seq<Entity>, dead: Seq<u64>, i: int)
    requires
        forall|j: int| 0 <= j < s.len() ==> entity_ok(#[trigger] s[j]),
        0 <= i,
    ensures
        forall|t: int| 0 <= t < pl_pass_from(s, dead, i).1.len()
            ==> pos_ok(#[trigger] pl_pass_from(s, dead, i).1[t]),
    decreases s.len() - i,
{
    if i >= s.len() {
        assert(pl_pass_from(s, dead, i).1 =~= Seq::<Vec2>::empty());
    } else if s[i].kind == Kind::PlayerLaser && !dead.contains(s[i].id) {
        let j = first_enemy_hit_from(s, s[i], dead, 0);
        if j < s.len() {
            lemma_first_enemy_hit_props(s, s[i], dead, 0);
            let marked = dead.push(s[j].id).push(s[i].id);
            lemma_pl_requests_pos_ok(s, marked, i + 1);
            let cur = pl_pass_from(s, dead, i).1;
            let rest = pl_pass_from(s, marked, i + 1).1;
            assert(cur == seq![s[j].pos] + rest);
            assert forall|t: int| 0 <= t < cur.len() implies pos_ok(#[trigger] cur[t]) by {
                if t == 0 {
                    assert(cur[0] == s[j].pos);
                } else {
                    assert(cur[t] == rest[t - 1]);
                    assert(pos_ok(rest[t - 1]));
                }
            };
        } else {
            lemma_pl_requests_pos_ok(s, dead, i + 1);
            let cur = pl_pass_from(s, dead, i).1;
            let rest = pl_pass_from(s, dead, i + 1).1;
            assert(cur == rest);
            assert forall|t: int| 0 <= t < cur.len() implies pos_ok(#[trigger] cur[t]) by {
                assert(pos_ok(rest[t]));
            };
        }
    } else {
        lemma_pl_requests_pos_ok(s, dead, i + 1);
        let cur = pl_pass_from(s, dead, i).1;
        let rest = pl_pass_from(s, dead, i + 1).1;
        assert(cur == rest);
        assert forall|t: int| 0 <= t < cur.len() implies pos_ok(#[trigger] cur[t]) by {
            assert(pos_ok(rest[t]));
        };
    }
}

/// Player lasers against enemies: each laser kills at most the first live
/// overlapping enemy in entity order; per kill the enemy and the laser
/// despawn, the enemy count falls by one, the score rises by one, and an
/// explosion request is left at the enemy's position.
pub fn player_laser_hit_enemy_system(
    world: &mut World,
    enemy_count: &mut EnemyCount,
    scoreboard: &mut Scoreboard,
)
    requires
        old(world).wf(),
        count_kind(old(world)@, Kind::Enemy) <= old(enemy_count).0,
        old(scoreboard).score + count_kind(old(world)@, Kind::Enemy) <= usize::MAX,
        old(world).next_id + count_kind(old(world)@, Kind::Enemy) <= u64::MAX,
    ensures
        ({
            let pass = pl_pass_from(old(world)@, Seq::empty(), 0);
            &&& final(world)@ == remove_ids_from(old(world)@, pass.0, 0)
                + spawn_effects_from(Kind::ExplosionToSpawn, pass.1, old(world).next_id, 0)
            &&& final(world).next_id == old(world).next_id + pass.1.len()
            &&& final(enemy_count).0 == old(enemy_count).0 - pass.1.len()
            &&& final(scoreboard).score == old(scoreboard).score + pass.1.len()
            &&& final(world).wf()
        }),
{
    let ghost s = world@;
    let n = world.len();
    let mut dead: Vec<u64> = Vec::new();
    let mut reqs: Vec<Vec2> = Vec::new();
    let mut i: usize = 0;
    while i < n
        invariant
            n == s.len(),
            world@ == s,
            world.wf(),
            0 <= i <= n,
            pl_pass_from(s, Seq::empty(), 0).0 == pl_pass_from(s, dead@, i as int).0,
            pl_pass_from(s, Seq::empty(), 0).1 == reqs@ + pl_pass_from(s, dead@, i as int).1,
        decreases n - i,
    {
        let e = world.entity_at(i);
        if matches!(e.kind, Kind::PlayerLaser) && !crate::world::ids_contain(&dead, e.id) {
            let hit = find_enemy_hit(world, &dead, &e);
            match hit {
                Some(j) => {
                    let enemy = world.entity_at(j);
                    let ghost d0 = dead@;
                    dead.push(enemy.id);
                    dead.push(e.id);
                    reqs.push(enemy.pos);
                    proof {
                        let marked = d0.push(enemy.id).push(e.id);
                        assert(dead@ == marked);
                        assert(pl_pass_from(s, d0, i as int).0
                            == pl_pass_from(s, marked, i as int + 1).0);
                        assert(pl_pass_from(s, d0, i as int).1
                            == seq![s[j as int].pos] + pl_pass_from(s, marked, i as int + 1).1);
                        assert(pl_pass_from(s, Seq::empty(), 0).1
                            =~= reqs@ + pl_pass_from(s, marked, i as int + 1).1);
                    }
                }
                None => {
                    proof {
                        assert(pl_pass_from(s, dead@, i as int)
                            == pl_pass_from(s, dead@, i as int + 1));
                    }
                }
            }
        } else {
            proof {
                assert(pl_pass_from(s, dead@, i as int)
                    == pl_pass_from(s, dead@, i as int + 1));
            }
        }
        i = i + 1;
    }
    proof {
        assert(pl_pass_from(s, dead@, n as int).0 == dead@);
        assert(pl_pass_from(s, dead@, n as int).1 =~= Seq::<Vec2>::empty());
        assert(pl_pass_from(s, Seq::empty(), 0).0 == dead@);
        assert(pl_pass_from(s, Seq::empty(), 0).1 =~= reqs@);
        lemma_pl_kills_bound(s, Seq::empty(), 0);
        lemma_pl_requests_pos_ok(s, Seq::empty(), 0);
    }
    let kills = reqs.len();
    enemy_count.0 = enemy_count.0 - kills as u32;
    scoreboard.score = scoreboard.score + kills;
    apply_commands(world, &dead, Kind::ExplosionToSpawn, &reqs);
}

/// Enemy lasers against the player. With exactly one player present (the
/// singleton query; zero or several players mean the pass does nothing), the
/// first enemy laser in entity order that overlaps it kills: the player and
/// that laser despawn, the death and its time are recorded, the score resets
/// to zero, and an explosion request is left at the player's position.
/// Scanning stops at the first hit: there is no player left.
pub fn enemy_laser_hit_player_system(
    world: &mut World,
    player_state: &mut PlayerState,
    time: i64,
    scoreboard: &mut Scoreboard,
)
    requires
        old(world).wf(),
        old(world).next_id < u64::MAX,
    ensures
        ({
            let s = old(world)@;
            let pi = find_kind_from(s, Kind::Player, 0);
            let li = if count_kind(s, Kind::Player) == 1 {
                first_hit_from(s, s[pi], Kind::EnemyLaser, 0)
            } else {
                s.len() as int
            };
            if count_kind(s, Kind::Player) == 1 && li < s.len() {
                &&& final(world)@ == remove_ids_from(s, seq![s[pi].id, s[li].id], 0)
                    + seq![effect_entity(Kind::ExplosionToSpawn, s[pi].pos, old(world).next_id)]
                &&& final(world).next_id == old(world).next_id + 1
                &&& !final(player_state).on
                &&& final(player_state).last_shot == time
                &&& final(scoreboard).score == 0
            } else {
                &&& final(world)@ == s
                &&& final(world).next_id == old(world).next_id
                &&& *final(player_state) == *old(player_state)
                &&& *final(scoreboard) == *old(scoreboard)
            }
        }),
        final(world).wf(),
{
    let ghost s = world@;
    let n = world.len();
    let mut players: usize = 0;
    let mut pi: usize = n;
    let mut i: usize = 0;
    while i < n
        invariant
            n == s.len(),
            world@ == s,
            world.wf(),
            0 <= i <= n,
            players <= i,
            players + count_live_from(s, Kind::Player, Seq::empty(), i as int)
                == count_kind(s, Kind::Player),
            pi <= n,
            pi == n ==> players == 0 && find_kind_from(s, Kind::Player, 0)
                == find_kind_from(s, Kind::Player, i as int),
            pi < n ==> pi < i && find_kind_from(s, Kind::Player, 0) == pi as int,
            world.next_id == old(world).next_id,
            old(world).next_id < u64::MAX,
        decreases n - i,
    {
        let e = world.entity_at(i);
        if matches!(e.kind, Kind::Player) {
            players = players + 1;
            if pi == n {
                pi = i;
                assert(find_kind_from(s, Kind::Player, i as int) == i);
            }
        } else {
            proof {
                assert(find_kind_from(s, Kind::Player, i as int)
                    == find_kind_from(s, Kind::Player, i as int + 1));
            }
        }
        i = i + 1;
    }
    proof {
        assert(count_live_from(s, Kind::Player, Seq::empty(), n as int) == 0);
        assert(find_kind_from(s, Kind::Player, n as int) == n);
    }
    if players != 1 {
        return;
    }
    let player = world.entity_at(pi);
    assert(player == s[find_kind_from(s, Kind::Player, 0)]);
    let mut j: usize = 0;
    while j < n
        invariant
            n == s.len(),
            world@ == s,
            world.wf(),
            entity_ok(player),
            0 <= j <= n,
            first_hit_from(s, player, Kind::EnemyLaser, 0)
                == first_hit_from(s, player, Kind::EnemyLaser, j as int),
            world.next_id == old(world).next_id,
            old(world).next_id < u64::MAX,
            count_kind(s, Kind::Player) == 1,
            pi < n,
            find_kind_from(s, Kind::Player, 0) == pi as int,
            player == s[pi as int],
            *player_state == *old(player_state),
            *scoreboard == *old(scoreboard),
            s == old(world)@,
        decreases n - j,
    {
        let e = world.entity_at(j);
        if matches!(e.kind, Kind::EnemyLaser) && collide(&e, &player) {
            assert(first_hit_from(s, player, Kind::EnemyLaser, j as int) == j);
            player_state.shot(time);
            scoreboard.score = 0;
            let mut dead: Vec<u64> = Vec::new();
            dead.push(player.id);
            dead.push(e.id);
            let mut positions: Vec<Vec2> = Vec::new();
            positions.push(player.pos);
            proof {
                assert(first_hit_from(s, player, Kind::EnemyLaser, 0) == j as int);
                assert(dead@ =~= seq![s[find_kind_from(s, Kind::Player, 0)].id, s[j as int].id]);
                assert(positions@[0] == player.pos);
                assert(spawn_effects_from(Kind::ExplosionToSpawn, positions@, world.next_id, 1)
                    =~= Seq::<Entity>::empty());
                assert((world.next_id + 0int) as u64 == world.next_id);
                assert(spawn_effects_from(Kind::ExplosionToSpawn, positions@, world.next_id, 0)
                    =~= seq![effect_entity(Kind::ExplosionToSpawn, player.pos, world.next_id)]);
            }
            let ghost next0 = world.next_id;
            apply_commands(world, &dead, Kind::ExplosionToSpawn, &positions);
            proof {
                let pi_spec = find_kind_from(s, Kind::Player, 0);
                let li_spec = first_hit_from(s, s[pi_spec], Kind::EnemyLaser, 0);
                assert(count_kind(s, Kind::Player) == 1);
                assert(pi_spec == pi as int);
                assert(s[pi_spec] == player);
                assert(li_spec == j as int);
                assert(li_spec < s.len());
                assert(next0 == old(world).next_id);
                assert(dead@ == seq![s[pi_spec].id, s[li_spec].id]);
                assert(world@ == remove_ids_from(s, seq![s[pi_spec].id, s[li_spec].id], 0)
                    + seq![effect_entity(Kind::ExplosionToSpawn, s[pi_spec].pos, old(world).next_id)]);
            }
            return;
        }
        proof {
            assert(first_hit_from(s, player, Kind::EnemyLaser, j as int)
                == first_hit_from(s, player, Kind::EnemyLaser, j as int + 1));
        }
        j = j + 1;
    }
    proof {
        assert(first_hit_from(s, player, Kind::EnemyLaser, n as int) == n);
    }
}

/// Scan for the first live enemy overlapping `laser`.
fn find_enemy_hit(world: &World, dead: &Vec<u64>, laser: &Entity) -> (r: Option<usize>)
    requires
        world.wf(),
        entity_ok(*laser),
    ensures
        match r {
            Some(j) => j == first_enemy_hit_from(world@, *laser, dead@, 0)
                && j < world@.len(),
            None => first_enemy_hit_from(world@, *laser, dead@, 0) == world@.len(),
        },
{
    let ghost s = world@;
    let n = world.len();
    let mut j: usize = 0;
    while j < n
        invariant
            n == s.len(),
            world@ == s,
            world.wf(),
            entity_ok(*laser),
            0 <= j <= n,
            first_enemy_hit_from(s, *laser, dead@, 0)
                == first_enemy_hit_from(s, *laser, dead@, j as int),
        decreases n - j,
    {
        let e = world.entity_at(j);
        if matches!(e.kind, Kind::Enemy) && !crate::world::ids_contain(dead, e.id)
            && collide(laser, &e) {
            assert(first_enemy_hit_from(s, *laser, dead@, j as int) == j);
            return Some(j);
        }
        proof {
            assert(first_enemy_hit_from(s, *laser, dead@, j as int)
                == first_enemy_hit_from(s, *laser, dead@, j as int + 1));
        }
        j = j + 1;
    }
    None
}


/// No enemy overlaps `laser`: the scan finds nothing.
proof fn lemma_first_enemy_hit_none(s: Seq<Entity>, laser: Entity, dead: Seq<u64>, j: int)
    requires
        0 <= j,
        forall|m: int| 0 <= m < s.len() && (#[trigger] s[m]).kind == Kind::Enemy
            ==> !overlaps(laser, s[m]),
    ensures
        first_enemy_hit_from(s, laser, dead, j) == s.len(),
    decreases s.len() - j,
{
    if j < s.len() {
        lemma_first_enemy_hit_none(s, laser, dead, j + 1);
    }
}

/// No entity of kind `k` overlaps `target`: the scan finds nothing.
pub proof fn lemma_first_hit_none(s: Seq<Entity>, target: Entity, k: Kind, j: int)
    requires
        0 <= j,
        forall|m: int| 0 <= m < s.len() && (#[trigger] s[m]).kind == k
            ==> !overlaps(s[m], target),
    ensures
        first_hit_from(s, target, k, j) == s.len(),
    decreases s.len() - j,
{
    if j < s.len() {
        lemma_first_hit_none(s, target, k, j + 1);
    }
}

/// Law (no double despawn, part one): on a world where no player laser
/// overlaps any enemy, the player-laser pass despawns nothing and requests
/// nothing; run once or again on the unchanged world, nothing changes.
pub proof fn lemma_pl_pass_no_overlap(s: Seq<Entity>, dead: Seq<u64>, i: int)
    requires
        0 <= i,
        forall|a: int, b: int| 0 <= a < s.len() && 0 <= b < s.len()
            && (#[trigger] s[a]).kind == Kind::PlayerLaser && (#[trigger] s[b]).kind == Kind::Enemy
            ==> !overlaps(s[a], s[b]),
    ensures
        pl_pass_from(s, dead, i).0 == dead,
        pl_pass_from(s, dead, i).1 == Seq::<Vec2>::empty(),
    decreases s.len() - i,
{
    if i >= s.len() {
    } else {
        if s[i].kind == Kind::PlayerLaser && !dead.contains(s[i].id) {
            assert forall|m: int| 0 <= m < s.len() && (#[trigger] s[m]).kind == Kind::Enemy
                implies !overlaps(s[i], s[m]) by {
                assert(!overlaps(s[i], s[m]));
            };
            lemma_first_enemy_hit_none(s, s[i], dead, 0);
        }
        lemma_pl_pass_no_overlap(s, dead, i + 1);
    }
}

/// Nothing in `dead` names an entity at or after `i`: removal keeps the
/// suffix as it stands.
pub proof fn lemma_remove_ids_none(s: Seq<Entity>, dead: Seq<u64>, i: int)
    requires
        0 <= i <= s.len(),
        forall|j: int| i <= j < s.len() ==> !dead.contains((#[trigger] s[j]).id),
    ensures
        remove_ids_from(s, dead, i) == s.subrange(i, s.len() as int),
    decreases s.len() - i,
{
    if i >= s.len() {
        assert(remove_ids_from(s, dead, i) =~= s.subrange(i, s.len() as int));
    } else {
        lemma_remove_ids_none(s, dead, i + 1);
        assert(remove_ids_from(s, dead, i)
            =~= s.subrange(i, s.len() as int));
    }
}

/// Law (collision idempotence): one player laser overlapping two enemies at
/// once kills exactly one of them, the first in entity order: that enemy and
/// the laser despawn, exactly one explosion request is left at that enemy's
/// position, and the other enemy is exactly what remains. Since the pass's
/// contract moves the score and the enemy count by the number of requests,
/// both change by exactly one unit.
pub proof fn lemma_one_laser_two_enemies(l: Entity, e1: Entity, e2: Entity)
    requires
        l.kind == Kind::PlayerLaser,
        e1.kind == Kind::Enemy,
        e2.kind == Kind::Enemy,
        l.id != e1.id,
        l.id != e2.id,
        e1.id != e2.id,
        overlaps(l, e1),
        overlaps(l, e2),
    ensures
        ({
            let s = seq![l, e1, e2];
            let pass = pl_pass_from(s, Seq::empty(), 0);
            &&& pass.0 == seq![e1.id, l.id]
            &&& pass.1 == seq![e1.pos]
            &&& remove_ids_from(s, pass.0, 0) == seq![e2]
        }),
{
    let s = seq![l, e1, e2];
    let none: Seq<u64> = Seq::empty();
    assert(s[0] == l && s[1] == e1 && s[2] == e2);
    assert(!none.contains(l.id));
    assert(!none.contains(e1.id));
    assert(first_enemy_hit_from(s, l, none, 1) == 1);
    assert(first_enemy_hit_from(s, l, none, 0) == 1);
    let marked = none.push(e1.id).push(l.id);
    assert(marked =~= seq![e1.id, l.id]);
    assert(pl_pass_from(s, marked, 3) == (marked, Seq::<Vec2>::empty()));
    assert(pl_pass_from(s, marked, 2) == (marked, Seq::<Vec2>::empty()));
    assert(pl_pass_from(s, marked, 1) == (marked, Seq::<Vec2>::empty()));
    let pass = pl_pass_from(s, none, 0);
    assert(pass.0 == marked);
    assert(pass.1 =~= seq![e1.pos]);
    assert(marked.contains(l.id)) by {
        assert(marked[1] == l.id);
    };
    assert(marked.contains(e1.id)) by {
        assert(marked[0] == e1.id);
    };
    assert(!marked.contains(e2.id)) by {
        assert(forall|w: int| 0 <= w < marked.len() ==> marked[w] != e2.id);
    };
    assert(remove_ids_from(s, marked, 3) =~= Seq::<Entity>::empty());
    assert(remove_ids_from(s, marked, 2) =~= seq![e2]);
    assert(remove_ids_from(s, marked, 1) =~= seq![e2]);
    assert(remove_ids_from(s, marked, 0) =~= seq![e2]);
}

} // verus!
