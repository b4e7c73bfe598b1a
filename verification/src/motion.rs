//! Motion: every movable entity advances by its velocity scaled by the
//! fixed timestep and the base speed; auto-despawning entities are removed
//! on the first tick their new position leaves the window grown by `MARGIN`.

use vstd::prelude::*;
use crate::world::{Entity, Vec2, WinSize, World, entity_ok, ids_unique, win_ok, DIM_LIMIT, POS_LIMIT};

verus! {

/// How far past the window an auto-despawning entity may travel before it is
/// removed.
pub const MARGIN: i64 = 200;

/// New x coordinate of `e` after one tick, as an unbounded integer.
pub open spec fn step_x(e: Entity, time_step: i64, base_speed: i64) -> int {
    e.pos.x + e.vel.x * time_step * base_speed
}

/// New y coordinate of `e` after one tick, as an unbounded integer.
pub open spec fn step_y(e: Entity, time_step: i64, base_speed: i64) -> int {
    e.pos.y + e.vel.y * time_step * base_speed
}

/// One tick's advance keeps the entity within the representable playfield.
pub open spec fn moved_in_range(e: Entity, time_step: i64, base_speed: i64) -> bool {
    &&& -POS_LIMIT <= step_x(e, time_step, base_speed) <= POS_LIMIT
    &&& -POS_LIMIT <= step_y(e, time_step, base_speed) <= POS_LIMIT
}

/// `e` after one motion tick: movable entities advance, everything else is
/// untouched.
pub open spec fn moved_entity(e: Entity, time_step: i64, base_speed: i64) -> Entity {
    if e.movable {
        Entity {
            pos: Vec2 {
                x: step_x(e, time_step, base_speed) as i64,
                y: step_y(e, time_step, base_speed) as i64,
            },
            ..e
        }
    } else {
        e
    }
}

/// Strictly outside the window rectangle grown by `MARGIN` on all four
/// sides. Coordinates are doubled rather than halving the window size, so
/// odd window sizes lose nothing.
pub open spec fn out_of_bounds(p: Vec2, win: WinSize) -> bool {
    ||| 2 * p.y > win.h + 2 * MARGIN
    ||| 2 * p.y < -(win.h + 2 * MARGIN)
    ||| 2 * p.x > win.w + 2 * MARGIN
    ||| 2 * p.x < -(win.w + 2 * MARGIN)
}

/// Whether the motion pass keeps `e`: only a movable, auto-despawning entity
/// whose advanced position left the bounds is removed.
pub open spec fn survives_motion(e: Entity, win: WinSize, time_step: i64, base_speed: i64) -> bool {
    !(e.movable && e.auto_despawn
        && out_of_bounds(moved_entity(e, time_step, base_speed).pos, win))
}

/// The motion pass over the entities of `s` from index `i` on: each survivor
/// appears moved, in its original order.
pub open spec fn motion_pass_from(
    s: Seq<Entity>,
    win: WinSize,
    time_step: i64,
    base_speed: i64,
    i: int,
) -> Seq<Entity>
    decreases s.len() - i,
{
    if i < 0 || i >= s.len() {
        Seq::empty()
    } else {
        let rest = motion_pass_from(s, win, time_step, base_speed, i + 1);
        if survives_motion(s[i], win, time_step, base_speed) {
            seq![moved_entity(s[i], time_step, base_speed)] + rest
        } else {
            rest
        }
    }
}

/// The whole motion pass.
pub open spec fn motion_pass(s: Seq<Entity>, win: WinSize, time_step: i64, base_speed: i64) -> Seq<Entity> {
    motion_pass_from(s, win, time_step, base_speed, 0)
}

/// A velocity scaled by timestep and base speed stays far inside `i64`.
proof fn lemma_step_bound(v: i64, time_step: i64, base_speed: i64)
    requires
        -DIM_LIMIT <= v <= DIM_LIMIT,
        0 <= time_step <= DIM_LIMIT,
        0 <= base_speed <= DIM_LIMIT,
    ensures
        -(DIM_LIMIT * DIM_LIMIT) <= v * time_step <= DIM_LIMIT * DIM_LIMIT,
        -0x1000_0000_0000_0000 <= v * time_step * base_speed <= 0x1000_0000_0000_0000,
{
    assert(-(DIM_LIMIT * DIM_LIMIT) <= v * time_step <= DIM_LIMIT * DIM_LIMIT)
        by (nonlinear_arith)
        requires
            -DIM_LIMIT <= v <= DIM_LIMIT,
            0 <= time_step <= DIM_LIMIT,
    ;
    assert(-0x1000_0000_0000_0000 <= (v * time_step) * base_speed <= 0x1000_0000_0000_0000)
        by (nonlinear_arith)
        requires
            -(DIM_LIMIT * DIM_LIMIT) <= v * time_step <= DIM_LIMIT * DIM_LIMIT,
            0 <= base_speed <= DIM_LIMIT,
    ;
}

/// Advance every movable entity and remove the auto-despawning ones that
/// left the bounds. Positions change by exactly `vel * time_step * base_speed`.
pub fn movable_system(world: &mut World, win: &WinSize, time_step: i64, base_speed: i64)
    requires
        old(world).wf(),
        win_ok(*win),
        0 <= time_step <= DIM_LIMIT,
        0 <= base_speed <= DIM_LIMIT,
        forall|i: int| 0 <= i < old(world)@.len()
            ==> moved_in_range(#[trigger] old(world)@[i], time_step, base_speed),
    ensures
        final(world)@ == motion_pass(old(world)@, *win, time_step, base_speed),
        final(world).next_id == old(world).next_id,
        final(world).wf(),
{
    let ghost s = world@;
    let n = world.len();
    let mut out: Vec<Entity> = Vec::new();
    let mut i: usize = 0;
    while i < n
        invariant
            n == s.len(),
            0 <= i <= n,
            world@ == s,
            world.wf(),
            0 <= time_step <= DIM_LIMIT,
            0 <= base_speed <= DIM_LIMIT,
            win_ok(*win),
            forall|j: int| 0 <= j < s.len() ==> moved_in_range(#[trigger] s[j], time_step, base_speed),
            motion_pass(s, *win, time_step, base_speed)
                == out@ + motion_pass_from(s, *win, time_step, base_speed, i as int),
            forall|k: int| 0 <= k < out@.len()
                ==> exists|j: int| 0 <= j < i
                    && #[trigger] out@[k] == moved_entity(s[j], time_step, base_speed),
            ids_unique(out@),
            forall|k: int| 0 <= k < out@.len() ==> entity_ok(#[trigger] out@[k]),
            forall|k: int| 0 <= k < out@.len() ==> (#[trigger] out@[k]).id < world.next_id,
        decreases n - i,
    {
        let e = world.entity_at(i);
        let moved: Entity = if e.movable {
            proof {
                lemma_step_bound(e.vel.x, time_step, base_speed);
                lemma_step_bound(e.vel.y, time_step, base_speed);
            }
            let nx = e.pos.x + e.vel.x * time_step * base_speed;
            let ny = e.pos.y + e.vel.y * time_step * base_speed;
            Entity { pos: Vec2 { x: nx, y: ny }, ..e }
        } else {
            e
        };
        assert(moved == moved_entity(e, time_step, base_speed));
        let keep = if moved.movable && moved.auto_despawn {
            let limit_y = win.h + 2 * MARGIN;
            let limit_x = win.w + 2 * MARGIN;
            !(2 * moved.pos.y > limit_y || 2 * moved.pos.y < -limit_y
                || 2 * moved.pos.x > limit_x || 2 * moved.pos.x < -limit_x)
        } else {
            true
        };
        assert(keep == survives_motion(e, *win, time_step, base_speed));
        if keep {
            proof {
                assert(entity_ok(moved));
                assert forall|k: int| 0 <= k < out@.len()
                    implies (#[trigger] out@[k]).id != moved.id by {
                    let j = choose|j: int| 0 <= j < i
                        && out@[k] == moved_entity(s[j], time_step, base_speed);
                    assert(out@[k].id == s[j].id);
                };
            }
            out.push(moved);
        }
        proof {
            assert(motion_pass_from(s, *win, time_step, base_speed, i as int)
                == if survives_motion(s[i as int], *win, time_step, base_speed) {
                    seq![moved_entity(s[i as int], time_step, base_speed)]
                        + motion_pass_from(s, *win, time_step, base_speed, i as int + 1)
                } else {
                    motion_pass_from(s, *win, time_step, base_speed, i as int + 1)
                });
            assert(motion_pass(s, *win, time_step, base_speed)
                =~= out@ + motion_pass_from(s, *win, time_step, base_speed, i as int + 1));
        }
        i = i + 1;
    }
    proof {
        assert(motion_pass_from(s, *win, time_step, base_speed, n as int) =~= Seq::<Entity>::empty());
        assert(motion_pass(s, *win, time_step, base_speed) =~= out@);
    }
    world.entities = out;
}

/// Every entity the pass keeps is the moved image of a surviving source
/// entity at or after `i`.
pub proof fn lemma_motion_pass_elems(s: Seq<Entity>, win: WinSize, time_step: i64, base_speed: i64, i: int)
    ensures
        forall|k: int| 0 <= k < motion_pass_from(s, win, time_step, base_speed, i).len()
            ==> exists|j: int| i <= j < s.len()
                && survives_motion(s[j], win, time_step, base_speed)
                && #[trigger] motion_pass_from(s, win, time_step, base_speed, i)[k]
                    == moved_entity(s[j], time_step, base_speed),
    decreases s.len() - i,
{
    if i < 0 || i >= s.len() {
    } else {
        lemma_motion_pass_elems(s, win, time_step, base_speed, i + 1);
        let cur = motion_pass_from(s, win, time_step, base_speed, i);
        let rest = motion_pass_from(s, win, time_step, base_speed, i + 1);
        if survives_motion(s[i], win, time_step, base_speed) {
            assert forall|k: int| 0 <= k < cur.len()
                implies exists|j: int| i <= j < s.len()
                    && survives_motion(s[j], win, time_step, base_speed)
                    && #[trigger] cur[k] == moved_entity(s[j], time_step, base_speed) by {
                if k == 0 {
                    assert(cur[k] == moved_entity(s[i], time_step, base_speed));
                } else {
                    assert(cur[k] == rest[k - 1]);
                    let j = choose|j: int| i + 1 <= j < s.len()
                        && survives_motion(s[j], win, time_step, base_speed)
                        && rest[k - 1] == moved_entity(s[j], time_step, base_speed);
                    assert(cur[k] == moved_entity(s[j], time_step, base_speed));
                }
            };
        } else {
            assert(cur == rest);
            assert forall|k: int| 0 <= k < cur.len()
                implies exists|j: int| i <= j < s.len()
                    && survives_motion(s[j], win, time_step, base_speed)
                    && #[trigger] cur[k] == moved_entity(s[j], time_step, base_speed) by {
                let j = choose|j: int| i + 1 <= j < s.len()
                    && survives_motion(s[j], win, time_step, base_speed)
                    && rest[k] == moved_entity(s[j], time_step, base_speed);
                assert(cur[k] == moved_entity(s[j], time_step, base_speed));
            };
        }
    }
}

/// A surviving entity is kept by the pass, as its moved image.
pub proof fn lemma_motion_pass_keeps(s: Seq<Entity>, win: WinSize, time_step: i64, base_speed: i64, i: int, j: int)
    requires
        0 <= i <= j < s.len(),
        survives_motion(s[j], win, time_step, base_speed),
    ensures
        exists|k: int| 0 <= k < motion_pass_from(s, win, time_step, base_speed, i).len()
            && motion_pass_from(s, win, time_step, base_speed, i)[k]
                == moved_entity(s[j], time_step, base_speed),
    decreases j - i,
{
    let cur = motion_pass_from(s, win, time_step, base_speed, i);
    let rest = motion_pass_from(s, win, time_step, base_speed, i + 1);
    if i == j {
        assert(cur[0] == moved_entity(s[j], time_step, base_speed));
    } else {
        lemma_motion_pass_keeps(s, win, time_step, base_speed, i + 1, j);
        let k = choose|k: int| 0 <= k < rest.len()
            && rest[k] == moved_entity(s[j], time_step, base_speed);
        if survives_motion(s[i], win, time_step, base_speed) {
            assert(cur[k + 1] == moved_entity(s[j], time_step, base_speed));
        } else {
            assert(cur[k] == moved_entity(s[j], time_step, base_speed));
        }
    }
}

/// The pass keeps identities unique.
pub proof fn lemma_motion_pass_ids_unique(s: Seq<Entity>, win: WinSize, time_step: i64, base_speed: i64, i: int)
    requires
        ids_unique(s),
    ensures
        ids_unique(motion_pass_from(s, win, time_step, base_speed, i)),
    decreases s.len() - i,
{
    if i < 0 || i >= s.len() {
    } else {
        lemma_motion_pass_ids_unique(s, win, time_step, base_speed, i + 1);
        lemma_motion_pass_elems(s, win, time_step, base_speed, i + 1);
        let cur = motion_pass_from(s, win, time_step, base_speed, i);
        let rest = motion_pass_from(s, win, time_step, base_speed, i + 1);
        if survives_motion(s[i], win, time_step, base_speed) {
            assert forall|p: int, q: int| 0 <= p < q < cur.len()
                implies cur[p].id != cur[q].id by {
                if p == 0 {
                    assert(cur[q] == rest[q - 1]);
                    let j = choose|j: int| i + 1 <= j < s.len()
                        && survives_motion(s[j], win, time_step, base_speed)
                        && rest[q - 1] == moved_entity(s[j], time_step, base_speed);
                    assert(cur[q].id == s[j].id);
                    assert(cur[p].id == s[i].id);
                } else {
                    assert(cur[p] == rest[p - 1]);
                    assert(cur[q] == rest[q - 1]);
                }
            };
        }
    }
}

/// `e` after `n` motion ticks.
pub open spec fn moved_n(e: Entity, time_step: i64, base_speed: i64, n: nat) -> Entity
    decreases n,
{
    if n == 0 {
        e
    } else {
        moved_entity(moved_n(e, time_step, base_speed, (n - 1) as nat), time_step, base_speed)
    }
}

/// The world after `n` motion passes.
pub open spec fn motion_iter(s: Seq<Entity>, win: WinSize, time_step: i64, base_speed: i64, n: nat) -> Seq<Entity>
    decreases n,
{
    if n == 0 {
        s
    } else {
        motion_pass(motion_iter(s, win, time_step, base_speed, (n - 1) as nat), win, time_step, base_speed)
    }
}

/// Every intermediate position of `e` stays representable through `n` ticks.
pub open spec fn route_in_range(e: Entity, time_step: i64, base_speed: i64, n: nat) -> bool {
    forall|m: nat| m < n
        ==> moved_in_range(#[trigger] moved_n(e, time_step, base_speed, m), time_step, base_speed)
}

/// After `n` ticks a movable entity has advanced by exactly
/// `n * vel * time_step * base_speed` on each axis; no other field changes.
pub proof fn lemma_moved_n_formula(e: Entity, time_step: i64, base_speed: i64, n: nat)
    requires
        e.movable,
        route_in_range(e, time_step, base_speed, n),
    ensures
        moved_n(e, time_step, base_speed, n).pos.x
            == e.pos.x + n * (e.vel.x * time_step * base_speed),
        moved_n(e, time_step, base_speed, n).pos.y
            == e.pos.y + n * (e.vel.y * time_step * base_speed),
        moved_n(e, time_step, base_speed, n)
            == (Entity { pos: moved_n(e, time_step, base_speed, n).pos, ..e }),
    decreases n,
{
    let dx = e.vel.x * time_step * base_speed;
    let dy = e.vel.y * time_step * base_speed;
    if n == 0 {
        assert(0 * dx == 0);
        assert(0 * dy == 0);
    } else {
        let m = (n - 1) as nat;
        lemma_moved_n_formula(e, time_step, base_speed, m);
        let prev = moved_n(e, time_step, base_speed, m);
        assert(moved_in_range(prev, time_step, base_speed));
        assert(n * dx == m * dx + dx) by (nonlinear_arith)
            requires
                n == m + 1,
        ;
        assert(n * dy == m * dy + dy) by (nonlinear_arith)
            requires
                n == m + 1,
        ;
    }
}

/// Law (motion): an entity with a velocity and `auto_despawn` false is never
/// removed by motion, whatever its position; after `n` ticks it is present
/// exactly once, at `initial position + n * vel * time_step * base_speed`.
pub proof fn lemma_motion_n_ticks(s: Seq<Entity>, win: WinSize, time_step: i64, base_speed: i64, n: nat, i: int)
    requires
        ids_unique(s),
        0 <= i < s.len(),
        s[i].movable,
        !s[i].auto_despawn,
        route_in_range(s[i], time_step, base_speed, n),
    ensures
        exists|k: int| 0 <= k < motion_iter(s, win, time_step, base_speed, n).len()
            && motion_iter(s, win, time_step, base_speed, n)[k]
                == moved_n(s[i], time_step, base_speed, n),
        forall|k: int| 0 <= k < motion_iter(s, win, time_step, base_speed, n).len()
            && (#[trigger] motion_iter(s, win, time_step, base_speed, n)[k]).id == s[i].id
            ==> motion_iter(s, win, time_step, base_speed, n)[k]
                == moved_n(s[i], time_step, base_speed, n),
        ids_unique(motion_iter(s, win, time_step, base_speed, n)),
        moved_n(s[i], time_step, base_speed, n).pos.x
            == s[i].pos.x + n * (s[i].vel.x * time_step * base_speed),
        moved_n(s[i], time_step, base_speed, n).pos.y
            == s[i].pos.y + n * (s[i].vel.y * time_step * base_speed),
    decreases n,
{
    lemma_moved_n_formula(s[i], time_step, base_speed, n);
    if n == 0 {
        assert(motion_iter(s, win, time_step, base_speed, n)[i] == s[i]);
    } else {
        let m = (n - 1) as nat;
        lemma_motion_n_ticks(s, win, time_step, base_speed, m, i);
        lemma_moved_n_formula(s[i], time_step, base_speed, m);
        let prevw = motion_iter(s, win, time_step, base_speed, m);
        let pe = moved_n(s[i], time_step, base_speed, m);
        let k0 = choose|k: int| 0 <= k < prevw.len() && prevw[k] == pe;
        assert(!pe.auto_despawn);
        assert(survives_motion(pe, win, time_step, base_speed));
        lemma_motion_pass_keeps(prevw, win, time_step, base_speed, 0, k0);
        lemma_motion_pass_elems(prevw, win, time_step, base_speed, 0);
        lemma_motion_pass_ids_unique(prevw, win, time_step, base_speed, 0);
        let curw = motion_iter(s, win, time_step, base_speed, n);
        assert(curw == motion_pass(prevw, win, time_step, base_speed));
        assert forall|k: int| 0 <= k < curw.len() && (#[trigger] curw[k]).id == s[i].id
            implies curw[k] == moved_n(s[i], time_step, base_speed, n) by {
            let j = choose|j: int| 0 <= j < prevw.len()
                && survives_motion(prevw[j], win, time_step, base_speed)
                && curw[k] == moved_entity(prevw[j], time_step, base_speed);
            assert(prevw[j].id == s[i].id);
            assert(prevw[j] == pe);
        };
    }
}

/// Law (bounds despawn): an auto-despawning movable entity is removed by the
/// motion pass exactly on the tick its advanced position leaves the window
/// grown by `MARGIN`, and kept (moved) on every earlier tick.
pub proof fn lemma_bounds_despawn(s: Seq<Entity>, win: WinSize, time_step: i64, base_speed: i64, i: int)
    requires
        ids_unique(s),
        0 <= i < s.len(),
        s[i].movable,
        s[i].auto_despawn,
    ensures
        out_of_bounds(moved_entity(s[i], time_step, base_speed).pos, win)
            ==> forall|k: int| 0 <= k < motion_pass(s, win, time_step, base_speed).len()
                ==> (#[trigger] motion_pass(s, win, time_step, base_speed)[k]).id != s[i].id,
        !out_of_bounds(moved_entity(s[i], time_step, base_speed).pos, win)
            ==> exists|k: int| 0 <= k < motion_pass(s, win, time_step, base_speed).len()
                && motion_pass(s, win, time_step, base_speed)[k]
                    == moved_entity(s[i], time_step, base_speed),
{
    let cur = motion_pass(s, win, time_step, base_speed);
    if out_of_bounds(moved_entity(s[i], time_step, base_speed).pos, win) {
        lemma_motion_pass_elems(s, win, time_step, base_speed, 0);
        assert forall|k: int| 0 <= k < cur.len()
            implies (#[trigger] cur[k]).id != s[i].id by {
            let j = choose|j: int| 0 <= j < s.len()
                && survives_motion(s[j], win, time_step, base_speed)
                && cur[k] == moved_entity(s[j], time_step, base_speed);
            assert(cur[k].id == s[j].id);
            if s[j].id == s[i].id {
                assert(j == i);
            }
        };
    } else {
        lemma_motion_pass_keeps(s, win, time_step, base_speed, 0, i);
    }
}

} // verus!
