//! Explosion lifecycle, in two phases: a one-tick spawn-request marker is
//! converted into an animated explosion, which advances a repeating timer
//! each tick and despawns itself once its frame index reaches the sprite
//! sheet's frame count.

use vstd::prelude::*;
use crate::world::{Entity, Kind, Vec2, World, entity_ok, ids_unique, pos_ok};
use crate::collision::{count_kind, effect_entity, spawn_effects_from};

verus! {

/// How many frames the explosion sprite sheet holds.
pub const EXPLOSION_LEN: u64 = 16;

/// The entities of `s` at or after `i` that are not of kind `k`, in order.
pub open spec fn remove_kind_from(s: Seq<Entity>, k: Kind, i: int) -> Seq<Entity>
    decreases s.len() - i,
{
    if i < 0 || i >= s.len() {
        Seq::empty()
    } else {
        let rest = remove_kind_from(s, k, i + 1);
        if s[i].kind == k {
            rest
        } else {
            seq![s[i]] + rest
        }
    }
}

/// The positions carried by the entities of kind `k` at or after `i`,
/// in order.
pub open spec fn kind_positions_from(s: Seq<Entity>, k: Kind, i: int) -> Seq<Vec2>
    decreases s.len() - i,
{
    if i < 0 || i >= s.len() {
        Seq::empty()
    } else {
        let rest = kind_positions_from(s, k, i + 1);
        if s[i].kind == k {
            seq![s[i].pos] + rest
        } else {
            rest
        }
    }
}

/// Convert every explosion spawn request into a live explosion at the
/// request's position, with a fresh timer and frame index zero, and destroy
/// the request. Each request is consumed exactly once.
pub fn explosion_to_spawn_system(world: &mut World)
    requires
        old(world).wf(),
        old(world).next_id + count_kind(old(world)@, Kind::ExplosionToSpawn) <= u64::MAX,
    ensures
        ({
            let reqs = kind_positions_from(old(world)@, Kind::ExplosionToSpawn, 0);
            &&& final(world)@ == remove_kind_from(old(world)@, Kind::ExplosionToSpawn, 0)
                + spawn_effects_from(Kind::Explosion, reqs, old(world).next_id, 0)
            &&& final(world).next_id == old(world).next_id + reqs.len()
            &&& final(world).wf()
        }),
{
    let ghost s = world@;
    let ghost next0 = world.next_id;
    let n = world.len();
    let mut out: Vec<Entity> = Vec::new();
    let mut reqs: Vec<Vec2> = Vec::new();
    let mut i: usize = 0;
    while i < n
        invariant
            n == s.len(),
            world@ == s,
            world.next_id == next0,
            world.wf(),
            0 <= i <= n,
            remove_kind_from(s, Kind::ExplosionToSpawn, 0)
                == out@ + remove_kind_from(s, Kind::ExplosionToSpawn, i as int),
            kind_positions_from(s, Kind::ExplosionToSpawn, 0)
                == reqs@ + kind_positions_from(s, Kind::ExplosionToSpawn, i as int),
            reqs@.len() + crate::collision::count_live_from(s, Kind::ExplosionToSpawn, Seq::empty(), i as int)
                == count_kind(s, Kind::ExplosionToSpawn),
            forall|t: int| 0 <= t < reqs@.len() ==> pos_ok(#[trigger] reqs@[t]),
            forall|t: int| 0 <= t < out@.len()
                ==> exists|j: int| 0 <= j < i && #[trigger] out@[t] == s[j],
            ids_unique(out@),
            forall|t: int| 0 <= t < out@.len() ==> entity_ok(#[trigger] out@[t]),
            forall|t: int| 0 <= t < out@.len() ==> (#[trigger] out@[t]).id < next0,
        decreases n - i,
    {
        let e = world.entity_at(i);
        if matches!(e.kind, Kind::ExplosionToSpawn) {
            reqs.push(e.pos);
            proof {
                assert(kind_positions_from(s, Kind::ExplosionToSpawn, 0)
                    =~= reqs@ + kind_positions_from(s, Kind::ExplosionToSpawn, i as int + 1));
            }
        } else {
            proof {
                assert forall|t: int| 0 <= t < out@.len()
                    implies (#[trigger] out@[t]).id != e.id by {
                    let j = choose|j: int| 0 <= j < i && out@[t] == s[j];
                    assert(out@[t].id == s[j].id);
                };
            }
            out.push(e);
            proof {
                assert(remove_kind_from(s, Kind::ExplosionToSpawn, 0)
                    =~= out@ + remove_kind_from(s, Kind::ExplosionToSpawn, i as int + 1));
            }
        }
        i = i + 1;
    }
    proof {
        assert(remove_kind_from(s, Kind::ExplosionToSpawn, n as int) =~= Seq::<Entity>::empty());
        assert(kind_positions_from(s, Kind::ExplosionToSpawn, n as int) =~= Seq::<Vec2>::empty());
        assert(remove_kind_from(s, Kind::ExplosionToSpawn, 0) =~= out@);
        assert(kind_positions_from(s, Kind::ExplosionToSpawn, 0) =~= reqs@);
        assert(crate::collision::count_live_from(s, Kind::ExplosionToSpawn, Seq::empty(), n as int) == 0);
    }
    let m = reqs.len();
    let ghost base = out@;
    let mut t: usize = 0;
    while t < m
        invariant
            m == reqs@.len(),
            0 <= t <= m,
            next0 + m <= u64::MAX,
            world.next_id == next0,
            forall|q: int| 0 <= q < reqs@.len() ==> pos_ok(#[trigger] reqs@[q]),
            base + spawn_effects_from(Kind::Explosion, reqs@, next0, 0)
                == out@ + spawn_effects_from(Kind::Explosion, reqs@, next0, t as int),
            ids_unique(out@),
            forall|q: int| 0 <= q < out@.len() ==> entity_ok(#[trigger] out@[q]),
            forall|q: int| 0 <= q < out@.len() ==> (#[trigger] out@[q]).id < next0 + t,
        decreases m - t,
    {
        let fresh = Entity {
            id: world.next_id + t as u64,
            kind: Kind::Explosion,
            pos: reqs[t],
            scale: Vec2 { x: 0, y: 0 },
            size: Vec2 { x: 0, y: 0 },
            vel: Vec2 { x: 0, y: 0 },
            movable: false,
            auto_despawn: false,
            timer_elapsed: 0,
            frame: 0,
        };
        assert(fresh == effect_entity(Kind::Explosion, reqs@[t as int], (next0 + t) as u64));
        out.push(fresh);
        proof {
            assert(base + spawn_effects_from(Kind::Explosion, reqs@, next0, 0)
                =~= out@ + spawn_effects_from(Kind::Explosion, reqs@, next0, t as int + 1));
        }
        t = t + 1;
    }
    proof {
        assert(spawn_effects_from(Kind::Explosion, reqs@, next0, m as int) =~= Seq::<Entity>::empty());
        assert(out@ =~= base + spawn_effects_from(Kind::Explosion, reqs@, next0, 0));
    }
    world.entities = out;
    world.next_id = world.next_id + m as u64;
}

/// One animation tick of `e`: an explosion accumulates `delta` on its timer;
/// each completed interval advances the frame index by one and restarts the
/// timer with the leftover time. Anything else is untouched.
pub open spec fn anim_entity(e: Entity, delta: u64, interval: u64) -> Entity {
    if e.kind == Kind::Explosion {
        let t = e.timer_elapsed + delta;
        if t >= interval {
            Entity {
                frame: (e.frame + 1) as u64,
                timer_elapsed: (t % (interval as int)) as u64,
                ..e
            }
        } else {
            Entity { timer_elapsed: t as u64, ..e }
        }
    } else {
        e
    }
}

/// Whether the animation pass keeps `e`: an explosion despawns on the tick
/// its frame index reaches `len`.
pub open spec fn anim_survives(e: Entity, delta: u64, interval: u64, len: u64) -> bool {
    !(e.kind == Kind::Explosion && anim_entity(e, delta, interval).frame >= len)
}

/// The animation pass over the entities at or after `i`.
pub open spec fn anim_pass_from(s: Seq<Entity>, delta: u64, interval: u64, len: u64, i: int) -> Seq<Entity>
    decreases s.len() - i,
{
    if i < 0 || i >= s.len() {
        Seq::empty()
    } else {
        let rest = anim_pass_from(s, delta, interval, len, i + 1);
        if anim_survives(s[i], delta, interval, len) {
            seq![anim_entity(s[i], delta, interval)] + rest
        } else {
            rest
        }
    }
}

/// The whole animation pass.
pub open spec fn anim_pass(s: Seq<Entity>, delta: u64, interval: u64, len: u64) -> Seq<Entity> {
    anim_pass_from(s, delta, interval, len, 0)
}

/// Every entity the animation pass keeps is the stepped image of a surviving
/// source entity at or after `i`.
pub proof fn lemma_anim_pass_elems(s: Seq<Entity>, delta: u64, interval: u64, len: u64, i: int)
    ensures
        forall|k: int| 0 <= k < anim_pass_from(s, delta, interval, len, i).len()
            ==> exists|j: int| i <= j < s.len()
                && anim_survives(s[j], delta, interval, len)
                && #[trigger] anim_pass_from(s, delta, interval, len, i)[k]
                    == anim_entity(s[j], delta, interval),
    decreases s.len() - i,
{
    if i < 0 || i >= s.len() {
    } else {
        lemma_anim_pass_elems(s, delta, interval, len, i + 1);
        let cur = anim_pass_from(s, delta, interval, len, i);
        let rest = anim_pass_from(s, delta, interval, len, i + 1);
        assert forall|k: int| 0 <= k < cur.len()
            implies exists|j: int| i <= j < s.len()
                && anim_survives(s[j], delta, interval, len)
                && #[trigger] cur[k] == anim_entity(s[j], delta, interval) by {
            if anim_survives(s[i], delta, interval, len) && k == 0 {
                assert(cur[k] == anim_entity(s[i], delta, interval));
            } else {
                let off: int = if anim_survives(s[i], delta, interval, len) { 1 } else { 0 };
                assert(cur[k] == rest[k - off]);
                let j = choose|j: int| i + 1 <= j < s.len()
                    && anim_survives(s[j], delta, interval, len)
                    && rest[k - off] == anim_entity(s[j], delta, interval);
                assert(cur[k] == anim_entity(s[j], delta, interval));
            }
        };
    }
}

/// A surviving entity is kept by the animation pass, as its stepped image.
pub proof fn lemma_anim_pass_keeps(s: Seq<Entity>, delta: u64, interval: u64, len: u64, i: int, j: int)
    requires
        0 <= i <= j < s.len(),
        anim_survives(s[j], delta, interval, len),
    ensures
        exists|k: int| 0 <= k < anim_pass_from(s, delta, interval, len, i).len()
            && anim_pass_from(s, delta, interval, len, i)[k]
                == anim_entity(s[j], delta, interval),
    decreases j - i,
{
    let cur = anim_pass_from(s, delta, interval, len, i);
    let rest = anim_pass_from(s, delta, interval, len, i + 1);
    if i == j {
        assert(cur[0] == anim_entity(s[j], delta, interval));
    } else {
        lemma_anim_pass_keeps(s, delta, interval, len, i + 1, j);
        let k = choose|k: int| 0 <= k < rest.len()
            && rest[k] == anim_entity(s[j], delta, interval);
        if anim_survives(s[i], delta, interval, len) {
            assert(cur[k + 1] == anim_entity(s[j], delta, interval));
        } else {
            assert(cur[k] == anim_entity(s[j], delta, interval));
        }
    }
}

/// Law (explosion terminal): an explosion despawns exactly once, on the tick
/// its frame index would reach `len`, and never earlier: while the advanced
/// frame stays below `len` the pass keeps it, stepped; the tick the advanced
/// frame reaches `len`, no entity with its identity remains.
pub proof fn lemma_explosion_terminal(s: Seq<Entity>, delta: u64, interval: u64, len: u64, i: int)
    requires
        ids_unique(s),
        0 <= i < s.len(),
        s[i].kind == Kind::Explosion,
    ensures
        anim_entity(s[i], delta, interval).frame >= len
            ==> forall|k: int| 0 <= k < anim_pass(s, delta, interval, len).len()
                ==> (#[trigger] anim_pass(s, delta, interval, len)[k]).id != s[i].id,
        anim_entity(s[i], delta, interval).frame < len
            ==> exists|k: int| 0 <= k < anim_pass(s, delta, interval, len).len()
                && anim_pass(s, delta, interval, len)[k]
                    == anim_entity(s[i], delta, interval),
{
    let cur = anim_pass(s, delta, interval, len);
    if anim_entity(s[i], delta, interval).frame >= len {
        lemma_anim_pass_elems(s, delta, interval, len, 0);
        assert forall|k: int| 0 <= k < cur.len()
            implies (#[trigger] cur[k]).id != s[i].id by {
            let j = choose|j: int| 0 <= j < s.len()
                && anim_survives(s[j], delta, interval, len)
                && cur[k] == anim_entity(s[j], delta, interval);
            assert(cur[k].id == s[j].id);
            if s[j].id == s[i].id {
                assert(j == i);
            }
        };
    } else {
        lemma_anim_pass_keeps(s, delta, interval, len, 0, i);
    }
}

/// The timer and frame bounds every live explosion satisfies between ticks.
pub open spec fn explosions_ok(s: Seq<Entity>, delta: u64, interval: u64, len: u64) -> bool {
    forall|i: int| 0 <= i < s.len() && (#[trigger] s[i]).kind == Kind::Explosion
        ==> s[i].timer_elapsed + delta <= u64::MAX && s[i].frame < len
}

/// Advance every explosion's timer by the elapsed time `delta`; each
/// completed interval moves the animation one frame on, and an explosion
/// whose frame index reaches `len` despawns the same tick.
pub fn explosion_animation_system(world: &mut World, delta: u64, interval: u64, len: u64)
    requires
        old(world).wf(),
        interval > 0,
        explosions_ok(old(world)@, delta, interval, len),
    ensures
        final(world)@ == anim_pass(old(world)@, delta, interval, len),
        final(world).next_id == old(world).next_id,
        final(world).wf(),
{
    let ghost s = world@;
    let n = world.len();
    let mut out: Vec<Entity> = Vec::new();
    let mut i: usize = 0;
    while i < n
        invariant
            n == s.len(),
            world@ == s,
            world.wf(),
            interval > 0,
            explosions_ok(s, delta, interval, len),
            0 <= i <= n,
            anim_pass(s, delta, interval, len)
                == out@ + anim_pass_from(s, delta, interval, len, i as int),
            forall|k: int| 0 <= k < out@.len()
                ==> exists|j: int| 0 <= j < i
                    && #[trigger] out@[k] == anim_entity(s[j], delta, interval),
            ids_unique(out@),
            forall|k: int| 0 <= k < out@.len() ==> entity_ok(#[trigger] out@[k]),
            forall|k: int| 0 <= k < out@.len() ==> (#[trigger] out@[k]).id < world.next_id,
        decreases n - i,
    {
        let e = world.entity_at(i);
        let stepped: Entity = if matches!(e.kind, Kind::Explosion) {
            let t = e.timer_elapsed + delta;
            if t >= interval {
                Entity { frame: e.frame + 1, timer_elapsed: t % interval, ..e }
            } else {
                Entity { timer_elapsed: t, ..e }
            }
        } else {
            e
        };
        assert(stepped == anim_entity(e, delta, interval));
        let keep = !(matches!(stepped.kind, Kind::Explosion) && stepped.frame >= len);
        assert(keep == anim_survives(e, delta, interval, len));
        if keep {
            proof {
                assert forall|k: int| 0 <= k < out@.len()
                    implies (#[trigger] out@[k]).id != stepped.id by {
                    let j = choose|j: int| 0 <= j < i
                        && out@[k] == anim_entity(s[j], delta, interval);
                    assert(out@[k].id == s[j].id);
                };
            }
            out.push(stepped);
        }
        proof {
            assert(anim_pass(s, delta, interval, len)
                =~= out@ + anim_pass_from(s, delta, interval, len, i as int + 1));
        }
        i = i + 1;
    }
    proof {
        assert(anim_pass_from(s, delta, interval, len, n as int) =~= Seq::<Entity>::empty());
        assert(anim_pass(s, delta, interval, len) =~= out@);
    }
    world.entities = out;
}

/// The animation pass keeps identities unique.
pub proof fn lemma_anim_pass_ids_unique(s: Seq<Entity>, delta: u64, interval: u64, len: u64, i: int)
    requires
        ids_unique(s),
    ensures
        ids_unique(anim_pass_from(s, delta, interval, len, i)),
    decreases s.len() - i,
{
    if i < 0 || i >= s.len() {
    } else {
        lemma_anim_pass_ids_unique(s, delta, interval, len, i + 1);
        lemma_anim_pass_elems(s, delta, interval, len, i + 1);
        let cur = anim_pass_from(s, delta, interval, len, i);
        let rest = anim_pass_from(s, delta, interval, len, i + 1);
        if anim_survives(s[i], delta, interval, len) {
            assert forall|p: int, q: int| 0 <= p < q < cur.len()
                implies cur[p].id != cur[q].id by {
                if p == 0 {
                    assert(cur[q] == rest[q - 1]);
                    let j = choose|j: int| i + 1 <= j < s.len()
                        && anim_survives(s[j], delta, interval, len)
                        && rest[q - 1] == anim_entity(s[j], delta, interval);
                    assert(cur[q].id == s[j].id);
                    assert(cur[p].id == s[i].id);
                } else {
                    assert(cur[p] == rest[p - 1]);
                    assert(cur[q] == rest[q - 1]);
                }
            };
        }
    }
}

/// The world after `n` animation passes.
pub open spec fn anim_iter(s: Seq<Entity>, delta: u64, interval: u64, len: u64, n: nat) -> Seq<Entity>
    decreases n,
{
    if n == 0 {
        s
    } else {
        anim_pass(anim_iter(s, delta, interval, len, (n - 1) as nat), delta, interval, len)
    }
}

/// Law (explosion counting): fed exactly one interval per tick, an explosion
/// that starts a tick with an empty timer completes one interval each tick:
/// after `n` ticks, while `frame + n` stays below `len`, it is present
/// exactly once, at frame `frame + n`, with its timer empty again.
pub proof fn lemma_explosion_counts_completions(s: Seq<Entity>, interval: u64, len: u64, n: nat, i: int)
    requires
        ids_unique(s),
        0 <= i < s.len(),
        s[i].kind == Kind::Explosion,
        s[i].timer_elapsed == 0,
        interval > 0,
        s[i].frame + n < len,
    ensures
        ids_unique(anim_iter(s, interval, interval, len, n)),
        exists|k: int| 0 <= k < anim_iter(s, interval, interval, len, n).len()
            && anim_iter(s, interval, interval, len, n)[k]
                == (Entity { frame: (s[i].frame + n) as u64, ..s[i] }),
        forall|k: int| 0 <= k < anim_iter(s, interval, interval, len, n).len()
            && (#[trigger] anim_iter(s, interval, interval, len, n)[k]).id == s[i].id
            ==> anim_iter(s, interval, interval, len, n)[k]
                == (Entity { frame: (s[i].frame + n) as u64, ..s[i] }),
    decreases n,
{
    let curw = anim_iter(s, interval, interval, len, n);
    if n == 0 {
        assert(curw[i] == s[i]);
        assert(s[i] == (Entity { frame: (s[i].frame + 0) as u64, ..s[i] }));
    } else {
        let m = (n - 1) as nat;
        lemma_explosion_counts_completions(s, interval, len, m, i);
        let prevw = anim_iter(s, interval, interval, len, m);
        let pe = Entity { frame: (s[i].frame + m) as u64, ..s[i] };
        let k0 = choose|k: int| 0 <= k < prevw.len() && prevw[k] == pe;
        assert(pe.timer_elapsed == 0);
        assert((interval as int) % (interval as int) == 0) by (nonlinear_arith)
            requires
                interval > 0,
        ;
        assert(anim_entity(pe, interval, interval)
            == (Entity { frame: (s[i].frame + n) as u64, ..s[i] }));
        assert(anim_survives(pe, interval, interval, len));
        lemma_anim_pass_keeps(prevw, interval, interval, len, 0, k0);
        lemma_anim_pass_elems(prevw, interval, interval, len, 0);
        lemma_anim_pass_ids_unique(prevw, interval, interval, len, 0);
        assert forall|k: int| 0 <= k < curw.len() && (#[trigger] curw[k]).id == s[i].id
            implies curw[k] == (Entity { frame: (s[i].frame + n) as u64, ..s[i] }) by {
            let j = choose|j: int| 0 <= j < prevw.len()
                && anim_survives(prevw[j], interval, interval, len)
                && curw[k] == anim_entity(prevw[j], interval, interval);
            assert(prevw[j].id == s[i].id);
            assert(prevw[j] == pe);
        };
    }
}

/// Law (explosion terminal, counted): fed one interval per tick from an
/// empty timer, the explosion is despawned by the tick on which its frame
/// index reaches `len` — the `len - frame`-th completion — and no entity
/// with its identity remains.
pub proof fn lemma_explosion_despawns_after(s: Seq<Entity>, interval: u64, len: u64, n: nat, i: int)
    requires
        ids_unique(s),
        0 <= i < s.len(),
        s[i].kind == Kind::Explosion,
        s[i].timer_elapsed == 0,
        interval > 0,
        1 <= n,
        s[i].frame + n == len,
    ensures
        forall|k: int| 0 <= k < anim_iter(s, interval, interval, len, n).len()
            ==> (#[trigger] anim_iter(s, interval, interval, len, n)[k]).id != s[i].id,
{
    let m = (n - 1) as nat;
    lemma_explosion_counts_completions(s, interval, len, m, i);
    let prevw = anim_iter(s, interval, interval, len, m);
    let pe = Entity { frame: (s[i].frame + m) as u64, ..s[i] };
    let k0 = choose|k: int| 0 <= k < prevw.len() && prevw[k] == pe;
    lemma_anim_pass_ids_unique(prevw, interval, interval, len, 0);
    assert(pe.timer_elapsed == 0);
    assert((interval as int) % (interval as int) == 0) by (nonlinear_arith)
        requires
            interval > 0,
    ;
    assert(anim_entity(pe, interval, interval).frame == len);
    lemma_explosion_terminal(prevw, interval, interval, len, k0);
    let curw = anim_iter(s, interval, interval, len, n);
    assert forall|k: int| 0 <= k < curw.len()
        implies (#[trigger] curw[k]).id != s[i].id by {
        assert(curw == anim_pass(prevw, interval, interval, len));
        assert(curw[k].id != prevw[k0].id);
    };
}

} // verus!
