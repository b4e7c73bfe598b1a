//! The entity world: one arena of flat entity records.
//!
//! Every quantity in the simulation is an integer in playfield units. A
//! record carries all component fields; the `kind` tag says which of them
//! are meaningful for a given entity.

use vstd::prelude::*;

verus! {

/// A 2D vector of playfield units.
#[derive(Clone, Copy, PartialEq, Eq, Structural, Debug)]
pub struct Vec2 {
    pub x: i64,
    pub y: i64,
}

/// What an entity is: its role, and for lasers the faction that fired it.
#[derive(Clone, Copy, PartialEq, Eq, Structural, Debug)]
pub enum Kind {
    Player,
    Enemy,
    /// A laser fired by the player.
    PlayerLaser,
    /// A laser fired by an enemy.
    EnemyLaser,
    /// A one-tick marker that carries the position where an explosion is due.
    ExplosionToSpawn,
    /// An animated explosion.
    Explosion,
}

/// One entity record. All component fields live side by side; which of them
/// matter is decided by `kind` and the two marker flags.
#[derive(Clone, Copy, PartialEq, Eq, Structural, Debug)]
pub struct Entity {
    /// Identity, unique among the live entities of a world.
    pub id: u64,
    pub kind: Kind,
    /// Centre of the entity, also the centre of its collision box.
    pub pos: Vec2,
    /// Per-axis scale applied to `size` when forming the collision box.
    pub scale: Vec2,
    /// Nominal sprite size; the collision box is `size * scale`.
    pub size: Vec2,
    /// Added to `pos` each tick, scaled by the timestep and base speed,
    /// when `movable` is set.
    pub vel: Vec2,
    /// Whether the motion pass moves this entity.
    pub movable: bool,
    /// Whether the motion pass removes this entity once it leaves the
    /// playfield bounds plus the margin.
    pub auto_despawn: bool,
    /// Time accumulated toward the next animation frame (explosions only).
    pub timer_elapsed: u64,
    /// Current animation frame index (explosions only).
    pub frame: u64,
}

/// Largest representable magnitude of a position coordinate.
pub const POS_LIMIT: i64 = 0x100_0000_0000;

/// Largest magnitude of a size, scale, velocity, timestep or speed value.
pub const DIM_LIMIT: i64 = 0x10_0000;

/// A position within the representable playfield.
pub open spec fn pos_ok(p: Vec2) -> bool {
    &&& -POS_LIMIT <= p.x <= POS_LIMIT
    &&& -POS_LIMIT <= p.y <= POS_LIMIT
}

/// Field bounds under which every arithmetic step of the simulation fits
/// comfortably in an `i64`.
pub open spec fn entity_ok(e: Entity) -> bool {
    &&& pos_ok(e.pos)
    &&& 0 <= e.size.x <= DIM_LIMIT
    &&& 0 <= e.size.y <= DIM_LIMIT
    &&& 0 <= e.scale.x <= DIM_LIMIT
    &&& 0 <= e.scale.y <= DIM_LIMIT
    &&& -DIM_LIMIT <= e.vel.x <= DIM_LIMIT
    &&& -DIM_LIMIT <= e.vel.y <= DIM_LIMIT
}

/// No two entities share an identity.
pub open spec fn ids_unique(s: Seq<Entity>) -> bool {
    forall|i: int, j: int| 0 <= i < j < s.len() ==> s[i].id != s[j].id
}

/// The window size, in playfield units, captured once at startup.
#[derive(Clone, Copy, PartialEq, Eq, Structural, Debug)]
pub struct WinSize {
    pub w: i64,
    pub h: i64,
}

pub open spec fn win_ok(win: WinSize) -> bool {
    &&& 0 <= win.w <= DIM_LIMIT
    &&& 0 <= win.h <= DIM_LIMIT
}

/// The entity world: the live entities, in spawn order, plus the next fresh
/// identity.
pub struct World {
    pub entities: Vec<Entity>,
    pub next_id: u64,
}

impl View for World {
    type V = Seq<Entity>;

    open spec fn view(&self) -> Seq<Entity> {
        self.entities@
    }
}

impl World {
    /// Identities are unique and below `next_id`, and every record is within
    /// the representable bounds.
    pub open spec fn wf(self) -> bool {
        &&& ids_unique(self@)
        &&& forall|i: int| 0 <= i < self@.len() ==> entity_ok(#[trigger] self@[i])
        &&& forall|i: int| 0 <= i < self@.len() ==> (#[trigger] self@[i]).id < self.next_id
    }

    pub fn new() -> (w: World)
        ensures
            w@ == Seq::<Entity>::empty(),
            w.next_id == 0,
            w.wf(),
    {
        World { entities: Vec::new(), next_id: 0 }
    }

    /// Spawn `e` with a fresh identity, keeping the world well formed.
    pub fn spawn(&mut self, e: Entity)
        requires
            old(self).wf(),
            entity_ok(e),
            old(self).next_id < u64::MAX,
        ensures
            final(self)@ == old(self)@.push(Entity { id: old(self).next_id, ..e }),
            final(self).next_id == old(self).next_id + 1,
            final(self).wf(),
    {
        let spawned = Entity { id: self.next_id, ..e };
        self.entities.push(spawned);
        self.next_id = self.next_id + 1;
    }

    pub fn len(&self) -> (n: usize)
        ensures
            n == self@.len(),
    {
        self.entities.len()
    }

    /// Read one entity record.
    pub fn entity_at(&self, i: usize) -> (e: Entity)
        requires
            i < self@.len(),
        ensures
            e == self@[i as int],
    {
        self.entities[i]
    }
}

/// Whether a plain vector of identities holds `x`.
pub(crate) fn ids_contain(ids: &Vec<u64>, x: u64) -> (r: bool)
    ensures
        r == ids@.contains(x),
{
    let mut i: usize = 0;
    while i < ids.len()
        invariant
            0 <= i <= ids@.len(),
            forall|j: int| 0 <= j < i ==> ids@[j] != x,
        decreases ids@.len() - i,
    {
        if ids[i] == x {
            assert(ids@.contains(x));
            return true;
        }
        i = i + 1;
    }
    assert(!ids@.contains(x));
    false
}

} // verus!
