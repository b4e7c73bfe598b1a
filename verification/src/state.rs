//! Player lifecycle state and the enemy population counter.

use vstd::prelude::*;

verus! {

/// The timestamp value meaning "the player never died".
pub const NEVER_SHOT: i64 = -1;

/// How many enemies may be alive at once; gates external enemy spawning.
pub const ENEMY_MAX: u32 = 2;

/// How many members one spawn formation may hold.
pub const FORMATION_MEMBERS_MAX: u32 = 2;

/// The player's lifecycle: alive (`on`), or dead with the simulation time of
/// death recorded for the respawn cooldown.
#[derive(Clone, Copy, PartialEq, Eq, Structural, Debug)]
pub struct PlayerState {
    /// Whether the player entity is alive.
    pub on: bool,
    /// Simulation time of the last death, or `NEVER_SHOT`.
    pub last_shot: i64,
}

impl Default for PlayerState {
    /// Initially dead and never shot, so the very first spawn is not delayed.
    fn default() -> (s: Self)
        ensures
            !s.on,
            s.last_shot == NEVER_SHOT,
    {
        PlayerState { on: false, last_shot: NEVER_SHOT }
    }
}

impl PlayerState {
    /// The player was hit: record the death and the time it happened.
    pub fn shot(&mut self, time: i64)
        ensures
            !final(self).on,
            final(self).last_shot == time,
    {
        self.on = false;
        self.last_shot = time;
    }

    /// The external spawn collaborator re-created the player.
    pub fn spawned(&mut self)
        ensures
            final(self).on,
            final(self).last_shot == NEVER_SHOT,
    {
        self.on = true;
        self.last_shot = NEVER_SHOT;
    }

    /// Whether the spawn collaborator may re-create the player: the player is
    /// down, and either it never died or the respawn delay has passed.
    pub fn respawn_due(&self, now: i64, delay: i64) -> (r: bool)
        requires
            0 <= delay,
            NEVER_SHOT <= self.last_shot,
            now < i64::MAX,
        ensures
            r == (!self.on && (self.last_shot == NEVER_SHOT || now - self.last_shot > delay)),
    {
        if self.on {
            false
        } else if self.last_shot == NEVER_SHOT {
            true
        } else if now < self.last_shot {
            false
        } else {
            now - self.last_shot > delay
        }
    }
}

/// How many enemies are alive, tracked for the external spawner.
#[derive(Clone, Copy, PartialEq, Eq, Structural, Debug)]
pub struct EnemyCount(pub u32);

} // verus!
