//! Score tracking: a single non-negative counter, incremented on enemy
//! kills, reset to zero on player death, read for display.

use vstd::prelude::*;

verus! {

/// The game's score.
#[derive(Clone, Copy, PartialEq, Eq, Structural, Debug)]
pub struct Scoreboard {
    pub score: usize,
}

impl Scoreboard {
    pub fn new() -> (s: Scoreboard)
        ensures
            s.score == 0,
    {
        Scoreboard { score: 0 }
    }

    /// Read the score for the display refresh.
    pub fn value(&self) -> (r: usize)
        ensures
            r == self.score,
    {
        self.score
    }
}

} // verus!
