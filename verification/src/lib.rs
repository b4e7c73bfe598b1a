//! Fixed-timestep simulation core of a 2D arcade shoot-'em-up.
//!
//! The core advances a typed entity world one tick at a time: motion with
//! out-of-bounds despawning, axis-aligned collision between projectiles and
//! combatants, a two-phase explosion lifecycle, the player's alive/dead
//! state, and a score counter. Rendering, input and asset handling are left
//! to external collaborators; they drive the world through the functions in
//! these modules.

pub mod world;
pub mod motion;
pub mod collision;
pub mod explosion;
pub mod state;
pub mod score;
pub mod tick;
