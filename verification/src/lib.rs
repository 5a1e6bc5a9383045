//! Game logic of the floating-islands bee game: world generation, lava and
//! land lookups, enemy randomness, flowers, and the respawn / win state
//! machine, each with its contract proved.

pub mod enemy;
pub mod flower;
pub mod iso;
pub mod lava;
pub mod player;
pub mod projectile;
pub mod world;
