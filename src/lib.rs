pub mod board;
pub mod game;
pub mod geometry;
pub mod laws;
pub mod player;
pub mod projectile;
mod random;

pub use board::{Board, Tile};
pub use game::{GameError, GameState, Obstruction};
pub use geometry::{Direction, HitBox, Position, RelativePosition};
pub use player::{Archetype, Character, Effect, Player, PlayerAction, Status};
pub use projectile::{Projectile, ProjectileStatus, ProjectileType};
