use vstd::prelude::*;
use crate::geometry::{Position, RelativePosition};

verus! {

/// Tiles a fresh projectile travels per tick.
pub const PROJECTILE_SPEED: u16 = 5;

/// Half the side of the square in which a projectile strikes.
pub const PROJECTILE_RANGE: usize = 10;

pub const PROJECTILE_DAMAGE: u64 = 20;

/// Ticks a fresh projectile lives.
pub const PROJECTILE_LIFETIME: u64 = 30;

#[derive(Debug, Clone, Copy, PartialEq, Eq, Structural)]
pub enum ProjectileStatus {
    ACTIVE,
    EXPLODED,
}

#[derive(Debug, Clone, Copy, PartialEq, Eq, Structural)]
pub enum ProjectileType {
    BULLET,
}

#[derive(Debug, Clone, Copy, PartialEq, Eq, Structural)]
pub struct Projectile {
    pub id: u64,
    pub position: Position,
    /// The input vector it was fired along.
    pub direction: RelativePosition,
    pub speed: u16,
    pub range: usize,
    /// The player who fired it.
    pub player_id: u64,
    pub damage: u64,
    pub remaining_ticks: u64,
    pub projectile_type: ProjectileType,
    pub status: ProjectileStatus,
}

impl Projectile {
    pub fn new(
        id: u64,
        position: Position,
        direction: RelativePosition,
        speed: u16,
        range: usize,
        player_id: u64,
        damage: u64,
        remaining_ticks: u64,
        projectile_type: ProjectileType,
        status: ProjectileStatus,
    ) -> (p: Projectile)
        ensures
            p == (Projectile {
                id,
                position,
                direction,
                speed,
                range,
                player_id,
                damage,
                remaining_ticks,
                projectile_type,
                status,
            }),
    {
        Projectile {
            id,
            position,
            direction,
            speed,
            range,
            player_id,
            damage,
            remaining_ticks,
            projectile_type,
            status,
        }
    }
}

} // verus!
