use vstd::prelude::*;

verus! {

/// A hero as the game server reports it.
pub struct Hero {
    pub id: i32,
    pub owner_id: i32,
    pub x: i32,
    pub y: i32,
    pub hp: i32,
    pub cooldown: i32,
}

/// A projectile in flight as the game server reports it: where it was shot
/// from and where it is now.
pub struct Projectile {
    pub owner_id: i32,
    pub origin_x: i32,
    pub origin_y: i32,
    pub x: i32,
    pub y: i32,
    pub ttl: i32,
}

/// A wall as the game server reports it: the centre of a 3x3 block.
pub struct Wall {
    pub x: i32,
    pub y: i32,
}

/// The state of a match as the game server reports it at the start of a turn.
pub struct GameState {
    pub heroes: Vec<Hero>,
    pub projectiles: Vec<Projectile>,
    pub walls: Vec<Wall>,
}

} // verus!
