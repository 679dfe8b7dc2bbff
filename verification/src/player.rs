use vstd::prelude::*;

verus! {

/// The adventurer: a map position, health, and attack strength.
pub struct Player {
    pub x: usize,
    pub y: usize,
    pub health: i32,
    pub attack: i32,
}

impl Player {
    /// A fresh player standing on the start cell.
    pub fn new() -> (p: Player)
        ensures
            p.x == 1,
            p.y == 1,
            p.health == 20,
            p.attack == 5,
    {
        Player { x: 1, y: 1, health: 20, attack: 5 }
    }
}

} // verus!
