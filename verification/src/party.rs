use vstd::prelude::*;

verus! {

broadcast use vstd::string::group_string_axioms;

/// The adventurer record that also tracks collected items.
pub struct Player {
    pub x: usize,
    pub y: usize,
    pub health: i32,
    pub attack: i32,
    pub items: Vec<String>,
}

impl Player {
    /// A fresh player standing on the start cell, carrying nothing.
    pub fn new() -> (p: Player)
        ensures
            p.x == 1,
            p.y == 1,
            p.health == 20,
            p.attack == 5,
            p.items@.len() == 0,
    {
        Player { x: 1, y: 1, health: 20, attack: 5, items: Vec::new() }
    }
}

/// A dungeon dweller that also carries an item to drop.
pub struct Monster {
    pub name: String,
    pub health: i32,
    pub attack: i32,
    pub carried_item: String,
}

impl Monster {
    /// A monster with the given name, stats, and carried item.
    pub fn new(name: &str, health: i32, attack: i32, carried_item: &str) -> (m: Monster)
        ensures
            m.name@ == name@,
            m.health == health,
            m.attack == attack,
            m.carried_item@ == carried_item@,
    {
        Monster {
            name: name.to_string(),
            health,
            attack,
            carried_item: carried_item.to_string(),
        }
    }
}

} // verus!
