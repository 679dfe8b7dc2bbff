use vstd::prelude::*;

verus! {

broadcast use vstd::string::group_string_axioms;

/// A dungeon dweller: a name, health, and attack strength.
pub struct Monster {
    pub name: String,
    pub health: i32,
    pub attack: i32,
}

impl Monster {
    /// A monster with the given name and stats.
    pub fn new(name: &str, health: i32, attack: i32) -> (m: Monster)
        ensures
            m.name@ == name@,
            m.health == health,
            m.attack == attack,
    {
        Monster { name: name.to_string(), health, attack }
    }
}

} // verus!
