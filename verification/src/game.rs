use vstd::prelude::*;

use crate::grid::Cell;
use crate::grid::Grid;
use crate::monster::Monster;
use crate::player::Player;

verus! {

/// What one move command led to.
#[derive(Clone, Copy, Debug, PartialEq, Eq, Structural)]
pub enum MoveOutcome {
    /// The player stepped onto the target cell.
    Moved,
    /// The move ran into the map boundary; the player stayed put.
    Blocked,
    /// The command was not one of `w`, `a`, `s`, `d`.
    Invalid,
}

/// The cell of the fixed opening map at a coordinate.
pub open spec fn opening_cell(x: int, y: int) -> Cell {
    if x == 1 && y == 1 {
        Cell::Start
    } else if x == 2 && y == 2 {
        Cell::Monster
    } else if 1 <= x <= 3 && 1 <= y <= 3 {
        Cell::Floor
    } else {
        Cell::Wall
    }
}

/// The cell one step in the command's direction from `(x, y)`.
pub open spec fn step_of(x: int, y: int, cmd: char) -> (int, int) {
    if cmd == 'w' {
        (x, y - 1)
    } else if cmd == 'a' {
        (x - 1, y)
    } else if cmd == 's' {
        (x, y + 1)
    } else {
        (x + 1, y)
    }
}

/// Where a move command sends a player at `(x, y)` on map `g`: one step in
/// the command's direction when that cell is on the map and not a wall,
/// else the same place (walls block movement).
pub open spec fn move_target(g: Grid, x: int, y: int, cmd: char) -> (int, int) {
    let raw = step_of(x, y, cmd);
    if g.in_bounds(raw.0, raw.1) && g.spec_cell(raw.0, raw.1) != Cell::Wall {
        raw
    } else {
        (x, y)
    }
}

/// The rounds of one fight, fought to the end: the player strikes first,
/// and the pair says who is left standing (player alive, monster alive).
pub open spec fn battle_spec(ph: int, pa: int, mh: int, ma: int) -> (bool, bool)
    decreases mh,
        when pa >= 1
{
    if ph <= 0 || mh <= 0 {
        (ph > 0, mh > 0)
    } else if mh - pa <= 0 {
        (true, false)
    } else if ph - ma <= 0 {
        (false, true)
    } else {
        battle_spec(ph - ma, pa, mh - pa, ma)
    }
}

/// One running game: the player, the monsters left, and the map.
pub struct Game {
    pub player: Player,
    pub monsters: Vec<Monster>,
    pub map: Grid,
}

impl Game {
    /// The map is sound and the player stands on it.
    pub open spec fn wf(self) -> bool {
        &&& self.map.wf()
        &&& self.map.in_bounds(self.player.x as int, self.player.y as int)
    }

    /// A fresh game on the fixed opening map: a five-by-five room with a
    /// clear ring of floor around one monster.
    pub fn new() -> (g: Game)
        ensures
            g.wf(),
            g.player.x == 1,
            g.player.y == 1,
            g.player.health == 20,
            g.player.attack == 5,
            g.monsters@.len() == 1,
            g.monsters@[0].name@ == "Goblin"@,
            g.monsters@[0].health == 10,
            g.monsters@[0].attack == 3,
            g.map.spec_width() == 5,
            g.map.spec_height() == 5,
            forall|x: int, y: int|
                g.map.in_bounds(x, y) ==> #[trigger] g.map.spec_cell(x, y) == opening_cell(x, y),
    {
        let mut map = Grid::new(5, 5);
        map.set(1, 1, Cell::Start);
        map.set(2, 1, Cell::Floor);
        map.set(3, 1, Cell::Floor);
        map.set(1, 2, Cell::Floor);
        map.set(2, 2, Cell::Monster);
        map.set(3, 2, Cell::Floor);
        map.set(1, 3, Cell::Floor);
        map.set(2, 3, Cell::Floor);
        map.set(3, 3, Cell::Floor);
        let mut monsters: Vec<Monster> = Vec::new();
        monsters.push(Monster::new("Goblin", 10, 3));
        Game { player: Player::new(), monsters, map }
    }

    /// A coordinate can be stepped onto: on the map and not a wall.
    pub fn is_valid_move(&self, x: isize, y: isize) -> (r: bool)
        requires
            self.map.wf(),
        ensures
            r == (self.map.in_bounds(x as int, y as int) && self.map.spec_cell(x as int, y as int)
                != Cell::Wall),
    {
        if x < 0 || y < 0 {
            return false;
        }
        let xu = x as usize;
        let yu = y as usize;
        if xu >= self.map.width() || yu >= self.map.height() {
            return false;
        }
        self.map.get(xu, yu) != Cell::Wall
    }

    /// The player still stands.
    pub fn is_player_alive(&self) -> (r: bool)
        ensures
            r == (self.player.health > 0),
    {
        self.player.health > 0
    }

    /// Fight one battle to the end, the player striking first. Neither
    /// record is changed; the pair says who is left standing. A positive
    /// player attack makes the fight end; a non-negative monster attack
    /// keeps the player's falling health within the machine range.
    pub fn battle(player: &mut Player, monster: &mut Monster) -> (r: (bool, bool))
        requires
            old(player).attack >= 1,
            old(monster).attack >= 0,
        ensures
            *final(player) == *old(player),
            *final(monster) == *old(monster),
            r == battle_spec(
                old(player).health as int,
                old(player).attack as int,
                old(monster).health as int,
                old(monster).attack as int,
            ),
    {
        let pa = player.attack;
        let ma = monster.attack;
        let mut ph = player.health;
        let mut mh = monster.health;
        let ghost ph0 = ph;
        let ghost mh0 = mh;
        while ph > 0 && mh > 0
            invariant
                pa >= 1,
                ma >= 0,
                *player == *old(player),
                *monster == *old(monster),
                pa == old(player).attack,
                ma == old(monster).attack,
                ph0 == old(player).health,
                mh0 == old(monster).health,
                battle_spec(ph as int, pa as int, mh as int, ma as int) == battle_spec(
                    ph0 as int,
                    pa as int,
                    mh0 as int,
                    ma as int,
                ),
            decreases mh,
        {
            mh = mh - pa;
            if mh <= 0 {
                return (true, false);
            }
            ph = ph - ma;
            if ph <= 0 {
                return (false, true);
            }
        }
        (ph > 0, mh > 0)
    }

    /// The monster list after one move onto target `(nx, ny)`: stepping
    /// onto a monster cell fights the first listed monster to the end, and
    /// a fallen monster leaves the list.
    pub open spec fn monsters_after_move(self, nx: int, ny: int) -> Seq<Monster> {
        if self.map.spec_cell(nx, ny) == Cell::Monster && self.monsters@.len() > 0 {
            if battle_spec(
                self.player.health as int,
                self.player.attack as int,
                self.monsters@[0].health as int,
                self.monsters@[0].attack as int,
            ).1 {
                self.monsters@
            } else {
                self.monsters@.remove(0)
            }
        } else {
            self.monsters@
        }
    }

    /// Apply one move command. An unknown command changes nothing. A known
    /// command steps in its direction when the target cell is on the map
    /// and not a wall, else the player stays put and the map is untouched.
    /// On a step, the vacated cell becomes floor, stepping onto a monster
    /// cell fights the first monster (a fallen one leaves the list), and
    /// the target cell then carries the player marker.
    pub fn apply_move(&mut self, cmd: char) -> (r: MoveOutcome)
        requires
            old(self).wf(),
            old(self).player.attack >= 1,
            forall|k: int| 0 <= k < old(self).monsters@.len() ==> old(self).monsters@[k].attack >= 0,
        ensures
            final(self).wf(),
            final(self).map.spec_width() == old(self).map.spec_width(),
            final(self).map.spec_height() == old(self).map.spec_height(),
            final(self).player.health == old(self).player.health,
            final(self).player.attack == old(self).player.attack,
            (r == MoveOutcome::Invalid) == (cmd != 'w' && cmd != 'a' && cmd != 's' && cmd != 'd'),
            r == MoveOutcome::Invalid ==> *final(self) == *old(self),
            r != MoveOutcome::Invalid ==> (final(self).player.x as int, final(self).player.y as int)
                == move_target(
                old(self).map,
                old(self).player.x as int,
                old(self).player.y as int,
                cmd,
            ),
            r != MoveOutcome::Invalid ==> ((r == MoveOutcome::Blocked) == (final(self).player.x
                == old(self).player.x && final(self).player.y == old(self).player.y)),
            r == MoveOutcome::Blocked ==> final(self).map == old(self).map && final(self).monsters
                == old(self).monsters,
            r == MoveOutcome::Moved ==> {
                &&& final(self).map.spec_cell(
                    old(self).player.x as int,
                    old(self).player.y as int,
                ) == Cell::Floor
                &&& final(self).map.spec_cell(
                    final(self).player.x as int,
                    final(self).player.y as int,
                ) == Cell::Start
                &&& forall|x: int, y: int|
                    final(self).map.in_bounds(x, y) && !(x == old(self).player.x && y == old(
                        self,
                    ).player.y) && !(x == final(self).player.x && y == final(self).player.y)
                        ==> #[trigger] final(self).map.spec_cell(x, y) == old(self).map.spec_cell(
                        x,
                        y,
                    )
                &&& final(self).monsters@ == old(self).monsters_after_move(
                    final(self).player.x as int,
                    final(self).player.y as int,
                )
            },
    {
        if !(cmd == 'w' || cmd == 'a' || cmd == 's' || cmd == 'd') {
            return MoveOutcome::Invalid;
        }
        let px = self.player.x;
        let py = self.player.y;

        let mut nx = px;
        let mut ny = py;
        if cmd == 'w' {
            if py > 0 {
                ny = py - 1;
            }
        } else if cmd == 'a' {
            if px > 0 {
                nx = px - 1;
            }
        } else if cmd == 's' {
            if py + 1 < self.map.height() {
                ny = py + 1;
            }
        } else {
            if px + 1 < self.map.width() {
                nx = px + 1;
            }
        }
        if self.map.get(nx, ny) == Cell::Wall {
            nx = px;
            ny = py;
        }
        if nx == px && ny == py {
            return MoveOutcome::Blocked;
        }

        self.map.set(px, py, Cell::Floor);
        self.player.x = nx;
        self.player.y = ny;
        if self.map.get(nx, ny) == Cell::Monster {
            if self.monsters.len() > 0 {
                let ghost before = self.monsters@;
                let mut foe = self.monsters.remove(0);
                let outcome = Game::battle(&mut self.player, &mut foe);
                if outcome.1 {
                    self.monsters.insert(0, foe);
                    proof {
                        assert(self.monsters@ =~= before);
                    }
                } else {
                    self.map.set(nx, ny, Cell::Floor);
                }
            }
        }
        self.map.set(nx, ny, Cell::Start);
        MoveOutcome::Moved
    }
}

} // verus!
