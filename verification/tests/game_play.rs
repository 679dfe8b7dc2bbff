use dungeon::game::MoveOutcome;
use dungeon::monster::Monster;
use dungeon::player::Player;
use dungeon::Game;

fn bfs_seen(rows: &Vec<Vec<char>>, sx: usize, sy: usize) -> Vec<Vec<bool>> {
    let h = rows.len();
    let w = rows[0].len();
    let mut seen = vec![vec![false; w]; h];
    let mut queue = vec![(sx, sy)];
    seen[sy][sx] = true;
    while let Some((x, y)) = queue.pop() {
        let mut nbrs = Vec::new();
        if x + 1 < w {
            nbrs.push((x + 1, y));
        }
        if x > 0 {
            nbrs.push((x - 1, y));
        }
        if y + 1 < h {
            nbrs.push((x, y + 1));
        }
        if y > 0 {
            nbrs.push((x, y - 1));
        }
        for (nx, ny) in nbrs {
            if !seen[ny][nx] && rows[ny][nx] != '#' {
                seen[ny][nx] = true;
                queue.push((nx, ny));
            }
        }
    }
    seen
}

#[test]
fn opening_map_is_the_fixed_room() {
    let g = Game::new();
    let rows = g.map.encode();
    let want = vec!["#####", "#P..#", "#.M.#", "#...#", "#####"];
    for (y, row) in want.iter().enumerate() {
        assert_eq!(rows[y], row.chars().collect::<Vec<_>>());
    }
    assert_eq!(g.player.x, 1);
    assert_eq!(g.player.y, 1);
    assert_eq!(g.monsters.len(), 1);
    assert_eq!(g.monsters[0].name, "Goblin");
    assert_eq!(g.monsters[0].health, 10);
    assert_eq!(g.monsters[0].attack, 3);
}

#[test]
fn opening_map_reaches_every_floor_cell_and_no_border() {
    let g = Game::new();
    let rows = g.map.encode();
    let seen = bfs_seen(&rows, 1, 1);
    for x in 0..5 {
        for y in 0..5 {
            if rows[y][x] == '#' {
                // The outer ring is never crossed.
                assert!(!seen[y][x]);
            } else {
                // Every walkable cell is reached from the start.
                assert!(seen[y][x]);
            }
        }
    }
}

#[test]
fn valid_moves_respect_walls_and_bounds() {
    let g = Game::new();
    assert!(g.is_valid_move(1, 1));
    assert!(g.is_valid_move(2, 2));
    assert!(!g.is_valid_move(0, 1));
    assert!(!g.is_valid_move(-1, 2));
    assert!(!g.is_valid_move(2, -1));
    assert!(!g.is_valid_move(5, 2));
    assert!(!g.is_valid_move(2, 5));
}

#[test]
fn player_alive_tracks_health() {
    let mut g = Game::new();
    assert!(g.is_player_alive());
    g.player.health = 0;
    assert!(!g.is_player_alive());
}

#[test]
fn battle_player_strikes_first() {
    // Player 20/5 against goblin 10/3: two player strikes end it.
    let mut p = Player::new();
    let mut m = Monster::new("Goblin", 10, 3);
    assert_eq!(Game::battle(&mut p, &mut m), (true, false));
    // The records themselves stay as they were.
    assert_eq!(p.health, 20);
    assert_eq!(m.health, 10);
}

#[test]
fn battle_monster_can_win() {
    let mut p = Player { x: 1, y: 1, health: 3, attack: 1 };
    let mut m = Monster::new("Ogre", 100, 50);
    assert_eq!(Game::battle(&mut p, &mut m), (false, true));
}

#[test]
fn moves_update_position_and_map() {
    let mut g = Game::new();
    assert_eq!(g.apply_move('s'), MoveOutcome::Moved);
    assert_eq!((g.player.x, g.player.y), (1, 2));
    let rows = g.map.encode();
    assert_eq!(rows[1][1], '.');
    assert_eq!(rows[2][1], 'P');
    assert_eq!(g.apply_move('s'), MoveOutcome::Moved);
    assert_eq!((g.player.x, g.player.y), (1, 3));
}

#[test]
fn walls_block_a_move() {
    // Walls block movement: stepping left from the start runs into the
    // border wall, and the player and map stay as they were.
    let mut g = Game::new();
    assert_eq!(g.apply_move('a'), MoveOutcome::Blocked);
    assert_eq!((g.player.x, g.player.y), (1, 1));
    assert_eq!(g.apply_move('w'), MoveOutcome::Blocked);
    assert_eq!((g.player.x, g.player.y), (1, 1));
    let rows = g.map.encode();
    assert_eq!(rows[1][1], 'P');
    assert_eq!(rows[0][1], '#');
    assert_eq!(rows[1][0], '#');
}

#[test]
fn unknown_command_is_invalid() {
    let mut g = Game::new();
    assert_eq!(g.apply_move('q'), MoveOutcome::Invalid);
    assert_eq!((g.player.x, g.player.y), (1, 1));
    // The player marker is untouched by an invalid command.
    let rows = g.map.encode();
    assert_eq!(rows[1][1], 'P');
}

#[test]
fn stepping_onto_a_monster_fights_it() {
    let mut g = Game::new();
    assert_eq!(g.apply_move('s'), MoveOutcome::Moved);
    assert_eq!(g.apply_move('d'), MoveOutcome::Moved);
    // The player (20/5) beats the goblin (10/3); the monster is gone and
    // the player stands on the cell.
    assert_eq!((g.player.x, g.player.y), (2, 2));
    assert_eq!(g.monsters.len(), 0);
    let rows = g.map.encode();
    assert_eq!(rows[2][2], 'P');
    // Stepping away leaves plain floor behind.
    assert_eq!(g.apply_move('d'), MoveOutcome::Moved);
    let rows2 = g.map.encode();
    assert_eq!(rows2[2][2], '.');
}

#[test]
fn party_records_hold_their_fields() {
    let p = dungeon::party::Player::new();
    assert_eq!((p.x, p.y, p.health, p.attack), (1, 1, 20, 5));
    assert!(p.items.is_empty());
    let m = dungeon::party::Monster::new("Slime", 4, 2, "potion");
    assert_eq!(m.name, "Slime");
    assert_eq!(m.health, 4);
    assert_eq!(m.attack, 2);
    assert_eq!(m.carried_item, "potion");
}
