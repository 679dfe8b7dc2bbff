use dungeon::{Cell, Grid};

#[test]
fn new_grid_is_all_walls() {
    let g = Grid::new(5, 4);
    assert_eq!(g.width(), 5);
    assert_eq!(g.height(), 4);
    for x in 0..5 {
        for y in 0..4 {
            assert_eq!(g.get(x, y), Cell::Wall);
        }
    }
}

#[test]
fn set_changes_only_one_cell() {
    let mut g = Grid::new(5, 4);
    g.set(2, 1, Cell::Floor);
    assert_eq!(g.get(2, 1), Cell::Floor);
    for x in 0..5 {
        for y in 0..4 {
            if (x, y) != (2, 1) {
                assert_eq!(g.get(x, y), Cell::Wall);
            }
        }
    }
}

#[test]
fn encode_uses_the_five_characters() {
    let mut g = Grid::new(5, 3);
    g.set(1, 1, Cell::Start);
    g.set(2, 1, Cell::Floor);
    g.set(3, 1, Cell::Monster);
    g.set(2, 2, Cell::Exit);
    let rows = g.encode();
    assert_eq!(rows[0], "#####".chars().collect::<Vec<_>>());
    assert_eq!(rows[1], "#P.M#".chars().collect::<Vec<_>>());
    assert_eq!(rows[2], "##E##".chars().collect::<Vec<_>>());
}

#[test]
fn decode_inverts_encode() {
    let mut g = Grid::new(7, 5);
    g.set(1, 1, Cell::Start);
    g.set(2, 1, Cell::Floor);
    g.set(3, 2, Cell::Monster);
    g.set(4, 4, Cell::Exit);
    g.set(5, 3, Cell::Floor);
    let rows = g.encode();
    let g2 = Grid::decode(&rows).expect("an encoded map must decode");
    assert_eq!(g2.width(), g.width());
    assert_eq!(g2.height(), g.height());
    for x in 0..7 {
        for y in 0..5 {
            assert_eq!(g.get(x, y), g2.get(x, y));
        }
    }
    // And re-encoding reproduces the same characters.
    assert_eq!(g2.encode(), rows);
}

#[test]
fn decode_rejects_bad_images() {
    // Unknown character.
    let bad: Vec<Vec<char>> = vec!["###".chars().collect(), "#x#".chars().collect(), "###"
        .chars()
        .collect()];
    assert!(Grid::decode(&bad).is_none());
    // Ragged rows.
    let ragged: Vec<Vec<char>> = vec!["###".chars().collect(), "##".chars().collect(), "###"
        .chars()
        .collect()];
    assert!(Grid::decode(&ragged).is_none());
    // Even width.
    let even: Vec<Vec<char>> = vec!["####".chars().collect(); 3];
    assert!(Grid::decode(&even).is_none());
    // Too small.
    let small: Vec<Vec<char>> = vec!["##".chars().collect(); 2];
    assert!(Grid::decode(&small).is_none());
}
