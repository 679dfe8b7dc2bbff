use dungeon::{optimize_path, Grid};

fn grid_of(rows: &[&str]) -> Grid {
    let v: Vec<Vec<char>> = rows.iter().map(|r| r.chars().collect()).collect();
    Grid::decode(&v).expect("test rows must decode")
}

fn open_grid() -> Grid {
    grid_of(&["#######", "#.....#", "#.....#", "#######"])
}

#[test]
fn straight_corridor_collapses_to_endpoints() {
    let g = open_grid();
    let mut path = vec![(1, 1), (2, 1), (3, 1), (4, 1)];
    optimize_path(&mut path, &g);
    assert_eq!(path, vec![(1, 1), (4, 1)]);
}

#[test]
fn optimizer_preserves_endpoints() {
    let g = open_grid();
    let mut path = vec![(1, 1), (2, 1), (2, 2), (3, 2), (4, 2), (5, 2)];
    optimize_path(&mut path, &g);
    assert_eq!(path[0], (1, 1));
    assert_eq!(*path.last().unwrap(), (5, 2));
}

#[test]
fn wall_blocks_a_shortcut() {
    // A wall sits on the straight run, so the middle waypoint stays.
    let g = grid_of(&["#######", "#.#...#", "#.....#", "#######"]);
    let mut path = vec![(1, 1), (1, 2), (2, 2), (3, 2), (3, 1)];
    optimize_path(&mut path, &g);
    // Every consecutive pair must still be joined by a wall-free straight
    // run; in particular nothing may jump across the wall at (2, 1).
    for w in path.windows(2) {
        let (a, b) = (w[0], w[1]);
        assert!(a.0 == b.0 || a.1 == b.1);
        if a.1 == b.1 {
            let (lo, hi) = (a.0.min(b.0), a.0.max(b.0));
            for x in lo..=hi {
                assert!(g.get(x, a.1) != dungeon::Cell::Wall || (x, a.1) == b || (x, a.1) == a);
            }
        }
    }
    assert_eq!(path[0], (1, 1));
    assert_eq!(*path.last().unwrap(), (3, 1));
}

#[test]
fn optimizer_is_idempotent_on_simple_paths() {
    let g = open_grid();
    let cases: Vec<Vec<(usize, usize)>> = vec![
        vec![(1, 1), (2, 1), (3, 1), (4, 1)],
        vec![(1, 1), (1, 2), (2, 2), (3, 2)],
        vec![(1, 1), (2, 1), (2, 2), (3, 2), (4, 2)],
        vec![(1, 1)],
        vec![(1, 1), (2, 1)],
    ];
    for case in cases {
        let mut once = case.clone();
        optimize_path(&mut once, &g);
        let mut twice = once.clone();
        optimize_path(&mut twice, &g);
        assert_eq!(once, twice);
    }
}

#[test]
fn a_path_that_revisits_a_cell_can_shrink_again() {
    // The forward scan never returns to an index it has passed, so a path
    // that doubles back onto a cell it already used can leave a removable
    // duplicate behind; a second pass then removes it. Simple paths, such
    // as the search produces, are not affected.
    let g = open_grid();
    let mut once = vec![(1, 1), (1, 2), (2, 2), (1, 2)];
    optimize_path(&mut once, &g);
    assert_eq!(once, vec![(1, 1), (1, 2), (1, 2)]);
    let mut twice = once.clone();
    optimize_path(&mut twice, &g);
    assert_eq!(twice, vec![(1, 1), (1, 2)]);
}

#[test]
fn short_paths_are_left_alone() {
    let g = open_grid();
    let mut p0: Vec<(usize, usize)> = vec![];
    optimize_path(&mut p0, &g);
    assert!(p0.is_empty());
    let mut p2 = vec![(1, 1), (2, 1)];
    optimize_path(&mut p2, &g);
    assert_eq!(p2, vec![(1, 1), (2, 1)]);
}
