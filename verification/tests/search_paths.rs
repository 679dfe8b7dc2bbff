use dungeon::search::{carve_weight_of, manhattan_dist, SearchTables};
use dungeon::{a_star_random_path, random_neighbor, Cell, Grid};

fn grid_of(rows: &[&str]) -> Grid {
    let v: Vec<Vec<char>> = rows.iter().map(|r| r.chars().collect()).collect();
    Grid::decode(&v).expect("test rows must decode")
}

#[test]
fn manhattan_distance_values() {
    assert_eq!(manhattan_dist((1, 1), (1, 1)), 0);
    assert_eq!(manhattan_dist((1, 2), (4, 7)), 8);
    assert_eq!(manhattan_dist((4, 7), (1, 2)), 8);
}

#[test]
fn carve_weights_are_positive_and_favor_the_goal() {
    // Weight is 100 minus the Manhattan estimate, clamped at one.
    assert_eq!(carve_weight_of((1, 1), (1, 1)), 100);
    assert_eq!(carve_weight_of((1, 1), (3, 4)), 95);
    assert_eq!(carve_weight_of((0, 0), (99, 0)), 1);
    assert_eq!(carve_weight_of((0, 0), (500, 500)), 1);
    for d in 0..120 {
        assert!(carve_weight_of((0, 0), (d, 0)) >= 1);
    }
}

#[test]
fn search_finds_a_valid_path_on_an_open_room() {
    for _ in 0..20 {
        let mut g = grid_of(&["#######", "#.....#", "#.....#", "#.....#", "#######"]);
        let start = (1, 1);
        let end = (5, 3);
        let path = a_star_random_path(&mut g, start, end).expect("an open room has a route");
        assert_eq!(path[0], start);
        assert_eq!(*path.last().unwrap(), end);
        for w in path.windows(2) {
            let (a, b) = (w[0], w[1]);
            let dx = a.0.abs_diff(b.0);
            let dy = a.1.abs_diff(b.1);
            assert_eq!(dx + dy, 1);
        }
        for &(x, y) in &path {
            assert_ne!(g.get(x, y), Cell::Wall);
        }
    }
}

#[test]
fn search_only_opens_interior_walls() {
    for _ in 0..20 {
        let mut g = grid_of(&[
            "#########",
            "#.##.##.#",
            "#..#..#.#",
            "#.#####.#",
            "#.......#",
            "#########",
        ]);
        let before = g.encode();
        let _ = a_star_random_path(&mut g, (1, 1), (7, 4));
        let after = g.encode();
        for y in 0..g.height() {
            for x in 0..g.width() {
                if before[y][x] != after[y][x] {
                    // Only a wall may change, only into floor, and only
                    // strictly inside the border.
                    assert_eq!(before[y][x], '#');
                    assert_eq!(after[y][x], '.');
                    assert!(x >= 1 && x < g.width() - 1);
                    assert!(y >= 1 && y < g.height() - 1);
                }
            }
        }
    }
}

#[test]
fn no_carve_candidate_on_a_tiny_map() {
    // On a three-by-three map the only interior cell is the current one,
    // so no neighbor can be carved.
    let g = grid_of(&["###", "#.#", "###"]);
    let t = SearchTables::new(3, 3);
    assert_eq!(random_neighbor(&t, (1, 1), &g, (1, 1)), None);
}

#[test]
fn carving_picks_an_unvisited_interior_neighbor() {
    let g = grid_of(&["#####", "#...#", "#...#", "#...#", "#####"]);
    let t = SearchTables::new(5, 5);
    for _ in 0..50 {
        let c = random_neighbor(&t, (2, 2), &g, (1, 1)).expect("candidates exist");
        let dx = c.0.abs_diff(2);
        let dy = c.1.abs_diff(2);
        assert_eq!(dx + dy, 1);
        assert!(c.0 >= 1 && c.0 <= 3 && c.1 >= 1 && c.1 <= 3);
    }
}
