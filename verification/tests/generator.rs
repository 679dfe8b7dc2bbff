use dungeon::mapgen::{generate_random_map, generate_random_map_with, GenError};
use dungeon::Grid;

fn bfs_reached(rows: &Vec<Vec<char>>, sx: usize, sy: usize) -> Vec<Vec<bool>> {
    let h = rows.len();
    let w = rows[0].len();
    let mut seen = vec![vec![false; w]; h];
    let mut queue = vec![(sx, sy)];
    seen[sy][sx] = true;
    while let Some((x, y)) = queue.pop() {
        let mut nbrs = Vec::new();
        if x + 1 < w {
            nbrs.push((x + 1, y));
        }
        if x > 0 {
            nbrs.push((x - 1, y));
        }
        if y + 1 < h {
            nbrs.push((x, y + 1));
        }
        if y > 0 {
            nbrs.push((x, y - 1));
        }
        for (nx, ny) in nbrs {
            if !seen[ny][nx] && rows[ny][nx] != '#' {
                seen[ny][nx] = true;
                queue.push((nx, ny));
            }
        }
    }
    seen
}

fn check_map(g: &Grid) {
    let rows = g.encode();
    let w = g.width();
    let h = g.height();
    // Bounds: width odd and in range, height in range, exit in bounds.
    assert!(w % 2 == 1);
    assert!((3..=21).contains(&w));
    assert!((3..=22).contains(&h));
    let ex = (w + 1) / 2;
    let ey = h - 1;
    assert!(ex < w && ey < h);
    // Markers.
    assert_eq!(rows[1][1], 'P');
    assert_eq!(rows[ey][ex], 'E');
    // Border sealed except at the exit.
    for x in 0..w {
        for y in 0..h {
            let border = x == 0 || x == w - 1 || y == 0 || y == h - 1;
            if border && !(x == ex && y == ey) {
                assert_eq!(rows[y][x], '#');
            }
        }
    }
    // Entity bound: at most three monsters, none on the markers.
    let monsters: usize = rows
        .iter()
        .map(|r| r.iter().filter(|&&c| c == 'M').count())
        .sum();
    assert!(monsters <= 3);
    // Reachability: the exit is reached from the start over non-wall cells.
    let seen = bfs_reached(&rows, 1, 1);
    assert!(seen[ey][ex]);
}

#[test]
fn generated_maps_are_connected_and_bounded() {
    for _ in 0..40 {
        let g = generate_random_map().expect("generation should succeed at default densities");
        check_map(&g);
    }
}

#[test]
fn fixed_density_maps_are_valid() {
    for percent in [0, 10, 20, 30] {
        let g = generate_random_map_with(percent, 400).expect("low densities should succeed");
        check_map(&g);
    }
    // Denser grids may or may not connect within the attempt budget, but
    // a returned map must still keep every promise.
    for percent in [50, 70] {
        if let Ok(g) = generate_random_map_with(percent, 100) {
            check_map(&g);
        }
    }
}

#[test]
fn high_density_generation_always_terminates() {
    // Near the upper bound of the wall density every run must still end,
    // either with a valid connected map or with an explicit failure.
    let mut successes = 0usize;
    for _ in 0..1000 {
        match generate_random_map_with(79, 10) {
            Ok(g) => {
                successes += 1;
                check_map(&g);
            }
            Err(e) => assert_eq!(e, GenError::RetriesExhausted),
        }
    }
    // Carving opens routes even through dense walls; most runs succeed.
    assert!(successes > 0);
}

#[test]
fn impossible_density_reports_exhaustion() {
    // No attempts are allowed, so the typed failure must come back.
    match generate_random_map_with(100, 0) {
        Err(e) => assert_eq!(e, GenError::RetriesExhausted),
        Ok(_) => panic!("generation with zero attempts cannot succeed"),
    }
}
