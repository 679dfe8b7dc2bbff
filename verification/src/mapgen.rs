use vstd::prelude::*;

use crate::grid::Cell;
use crate::grid::Grid;
use crate::grid::lemma_area_small;
use crate::grid::lemma_row_major_surjective;
use crate::optimize::optimize_path;
use crate::optimize::waypoints_in_bounds;
use crate::path::adjacent;
use crate::path::coord_open;
use crate::path::lemma_adjacent_segment;
use crate::path::lemma_route_reachable;
use crate::path::lemma_skip_run_to_segment;
use crate::path::reachable;
use crate::path::route_ok;
use crate::path::segment_open;
use crate::path::skip_run_open;
use crate::path::Coord;
use crate::rng::rand_below;
use crate::rng::sample_indices;
use crate::search::a_star_random_path;
use crate::search::carved_from;

verus! {

/// Generation failed in the only recoverable way: every attempt ended with
/// no route from start to exit.
#[derive(Clone, Copy, Debug, PartialEq, Eq, Structural)]
pub enum GenError {
    RetriesExhausted,
}

/// How many fresh grids one call may try before giving up.
pub const MAX_GENERATION_ATTEMPTS: usize = 200;

/// How many monster markers a map may carry.
pub const MONSTER_LIMIT: usize = 3;

/// The number of `Monster` cells in a cell sequence.
pub open spec fn count_monsters(s: Seq<Cell>) -> int
    decreases s.len(),
{
    if s.len() == 0 {
        0
    } else {
        count_monsters(s.drop_last()) + if s.last() is Monster {
            1int
        } else {
            0int
        }
    }
}

/// Updating one cell changes the monster count by the difference at that
/// cell.
proof fn lemma_count_update(s: Seq<Cell>, i: int, v: Cell)
    requires
        0 <= i < s.len(),
    ensures
        count_monsters(s.update(i, v)) == count_monsters(s) - (if s[i] is Monster {
            1int
        } else {
            0int
        }) + (if v is Monster {
            1int
        } else {
            0int
        }),
    decreases s.len(),
{
    let t = s.update(i, v);
    if i == s.len() - 1 {
        assert(t.drop_last() =~= s.drop_last());
    } else {
        assert(t.drop_last() =~= s.drop_last().update(i, v));
        lemma_count_update(s.drop_last(), i, v);
    }
}

/// Pointwise domination of monsters gives domination of the counts.
proof fn lemma_count_le(s1: Seq<Cell>, s2: Seq<Cell>)
    requires
        s1.len() == s2.len(),
        forall|k: int| 0 <= k < s2.len() && (#[trigger] s2[k]) is Monster ==> s1[k] is Monster,
    ensures
        count_monsters(s2) <= count_monsters(s1),
    decreases s1.len(),
{
    if s1.len() > 0 {
        lemma_count_le(s1.drop_last(), s2.drop_last());
    }
}

/// A sequence without monsters counts zero.
proof fn lemma_count_zero(s: Seq<Cell>)
    requires
        forall|k: int| 0 <= k < s.len() ==> !((#[trigger] s[k]) is Monster),
    ensures
        count_monsters(s) == 0,
    decreases s.len(),
{
    if s.len() > 0 {
        lemma_count_zero(s.drop_last());
    }
}

/// Carving (opening interior walls into floor) never changes the monster
/// count.
proof fn lemma_count_carved(g0: Grid, g1: Grid)
    requires
        g0.wf(),
        g1.wf(),
        carved_from(g0, g1),
    ensures
        count_monsters(g1.spec_cells()) == count_monsters(g0.spec_cells()),
{
    let w = g0.spec_width();
    let h = g0.spec_height();
    assert forall|k: int|
        0 <= k < g1.spec_cells().len() && (#[trigger] g1.spec_cells()[k]) is Monster implies
        g0.spec_cells()[k] is Monster by {
        lemma_row_major_surjective(w, h, k);
        let x = k % w;
        let y = k / w;
        assert(g1.spec_cell(x, y) == g1.spec_cells()[k]);
        assert(g0.spec_cell(x, y) == g0.spec_cells()[k]);
    }
    assert forall|k: int|
        0 <= k < g0.spec_cells().len() && (#[trigger] g0.spec_cells()[k]) is Monster implies
        g1.spec_cells()[k] is Monster by {
        lemma_row_major_surjective(w, h, k);
        let x = k % w;
        let y = k / w;
        assert(g1.spec_cell(x, y) == g1.spec_cells()[k]);
        assert(g0.spec_cell(x, y) == g0.spec_cells()[k]);
    }
    lemma_count_le(g0.spec_cells(), g1.spec_cells());
    lemma_count_le(g1.spec_cells(), g0.spec_cells());
}

/// Every border cell other than the exit is a wall.
pub open spec fn border_sealed(g: Grid, ex: int, ey: int) -> bool {
    forall|x: int, y: int|
        g.in_bounds(x, y) && !g.interior(x, y) && !(x == ex && y == ey)
            ==> #[trigger] g.spec_cell(x, y) == Cell::Wall
}

/// `(1, 1)` carries the only start marker on the map and `(ex, ey)` the
/// only exit marker.
pub open spec fn markers_unique(g: Grid, ex: int, ey: int) -> bool {
    &&& forall|x: int, y: int|
        g.in_bounds(x, y) && #[trigger] g.spec_cell(x, y) == Cell::Start ==> x == 1 && y == 1
    &&& forall|x: int, y: int|
        g.in_bounds(x, y) && #[trigger] g.spec_cell(x, y) == Cell::Exit ==> x == ex && y == ey
}

/// The x coordinate of the exit for a map of width `w`.
pub open spec fn exit_x(w: int) -> int {
    (w + 1) / 2
}

/// What the generator promises of every map it returns: sound dimensions,
/// the start marker at `(1, 1)`, the exit marker at its computed border
/// position, a sealed border elsewhere, at most three monsters, and a walk
/// of non-wall cells from start to exit.
pub open spec fn finished_map(g: Grid) -> bool {
    &&& g.wf()
    &&& g.spec_cell(1, 1) == Cell::Start
    &&& g.spec_cell(exit_x(g.spec_width()), g.spec_height() - 1) == Cell::Exit
    &&& markers_unique(g, exit_x(g.spec_width()), g.spec_height() - 1)
    &&& border_sealed(g, exit_x(g.spec_width()), g.spec_height() - 1)
    &&& count_monsters(g.spec_cells()) <= MONSTER_LIMIT
    &&& reachable(
        g,
        (1usize, 1usize),
        ((exit_x(g.spec_width()) as usize), ((g.spec_height() - 1) as usize)),
    )
}

/// Nine or more cells fit in the smallest accepted map.
proof fn lemma_area_at_least(w: int, h: int) by (nonlinear_arith)
    requires
        3 <= w,
        3 <= h,
    ensures
        w * h >= 9,
{
}

/// A clear straight run stays clear when walls only open into floor.
proof fn lemma_skip_run_monotone(g0: Grid, g1: Grid, a: Coord, b: Coord)
    requires
        skip_run_open(g0, a, b),
        g1.spec_width() == g0.spec_width(),
        g1.spec_height() == g0.spec_height(),
        g0.in_bounds(a.0 as int, a.1 as int),
        g0.in_bounds(b.0 as int, b.1 as int),
        forall|x: int, y: int|
            g0.in_bounds(x, y) && g0.spec_cell(x, y) != Cell::Wall
                ==> #[trigger] g1.spec_cell(x, y) != Cell::Wall,
    ensures
        skip_run_open(g1, a, b),
{
    if a.1 == b.1 {
        assert forall|x: int|
            (a.0 <= x < b.0 || b.0 < x <= a.0) implies g1.spec_cell(x, a.1 as int)
            != Cell::Wall by {
            assert(g0.spec_cell(x, a.1 as int) != Cell::Wall);
            assert(g0.in_bounds(x, a.1 as int));
        }
    } else if a.0 == b.0 {
        assert forall|y: int|
            (a.1 <= y < b.1 || b.1 < y <= a.1) implies g1.spec_cell(a.0 as int, y)
            != Cell::Wall by {
            assert(g0.spec_cell(a.0 as int, y) != Cell::Wall);
            assert(g0.in_bounds(a.0 as int, y));
        }
    }
}

/// One generation attempt: draw dimensions, fill the interior with the
/// given wall density, scatter monsters, place the markers, and search.
/// `None` means the search found no route and the caller should retry.
#[verifier::rlimit(80)]
fn generate_attempt(wall_percent: usize) -> (r: Option<Grid>)
    ensures
        r matches Some(g) ==> finished_map(g),
{
    let w0 = rand_below(3, 22);
    let w = if w0 % 2 == 0 {
        w0 + 1
    } else {
        w0
    };
    let h = rand_below(3, 23);
    let mut g = Grid::new(w, h);

    // Interior fill: each cell independently becomes floor unless the draw
    // falls under the wall density.
    let mut y: usize = 1;
    while y < h - 1
        invariant
            g.wf(),
            g.spec_width() == w,
            g.spec_height() == h,
            3 <= w <= 21,
            3 <= h <= 22,
            1 <= y <= h - 1,
            forall|x: int, yy: int|
                g.in_bounds(x, yy) ==> ((#[trigger] g.spec_cell(x, yy)) is Wall || g.spec_cell(
                    x,
                    yy,
                ) is Floor),
            forall|x: int, yy: int|
                g.in_bounds(x, yy) && !g.interior(x, yy) ==> #[trigger] g.spec_cell(x, yy)
                    == Cell::Wall,
        decreases h - 1 - y,
    {
        let mut x: usize = 1;
        while x < w - 1
            invariant
                g.wf(),
                g.spec_width() == w,
                g.spec_height() == h,
                3 <= w <= 21,
                3 <= h <= 22,
                1 <= y <= h - 2,
                1 <= x <= w - 1,
                forall|xx: int, yy: int|
                    g.in_bounds(xx, yy) ==> ((#[trigger] g.spec_cell(xx, yy)) is Wall
                        || g.spec_cell(xx, yy) is Floor),
                forall|xx: int, yy: int|
                    g.in_bounds(xx, yy) && !g.interior(xx, yy) ==> #[trigger] g.spec_cell(xx, yy)
                        == Cell::Wall,
            decreases w - 1 - x,
        {
            let d = rand_below(0, 100);
            if d >= wall_percent {
                g.set(x, y, Cell::Floor);
            }
            x = x + 1;
        }
        y = y + 1;
    }
    proof {
        assert forall|k: int|
            0 <= k < g.spec_cells().len() implies !((#[trigger] g.spec_cells()[k]) is Monster) by {
            lemma_row_major_surjective(w as int, h as int, k);
            assert(g.spec_cell(k % (w as int), k / (w as int)) == g.spec_cells()[k]);
        }
        lemma_count_zero(g.spec_cells());
        assert(forall|x: int, yy: int|
            g.in_bounds(x, yy) ==> ((#[trigger] g.spec_cell(x, yy)) is Wall || g.spec_cell(
                x,
                yy,
            ) is Floor));
    }

    // Scatter up to three monsters on floor cells.
    proof {
        lemma_area_at_least(w as int, h as int);
        lemma_area_small(w as int, h as int);
    }
    let total = w * h;
    let picks = sample_indices(total, MONSTER_LIMIT);
    let mut j: usize = 0;
    while j < picks.len()
        invariant
            g.wf(),
            g.spec_width() == w,
            g.spec_height() == h,
            3 <= w <= 21,
            3 <= h <= 22,
            picks@.len() == MONSTER_LIMIT,
            forall|i: int| 0 <= i < picks@.len() ==> #[trigger] picks@[i] < w * h,
            j <= picks@.len(),
            count_monsters(g.spec_cells()) <= j,
            forall|xx: int, yy: int|
                g.in_bounds(xx, yy) ==> ((#[trigger] g.spec_cell(xx, yy)) is Wall || g.spec_cell(
                    xx,
                    yy,
                ) is Floor || g.spec_cell(xx, yy) is Monster),
            forall|xx: int, yy: int|
                g.in_bounds(xx, yy) && !g.interior(xx, yy) ==> #[trigger] g.spec_cell(xx, yy)
                    == Cell::Wall,
        decreases picks@.len() - j,
    {
        let idx = picks[j];
        proof {
            lemma_row_major_surjective(w as int, h as int, idx as int);
        }
        let mx = idx % w;
        let my = idx / w;
        if g.get(mx, my) == Cell::Floor {
            let ghost cells0 = g.spec_cells();
            g.set(mx, my, Cell::Monster);
            proof {
                lemma_count_update(cells0, my as int * w as int + mx as int, Cell::Monster);
            }
        }
        j = j + 1;
    }

    // Place the start and exit markers.
    let start: Coord = (1, 1);
    let ex = (w + 1) / 2;
    let ey = h - 1;
    let ghost cells1 = g.spec_cells();
    g.set(1, 1, Cell::Start);
    proof {
        crate::grid::lemma_row_major_index(w as int, h as int, 1int, 1int);
        lemma_count_update(cells1, 1int * w as int + 1int, Cell::Start);
    }
    let ghost cells2 = g.spec_cells();
    g.set(ex, ey, Cell::Exit);
    proof {
        crate::grid::lemma_row_major_index(w as int, h as int, ex as int, ey as int);
        lemma_count_update(cells2, ey as int * w as int + ex as int, Cell::Exit);
    }
    proof {
        assert(border_sealed(g, ex as int, ey as int));
        assert(markers_unique(g, ex as int, ey as int));
    }

    // Search, carving as a side effect.
    let ghost gpre = g;
    let path_opt = a_star_random_path(&mut g, start, (ex, ey));
    proof {
        lemma_count_carved(gpre, g);
        assert forall|x: int, y: int|
            g.in_bounds(x, y) && #[trigger] g.spec_cell(x, y) == Cell::Start implies x == 1 && y
            == 1 by {
            assert(gpre.spec_cell(x, y) == Cell::Start);
        }
        assert forall|x: int, y: int|
            g.in_bounds(x, y) && #[trigger] g.spec_cell(x, y) == Cell::Exit implies x == ex && y
            == ey by {
            assert(gpre.spec_cell(x, y) == Cell::Exit);
        }
        assert(markers_unique(g, ex as int, ey as int));
    }
    let mut path = match path_opt {
        Option::Some(p) => p,
        Option::None => {
            return None;
        },
    };

    // Simplify the path, then force every kept waypoint open.
    proof {
        assert(waypoints_in_bounds(g, path@)) by {
            assert(forall|i: int|
                0 <= i < path@.len() ==> coord_open(g, #[trigger] path@[i]));
        }
    }
    let ghost rough = path@;
    optimize_path(&mut path, &g);
    let ghost gsearch = g;
    proof {
        assert forall|k: int| 0 <= k < path@.len() implies coord_open(gsearch, #[trigger] path@[k]) by {
            assert(rough.contains(path@[k]));
            let i = choose|i: int| 0 <= i < rough.len() && rough[i] == path@[k];
            assert(coord_open(gsearch, rough[i]));
        }
    }
    let mut j2: usize = 0;
    while j2 < path.len()
        invariant
            g.wf(),
            g.spec_width() == w,
            g.spec_height() == h,
            3 <= w <= 21,
            3 <= h <= 22,
            ex == (w + 1) / 2,
            ey == h - 1,
            gsearch.spec_width() == w,
            gsearch.spec_height() == h,
            forall|k: int| 0 <= k < path@.len() ==> coord_open(gsearch, #[trigger] path@[k]),
            forall|x: int, y2: int|
                gsearch.in_bounds(x, y2) && gsearch.spec_cell(x, y2) != Cell::Wall
                    ==> #[trigger] g.spec_cell(x, y2) != Cell::Wall,
            border_sealed(gsearch, ex as int, ey as int),
            border_sealed(g, ex as int, ey as int),
            markers_unique(g, ex as int, ey as int),
            count_monsters(g.spec_cells()) <= MONSTER_LIMIT,
            g.spec_cell(1, 1) == Cell::Start,
            g.spec_cell(ex as int, ey as int) == Cell::Exit,
            j2 <= path@.len(),
        decreases path@.len() - j2,
    {
        let c = path[j2];
        let ghost cellsj = g.spec_cells();
        if c.0 == ex && c.1 == ey {
        } else if c.0 == 1 && c.1 == 1 {
            g.set(1, 1, Cell::Start);
            proof {
                crate::grid::lemma_row_major_index(w as int, h as int, 1int, 1int);
                lemma_count_update(cellsj, 1int * w as int + 1int, Cell::Start);
            }
        } else {
            g.set(c.0, c.1, Cell::Floor);
            proof {
                crate::grid::lemma_row_major_index(w as int, h as int, c.0 as int, c.1 as int);
                lemma_count_update(cellsj, c.1 as int * w as int + c.0 as int, Cell::Floor);
            }
        }
        j2 = j2 + 1;
    }

    // The kept waypoints and their checked straight runs form a route of
    // open cells in the final map.
    proof {
        assert forall|k: int| 0 <= k < path@.len() implies coord_open(g, #[trigger] path@[k]) by {
            assert(coord_open(gsearch, path@[k]));
        }
        assert forall|k: int|
            0 <= k < path@.len() - 1 implies segment_open(g, #[trigger] path@[k], path@[k + 1]) by {
            if adjacent(path@[k], path@[k + 1]) {
                lemma_adjacent_segment(g, path@[k], path@[k + 1]);
            } else {
                assert(skip_run_open(gsearch, path@[k], path@[k + 1]));
                lemma_skip_run_monotone(gsearch, g, path@[k], path@[k + 1]);
                lemma_skip_run_to_segment(g, path@[k], path@[k + 1]);
            }
        }
        assert(route_ok(g, path@));
        lemma_route_reachable(g, path@);
    }
    Some(g)
}

/// Generate one finished map at the given wall density (in hundredths),
/// retrying with a fresh grid up to `max_attempts` times; every returned map
/// keeps the generator's promise.
pub fn generate_random_map_with(wall_percent: usize, max_attempts: usize) -> (r: Result<
    Grid,
    GenError,
>)
    ensures
        r matches Ok(g) ==> finished_map(g),
        r matches Err(e) ==> e == GenError::RetriesExhausted,
        max_attempts == 0 ==> r is Err,
{
    let mut attempt: usize = 0;
    while attempt < max_attempts
        decreases max_attempts - attempt,
    {
        if let Some(g) = generate_attempt(wall_percent) {
            return Ok(g);
        }
        attempt = attempt + 1;
    }
    Err(GenError::RetriesExhausted)
}

/// Generate one finished map, drawing a fresh wall density from twenty to
/// seventy-nine hundredths for each attempt; every returned map keeps the
/// generator's promise.
pub fn generate_random_map() -> (r: Result<Grid, GenError>)
    ensures
        r matches Ok(g) ==> finished_map(g),
        r matches Err(e) ==> e == GenError::RetriesExhausted,
{
    let mut attempt: usize = 0;
    while attempt < MAX_GENERATION_ATTEMPTS
        decreases MAX_GENERATION_ATTEMPTS - attempt,
    {
        let wall_percent = rand_below(20, 80);
        if let Some(g) = generate_attempt(wall_percent) {
            return Ok(g);
        }
        attempt = attempt + 1;
    }
    Err(GenError::RetriesExhausted)
}

} // verus!
