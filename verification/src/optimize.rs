use vstd::prelude::*;

use crate::grid::Cell;
use crate::grid::Grid;
use crate::path::adjacent;
use crate::path::skip_run_open;
use crate::path::Coord;

verus! {

/// Every consecutive pair of waypoints is 4-adjacent.
pub open spec fn pairwise_adjacent(p: Seq<Coord>) -> bool {
    forall|i: int| 0 <= i < p.len() - 1 ==> adjacent(#[trigger] p[i], p[i + 1])
}

/// Every consecutive pair of waypoints is 4-adjacent or joined by a
/// straight run that the optimizer checked to be clear of walls.
pub open spec fn pairwise_linked(g: Grid, p: Seq<Coord>) -> bool {
    forall|i: int|
        0 <= i < p.len() - 1 ==> adjacent(#[trigger] p[i], p[i + 1]) || skip_run_open(
            g,
            p[i],
            p[i + 1],
        )
}

/// Every waypoint lies on the map.
pub open spec fn waypoints_in_bounds(g: Grid, p: Seq<Coord>) -> bool {
    forall|i: int|
        0 <= i < p.len() ==> g.in_bounds(#[trigger] p[i].0 as int, p[i].1 as int)
}

/// The optimizer's scan, written out as a function: at position `i`, drop
/// the middle waypoint of the triple when the straight run from `p[i]`
/// toward `p[i + 2]` is clear, otherwise advance.
pub open spec fn opt_from(g: Grid, p: Seq<Coord>, i: int) -> Seq<Coord>
    decreases p.len() - i,
{
    if i < 0 || i + 2 >= p.len() {
        p
    } else if skip_run_open(g, p[i], p[i + 2]) {
        opt_from(g, p.remove(i + 1), i)
    } else {
        opt_from(g, p, i + 1)
    }
}

/// Test whether the straight run from `a` (inclusive) toward `b`
/// (exclusive) is free of walls.
fn run_is_open(grid: &Grid, a: Coord, b: Coord) -> (r: bool)
    requires
        grid.wf(),
        grid.in_bounds(a.0 as int, a.1 as int),
        grid.in_bounds(b.0 as int, b.1 as int),
    ensures
        r == skip_run_open(*grid, a, b),
{
    if a.1 == b.1 {
        let lo = if a.0 <= b.0 {
            a.0
        } else {
            b.0
        };
        let hi = if a.0 <= b.0 {
            b.0
        } else {
            a.0
        };
        let mut x = lo;
        while x <= hi
            invariant
                grid.wf(),
                grid.in_bounds(lo as int, a.1 as int),
                grid.in_bounds(hi as int, a.1 as int),
                a.1 == b.1,
                lo <= a.0 <= hi,
                lo <= b.0 <= hi,
                lo == a.0 || lo == b.0,
                hi == a.0 || hi == b.0,
                lo <= x <= hi + 1,
                forall|xi: int|
                    lo <= xi < x && xi != b.0 ==> grid.spec_cell(xi, a.1 as int) != Cell::Wall,
            decreases hi + 1 - x,
        {
            if x != b.0 && grid.get(x, a.1) == Cell::Wall {
                proof {
                    assert(a.0 <= (x as int) && (x as int) < b.0 || b.0 < (x as int) && (x as int) <= a.0);
                    assert(grid.spec_cell(x as int, a.1 as int) == Cell::Wall);
                }
                return false;
            }
            x = x + 1;
        }
        true
    } else if a.0 == b.0 {
        let lo = if a.1 <= b.1 {
            a.1
        } else {
            b.1
        };
        let hi = if a.1 <= b.1 {
            b.1
        } else {
            a.1
        };
        let mut y = lo;
        while y <= hi
            invariant
                grid.wf(),
                grid.in_bounds(a.0 as int, lo as int),
                grid.in_bounds(a.0 as int, hi as int),
                a.0 == b.0,
                a.1 != b.1,
                lo <= a.1 <= hi,
                lo <= b.1 <= hi,
                lo == a.1 || lo == b.1,
                hi == a.1 || hi == b.1,
                lo <= y <= hi + 1,
                forall|yi: int|
                    lo <= yi < y && yi != b.1 ==> grid.spec_cell(a.0 as int, yi) != Cell::Wall,
            decreases hi + 1 - y,
        {
            if y != b.1 && grid.get(a.0, y) == Cell::Wall {
                proof {
                    assert(a.1 <= (y as int) && (y as int) < b.1 || b.1 < (y as int) && (y as int) <= a.1);
                    assert(grid.spec_cell(a.0 as int, y as int) == Cell::Wall);
                }
                return false;
            }
            y = y + 1;
        }
        true
    } else {
        false
    }
}

/// Remove waypoints that sit inside a straight, unobstructed run, scanning
/// forward one triple at a time. The first and last waypoints are kept, no
/// kept waypoint is new, and a pair merged by a removal is always joined by
/// a wall-free straight run on `grid`.
#[verifier::rlimit(60)]
pub fn optimize_path(path: &mut Vec<Coord>, grid: &Grid)
    requires
        grid.wf(),
        waypoints_in_bounds(*grid, old(path)@),
    ensures
        final(path)@ == opt_from(*grid, old(path)@, 0),
        old(path)@.len() >= 1 ==> {
            &&& final(path)@.len() >= 1
            &&& final(path)@[0] == old(path)@[0]
            &&& final(path)@[final(path)@.len() - 1] == old(path)@[old(path)@.len() - 1]
        },
        forall|k: int| 0 <= k < final(path)@.len() ==> old(path)@.contains(#[trigger] final(path)@[k]),
        pairwise_adjacent(old(path)@) ==> pairwise_linked(*grid, final(path)@),
{
    let mut i: usize = 0;
    while i + 2 < path.len()
        invariant
            i <= usize::MAX - 2,
            grid.wf(),
            waypoints_in_bounds(*grid, path@),
            opt_from(*grid, path@, i as int) == opt_from(*grid, old(path)@, 0),
            old(path)@.len() >= 1 ==> {
                &&& path@.len() >= 1
                &&& path@[0] == old(path)@[0]
                &&& path@[path@.len() - 1] == old(path)@[old(path)@.len() - 1]
            },
            forall|k: int| 0 <= k < path@.len() ==> old(path)@.contains(#[trigger] path@[k]),
            pairwise_adjacent(old(path)@) ==> pairwise_linked(*grid, path@),
        decreases path@.len() - i,
    {
        let ghost prev = path@;
        let a = path[i];
        let b = path[i + 2];
        if run_is_open(grid, a, b) {
            path.remove(i + 1);
            proof {
                lemma_remove_step(*grid, prev, path@, i as int, old(path)@);
            }
        } else {
            proof {
                assert(opt_from(*grid, path@, i as int) == opt_from(*grid, path@, i as int + 1));
            }
            i = i + 1;
        }
    }
}

/// One removal step of the scan keeps the endpoints, introduces no new
/// waypoint, keeps every waypoint on the map, keeps consecutive pairs
/// linked, and does not change where the scan ends up.
proof fn lemma_remove_step(g: Grid, prev: Seq<Coord>, cur: Seq<Coord>, i: int, orig: Seq<Coord>)
    requires
        0 <= i,
        i + 2 < prev.len(),
        cur == prev.remove(i + 1),
        skip_run_open(g, prev[i], prev[i + 2]),
        waypoints_in_bounds(g, prev),
        forall|k: int| 0 <= k < prev.len() ==> orig.contains(#[trigger] prev[k]),
        pairwise_adjacent(orig) ==> pairwise_linked(g, prev),
        orig.len() >= 1 ==> prev.len() >= 1 && prev[0] == orig[0] && prev[prev.len() - 1]
            == orig[orig.len() - 1],
    ensures
        waypoints_in_bounds(g, cur),
        forall|k: int| 0 <= k < cur.len() ==> orig.contains(#[trigger] cur[k]),
        pairwise_adjacent(orig) ==> pairwise_linked(g, cur),
        orig.len() >= 1 ==> cur.len() >= 1 && cur[0] == orig[0] && cur[cur.len() - 1]
            == orig[orig.len() - 1],
        opt_from(g, cur, i) == opt_from(g, prev, i),
{
    assert forall|k: int| 0 <= k < cur.len() implies orig.contains(#[trigger] cur[k])
        && g.in_bounds(cur[k].0 as int, cur[k].1 as int) by {
        if k <= i {
            assert(cur[k] == prev[k]);
        } else {
            assert(cur[k] == prev[k + 1]);
        }
    }
    if pairwise_adjacent(orig) {
        assert forall|k: int| 0 <= k < cur.len() - 1 implies adjacent(
            #[trigger] cur[k],
            cur[k + 1],
        ) || skip_run_open(g, cur[k], cur[k + 1]) by {
            if k < i {
                assert(cur[k] == prev[k]);
                assert(cur[k + 1] == prev[k + 1]);
            } else if k == i {
                assert(cur[k] == prev[k]);
                assert(cur[k + 1] == prev[k + 2]);
            } else {
                assert(cur[k] == prev[k + 1]);
                assert(cur[k + 1] == prev[k + 2]);
            }
        }
    }
    if orig.len() >= 1 {
        assert(cur[0] == prev[0]);
        assert(cur[cur.len() - 1] == prev[prev.len() - 1]);
    }
}

/// A path in which no triple of waypoints admits a skip is a fixed point
/// of the optimizer's scan, wherever the scan starts.
pub proof fn lemma_opt_fixpoint(g: Grid, p: Seq<Coord>, i: int)
    requires
        forall|k: int| 0 <= k < p.len() - 2 ==> !skip_run_open(g, #[trigger] p[k], p[k + 2]),
        i >= 0,
    ensures
        opt_from(g, p, i) == p,
    decreases p.len() - i,
{
    if i + 2 >= p.len() {
    } else {
        assert(!skip_run_open(g, p[i], p[i + 2]));
        lemma_opt_fixpoint(g, p, i + 1);
    }
}

} // verus!
