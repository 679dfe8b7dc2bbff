use vstd::prelude::*;

use crate::grid::Cell;
use crate::grid::Grid;

verus! {

/// An `(x, y)` position on a map.
pub type Coord = (usize, usize);

/// The Manhattan distance between two coordinates.
pub open spec fn manhattan(a: Coord, b: Coord) -> int {
    let dx = if a.0 >= b.0 {
        a.0 - b.0
    } else {
        b.0 - a.0
    };
    let dy = if a.1 >= b.1 {
        a.1 - b.1
    } else {
        b.1 - a.1
    };
    dx + dy
}

/// Two coordinates are 4-adjacent.
pub open spec fn adjacent(a: Coord, b: Coord) -> bool {
    manhattan(a, b) == 1
}

/// The coordinate is on the map and its cell can be walked through.
pub open spec fn coord_open(g: Grid, c: Coord) -> bool {
    &&& g.in_bounds(c.0 as int, c.1 as int)
    &&& g.spec_cell(c.0 as int, c.1 as int) != Cell::Wall
}

/// `p` walks from `s` to `e` over open cells, each step 4-adjacent.
pub open spec fn connects(g: Grid, p: Seq<Coord>, s: Coord, e: Coord) -> bool {
    &&& p.len() >= 1
    &&& p[0] == s
    &&& p[p.len() - 1] == e
    &&& forall|i: int| 0 <= i < p.len() ==> coord_open(g, #[trigger] p[i])
    &&& forall|i: int| 0 <= i < p.len() - 1 ==> adjacent(#[trigger] p[i], p[i + 1])
}

/// Some walk over open cells joins `s` to `e`.
pub open spec fn reachable(g: Grid, s: Coord, e: Coord) -> bool {
    exists|p: Seq<Coord>| connects(g, p, s, e)
}

/// Every cell on the straight closed segment from `a` to `b` is open
/// (the segment must lie on one row or one column).
pub open spec fn segment_open(g: Grid, a: Coord, b: Coord) -> bool {
    if a.1 == b.1 {
        forall|x: int|
            (a.0 <= x <= b.0 || b.0 <= x <= a.0) ==> g.spec_cell(x, a.1 as int) != Cell::Wall
    } else if a.0 == b.0 {
        forall|y: int|
            (a.1 <= y <= b.1 || b.1 <= y <= a.1) ==> g.spec_cell(a.0 as int, y) != Cell::Wall
    } else {
        false
    }
}

/// Every cell on the straight run from `a` (inclusive) toward `b`
/// (exclusive) is open; this is the clearance the optimizer tests.
pub open spec fn skip_run_open(g: Grid, a: Coord, b: Coord) -> bool {
    if a.1 == b.1 {
        forall|x: int|
            (a.0 <= x < b.0 || b.0 < x <= a.0) ==> g.spec_cell(x, a.1 as int) != Cell::Wall
    } else if a.0 == b.0 {
        forall|y: int|
            (a.1 <= y < b.1 || b.1 < y <= a.1) ==> g.spec_cell(a.0 as int, y) != Cell::Wall
    } else {
        false
    }
}

/// A half-open clear run whose far endpoint is itself open is a clear
/// closed segment.
pub proof fn lemma_skip_run_to_segment(g: Grid, a: Coord, b: Coord)
    requires
        skip_run_open(g, a, b),
        g.spec_cell(b.0 as int, b.1 as int) != Cell::Wall,
    ensures
        segment_open(g, a, b),
{
}

/// Two open adjacent cells form a clear closed segment.
pub proof fn lemma_adjacent_segment(g: Grid, a: Coord, b: Coord)
    requires
        adjacent(a, b),
        g.spec_cell(a.0 as int, a.1 as int) != Cell::Wall,
        g.spec_cell(b.0 as int, b.1 as int) != Cell::Wall,
    ensures
        segment_open(g, a, b),
{
}

/// Each waypoint is open and each consecutive pair is joined by a clear
/// straight segment.
pub open spec fn route_ok(g: Grid, p: Seq<Coord>) -> bool {
    &&& forall|i: int| 0 <= i < p.len() ==> coord_open(g, #[trigger] p[i])
    &&& forall|i: int| 0 <= i < p.len() - 1 ==> segment_open(g, #[trigger] p[i], p[i + 1])
}

/// The endpoints of a clear straight segment are joined by a walk.
pub proof fn lemma_segment_reachable(g: Grid, a: Coord, b: Coord)
    requires
        g.wf(),
        g.in_bounds(a.0 as int, a.1 as int),
        g.in_bounds(b.0 as int, b.1 as int),
        segment_open(g, a, b),
    ensures
        reachable(g, a, b),
    decreases manhattan(a, b),
{
    if a == b {
        let w = seq![a];
        assert(connects(g, w, a, b));
    } else {
        let c: Coord = if a.1 == b.1 {
            if a.0 < b.0 {
                ((a.0 + 1) as usize, a.1)
            } else {
                ((a.0 - 1) as usize, a.1)
            }
        } else {
            if a.1 < b.1 {
                (a.0, (a.1 + 1) as usize)
            } else {
                (a.0, (a.1 - 1) as usize)
            }
        };
        assert(adjacent(a, c));
        assert(segment_open(g, c, b));
        lemma_segment_reachable(g, c, b);
        let p = choose|p: Seq<Coord>| connects(g, p, c, b);
        let q = seq![a] + p;
        assert(q[0] == a);
        assert(q[q.len() - 1] == b);
        assert forall|i: int| 0 <= i < q.len() implies coord_open(g, #[trigger] q[i]) by {
            if i >= 1 {
                assert(q[i] == p[i - 1]);
            }
        }
        assert forall|i: int| 0 <= i < q.len() - 1 implies adjacent(#[trigger] q[i], q[i + 1]) by {
            if i == 0 {
                assert(q[1] == p[0]);
            } else {
                assert(q[i] == p[i - 1]);
                assert(q[i + 1] == p[i]);
            }
        }
        assert(connects(g, q, a, b));
    }
}

/// Walks compose: if `a` reaches `b` and `b` reaches `c`, then `a` reaches `c`.
pub proof fn lemma_reachable_trans(g: Grid, a: Coord, b: Coord, c: Coord)
    requires
        reachable(g, a, b),
        reachable(g, b, c),
    ensures
        reachable(g, a, c),
{
    let p1 = choose|p: Seq<Coord>| connects(g, p, a, b);
    let p2 = choose|p: Seq<Coord>| connects(g, p, b, c);
    if p2.len() == 1 {
        assert(connects(g, p1, a, c));
    } else {
        let q = p1 + p2.subrange(1, p2.len() as int);
        let n1 = p1.len() as int;
        assert(q[0] == p1[0]);
        assert(q[q.len() - 1] == p2[p2.len() - 1]);
        assert forall|i: int| 0 <= i < q.len() implies coord_open(g, #[trigger] q[i]) by {
            if i >= n1 {
                assert(q[i] == p2[i - n1 + 1]);
            }
        }
        assert forall|i: int| 0 <= i < q.len() - 1 implies adjacent(#[trigger] q[i], q[i + 1]) by {
            if i < n1 - 1 {
                assert(q[i] == p1[i]);
                assert(q[i + 1] == p1[i + 1]);
            } else if i == n1 - 1 {
                assert(q[i] == p1[n1 - 1]);
                assert(q[i + 1] == p2[1]);
                assert(adjacent(p2[0], p2[1]));
            } else {
                assert(q[i] == p2[i - n1 + 1]);
                assert(q[i + 1] == p2[i - n1 + 2]);
                assert(adjacent(p2[i - n1 + 1], p2[i - n1 + 2]));
            }
        }
        assert(connects(g, q, a, c));
    }
}

/// A route of clear straight segments joins its first waypoint to its last.
pub proof fn lemma_route_reachable(g: Grid, p: Seq<Coord>)
    requires
        g.wf(),
        p.len() >= 1,
        route_ok(g, p),
    ensures
        reachable(g, p[0], p[p.len() - 1]),
    decreases p.len(),
{
    if p.len() == 1 {
        let w = seq![p[0]];
        assert(connects(g, w, p[0], p[0]));
    } else {
        let q = p.drop_last();
        assert(route_ok(g, q)) by {
            assert(forall|i: int| 0 <= i < q.len() ==> coord_open(g, #[trigger] q[i]));
            assert(forall|i: int|
                0 <= i < q.len() - 1 ==> segment_open(g, #[trigger] q[i], q[i + 1]));
        }
        lemma_route_reachable(g, q);
        let a = p[p.len() - 2];
        let b = p[p.len() - 1];
        lemma_segment_reachable(g, a, b);
        lemma_reachable_trans(g, p[0], a, b);
    }
}

} // verus!
