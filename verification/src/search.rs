use vstd::prelude::*;

use crate::grid::Cell;
use crate::grid::Grid;
use crate::grid::lemma_area_small;
use crate::grid::lemma_row_major_index;
use crate::grid::lemma_row_major_injective;
use crate::grid::MAX_HEIGHT;
use crate::grid::MAX_WIDTH;
use crate::path::adjacent;
use crate::path::coord_open;
use crate::path::manhattan;
use crate::path::Coord;
use crate::rng::weighted_pick;

verus! {

/// A frontier entry of the search: a coordinate, its accumulated cost from
/// the start, and its Manhattan estimate to the goal.
#[derive(Clone, Copy)]
pub struct Node {
    pub x: usize,
    pub y: usize,
    pub cost: usize,
    pub heuristic: usize,
}

/// Search ordering: ascending `cost + heuristic`, ties broken by
/// ascending `heuristic`.
pub open spec fn node_le(a: Node, b: Node) -> bool {
    ||| a.cost + a.heuristic < b.cost + b.heuristic
    ||| (a.cost + a.heuristic == b.cost + b.heuristic && a.heuristic <= b.heuristic)
}

/// Compare two frontier entries by the search ordering.
fn node_le_exec(a: &Node, b: &Node) -> (r: bool)
    ensures
        r == node_le(*a, *b),
{
    let ka = a.cost as u128 + a.heuristic as u128;
    let kb = b.cost as u128 + b.heuristic as u128;
    if ka < kb {
        true
    } else if ka == kb {
        a.heuristic <= b.heuristic
    } else {
        false
    }
}

/// Remove and return a least entry of the frontier under the search
/// ordering.
fn pop_min(open: &mut Vec<Node>) -> (n: Node)
    requires
        old(open)@.len() >= 1,
    ensures
        final(open)@.len() == old(open)@.len() - 1,
        old(open)@.contains(n),
        forall|k: int|
            0 <= k < final(open)@.len() ==> old(open)@.contains(#[trigger] final(open)@[k])
                && node_le(n, final(open)@[k]),
{
    let mut best: usize = 0;
    let mut j: usize = 1;
    while j < open.len()
        invariant
            open@.len() >= 1,
            best < j <= open@.len(),
            forall|k: int| 0 <= k < j ==> node_le(open@[best as int], #[trigger] open@[k]),
        decreases open@.len() - j,
    {
        if node_le_exec(&open[j], &open[best]) {
            best = j;
        }
        j = j + 1;
    }
    let ghost prev = open@;
    let n = open.swap_remove(best);
    proof {
        assert forall|k: int|
            0 <= k < open@.len() implies prev.contains(#[trigger] open@[k]) && node_le(
            n,
            open@[k],
        ) by {
            if k == best {
                assert(open@[k] == prev[prev.len() - 1]);
            } else {
                assert(open@[k] == prev[k]);
            }
        }
        assert(prev.contains(n)) by {
            assert(prev[best as int] == n);
        }
    }
    n
}

/// Compute the Manhattan distance between two coordinates.
pub fn manhattan_dist(a: Coord, b: Coord) -> (d: usize)
    requires
        manhattan(a, b) <= usize::MAX,
    ensures
        d == manhattan(a, b),
{
    let dx = if a.0 >= b.0 {
        a.0 - b.0
    } else {
        b.0 - a.0
    };
    let dy = if a.1 >= b.1 {
        a.1 - b.1
    } else {
        b.1 - a.1
    };
    dx + dy
}

/// The per-cell state of one search: the best cost found so far for each
/// cell (`usize::MAX` meaning unreached) and the back-pointer recorded when
/// that cost was set.
pub struct SearchTables {
    width: usize,
    height: usize,
    g_score: Vec<usize>,
    parent: Vec<Option<Coord>>,
}

impl SearchTables {
    /// The table width, as seen by specifications.
    pub closed spec fn spec_w(self) -> int {
        self.width as int
    }

    /// The table height, as seen by specifications.
    pub closed spec fn spec_h(self) -> int {
        self.height as int
    }

    /// The recorded cost of a cell.
    #[verifier::opaque]
    pub closed spec fn spec_g(self, x: int, y: int) -> usize {
        self.g_score@[y * self.spec_w() + x]
    }

    /// The recorded back-pointer of a cell.
    #[verifier::opaque]
    pub closed spec fn spec_parent(self, x: int, y: int) -> Option<Coord> {
        self.parent@[y * self.spec_w() + x]
    }

    /// A coordinate lies inside the tables.
    pub open spec fn in_table(self, x: int, y: int) -> bool {
        0 <= x < self.spec_w() && 0 <= y < self.spec_h()
    }

    /// Dimensions are in range and the storage matches them.
    pub closed spec fn wf(self) -> bool {
        &&& 0 < self.width <= MAX_WIDTH
        &&& 0 < self.height <= MAX_HEIGHT
        &&& self.g_score@.len() == self.spec_w() * self.spec_h()
        &&& self.parent@.len() == self.spec_w() * self.spec_h()
    }

    /// Fresh tables: every cell unreached, no back-pointers.
    pub fn new(width: usize, height: usize) -> (t: SearchTables)
        requires
            0 < width <= MAX_WIDTH,
            0 < height <= MAX_HEIGHT,
        ensures
            t.wf(),
            t.spec_w() == width,
            t.spec_h() == height,
            forall|x: int, y: int| t.in_table(x, y) ==> #[trigger] t.spec_g(x, y) == usize::MAX,
            forall|x: int, y: int| t.in_table(x, y) ==> #[trigger] t.spec_parent(x, y) is None,
    {
        proof {
            lemma_area_small(width as int, height as int);
        }
        let n = width * height;
        let mut g_score: Vec<usize> = Vec::new();
        let mut parent: Vec<Option<Coord>> = Vec::new();
        let mut i: usize = 0;
        while i < n
            invariant
                i <= n,
                g_score@.len() == i,
                parent@.len() == i,
                forall|k: int| 0 <= k < i ==> g_score@[k] == usize::MAX,
                forall|k: int| 0 <= k < i ==> parent@[k] is None,
            decreases n - i,
        {
            g_score.push(usize::MAX);
            parent.push(None);
            i = i + 1;
        }
        let t = SearchTables { width, height, g_score, parent };
        proof {
            reveal(SearchTables::spec_g);
            reveal(SearchTables::spec_parent);
            assert forall|x: int, y: int| t.in_table(x, y) implies #[trigger] t.spec_g(x, y)
                == usize::MAX by {
                lemma_row_major_index(t.spec_w(), t.spec_h(), x, y);
            }
            assert forall|x: int, y: int| t.in_table(x, y) implies #[trigger] t.spec_parent(x, y)
                is None by {
                lemma_row_major_index(t.spec_w(), t.spec_h(), x, y);
            }
        }
        t
    }

    /// Read the recorded cost of a cell.
    pub fn g_at(&self, c: Coord) -> (r: usize)
        requires
            self.wf(),
            self.in_table(c.0 as int, c.1 as int),
        ensures
            r == self.spec_g(c.0 as int, c.1 as int),
    {
        proof {
            reveal(SearchTables::spec_g);
            lemma_row_major_index(self.spec_w(), self.spec_h(), c.0 as int, c.1 as int);
            lemma_area_small(self.spec_w(), self.spec_h());
        }
        self.g_score[c.1 * self.width + c.0]
    }

    /// Read the recorded back-pointer of a cell.
    pub fn parent_at(&self, c: Coord) -> (r: Option<Coord>)
        requires
            self.wf(),
            self.in_table(c.0 as int, c.1 as int),
        ensures
            r == self.spec_parent(c.0 as int, c.1 as int),
    {
        proof {
            reveal(SearchTables::spec_parent);
            lemma_row_major_index(self.spec_w(), self.spec_h(), c.0 as int, c.1 as int);
            lemma_area_small(self.spec_w(), self.spec_h());
        }
        self.parent[c.1 * self.width + c.0]
    }

    /// Record the cost of a cell.
    pub fn set_g(&mut self, c: Coord, v: usize)
        requires
            old(self).wf(),
            old(self).in_table(c.0 as int, c.1 as int),
        ensures
            final(self).wf(),
            final(self).spec_w() == old(self).spec_w(),
            final(self).spec_h() == old(self).spec_h(),
            final(self).spec_g(c.0 as int, c.1 as int) == v,
            forall|x: int, y: int|
                old(self).in_table(x, y) && !(x == c.0 && y == c.1)
                    ==> #[trigger] final(self).spec_g(x, y) == old(self).spec_g(x, y),
            forall|x: int, y: int|
                old(self).in_table(x, y) ==> #[trigger] final(self).spec_parent(x, y) == old(
                    self,
                ).spec_parent(x, y),
    {
        proof {
            reveal(SearchTables::spec_g);
            reveal(SearchTables::spec_parent);
            lemma_row_major_index(self.spec_w(), self.spec_h(), c.0 as int, c.1 as int);
            lemma_area_small(self.spec_w(), self.spec_h());
        }
        let idx = c.1 * self.width + c.0;
        self.g_score[idx] = v;
        proof {
            reveal(SearchTables::spec_g);
            reveal(SearchTables::spec_parent);
            assert forall|x: int, y: int|
                old(self).in_table(x, y) && !(x == c.0 && y == c.1) implies #[trigger] self.spec_g(
                x,
                y,
            ) == old(self).spec_g(x, y) by {
                lemma_row_major_index(self.spec_w(), self.spec_h(), x, y);
                if y * self.spec_w() + x == c.1 * self.spec_w() + c.0 {
                    lemma_row_major_injective(
                        self.spec_w(),
                        self.spec_h(),
                        c.0 as int,
                        c.1 as int,
                        x,
                        y,
                    );
                }
            }
            assert forall|x: int, y: int|
                old(self).in_table(x, y) implies #[trigger] self.spec_parent(x, y) == old(
                self,
            ).spec_parent(x, y) by {
                lemma_row_major_index(self.spec_w(), self.spec_h(), x, y);
            }
        }
    }

    /// Record the back-pointer of a cell.
    pub fn set_parent(&mut self, c: Coord, p: Option<Coord>)
        requires
            old(self).wf(),
            old(self).in_table(c.0 as int, c.1 as int),
        ensures
            final(self).wf(),
            final(self).spec_w() == old(self).spec_w(),
            final(self).spec_h() == old(self).spec_h(),
            final(self).spec_parent(c.0 as int, c.1 as int) == p,
            forall|x: int, y: int|
                old(self).in_table(x, y) && !(x == c.0 && y == c.1)
                    ==> #[trigger] final(self).spec_parent(x, y) == old(self).spec_parent(x, y),
            forall|x: int, y: int|
                old(self).in_table(x, y) ==> #[trigger] final(self).spec_g(x, y) == old(
                    self,
                ).spec_g(x, y),
    {
        proof {
            reveal(SearchTables::spec_g);
            reveal(SearchTables::spec_parent);
            lemma_row_major_index(self.spec_w(), self.spec_h(), c.0 as int, c.1 as int);
            lemma_area_small(self.spec_w(), self.spec_h());
        }
        let idx = c.1 * self.width + c.0;
        self.parent[idx] = p;
        proof {
            reveal(SearchTables::spec_g);
            reveal(SearchTables::spec_parent);
            assert forall|x: int, y: int|
                old(self).in_table(x, y) && !(x == c.0 && y == c.1)
                    implies #[trigger] self.spec_parent(x, y) == old(self).spec_parent(x, y) by {
                lemma_row_major_index(self.spec_w(), self.spec_h(), x, y);
                if y * self.spec_w() + x == c.1 * self.spec_w() + c.0 {
                    lemma_row_major_injective(
                        self.spec_w(),
                        self.spec_h(),
                        c.0 as int,
                        c.1 as int,
                        x,
                        y,
                    );
                }
            }
            assert forall|x: int, y: int|
                old(self).in_table(x, y) implies #[trigger] self.spec_g(x, y) == old(
                self,
            ).spec_g(x, y) by {
                lemma_row_major_index(self.spec_w(), self.spec_h(), x, y);
            }
        }
    }
}

/// How many frontier pops one search may spend before giving up. Far more
/// than any map within the size bounds ever needs; running out counts as
/// "no path", which the generator treats as a retry.
pub const SEARCH_STEP_LIMIT: usize = 100000;

/// The search's running claim about its tables: the start has cost zero and
/// no back-pointer, and every recorded back-pointer points one 4-adjacent
/// step back along a strictly cheaper chain of non-wall cells.
pub open spec fn tables_ok(g: Grid, t: SearchTables, start: Coord) -> bool {
    &&& t.wf()
    &&& t.spec_w() == g.spec_width()
    &&& t.spec_h() == g.spec_height()
    &&& g.in_bounds(start.0 as int, start.1 as int)
    &&& t.spec_g(start.0 as int, start.1 as int) == 0
    &&& t.spec_parent(start.0 as int, start.1 as int) is None
    &&& forall|cx: int, cy: int|
        g.in_bounds(cx, cy) ==> (#[trigger] t.spec_parent(cx, cy) matches Some(p) ==> {
            &&& g.in_bounds(p.0 as int, p.1 as int)
            &&& adjacent(p, ((cx as usize), (cy as usize)))
            &&& g.spec_cell(cx, cy) != Cell::Wall
            &&& g.spec_cell(p.0 as int, p.1 as int) != Cell::Wall
            &&& t.spec_g(p.0 as int, p.1 as int) < t.spec_g(cx, cy)
            &&& t.spec_g(cx, cy) < usize::MAX
        })
    &&& forall|cx: int, cy: int|
        g.in_bounds(cx, cy) && t.spec_g(cx, cy) < usize::MAX && !(cx == start.0
            && cy == start.1) ==> #[trigger] t.spec_parent(cx, cy) is Some
}

/// Every frontier entry sits on a reached, in-bounds, non-wall cell.
pub open spec fn open_set_ok(g: Grid, t: SearchTables, open: Seq<Node>) -> bool {
    forall|k: int|
        0 <= k < open.len() ==> {
            &&& g.in_bounds((#[trigger] open[k]).x as int, open[k].y as int)
            &&& g.spec_cell(open[k].x as int, open[k].y as int) != Cell::Wall
            &&& t.spec_g(open[k].x as int, open[k].y as int) < usize::MAX
        }
}

/// `g` differs from `g0` only in interior wall cells that were opened into
/// floor.
pub open spec fn carved_from(g0: Grid, g: Grid) -> bool {
    &&& g.spec_width() == g0.spec_width()
    &&& g.spec_height() == g0.spec_height()
    &&& forall|x: int, y: int|
        g0.in_bounds(x, y) ==> (#[trigger] g.spec_cell(x, y) == g0.spec_cell(x, y) || (
        g0.spec_cell(x, y) == Cell::Wall && g0.interior(x, y) && g.spec_cell(x, y)
            == Cell::Floor))
}

/// Carving is transitive.
pub proof fn lemma_carved_trans(g0: Grid, g1: Grid, g2: Grid)
    requires
        carved_from(g0, g1),
        carved_from(g1, g2),
    ensures
        carved_from(g0, g2),
{
    assert forall|x: int, y: int|
        g0.in_bounds(x, y) implies (#[trigger] g2.spec_cell(x, y) == g0.spec_cell(x, y) || (
    g0.spec_cell(x, y) == Cell::Wall && g0.interior(x, y) && g2.spec_cell(x, y)
        == Cell::Floor)) by {
        assert(g1.spec_cell(x, y) == g0.spec_cell(x, y) || (g0.spec_cell(x, y) == Cell::Wall
            && g0.interior(x, y) && g1.spec_cell(x, y) == Cell::Floor));
    }
}

/// Opening walls into floor never unsettles the search's claims.
proof fn lemma_state_after_carve(
    g0: Grid,
    g1: Grid,
    t: SearchTables,
    start: Coord,
    open: Seq<Node>,
)
    requires
        tables_ok(g0, t, start),
        open_set_ok(g0, t, open),
        g1.spec_width() == g0.spec_width(),
        g1.spec_height() == g0.spec_height(),
        forall|x: int, y: int|
            g0.in_bounds(x, y) ==> (#[trigger] g1.spec_cell(x, y) == g0.spec_cell(x, y) || (
            g0.spec_cell(x, y) == Cell::Wall && g1.spec_cell(x, y) == Cell::Floor)),
    ensures
        tables_ok(g1, t, start),
        open_set_ok(g1, t, open),
{
    assert forall|cx: int, cy: int|
        g1.in_bounds(cx, cy) implies (#[trigger] t.spec_parent(cx, cy) matches Some(p) ==> {
        &&& g1.in_bounds(p.0 as int, p.1 as int)
        &&& adjacent(p, ((cx as usize), (cy as usize)))
        &&& g1.spec_cell(cx, cy) != Cell::Wall
        &&& g1.spec_cell(p.0 as int, p.1 as int) != Cell::Wall
        &&& t.spec_g(p.0 as int, p.1 as int) < t.spec_g(cx, cy)
        &&& t.spec_g(cx, cy) < usize::MAX
    }) by {
        assert(g0.in_bounds(cx, cy));
        if let Some(q) = t.spec_parent(cx, cy) {
            assert(g0.spec_cell(q.0 as int, q.1 as int) != Cell::Wall);
            assert(g0.in_bounds(q.0 as int, q.1 as int));
            assert(g1.spec_cell(q.0 as int, q.1 as int) != Cell::Wall);
            assert(g1.spec_cell(cx, cy) != Cell::Wall);
        }
    }
    assert forall|k: int| 0 <= k < open.len() implies {
        &&& g1.in_bounds((#[trigger] open[k]).x as int, open[k].y as int)
        &&& g1.spec_cell(open[k].x as int, open[k].y as int) != Cell::Wall
        &&& t.spec_g(open[k].x as int, open[k].y as int) < usize::MAX
    } by {
        assert(g0.in_bounds(open[k].x as int, open[k].y as int));
    }
}

/// A cell the carving step may open: a 4-neighbor of the popped cell that
/// lies strictly inside the border and has not been visited.
pub open spec fn carve_candidate(g: Grid, t: SearchTables, current: Coord, c: Coord) -> bool {
    &&& adjacent(current, c)
    &&& g.interior(c.0 as int, c.1 as int)
    &&& t.spec_parent(c.0 as int, c.1 as int) is None
}

/// The sampling weight of a candidate with Manhattan estimate `h`: `100 - h`,
/// clamped below at one so that every weight is strictly positive.
pub open spec fn carve_weight(h: int) -> int {
    if h >= 99 {
        1
    } else {
        100 - h
    }
}

/// Sampling weights are strictly positive for every Manhattan estimate.
pub proof fn lemma_carve_weight_positive(h: int)
    ensures
        carve_weight(h) >= 1,
{
}

/// A 4-neighbor differs by one in exactly one coordinate.
proof fn lemma_adjacent_cases(a: Coord, c: Coord)
    requires
        adjacent(a, c),
    ensures
        ({
            ||| (c.0 == a.0 + 1 && c.1 == a.1)
            ||| (c.0 + 1 == a.0 && c.1 == a.1)
            ||| (c.1 == a.1 + 1 && c.0 == a.0)
            ||| (c.1 + 1 == a.1 && c.0 == a.0)
        }),
{
}

/// Compute the sampling weight of a candidate.
pub fn carve_weight_of(c: Coord, end: Coord) -> (w: u64)
    requires
        manhattan(c, end) <= 100000,
    ensures
        w == carve_weight(manhattan(c, end)),
        1 <= w <= 100,
{
    let hd = manhattan_dist(c, end);
    if hd >= 99 {
        1
    } else {
        (100 - hd) as u64
    }
}

/// Pick one not-yet-visited interior neighbor of `current` at random, the
/// draw weighted toward candidates closer to `end`; `None` exactly when no
/// neighbor qualifies.
pub fn random_neighbor(
    tables: &SearchTables,
    current: Coord,
    grid: &Grid,
    end: Coord,
) -> (r: Option<Coord>)
    requires
        grid.wf(),
        tables.wf(),
        tables.spec_w() == grid.spec_width(),
        tables.spec_h() == grid.spec_height(),
        grid.in_bounds(current.0 as int, current.1 as int),
        grid.in_bounds(end.0 as int, end.1 as int),
    ensures
        r matches Some(c) ==> carve_candidate(*grid, *tables, current, c),
        r is None ==> forall|c: Coord| !carve_candidate(*grid, *tables, current, c),
{
    let w = grid.width();
    let h = grid.height();
    let mut cands: Vec<Coord> = Vec::new();
    let mut weights: Vec<u64> = Vec::new();

    let in_row = 1 <= current.1 && current.1 <= h - 2;
    let in_col = 1 <= current.0 && current.0 <= w - 2;

    let ghost right = ((current.0 + 1) as usize, current.1);
    let cond_right = in_row && current.0 + 1 <= w - 2;
    if cond_right {
        let c = (current.0 + 1, current.1);
        if tables.parent_at(c).is_none() {
            cands.push(c);
            weights.push(carve_weight_of(c, end));
        }
    }
    proof {
        assert(carve_candidate(*grid, *tables, current, right) ==> cands@.len() >= 1);
    }

    let ghost left = ((current.0 - 1) as usize, current.1);
    let cond_left = in_row && current.0 >= 2;
    if cond_left {
        let c = (current.0 - 1, current.1);
        if tables.parent_at(c).is_none() {
            cands.push(c);
            weights.push(carve_weight_of(c, end));
        }
    }
    proof {
        assert(carve_candidate(*grid, *tables, current, left) ==> cands@.len() >= 1);
    }

    let ghost down = (current.0, (current.1 + 1) as usize);
    let cond_down = in_col && current.1 + 1 <= h - 2;
    if cond_down {
        let c = (current.0, current.1 + 1);
        if tables.parent_at(c).is_none() {
            cands.push(c);
            weights.push(carve_weight_of(c, end));
        }
    }
    proof {
        assert(carve_candidate(*grid, *tables, current, down) ==> cands@.len() >= 1);
    }

    let ghost up = (current.0, (current.1 - 1) as usize);
    let cond_up = in_col && current.1 >= 2;
    if cond_up {
        let c = (current.0, current.1 - 1);
        if tables.parent_at(c).is_none() {
            cands.push(c);
            weights.push(carve_weight_of(c, end));
        }
    }
    proof {
        assert(carve_candidate(*grid, *tables, current, up) ==> cands@.len() >= 1);
    }

    if cands.len() == 0 {
        proof {
            assert forall|c: Coord| !carve_candidate(*grid, *tables, current, c) by {
                if carve_candidate(*grid, *tables, current, c) {
                    lemma_adjacent_cases(current, c);
                    assert(c == right || c == left || c == down || c == up);
                }
            }
        }
        None
    } else {
        let idx = weighted_pick(&weights);
        Some(cands[idx])
    }
}

/// After one relaxation writes a back-pointer and an improved cost for
/// `nb`, the tables' claim stands again.
/// The relaxation facts, checked for one cell of the tables.
proof fn lemma_relax_point(
    g: Grid,
    t0: SearchTables,
    t1: SearchTables,
    cur: Coord,
    nb: Coord,
    start: Coord,
    tentative: usize,
    cx: int,
    cy: int,
)
    requires
        tables_ok(g, t0, start),
        g.in_bounds(cur.0 as int, cur.1 as int),
        g.in_bounds(nb.0 as int, nb.1 as int),
        adjacent(cur, nb),
        g.spec_cell(cur.0 as int, cur.1 as int) != Cell::Wall,
        g.spec_cell(nb.0 as int, nb.1 as int) != Cell::Wall,
        t0.spec_g(cur.0 as int, cur.1 as int) < usize::MAX,
        tentative == t0.spec_g(cur.0 as int, cur.1 as int) + 1,
        tentative < t0.spec_g(nb.0 as int, nb.1 as int),
        t1.wf(),
        t1.spec_w() == t0.spec_w(),
        t1.spec_h() == t0.spec_h(),
        t1.spec_parent(nb.0 as int, nb.1 as int) == Some(cur),
        t1.spec_g(nb.0 as int, nb.1 as int) == tentative,
        forall|x: int, y: int|
            t0.in_table(x, y) && !(x == nb.0 && y == nb.1) ==> #[trigger] t1.spec_g(x, y)
                == t0.spec_g(x, y) && t1.spec_parent(x, y) == t0.spec_parent(x, y),
        g.in_bounds(cx, cy),
    ensures
        t1.spec_parent(cx, cy) matches Some(p) ==> {
            &&& g.in_bounds(p.0 as int, p.1 as int)
            &&& adjacent(p, ((cx as usize), (cy as usize)))
            &&& g.spec_cell(cx, cy) != Cell::Wall
            &&& g.spec_cell(p.0 as int, p.1 as int) != Cell::Wall
            &&& t1.spec_g(p.0 as int, p.1 as int) < t1.spec_g(cx, cy)
            &&& t1.spec_g(cx, cy) < usize::MAX
        },
        t1.spec_g(cx, cy) < usize::MAX && !(cx == start.0 && cy == start.1) ==> t1.spec_parent(
            cx,
            cy,
        ) is Some,
{
    assert(cur != nb);
    if cx == nb.0 && cy == nb.1 {
        assert(t1.spec_parent(cx, cy) == Some(cur));
        assert(t1.spec_g(cur.0 as int, cur.1 as int) == t0.spec_g(cur.0 as int, cur.1 as int));
    } else {
        assert(t1.spec_g(cx, cy) == t0.spec_g(cx, cy));
        assert(t1.spec_parent(cx, cy) == t0.spec_parent(cx, cy));
        if let Some(p) = t1.spec_parent(cx, cy) {
            assert(g.in_bounds(p.0 as int, p.1 as int));
            if p == nb {
                assert(t0.spec_g(p.0 as int, p.1 as int) < t0.spec_g(cx, cy));
                assert(t1.spec_g(p.0 as int, p.1 as int) == tentative);
            } else {
                assert(t1.spec_g(p.0 as int, p.1 as int) == t0.spec_g(p.0 as int, p.1 as int));
            }
        }
    }
}

#[verifier::rlimit(100)]
#[verifier::spinoff_prover]
proof fn lemma_tables_ok_after_relax(
    g: Grid,
    t0: SearchTables,
    t1: SearchTables,
    cur: Coord,
    nb: Coord,
    start: Coord,
    tentative: usize,
)
    requires
        tables_ok(g, t0, start),
        g.in_bounds(cur.0 as int, cur.1 as int),
        g.in_bounds(nb.0 as int, nb.1 as int),
        adjacent(cur, nb),
        g.spec_cell(cur.0 as int, cur.1 as int) != Cell::Wall,
        g.spec_cell(nb.0 as int, nb.1 as int) != Cell::Wall,
        t0.spec_g(cur.0 as int, cur.1 as int) < usize::MAX,
        tentative == t0.spec_g(cur.0 as int, cur.1 as int) + 1,
        tentative < t0.spec_g(nb.0 as int, nb.1 as int),
        t1.wf(),
        t1.spec_w() == t0.spec_w(),
        t1.spec_h() == t0.spec_h(),
        t1.spec_parent(nb.0 as int, nb.1 as int) == Some(cur),
        t1.spec_g(nb.0 as int, nb.1 as int) == tentative,
        forall|x: int, y: int|
            t0.in_table(x, y) && !(x == nb.0 && y == nb.1) ==> #[trigger] t1.spec_g(x, y)
                == t0.spec_g(x, y) && t1.spec_parent(x, y) == t0.spec_parent(x, y),
    ensures
        tables_ok(g, t1, start),
{
    assert(!(nb.0 == start.0 && nb.1 == start.1)) by {
        if nb == start {
            assert(t0.spec_g(start.0 as int, start.1 as int) == 0);
        }
    }
    assert(t1.spec_g(start.0 as int, start.1 as int) == 0);
    assert(t1.spec_parent(start.0 as int, start.1 as int) is None);
    assert forall|cx: int, cy: int|
        g.in_bounds(cx, cy) implies (#[trigger] t1.spec_parent(cx, cy) matches Some(p) ==> {
        &&& g.in_bounds(p.0 as int, p.1 as int)
        &&& adjacent(p, ((cx as usize), (cy as usize)))
        &&& g.spec_cell(cx, cy) != Cell::Wall
        &&& g.spec_cell(p.0 as int, p.1 as int) != Cell::Wall
        &&& t1.spec_g(p.0 as int, p.1 as int) < t1.spec_g(cx, cy)
        &&& t1.spec_g(cx, cy) < usize::MAX
    }) by {
        lemma_relax_point(g, t0, t1, cur, nb, start, tentative, cx, cy);
    }
    assert forall|cx: int, cy: int|
        g.in_bounds(cx, cy) && t1.spec_g(cx, cy) < usize::MAX && !(cx == start.0 && cy
            == start.1) implies #[trigger] t1.spec_parent(cx, cy) is Some by {
        lemma_relax_point(g, t0, t1, cur, nb, start, tentative, cx, cy);
    }
}

/// Relax one in-bounds neighbor `nb` of the popped cell `cur`: when `nb` is
/// not a wall and the step improves its recorded cost, record the
/// back-pointer and cost and push `nb` onto the frontier.
#[verifier::rlimit(60)]
fn relax(
    grid: &Grid,
    t: &mut SearchTables,
    open: &mut Vec<Node>,
    cur: Coord,
    gc: usize,
    nb: Coord,
    end: Coord,
    start: Coord,
)
    requires
        grid.wf(),
        tables_ok(*grid, *old(t), start),
        open_set_ok(*grid, *old(t), old(open)@),
        grid.in_bounds(cur.0 as int, cur.1 as int),
        grid.in_bounds(nb.0 as int, nb.1 as int),
        grid.in_bounds(end.0 as int, end.1 as int),
        adjacent(cur, nb),
        grid.spec_cell(cur.0 as int, cur.1 as int) != Cell::Wall,
        gc == old(t).spec_g(cur.0 as int, cur.1 as int),
        gc < usize::MAX,
    ensures
        tables_ok(*grid, *final(t), start),
        open_set_ok(*grid, *final(t), final(open)@),
        final(t).spec_w() == old(t).spec_w(),
        final(t).spec_h() == old(t).spec_h(),
        forall|x: int, y: int|
            old(t).in_table(x, y) && !(x == nb.0 && y == nb.1) ==> #[trigger] final(t).spec_g(x, y)
                == old(t).spec_g(x, y) && final(t).spec_parent(x, y) == old(t).spec_parent(x, y),
{
    if grid.get(nb.0, nb.1) != Cell::Wall {
        let tentative = gc + 1;
        let gn = t.g_at(nb);
        if tentative < gn {
            t.set_parent(nb, Some(cur));
            t.set_g(nb, tentative);
            proof {
                assert forall|x: int, y: int|
                    old(t).in_table(x, y) && !(x == nb.0 && y == nb.1)
                        implies #[trigger] t.spec_g(x, y) == old(t).spec_g(x, y) && t.spec_parent(
                        x,
                        y,
                    ) == old(t).spec_parent(x, y) by {}
                lemma_tables_ok_after_relax(*grid, *old(t), *t, cur, nb, start, tentative);
            }
            let hn = manhattan_dist(nb, end);
            open.push(Node { x: nb.0, y: nb.1, cost: tentative, heuristic: hn });
            proof {
                assert forall|k: int| 0 <= k < open@.len() implies {
                    &&& grid.in_bounds((#[trigger] open@[k]).x as int, open@[k].y as int)
                    &&& grid.spec_cell(open@[k].x as int, open@[k].y as int) != Cell::Wall
                    &&& t.spec_g(open@[k].x as int, open@[k].y as int) < usize::MAX
                } by {
                    if k < open@.len() - 1 {
                        assert(open@[k] == old(open)@[k]);
                        if !(open@[k].x == nb.0 && open@[k].y == nb.1) {
                            assert(t.spec_g(open@[k].x as int, open@[k].y as int) == old(
                                t,
                            ).spec_g(open@[k].x as int, open@[k].y as int));
                        }
                    }
                }
            }
        }
    }
}

/// Follow the recorded back-pointers from `end` to the start and return the
/// walk in start-to-end order.
fn reconstruct_path(t: &SearchTables, grid: &Grid, start: Coord, end: Coord) -> (p: Vec<Coord>)
    requires
        grid.wf(),
        tables_ok(*grid, *t, start),
        grid.in_bounds(end.0 as int, end.1 as int),
        grid.spec_cell(start.0 as int, start.1 as int) != Cell::Wall,
        grid.spec_cell(end.0 as int, end.1 as int) != Cell::Wall,
        t.spec_g(end.0 as int, end.1 as int) < usize::MAX,
    ensures
        p@.len() >= 1,
        p@[0] == start,
        p@[p@.len() - 1] == end,
        forall|i: int| 0 <= i < p@.len() ==> coord_open(*grid, #[trigger] p@[i]),
        forall|i: int| 0 <= i < p@.len() - 1 ==> adjacent(#[trigger] p@[i], p@[i + 1]),
        forall|i: int, j: int| 0 <= i < j < p@.len() ==> p@[i] != p@[j],
{
    let mut rev: Vec<Coord> = Vec::new();
    let mut cur: Coord = end;
    loop
        invariant_except_break
            grid.wf(),
            tables_ok(*grid, *t, start),
            grid.in_bounds(cur.0 as int, cur.1 as int),
            grid.spec_cell(cur.0 as int, cur.1 as int) != Cell::Wall,
            grid.spec_cell(start.0 as int, start.1 as int) != Cell::Wall,
            t.spec_g(cur.0 as int, cur.1 as int) < usize::MAX,
            rev@.len() == 0 ==> cur == end,
            rev@.len() >= 1 ==> rev@[0] == end && adjacent(cur, rev@[rev@.len() - 1]),
            forall|k: int| 0 <= k < rev@.len() ==> coord_open(*grid, #[trigger] rev@[k]),
            forall|k: int| 0 <= k < rev@.len() - 1 ==> adjacent(#[trigger] rev@[k], rev@[k + 1]),
            forall|k: int|
                0 <= k < rev@.len() ==> t.spec_g(cur.0 as int, cur.1 as int) < t.spec_g(
                    (#[trigger] rev@[k]).0 as int,
                    rev@[k].1 as int,
                ),
            forall|i: int, j: int|
                0 <= i < j < rev@.len() ==> t.spec_g((#[trigger] rev@[j]).0 as int, rev@[j].1 as int)
                    < t.spec_g((#[trigger] rev@[i]).0 as int, rev@[i].1 as int),
        ensures
            cur == start,
            rev@.len() == 0 ==> cur == end,
            rev@.len() >= 1 ==> rev@[0] == end && adjacent(cur, rev@[rev@.len() - 1]),
            forall|k: int| 0 <= k < rev@.len() ==> coord_open(*grid, #[trigger] rev@[k]),
            forall|k: int| 0 <= k < rev@.len() - 1 ==> adjacent(#[trigger] rev@[k], rev@[k + 1]),
            forall|k: int|
                0 <= k < rev@.len() ==> t.spec_g(cur.0 as int, cur.1 as int) < t.spec_g(
                    (#[trigger] rev@[k]).0 as int,
                    rev@[k].1 as int,
                ),
            forall|i: int, j: int|
                0 <= i < j < rev@.len() ==> t.spec_g((#[trigger] rev@[j]).0 as int, rev@[j].1 as int)
                    < t.spec_g((#[trigger] rev@[i]).0 as int, rev@[i].1 as int),
        decreases t.spec_g(cur.0 as int, cur.1 as int),
    {
        let pr = t.parent_at(cur);
        match pr {
            Option::Some(prev_c) => {
                let ghost rev0 = rev@;
                rev.push(cur);
                proof {
                    assert forall|k: int| 0 <= k < rev@.len() - 1 implies adjacent(
                        #[trigger] rev@[k],
                        rev@[k + 1],
                    ) by {
                        if k < rev0.len() - 1 {
                            assert(rev@[k] == rev0[k]);
                            assert(rev@[k + 1] == rev0[k + 1]);
                        } else {
                            assert(rev@[k] == rev0[rev0.len() - 1]);
                            assert(rev@[k + 1] == cur);
                        }
                    }
                }
                cur = prev_c;
            },
            Option::None => {
                proof {
                    assert(cur == start) by {
                        if cur != start {
                            assert(t.spec_parent(cur.0 as int, cur.1 as int) is Some);
                        }
                    }
                }
                break ;
            },
        }
    }
    let ghost rev1 = rev@;
    rev.push(start);
    let ghost full = rev@;
    proof {
        assert forall|i: int, j: int|
            0 <= i < j < full.len() implies t.spec_g(
            (#[trigger] full[j]).0 as int,
            full[j].1 as int,
        ) < t.spec_g((#[trigger] full[i]).0 as int, full[i].1 as int) by {
            assert(full[i] == rev1[i]);
            if j < rev1.len() {
                assert(full[j] == rev1[j]);
            } else {
                assert(full[j] == start);
                assert(t.spec_g(cur.0 as int, cur.1 as int) < t.spec_g(
                    rev1[i].0 as int,
                    rev1[i].1 as int,
                ));
            }
        }
    }
    let mut p: Vec<Coord> = Vec::new();
    let mut k = rev.len();
    while k > 0
        invariant
            k <= full.len(),
            rev@ == full,
            p@.len() == full.len() - k,
            forall|j: int| 0 <= j < p@.len() ==> #[trigger] p@[j] == full[full.len() - 1 - j],
        decreases k,
    {
        k = k - 1;
        p.push(rev[k]);
    }
    proof {
        assert(full[full.len() - 1] == start);
        assert(p@[0] == start);
        assert(p@[p@.len() - 1] == full[0]);
        assert forall|i: int| 0 <= i < p@.len() implies coord_open(*grid, #[trigger] p@[i]) by {
            assert(p@[i] == full[full.len() - 1 - i]);
            if full.len() - 1 - i < full.len() - 1 {
                assert(coord_open(*grid, full[full.len() - 1 - i]));
            }
        }
        assert forall|i: int| 0 <= i < p@.len() - 1 implies adjacent(
            #[trigger] p@[i],
            p@[i + 1],
        ) by {
            assert(p@[i] == full[full.len() - 1 - i]);
            assert(p@[i + 1] == full[full.len() - 2 - i]);
            if full.len() - 2 - i < full.len() - 2 {
                assert(adjacent(full[full.len() - 2 - i], full[full.len() - 1 - i]));
            }
        }
        assert forall|i: int, j: int| 0 <= i < j < p@.len() implies p@[i] != p@[j] by {
            assert(p@[i] == full[full.len() - 1 - i]);
            assert(p@[j] == full[full.len() - 1 - j]);
            assert(t.spec_g(full[full.len() - 1 - i].0 as int, full[full.len() - 1 - i].1 as int)
                < t.spec_g(full[full.len() - 1 - j].0 as int, full[full.len() - 1 - j].1 as int));
        }
    }
    p
}

/// Search for a route from `start` to `end` over non-wall cells, carving a
/// randomly chosen unvisited interior neighbor of each popped cell into
/// floor along the way. A returned path starts at `start`, ends at `end`,
/// steps 4-adjacent over pairwise distinct non-wall cells of the map as
/// left behind; the map itself changes only by interior walls opening into
/// floor. `None` is a normal outcome that the generator answers with a
/// fresh map; the contract does not promise success on already-connected
/// maps, and a route opened late by carving may go unnoticed.
#[verifier::rlimit(60)]
pub fn a_star_random_path(grid: &mut Grid, start: Coord, end: Coord) -> (r: Option<Vec<Coord>>)
    requires
        old(grid).wf(),
        old(grid).in_bounds(start.0 as int, start.1 as int),
        old(grid).in_bounds(end.0 as int, end.1 as int),
        old(grid).spec_cell(start.0 as int, start.1 as int) != Cell::Wall,
    ensures
        final(grid).wf(),
        carved_from(*old(grid), *final(grid)),
        final(grid).spec_cell(start.0 as int, start.1 as int) != Cell::Wall,
        r matches Some(p) ==> {
            &&& p@.len() >= 1
            &&& p@[0] == start
            &&& p@[p@.len() - 1] == end
            &&& forall|i: int| 0 <= i < p@.len() ==> coord_open(*final(grid), #[trigger] p@[i])
            &&& forall|i: int| 0 <= i < p@.len() - 1 ==> adjacent(#[trigger] p@[i], p@[i + 1])
            &&& forall|i: int, j: int| 0 <= i < j < p@.len() ==> p@[i] != p@[j]
        },
{
    let w = grid.width();
    let h = grid.height();
    let mut t = SearchTables::new(w, h);
    t.set_g(start, 0);
    let mut open: Vec<Node> = Vec::new();
    open.push(Node { x: start.0, y: start.1, cost: 0, heuristic: 0 });
    let mut fuel: usize = SEARCH_STEP_LIMIT;
    while fuel > 0 && open.len() > 0
        invariant
            grid.wf(),
            w == grid.spec_width(),
            h == grid.spec_height(),
            grid.spec_width() == old(grid).spec_width(),
            grid.spec_height() == old(grid).spec_height(),
            carved_from(*old(grid), *grid),
            grid.in_bounds(start.0 as int, start.1 as int),
            grid.in_bounds(end.0 as int, end.1 as int),
            grid.spec_cell(start.0 as int, start.1 as int) != Cell::Wall,
            tables_ok(*grid, t, start),
            open_set_ok(*grid, t, open@),
        decreases fuel,
    {
        fuel = fuel - 1;
        let ghost open0 = open@;
        let node = pop_min(&mut open);
        let cur: Coord = (node.x, node.y);
        proof {
            let j = choose|j: int| 0 <= j < open0.len() && open0[j] == node;
            assert(grid.in_bounds(cur.0 as int, cur.1 as int));
            assert(grid.spec_cell(cur.0 as int, cur.1 as int) != Cell::Wall);
            assert(t.spec_g(cur.0 as int, cur.1 as int) < usize::MAX);
            assert forall|k: int| 0 <= k < open@.len() implies {
                &&& grid.in_bounds((#[trigger] open@[k]).x as int, open@[k].y as int)
                &&& grid.spec_cell(open@[k].x as int, open@[k].y as int) != Cell::Wall
                &&& t.spec_g(open@[k].x as int, open@[k].y as int) < usize::MAX
            } by {
                let m = choose|m: int| 0 <= m < open0.len() && open0[m] == open@[k];
            }
        }
        if cur.0 == end.0 && cur.1 == end.1 {
            let p = reconstruct_path(&t, grid, start, end);
            return Some(p);
        }
        let gc = t.g_at(cur);
        if cur.0 + 1 < w {
            relax(grid, &mut t, &mut open, cur, gc, (cur.0 + 1, cur.1), end, start);
        }
        if cur.0 >= 1 {
            relax(grid, &mut t, &mut open, cur, gc, (cur.0 - 1, cur.1), end, start);
        }
        if cur.1 + 1 < h {
            relax(grid, &mut t, &mut open, cur, gc, (cur.0, cur.1 + 1), end, start);
        }
        if cur.1 >= 1 {
            relax(grid, &mut t, &mut open, cur, gc, (cur.0, cur.1 - 1), end, start);
        }
        let next_opt = random_neighbor(&t, cur, grid, end);
        if let Some(next) = next_opt {
            if grid.get(next.0, next.1) == Cell::Wall {
                let ghost gpre = *grid;
                grid.set(next.0, next.1, Cell::Floor);
                proof {
                    assert(carved_from(gpre, *grid));
                    lemma_carved_trans(*old(grid), gpre, *grid);
                    lemma_state_after_carve(gpre, *grid, t, start, open@);
                }
            }
        }
    }
    None
}

} // verus!
