use vstd::prelude::*;

verus! {

/// The kind of one map tile.
#[derive(Clone, Copy, PartialEq, Eq, Structural, Debug)]
pub enum Cell {
    Wall,
    Floor,
    Start,
    Exit,
    Monster,
}

/// Smallest accepted map width.
pub const MIN_WIDTH: usize = 3;
/// Largest accepted map width; widths are also always odd.
pub const MAX_WIDTH: usize = 21;
/// Smallest accepted map height.
pub const MIN_HEIGHT: usize = 3;
/// Largest accepted map height.
pub const MAX_HEIGHT: usize = 22;

/// A rectangular map of cells, stored row-major.
pub struct Grid {
    width: usize,
    height: usize,
    cells: Vec<Cell>,
}

impl Grid {
    /// The map width, as seen by specifications.
    pub closed spec fn spec_width(self) -> int {
        self.width as int
    }

    /// The map height, as seen by specifications.
    pub closed spec fn spec_height(self) -> int {
        self.height as int
    }

    /// The row-major cell sequence, as seen by specifications.
    pub closed spec fn spec_cells(self) -> Seq<Cell> {
        self.cells@
    }

    /// A coordinate lies on the map.
    pub open spec fn in_bounds(self, x: int, y: int) -> bool {
        0 <= x < self.spec_width() && 0 <= y < self.spec_height()
    }

    /// A coordinate lies strictly inside the border.
    pub open spec fn interior(self, x: int, y: int) -> bool {
        1 <= x < self.spec_width() - 1 && 1 <= y < self.spec_height() - 1
    }

    /// The cell at a coordinate.
    pub open spec fn spec_cell(self, x: int, y: int) -> Cell {
        self.spec_cells()[y * self.spec_width() + x]
    }

    /// Dimensions are in range (width odd) and the storage matches them.
    pub open spec fn wf(self) -> bool {
        &&& MIN_WIDTH <= self.spec_width() <= MAX_WIDTH
        &&& self.spec_width() % 2 == 1
        &&& MIN_HEIGHT <= self.spec_height() <= MAX_HEIGHT
        &&& self.spec_cells().len() == self.spec_width() * self.spec_height()
    }

    /// Build a map of the given dimensions with every cell a `Wall`.
    pub fn new(width: usize, height: usize) -> (g: Grid)
        requires
            MIN_WIDTH <= width <= MAX_WIDTH,
            width % 2 == 1,
            MIN_HEIGHT <= height <= MAX_HEIGHT,
        ensures
            g.wf(),
            g.spec_width() == width,
            g.spec_height() == height,
            forall|x: int, y: int| g.in_bounds(x, y) ==> g.spec_cell(x, y) == Cell::Wall,
    {
        proof {
            lemma_area_small(width as int, height as int);
        }
        let n = width * height;
        let mut cells: Vec<Cell> = Vec::new();
        let mut i: usize = 0;
        while i < n
            invariant
                i <= n,
                cells@.len() == i,
                forall|k: int| 0 <= k < i ==> cells@[k] == Cell::Wall,
            decreases n - i,
        {
            cells.push(Cell::Wall);
            i = i + 1;
        }
        let g = Grid { width, height, cells };
        proof {
            assert forall|x: int, y: int| g.in_bounds(x, y) implies g.spec_cell(x, y)
                == Cell::Wall by {
                lemma_row_major_index(g.spec_width(), g.spec_height(), x, y);
            }
        }
        g
    }

    /// The map width.
    pub fn width(&self) -> (w: usize)
        ensures
            w == self.spec_width(),
    {
        self.width
    }

    /// The map height.
    pub fn height(&self) -> (h: usize)
        ensures
            h == self.spec_height(),
    {
        self.height
    }

    /// Read the cell at `(x, y)`.
    pub fn get(&self, x: usize, y: usize) -> (c: Cell)
        requires
            self.wf(),
            self.in_bounds(x as int, y as int),
        ensures
            c == self.spec_cell(x as int, y as int),
    {
        proof {
            lemma_row_major_index(self.spec_width(), self.spec_height(), x as int, y as int);
            lemma_area_small(self.spec_width(), self.spec_height());
        }
        self.cells[y * self.width + x]
    }

    /// Write the cell at `(x, y)`.
    pub fn set(&mut self, x: usize, y: usize, c: Cell)
        requires
            old(self).wf(),
            old(self).in_bounds(x as int, y as int),
        ensures
            final(self).wf(),
            final(self).spec_width() == old(self).spec_width(),
            final(self).spec_height() == old(self).spec_height(),
            final(self).spec_cells() == old(self).spec_cells().update(
                y * old(self).spec_width() + x,
                c,
            ),
            final(self).spec_cell(x as int, y as int) == c,
            forall|xi: int, yi: int|
                old(self).in_bounds(xi, yi) && !(xi == x && yi == y) ==> final(self).spec_cell(
                    xi,
                    yi,
                ) == old(self).spec_cell(xi, yi),
    {
        proof {
            lemma_row_major_index(self.spec_width(), self.spec_height(), x as int, y as int);
            lemma_area_small(self.spec_width(), self.spec_height());
        }
        let idx = y * self.width + x;
        self.cells[idx] = c;
        proof {
            assert forall|xi: int, yi: int|
                old(self).in_bounds(xi, yi) && !(xi == x && yi == y) implies self.spec_cell(xi, yi)
                == old(self).spec_cell(xi, yi) by {
                let w = self.spec_width();
                let h = self.spec_height();
                lemma_row_major_index(w, h, xi, yi);
                if yi * w + xi == y * w + x {
                    lemma_row_major_injective(w, h, x as int, y as int, xi, yi);
                }
            }
        }
    }
}

/// An in-range map never holds more cells than the largest dimensions allow.
pub proof fn lemma_area_small(w: int, h: int) by (nonlinear_arith)
    requires
        0 <= w <= MAX_WIDTH,
        0 <= h <= MAX_HEIGHT,
    ensures
        w * h <= MAX_WIDTH * MAX_HEIGHT,
{
}

/// A row-major index stays inside the cell storage.
pub proof fn lemma_row_major_index(w: int, h: int, x: int, y: int) by (nonlinear_arith)
    requires
        0 <= x < w,
        0 <= y < h,
    ensures
        0 <= y * w + x < w * h,
{
}

/// Every storage index is the row-major index of an in-bounds coordinate.
pub proof fn lemma_row_major_surjective(w: int, h: int, k: int) by (nonlinear_arith)
    requires
        0 < w,
        0 < h,
        0 <= k < w * h,
    ensures
        0 <= k % w < w,
        0 <= k / w < h,
        (k / w) * w + (k % w) == k,
{
}

/// Distinct in-bounds coordinates give distinct row-major indices.
pub proof fn lemma_row_major_injective(
    w: int,
    h: int,
    x1: int,
    y1: int,
    x2: int,
    y2: int,
) by (nonlinear_arith)
    requires
        0 <= x1 < w,
        0 <= y1 < h,
        0 <= x2 < w,
        0 <= y2 < h,
        y1 * w + x1 == y2 * w + x2,
    ensures
        x1 == x2 && y1 == y2,
{
}

} // verus!
