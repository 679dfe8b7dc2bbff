use vstd::prelude::*;

use crate::grid::Cell;
use crate::grid::Grid;
use crate::grid::MAX_HEIGHT;
use crate::grid::MAX_WIDTH;
use crate::grid::MIN_HEIGHT;
use crate::grid::MIN_WIDTH;

verus! {

/// The character a cell serializes to.
pub open spec fn char_of_cell(c: Cell) -> char {
    match c {
        Cell::Wall => '#',
        Cell::Floor => '.',
        Cell::Start => 'P',
        Cell::Exit => 'E',
        Cell::Monster => 'M',
    }
}

/// The cell a character parses to, if any.
pub open spec fn cell_of_char(ch: char) -> Option<Cell> {
    if ch == '#' {
        Some(Cell::Wall)
    } else if ch == '.' {
        Some(Cell::Floor)
    } else if ch == 'P' {
        Some(Cell::Start)
    } else if ch == 'E' {
        Some(Cell::Exit)
    } else if ch == 'M' {
        Some(Cell::Monster)
    } else {
        None
    }
}

/// The rows of characters a vector of rows denotes.
pub open spec fn rows_view(rs: Seq<Vec<char>>) -> Seq<Seq<char>> {
    Seq::new(rs.len(), |i: int| rs[i]@)
}

/// `rows` is the character image of `g`, row by row.
pub open spec fn encodes(g: Grid, rows: Seq<Seq<char>>) -> bool {
    &&& rows.len() == g.spec_height()
    &&& forall|y: int| 0 <= y < rows.len() ==> (#[trigger] rows[y]).len() == g.spec_width()
    &&& forall|x: int, y: int|
        g.in_bounds(x, y) ==> rows[y][x] == char_of_cell(#[trigger] g.spec_cell(x, y))
}

/// `rows` can be read back as a map: sound dimensions, rectangular, and
/// every character stands for a cell.
pub open spec fn decodable(rows: Seq<Seq<char>>) -> bool {
    &&& MIN_HEIGHT <= rows.len() <= MAX_HEIGHT
    &&& MIN_WIDTH <= rows[0].len() <= MAX_WIDTH
    &&& rows[0].len() % 2 == 1
    &&& forall|y: int| 0 <= y < rows.len() ==> (#[trigger] rows[y]).len() == rows[0].len()
    &&& forall|x: int, y: int|
        0 <= y < rows.len() && 0 <= x < rows[0].len() ==> cell_of_char(
            #[trigger] rows[y][x],
        ) is Some
}

/// Turn a cell into its character.
pub fn cell_to_char(c: Cell) -> (r: char)
    ensures
        r == char_of_cell(c),
{
    match c {
        Cell::Wall => '#',
        Cell::Floor => '.',
        Cell::Start => 'P',
        Cell::Exit => 'E',
        Cell::Monster => 'M',
    }
}

/// Parse a character back into a cell.
pub fn char_to_cell(ch: char) -> (r: Option<Cell>)
    ensures
        r == cell_of_char(ch),
{
    if ch == '#' {
        Some(Cell::Wall)
    } else if ch == '.' {
        Some(Cell::Floor)
    } else if ch == 'P' {
        Some(Cell::Start)
    } else if ch == 'E' {
        Some(Cell::Exit)
    } else if ch == 'M' {
        Some(Cell::Monster)
    } else {
        None
    }
}

impl Grid {
    /// Serialize the map to rows of characters.
    pub fn encode(&self) -> (r: Vec<Vec<char>>)
        requires
            self.wf(),
        ensures
            encodes(*self, rows_view(r@)),
    {
        let h = self.height();
        let w = self.width();
        let mut rows: Vec<Vec<char>> = Vec::new();
        let mut y: usize = 0;
        while y < h
            invariant
                self.wf(),
                w == self.spec_width(),
                h == self.spec_height(),
                y <= h,
                rows_view(rows@).len() == y,
                forall|yy: int| 0 <= yy < y ==> (#[trigger] rows_view(rows@)[yy]).len() == w,
                forall|x: int, yy: int|
                    0 <= yy < y && 0 <= x < w ==> rows_view(rows@)[yy][x] == char_of_cell(
                        #[trigger] self.spec_cell(x, yy),
                    ),
            decreases h - y,
        {
            let mut row: Vec<char> = Vec::new();
            let mut x: usize = 0;
            while x < w
                invariant
                    self.wf(),
                    w == self.spec_width(),
                    h == self.spec_height(),
                    y < h,
                    x <= w,
                    row@.len() == x,
                    forall|xx: int|
                        0 <= xx < x ==> row@[xx] == char_of_cell(
                            #[trigger] self.spec_cell(xx, y as int),
                        ),
                decreases w - x,
            {
                row.push(cell_to_char(self.get(x, y)));
                x = x + 1;
            }
            let ghost rows0 = rows@;
            rows.push(row);
            proof {
                assert forall|yy: int|
                    0 <= yy < y + 1 implies (#[trigger] rows_view(rows@)[yy]).len() == w by {
                    if yy < y {
                        assert(rows@[yy] == rows0[yy]);
                        assert(rows_view(rows0)[yy].len() == w);
                    } else {
                        assert(rows@[yy] == row);
                    }
                }
                assert forall|x: int, yy: int|
                    0 <= yy < y + 1 && 0 <= x < w implies rows_view(rows@)[yy][x] == char_of_cell(
                    #[trigger] self.spec_cell(x, yy),
                ) by {
                    if yy < y {
                        assert(rows@[yy] == rows0[yy]);
                        assert(rows_view(rows0)[yy][x] == char_of_cell(self.spec_cell(x, yy)));
                    } else {
                        assert(rows@[yy] == row);
                    }
                }
            }
            y = y + 1;
        }
        rows
    }

    /// Read a map back from rows of characters; `None` exactly when the
    /// rows are not a well-formed image.
    pub fn decode(rows: &Vec<Vec<char>>) -> (r: Option<Grid>)
        ensures
            r is Some <==> decodable(rows_view(rows@)),
            r matches Some(g) ==> g.wf() && encodes(g, rows_view(rows@)),
    {
        let h = rows.len();
        if h < MIN_HEIGHT || h > MAX_HEIGHT {
            return None;
        }
        let w = rows[0].len();
        if w < MIN_WIDTH || w > MAX_WIDTH || w % 2 == 0 {
            return None;
        }
        let mut y: usize = 0;
        while y < h
            invariant
                h == rows_view(rows@).len(),
                w == rows_view(rows@)[0].len(),
                y <= h,
                forall|yy: int| 0 <= yy < y ==> (#[trigger] rows_view(rows@)[yy]).len() == w,
            decreases h - y,
        {
            if rows[y].len() != w {
                proof {
                    assert(rows_view(rows@)[y as int].len() != w);
                }
                return None;
            }
            y = y + 1;
        }
        let mut g = Grid::new(w, h);
        let mut yy: usize = 0;
        while yy < h
            invariant
                g.wf(),
                w == g.spec_width(),
                h == g.spec_height(),
                h == rows_view(rows@).len(),
                w == rows_view(rows@)[0].len(),
                forall|r2: int| 0 <= r2 < h ==> (#[trigger] rows_view(rows@)[r2]).len() == w,
                yy <= h,
                forall|x: int, y2: int|
                    0 <= y2 < yy && 0 <= x < w ==> cell_of_char(
                        #[trigger] rows_view(rows@)[y2][x],
                    ) is Some,
                forall|x: int, y2: int|
                    0 <= y2 < yy && 0 <= x < w ==> rows_view(rows@)[y2][x] == char_of_cell(
                        #[trigger] g.spec_cell(x, y2),
                    ),
            decreases h - yy,
        {
            let mut x: usize = 0;
            while x < w
                invariant
                    g.wf(),
                    w == g.spec_width(),
                    h == g.spec_height(),
                    h == rows_view(rows@).len(),
                    w == rows_view(rows@)[0].len(),
                    forall|r2: int| 0 <= r2 < h ==> (#[trigger] rows_view(rows@)[r2]).len() == w,
                    yy < h,
                    x <= w,
                    forall|x2: int, y2: int|
                        0 <= y2 < yy && 0 <= x2 < w ==> cell_of_char(
                            #[trigger] rows_view(rows@)[y2][x2],
                        ) is Some,
                    forall|x2: int, y2: int|
                        0 <= y2 < yy && 0 <= x2 < w ==> rows_view(rows@)[y2][x2] == char_of_cell(
                            #[trigger] g.spec_cell(x2, y2),
                        ),
                    forall|x2: int|
                        0 <= x2 < x ==> cell_of_char(
                            #[trigger] rows_view(rows@)[yy as int][x2],
                        ) is Some,
                    forall|x2: int|
                        0 <= x2 < x ==> rows_view(rows@)[yy as int][x2] == char_of_cell(
                            #[trigger] g.spec_cell(x2, yy as int),
                        ),
                decreases w - x,
            {
                let ch = rows[yy][x];
                match char_to_cell(ch) {
                    Option::Some(c) => {
                        g.set(x, yy, c);
                    },
                    Option::None => {
                        return None;
                    },
                }
                x = x + 1;
            }
            yy = yy + 1;
        }
        Some(g)
    }
}

/// Two sound maps with the same character image are the same map: decoding
/// inverts encoding.
pub proof fn lemma_encodes_injective(g1: Grid, g2: Grid, rows: Seq<Seq<char>>)
    requires
        g1.wf(),
        g2.wf(),
        encodes(g1, rows),
        encodes(g2, rows),
    ensures
        g1.spec_width() == g2.spec_width(),
        g1.spec_height() == g2.spec_height(),
        forall|x: int, y: int| g1.in_bounds(x, y) ==> #[trigger] g1.spec_cell(x, y) == g2.spec_cell(
            x,
            y,
        ),
{
    assert(rows.len() >= 1);
    assert(rows[0].len() == g1.spec_width());
    assert(rows[0].len() == g2.spec_width());
    assert forall|x: int, y: int| g1.in_bounds(x, y) implies #[trigger] g1.spec_cell(x, y)
        == g2.spec_cell(x, y) by {
        assert(rows[y][x] == char_of_cell(g1.spec_cell(x, y)));
        assert(rows[y][x] == char_of_cell(g2.spec_cell(x, y)));
    }
}

/// The character image of a sound map can always be read back.
pub proof fn lemma_encode_decodable(g: Grid, rows: Seq<Seq<char>>)
    requires
        g.wf(),
        encodes(g, rows),
    ensures
        decodable(rows),
{
    assert(rows[0].len() == g.spec_width());
    assert forall|x: int, y: int|
        0 <= y < rows.len() && 0 <= x < rows[0].len() implies cell_of_char(
        #[trigger] rows[y][x],
    ) is Some by {
        assert(rows[y][x] == char_of_cell(g.spec_cell(x, y)));
    }
}

} // verus!
