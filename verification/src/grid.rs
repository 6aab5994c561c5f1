//! The tile grid: a rectangle of `Wall` and `Path` cells inside a ring of walls.

use vstd::prelude::*;

verus! {

/// The state of one cell.
#[derive(Clone, Copy, Debug, PartialEq, Eq, Structural)]
pub enum Tile {
    Wall,
    Path,
}

/// A cell position: column `x`, row `y`, both counted from zero.
#[derive(Clone, Copy, Debug, PartialEq, Eq, Structural)]
pub struct Coordinate {
    pub x: usize,
    pub y: usize,
}

impl Coordinate {
    /// The position as a pair of mathematical integers `(x, y)`.
    pub open spec fn pos(self) -> (int, int) {
        (self.x as int, self.y as int)
    }
}

/// The rows of a grid, bottom row first: `rows[y][x]` is the tile in column `x` of row `y`.
pub type Rows = Seq<Seq<Tile>>;

/// Every row of `rows` has `width` cells and there are `height` of them.
pub open spec fn is_rect(rows: Rows, width: int, height: int) -> bool {
    &&& rows.len() == height
    &&& forall|y: int| 0 <= y < height ==> (#[trigger] rows[y]).len() == width
}

/// The cell `(x, y)` lies inside `rows` and is a `Path`.
pub open spec fn path_at(rows: Rows, x: int, y: int) -> bool {
    &&& 0 <= y < rows.len()
    &&& 0 <= x < rows[y].len()
    &&& rows[y][x] == Tile::Path
}

/// `(x, y)` is strictly inside the outer ring of a `width` by `height` rectangle.
pub open spec fn is_interior(width: int, height: int, x: int, y: int) -> bool {
    1 <= x <= width - 2 && 1 <= y <= height - 2
}

/// No cell of the outer ring of `rows` is a `Path`.
pub open spec fn ring_is_wall(rows: Rows, width: int, height: int) -> bool {
    forall|x: int, y: int| #[trigger] path_at(rows, x, y) ==> is_interior(width, height, x, y)
}

/// The rectangle of the given size in which every cell is a `Wall`.
pub open spec fn all_walls(width: int, height: int) -> Rows {
    Seq::new(height as nat, |y: int| Seq::new(width as nat, |x: int| Tile::Wall))
}

/// `rows` with the cell `(x, y)` turned into a `Path`.
pub open spec fn carved(rows: Rows, x: int, y: int) -> Rows {
    rows.update(y, rows[y].update(x, Tile::Path))
}

/// A rectangular grid of tiles whose outer ring is all `Wall`.
pub struct Grid {
    width: usize,
    height: usize,
    cells: Vec<Vec<Tile>>,
}

impl View for Grid {
    type V = Rows;

    closed spec fn view(&self) -> Rows {
        Seq::new(self.cells@.len(), |y: int| self.cells@[y]@)
    }
}

impl Grid {
    /// The number of columns.
    pub closed spec fn spec_width(&self) -> int {
        self.width as int
    }

    /// The number of rows.
    pub closed spec fn spec_height(&self) -> int {
        self.height as int
    }

    /// The grid is a rectangle of at least 3 by 3 cells, few enough to be
    /// counted, and its outer ring is all `Wall`.
    pub open spec fn wf(&self) -> bool {
        &&& 3 <= self.spec_width()
        &&& 3 <= self.spec_height()
        &&& self.spec_width() * self.spec_height() <= usize::MAX
        &&& is_rect(self@, self.spec_width(), self.spec_height())
        &&& ring_is_wall(self@, self.spec_width(), self.spec_height())
    }

    /// A grid of the given size with every cell a `Wall`.
    pub fn new(width: usize, height: usize) -> (grid: Grid)
        requires
            3 <= width,
            3 <= height,
            width * height <= usize::MAX,
        ensures
            grid.wf(),
            grid.spec_width() == width,
            grid.spec_height() == height,
            grid@ == all_walls(width as int, height as int),
    {
        let mut cells: Vec<Vec<Tile>> = Vec::new();
        let mut y: usize = 0;
        while y < height
            invariant
                y <= height,
                cells@.len() == y,
                forall|j: int| 0 <= j < y ==> (#[trigger] cells@[j])@ == Seq::new(
                    width as nat,
                    |x: int| Tile::Wall,
                ),
            decreases height - y,
        {
            let mut row: Vec<Tile> = Vec::new();
            let mut x: usize = 0;
            while x < width
                invariant
                    x <= width,
                    row@ == Seq::new(x as nat, |i: int| Tile::Wall),
                decreases width - x,
            {
                row.push(Tile::Wall);
                x += 1;
            }
            cells.push(row);
            y += 1;
        }
        let grid = Grid { width, height, cells };
        assert(grid@ == all_walls(width as int, height as int));
        grid
    }

    /// The number of columns.
    pub fn width(&self) -> (w: usize)
        ensures
            w == self.spec_width(),
    {
        self.width
    }

    /// The number of rows.
    pub fn height(&self) -> (h: usize)
        ensures
            h == self.spec_height(),
    {
        self.height
    }

    /// The tile at `(x, y)`, or `None` where `(x, y)` lies outside the grid.
    pub fn tile(&self, x: usize, y: usize) -> (t: Option<Tile>)
        requires
            self.wf(),
        ensures
            t == if x < self.spec_width() && y < self.spec_height() {
                Some(self@[y as int][x as int])
            } else {
                None
            },
    {
        if x < self.width && y < self.height {
            assert(self@[y as int] == self.cells@[y as int]@);
            Some(self.cells[y][x])
        } else {
            None
        }
    }

    /// Whether `(x, y)` lies inside the grid and is a `Path`.
    pub fn is_path(&self, x: usize, y: usize) -> (b: bool)
        requires
            self.wf(),
        ensures
            b == path_at(self@, x as int, y as int),
    {
        if x < self.width && y < self.height {
            assert(self@[y as int] == self.cells@[y as int]@);
            self.cells[y][x] == Tile::Path
        } else {
            false
        }
    }

    /// Turns the interior cell `(x, y)` into a `Path`. The outer ring is never
    /// carved: for a cell on or beyond it the grid is left as it is and `false`
    /// is returned.
    pub fn carve(&mut self, x: usize, y: usize) -> (done: bool)
        requires
            old(self).wf(),
        ensures
            final(self).wf(),
            final(self).spec_width() == old(self).spec_width(),
            final(self).spec_height() == old(self).spec_height(),
            done == is_interior(old(self).spec_width(), old(self).spec_height(), x as int, y as int),
            done ==> final(self)@ == carved(old(self)@, x as int, y as int),
            !done ==> final(self)@ == old(self)@,
    {
        if 1 <= x && x < self.width - 1 && 1 <= y && y < self.height - 1 {
            assert(self@[y as int] == self.cells@[y as int]@);
            self.cells[y].set(x, Tile::Path);
            assert(self@ == carved(old(self)@, x as int, y as int));
            assert forall|i: int, j: int| #[trigger] path_at(self@, i, j) implies is_interior(
                self.spec_width(),
                self.spec_height(),
                i,
                j,
            ) by {
                if !(i == x && j == y) {
                    assert(path_at(old(self)@, i, j));
                }
            }
            true
        } else {
            false
        }
    }
}

} // verus!
