//! The goal locator: the last path inside the outer ring, rows before columns.

use crate::grid::{is_interior, path_at, Coordinate, Grid, Rows};
use vstd::prelude::*;

verus! {

/// `(x, y)` is a path inside the outer ring.
pub open spec fn is_interior_path(rows: Rows, width: int, height: int, x: int, y: int) -> bool {
    is_interior(width, height, x, y) && path_at(rows, x, y)
}

/// Some cell inside the outer ring is a path.
pub open spec fn has_interior_path(rows: Rows, width: int, height: int) -> bool {
    exists|x: int, y: int| #[trigger] is_interior_path(rows, width, height, x, y)
}

/// `(x, y)` lies in a lower row than `(gx, gy)`, or in the same row and not
/// further right.
pub open spec fn not_beyond(x: int, y: int, gx: int, gy: int) -> bool {
    y < gy || (y == gy && x <= gx)
}

/// `(gx, gy)` is the goal of the grid: of the paths inside the outer ring the
/// one in the highest row, and in that row the one furthest right; where there
/// is no such path, the corner cell inside the ring that lies opposite the origin.
pub open spec fn is_goal_of(rows: Rows, width: int, height: int, gx: int, gy: int) -> bool {
    if has_interior_path(rows, width, height) {
        &&& is_interior_path(rows, width, height, gx, gy)
        &&& forall|x: int, y: int| #[trigger]
            is_interior_path(rows, width, height, x, y) ==> not_beyond(x, y, gx, gy)
    } else {
        gx == width - 2 && gy == height - 2
    }
}

/// A grid has one goal: whatever two searches of one grid find, they find the
/// same cell.
pub proof fn lemma_goal_is_unique(rows: Rows, width: int, height: int, a: (int, int), b: (int, int))
    requires
        is_goal_of(rows, width, height, a.0, a.1),
        is_goal_of(rows, width, height, b.0, b.1),
    ensures
        a == b,
{
    if has_interior_path(rows, width, height) {
        assert(not_beyond(a.0, a.1, b.0, b.1));
        assert(not_beyond(b.0, b.1, a.0, a.1));
    }
}

/// Finds the goal of `grid`: the rows inside the outer ring are searched from
/// the highest down, each from its right end to its left, for the first path.
pub fn locate_goal(grid: &Grid) -> (goal: Coordinate)
    requires
        grid.wf(),
    ensures
        is_goal_of(grid@, grid.spec_width(), grid.spec_height(), goal.x as int, goal.y as int),
        is_interior(grid.spec_width(), grid.spec_height(), goal.x as int, goal.y as int),
{
    let width = grid.width();
    let height = grid.height();
    let ghost rows = grid@;
    let ghost w = width as int;
    let ghost h = height as int;
    let mut y: usize = height - 1;
    while y > 1
        invariant
            grid.wf(),
            rows == grid@,
            w == grid.spec_width() == width,
            h == grid.spec_height() == height,
            1 <= y <= height - 1,
            forall|i: int, j: int| #[trigger] is_interior_path(rows, w, h, i, j) ==> j < y,
        decreases y,
    {
        y = y - 1;
        let mut x: usize = width - 1;
        while x > 1
            invariant
                grid.wf(),
                rows == grid@,
                w == grid.spec_width() == width,
                h == grid.spec_height() == height,
                1 <= y <= height - 2,
                1 <= x <= width - 1,
                forall|i: int, j: int| #[trigger]
                    is_interior_path(rows, w, h, i, j) ==> j < y || (j == y && i < x),
            decreases x,
        {
            x = x - 1;
            if grid.is_path(x, y) {
                assert(is_interior_path(rows, w, h, x as int, y as int));
                return Coordinate { x, y };
            }
        }
    }
    Coordinate { x: width - 2, y: height - 2 }
}

} // verus!
