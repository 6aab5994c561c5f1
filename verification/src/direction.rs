//! The four directions of movement on the grid.

use crate::grid::Coordinate;
use vstd::prelude::*;

verus! {

/// A direction of movement. `Up` leads to the next higher row, `Right` to the
/// next higher column.
#[derive(Clone, Copy, Debug, PartialEq, Eq, Structural)]
pub enum Direction {
    Up,
    Down,
    Left,
    Right,
}

impl Direction {
    /// The change of the column on one step in this direction.
    pub open spec fn dx(self) -> int {
        match self {
            Direction::Left => -1,
            Direction::Right => 1,
            _ => 0,
        }
    }

    /// The change of the row on one step in this direction.
    pub open spec fn dy(self) -> int {
        match self {
            Direction::Up => 1,
            Direction::Down => -1,
            _ => 0,
        }
    }

    /// The cell one step from `from` in this direction, or `None` where that
    /// step would leave the `width` by `height` rectangle. No coordinate
    /// outside the rectangle is ever built.
    pub fn step(self, from: Coordinate, width: usize, height: usize) -> (to: Option<Coordinate>)
        ensures
            to == if 0 <= from.x + self.dx() < width && 0 <= from.y + self.dy() < height {
                Some(
                    (Coordinate {
                        x: (from.x + self.dx()) as usize,
                        y: (from.y + self.dy()) as usize,
                    }),
                )
            } else {
                None
            },
    {
        match self {
            Direction::Up => {
                if from.x < width && from.y < usize::MAX && from.y + 1 < height {
                    Some(Coordinate { x: from.x, y: from.y + 1 })
                } else {
                    None
                }
            },
            Direction::Down => {
                if from.x < width && 1 <= from.y && from.y - 1 < height {
                    Some(Coordinate { x: from.x, y: from.y - 1 })
                } else {
                    None
                }
            },
            Direction::Left => {
                if 1 <= from.x && from.x - 1 < width && from.y < height {
                    Some(Coordinate { x: from.x - 1, y: from.y })
                } else {
                    None
                }
            },
            Direction::Right => {
                if from.x < usize::MAX && from.x + 1 < width && from.y < height {
                    Some(Coordinate { x: from.x + 1, y: from.y })
                } else {
                    None
                }
            },
        }
    }
}

} // verus!
