//! The carving walk as a function of the orders that are drawn.
//!
//! The walk is depth first. It stands on the node on top of its stack and
//! tries the directions of that node's order one by one: where the node two
//! cells away is a wall inside the outer ring, that node and the cell between
//! are carved, the next order is drawn for the new node, and the walk goes on
//! from there; a node whose directions are all tried is taken off. Nothing
//! but the orders decides which maze comes out.

use crate::direction::Direction;
use crate::grid::{all_walls, carved, is_interior, path_at, Rows};
use vstd::prelude::*;

verus! {

/// A node on the way back to the start: its place, the order in which the
/// directions are tried from it, and how many of them were tried.
pub struct Walker {
    pub x: int,
    pub y: int,
    pub order: Seq<Direction>,
    pub tried: int,
}

/// The walk at one moment: the rows as far as they are carved, the nodes on
/// the way back to the start, the last of them on top, and the number of
/// orders drawn so far.
pub struct Carving {
    pub rows: Rows,
    pub stack: Seq<Walker>,
    pub drawn: nat,
}

/// The walk before its first step: the start alone is carved, and the first
/// order was drawn for it.
pub open spec fn carving_start(
    width: int,
    height: int,
    sx: int,
    sy: int,
    orders: spec_fn(nat) -> Seq<Direction>,
) -> Carving {
    Carving {
        rows: carved(all_walls(width, height), sx, sy),
        stack: seq![Walker { x: sx, y: sy, order: orders(0), tried: 0 }],
        drawn: 1,
    }
}

/// One step of the walk. A walk whose stack is empty is over and stays as it is.
pub open spec fn carving_step(
    c: Carving,
    width: int,
    height: int,
    orders: spec_fn(nat) -> Seq<Direction>,
) -> Carving {
    if c.stack.len() == 0 {
        c
    } else {
        let top = c.stack.last();
        let rest = c.stack.drop_last();
        if top.tried >= top.order.len() {
            Carving { stack: rest, ..c }
        } else {
            let d = top.order[top.tried];
            let moved = Walker { tried: top.tried + 1, ..top };
            let (nx, ny) = (top.x + 2 * d.dx(), top.y + 2 * d.dy());
            if is_interior(width, height, nx, ny) && !path_at(c.rows, nx, ny) {
                Carving {
                    rows: carved(carved(c.rows, nx, ny), top.x + d.dx(), top.y + d.dy()),
                    stack: rest.push(moved).push(
                        Walker { x: nx, y: ny, order: orders(c.drawn), tried: 0 },
                    ),
                    drawn: c.drawn + 1,
                }
            } else {
                Carving { stack: rest.push(moved), ..c }
            }
        }
    }
}

/// The walk after `steps` steps.
pub open spec fn carving_after(
    width: int,
    height: int,
    sx: int,
    sy: int,
    orders: spec_fn(nat) -> Seq<Direction>,
    steps: nat,
) -> Carving
    decreases steps,
{
    if steps == 0 {
        carving_start(width, height, sx, sy, orders)
    } else {
        carving_step(
            carving_after(width, height, sx, sy, orders, (steps - 1) as nat),
            width,
            height,
            orders,
        )
    }
}

/// The maze that the walk carves in a `width` by `height` grid from
/// `(sx, sy)` with the orders `orders`: the rows after five steps for each
/// cell of the grid, by which every walk is over.
pub open spec fn carved_maze(
    width: int,
    height: int,
    sx: int,
    sy: int,
    orders: spec_fn(nat) -> Seq<Direction>,
) -> Rows {
    carving_after(width, height, sx, sy, orders, (5 * (width * height)) as nat).rows
}

/// A walk that is over stays as it is.
pub proof fn lemma_walk_over(
    width: int,
    height: int,
    sx: int,
    sy: int,
    orders: spec_fn(nat) -> Seq<Direction>,
    over: nat,
    later: nat,
)
    requires
        carving_after(width, height, sx, sy, orders, over).stack.len() == 0,
        over <= later,
    ensures
        carving_after(width, height, sx, sy, orders, later) == carving_after(
            width,
            height,
            sx,
            sy,
            orders,
            over,
        ),
    decreases later,
{
    if over < later {
        lemma_walk_over(width, height, sx, sy, orders, over, (later - 1) as nat);
    }
}

/// The maze depends on the orders alone: two walks in grids of one size
/// that start from the same cell and draw the same orders, one after the
/// other, carve the same maze, cell for cell.
pub proof fn lemma_same_orders_same_maze(
    width: int,
    height: int,
    sx: int,
    sy: int,
    first: spec_fn(nat) -> Seq<Direction>,
    second: spec_fn(nat) -> Seq<Direction>,
)
    requires
        forall|k: nat| #[trigger] first(k) == second(k),
    ensures
        carved_maze(width, height, sx, sy, first) == carved_maze(width, height, sx, sy, second),
{
    assert(first =~= second);
}

} // verus!
