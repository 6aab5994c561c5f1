//! The maze generator: randomized depth-first carving with an explicit stack.
//!
//! Starting from one cell, the generator walks to the node two cells away in
//! a random direction wherever that node is still a wall inside the outer
//! ring, carving the node and the cell between. Where no direction is left it
//! goes back to the node it came from. The stack holds the nodes on the way
//! back to the start, so a large maze needs no deep recursion.

use crate::carving::{carved_maze, carving_after, lemma_walk_over, Walker};
use crate::direction::Direction;
use crate::grid::{all_walls, carved, is_interior, path_at, Coordinate, Grid, Rows};
use crate::maze::{
    in_line, is_closed, is_maze_tree, is_node, is_perfect_maze, lemma_carved, lemma_carving_step,
    lattice_count, lemma_closed_spans, lemma_first_cell, lemma_perfect_maze_size, lemma_tree_fits,
    tree_edges,
};
use crate::random::{generator_after_draws, is_direction_order, orders_of, RandomSource};
use vstd::prelude::*;

verus! {

/// A generated maze.
pub struct Maze {
    /// The tiles.
    pub grid: Grid,
    /// The cell that the carving started from.
    pub start: Coordinate,
    /// The number of carving steps that were made: the number of passages.
    pub carves: usize,
}

/// A node on the way back to the start, with the directions that are tried
/// from it, in their order, and the number of those that were tried already.
struct Frame {
    cell: Coordinate,
    order: Vec<Direction>,
    tried: usize,
}

/// No carving step leads from `(x, y)` in the direction `d`.
spec fn is_blocked(rows: Rows, width: int, height: int, x: int, y: int, d: Direction) -> bool {
    is_interior(width, height, x + 2 * d.dx(), y + 2 * d.dy()) ==> path_at(
        rows,
        x + 2 * d.dx(),
        y + 2 * d.dy(),
    )
}

/// The frame stands on a node that is a path, holds the four directions, and
/// no carving step leads from its node in a direction that was tried.
spec fn frame_ok(rows: Rows, width: int, height: int, sx: int, sy: int, f: Frame) -> bool {
    &&& path_at(rows, f.cell.x as int, f.cell.y as int)
    &&& is_node(sx, sy, f.cell.x as int, f.cell.y as int)
    &&& is_direction_order(f.order@)
    &&& f.tried <= 4
    &&& forall|k: int|
        0 <= k < f.tried ==> is_blocked(
            rows,
            width,
            height,
            f.cell.x as int,
            f.cell.y as int,
            #[trigger] f.order@[k],
        )
}

/// Every frame of `stack` is in order.
spec fn stack_ok(rows: Rows, width: int, height: int, sx: int, sy: int, stack: Seq<Frame>) -> bool {
    forall|i: int| 0 <= i < stack.len() ==> frame_ok(rows, width, height, sx, sy, #[trigger] stack[i])
}

/// Some frame of `stack` stands on `(x, y)`.
spec fn on_stack(stack: Seq<Frame>, x: int, y: int) -> bool {
    exists|i: int| 0 <= i < stack.len() && (#[trigger] stack[i]).cell.x == x && stack[i].cell.y == y
}

/// The node `(x, y)` is done with, or the generator will come back to it.
spec fn is_settled(rows: Rows, width: int, height: int, stack: Seq<Frame>, x: int, y: int) -> bool {
    is_closed(rows, width, height, x, y) || on_stack(stack, x, y)
}

/// Every node that is a path is settled.
spec fn all_settled(rows: Rows, width: int, height: int, sx: int, sy: int, stack: Seq<Frame>) -> bool {
    forall|x: int, y: int|
        path_at(rows, x, y) && is_node(sx, sy, x, y) ==> #[trigger] is_settled(
            rows,
            width,
            height,
            stack,
            x,
            y,
        )
}

/// The work that the frames of `stack` still stand for: one unit for each
/// direction not tried yet, and one for taking the frame off.
spec fn pending(stack: Seq<Frame>) -> int
    decreases stack.len(),
{
    if stack.len() == 0 {
        0
    } else {
        pending(stack.drop_last()) + 5 - stack.last().tried
    }
}

/// A stack of frames that are in order stands for no less than no work.
proof fn lemma_pending_bound(rows: Rows, width: int, height: int, sx: int, sy: int, stack: Seq<Frame>)
    requires
        stack_ok(rows, width, height, sx, sy, stack),
    ensures
        pending(stack) >= 0,
    decreases stack.len(),
{
    if stack.len() > 0 {
        let rest = stack.drop_last();
        assert forall|i: int| 0 <= i < rest.len() implies frame_ok(
            rows,
            width,
            height,
            sx,
            sy,
            #[trigger] rest[i],
        ) by {
            assert(rest[i] == stack[i]);
        }
        lemma_pending_bound(rows, width, height, sx, sy, rest);
        assert(frame_ok(rows, width, height, sx, sy, stack[stack.len() - 1]));
    }
}

/// A frame on top adds its own work to that of the stack below.
proof fn lemma_pending_push(stack: Seq<Frame>, f: Frame)
    ensures
        pending(stack.push(f)) == pending(stack) + 5 - f.tried,
{
    assert(stack.push(f).drop_last() =~= stack);
}

/// A frame whose four directions were all tried stands on a closed node.
proof fn lemma_frame_closed(rows: Rows, width: int, height: int, sx: int, sy: int, f: Frame)
    requires
        frame_ok(rows, width, height, sx, sy, f),
        f.tried == 4,
    ensures
        is_closed(rows, width, height, f.cell.x as int, f.cell.y as int),
{
    let (x, y) = (f.cell.x as int, f.cell.y as int);
    assert forall|d: Direction| is_blocked(rows, width, height, x, y, d) by {
        assert(f.order@.contains(d));
        let k = choose|k: int| 0 <= k < f.order@.len() && f.order@[k] == d;
        assert(is_blocked(rows, width, height, x, y, f.order@[k]));
    }
    assert(is_blocked(rows, width, height, x, y, Direction::Right));
    assert(is_blocked(rows, width, height, x, y, Direction::Left));
    assert(is_blocked(rows, width, height, x, y, Direction::Up));
    assert(is_blocked(rows, width, height, x, y, Direction::Down));
}

/// Taking a frame off whose directions were all tried leaves every node settled.
proof fn lemma_leave(rows: Rows, width: int, height: int, sx: int, sy: int, stack: Seq<Frame>)
    requires
        stack.len() > 0,
        stack_ok(rows, width, height, sx, sy, stack),
        all_settled(rows, width, height, sx, sy, stack),
        stack.last().tried == 4,
    ensures
        stack_ok(rows, width, height, sx, sy, stack.drop_last()),
        all_settled(rows, width, height, sx, sy, stack.drop_last()),
        pending(stack.drop_last()) == pending(stack) - 1,
{
    let rest = stack.drop_last();
    let top = stack.last();
    assert forall|i: int| 0 <= i < rest.len() implies frame_ok(
        rows,
        width,
        height,
        sx,
        sy,
        #[trigger] rest[i],
    ) by {
        assert(rest[i] == stack[i]);
    }
    assert(frame_ok(rows, width, height, sx, sy, stack[stack.len() - 1]));
    lemma_frame_closed(rows, width, height, sx, sy, top);
    assert forall|x: int, y: int| path_at(rows, x, y) && is_node(sx, sy, x, y) implies #[trigger] is_settled(
        rows,
        width,
        height,
        rest,
        x,
        y,
    ) by {
        assert(is_settled(rows, width, height, stack, x, y));
        if !is_closed(rows, width, height, x, y) {
            let i = choose|i: int|
                0 <= i < stack.len() && (#[trigger] stack[i]).cell.x == x && stack[i].cell.y == y;
            assert(i < rest.len());
            assert(rest[i] == stack[i]);
        }
    }
}

/// Counting one more direction of the top frame as tried, where no carving
/// step leads that way, keeps the stack in order.
proof fn lemma_skip(
    rows: Rows,
    width: int,
    height: int,
    sx: int,
    sy: int,
    stack: Seq<Frame>,
    top: Frame,
)
    requires
        stack.len() > 0,
        stack_ok(rows, width, height, sx, sy, stack),
        all_settled(rows, width, height, sx, sy, stack),
        stack.last().tried < 4,
        top.cell == stack.last().cell,
        top.order == stack.last().order,
        top.tried == stack.last().tried + 1,
        is_blocked(
            rows,
            width,
            height,
            top.cell.x as int,
            top.cell.y as int,
            top.order@[top.tried - 1],
        ),
    ensures
        stack_ok(rows, width, height, sx, sy, stack.drop_last().push(top)),
        all_settled(rows, width, height, sx, sy, stack.drop_last().push(top)),
        pending(stack.drop_last().push(top)) == pending(stack) - 1,
{
    let rest = stack.drop_last();
    let next = rest.push(top);
    assert(frame_ok(rows, width, height, sx, sy, stack[stack.len() - 1]));
    assert(frame_ok(rows, width, height, sx, sy, top));
    assert forall|i: int| 0 <= i < next.len() implies frame_ok(
        rows,
        width,
        height,
        sx,
        sy,
        #[trigger] next[i],
    ) by {
        if i < rest.len() {
            assert(next[i] == stack[i]);
        }
    }
    lemma_pending_push(rest, top);
    assert forall|x: int, y: int| path_at(rows, x, y) && is_node(sx, sy, x, y) implies #[trigger] is_settled(
        rows,
        width,
        height,
        next,
        x,
        y,
    ) by {
        assert(is_settled(rows, width, height, stack, x, y));
        if !is_closed(rows, width, height, x, y) {
            let i = choose|i: int|
                0 <= i < stack.len() && (#[trigger] stack[i]).cell.x == x && stack[i].cell.y == y;
            assert(next[i].cell == stack[i].cell);
        }
    }
}

/// After a carving step from the top frame's node, the stack with the new
/// node's frame on top is in order.
proof fn lemma_descend(
    before: Rows,
    after: Rows,
    width: int,
    height: int,
    sx: int,
    sy: int,
    stack: Seq<Frame>,
    top: Frame,
    fresh: Frame,
    mx: int,
    my: int,
)
    requires
        stack.len() > 0,
        stack_ok(before, width, height, sx, sy, stack),
        all_settled(before, width, height, sx, sy, stack),
        stack.last().tried < 4,
        top.cell == stack.last().cell,
        top.order == stack.last().order,
        top.tried == stack.last().tried + 1,
        is_direction_order(fresh.order@),
        fresh.tried == 0,
        in_line(top.cell.x as int, top.cell.y as int, mx, my, fresh.cell.x as int, fresh.cell.y as int),
        top.order@[top.tried - 1].dx() == mx - top.cell.x,
        top.order@[top.tried - 1].dy() == my - top.cell.y,
        forall|i: int, j: int| #[trigger]
            path_at(after, i, j) <==> path_at(before, i, j) || (i == mx && j == my) || (i
                == fresh.cell.x && j == fresh.cell.y),
    ensures
        stack_ok(after, width, height, sx, sy, stack.drop_last().push(top).push(fresh)),
        all_settled(after, width, height, sx, sy, stack.drop_last().push(top).push(fresh)),
{
    let rest = stack.drop_last();
    let next = rest.push(top).push(fresh);
    let (nx, ny) = (fresh.cell.x as int, fresh.cell.y as int);
    assert(frame_ok(before, width, height, sx, sy, stack[stack.len() - 1]));
    assert forall|x: int, y: int| #[trigger] path_at(before, x, y) implies path_at(after, x, y) by {}
    assert(path_at(after, nx, ny));
    assert forall|i: int| 0 <= i < next.len() implies frame_ok(
        after,
        width,
        height,
        sx,
        sy,
        #[trigger] next[i],
    ) by {
        let f = next[i];
        if i < rest.len() {
            assert(f == stack[i]);
            assert(frame_ok(before, width, height, sx, sy, stack[i]));
        }
        if i <= rest.len() {
            let g = stack[i];
            assert(path_at(before, g.cell.x as int, g.cell.y as int));
            assert forall|k: int| 0 <= k < f.tried implies is_blocked(
                after,
                width,
                height,
                f.cell.x as int,
                f.cell.y as int,
                #[trigger] f.order@[k],
            ) by {
                if k < g.tried {
                    assert(is_blocked(
                        before,
                        width,
                        height,
                        g.cell.x as int,
                        g.cell.y as int,
                        g.order@[k],
                    ));
                    let d = g.order@[k];
                    let (tx, ty) = (g.cell.x + 2 * d.dx(), g.cell.y + 2 * d.dy());
                    if is_interior(width, height, tx, ty) {
                        assert(path_at(before, tx, ty));
                    }
                }
            }
        }
    }
    assert forall|x: int, y: int| path_at(after, x, y) && is_node(sx, sy, x, y) implies #[trigger] is_settled(
        after,
        width,
        height,
        next,
        x,
        y,
    ) by {
        if x == nx && y == ny {
            assert(next[next.len() - 1].cell == fresh.cell);
        } else {
            assert(!(x == mx && y == my));
            assert(path_at(before, x, y));
            assert(is_settled(before, width, height, stack, x, y));
            if is_closed(before, width, height, x, y) {
                if is_interior(width, height, x + 2, y) {
                    assert(path_at(before, x + 2, y));
                }
                if is_interior(width, height, x - 2, y) {
                    assert(path_at(before, x - 2, y));
                }
                if is_interior(width, height, x, y + 2) {
                    assert(path_at(before, x, y + 2));
                }
                if is_interior(width, height, x, y - 2) {
                    assert(path_at(before, x, y - 2));
                }
            } else {
                let i = choose|i: int|
                    0 <= i < stack.len() && (#[trigger] stack[i]).cell.x == x && stack[i].cell.y == y;
                assert(next[i].cell == stack[i].cell);
            }
        }
    }
}

/// The frame as the walk sees it.
spec fn walker_of(f: Frame) -> Walker {
    Walker { x: f.cell.x as int, y: f.cell.y as int, order: f.order@, tried: f.tried as int }
}

/// The stack as the walk sees it.
spec fn walkers_of(stack: Seq<Frame>) -> Seq<Walker> {
    Seq::new(stack.len(), |i: int| walker_of(stack[i]))
}

/// The walk sees the top of a stack as its top, and the rest as the rest.
proof fn lemma_walkers_pop(stack: Seq<Frame>)
    requires
        stack.len() > 0,
    ensures
        walkers_of(stack).len() == stack.len(),
        walkers_of(stack).last() == walker_of(stack.last()),
        walkers_of(stack).drop_last() == walkers_of(stack.drop_last()),
{
    assert(walkers_of(stack).drop_last() =~= walkers_of(stack.drop_last()));
}

/// The walk sees a frame put on top as one put on top.
proof fn lemma_walkers_push(stack: Seq<Frame>, f: Frame)
    ensures
        walkers_of(stack.push(f)) == walkers_of(stack).push(walker_of(f)),
{
    assert(walkers_of(stack.push(f)) =~= walkers_of(stack).push(walker_of(f)));
}

/// The cell between `cell` and the node two cells from it in the direction
/// `d`, and that node, where a carving step leads there; else `None`.
fn carve_target(grid: &Grid, cell: Coordinate, d: Direction) -> (target: Option<(Coordinate, Coordinate)>)
    requires
        grid.wf(),
        is_interior(grid.spec_width(), grid.spec_height(), cell.x as int, cell.y as int),
    ensures
        match target {
            Some((mid, next)) => {
                &&& mid.x == cell.x + d.dx()
                &&& mid.y == cell.y + d.dy()
                &&& next.x == cell.x + 2 * d.dx()
                &&& next.y == cell.y + 2 * d.dy()
                &&& is_interior(grid.spec_width(), grid.spec_height(), next.x as int, next.y as int)
                &&& !path_at(grid@, next.x as int, next.y as int)
            },
            None => is_blocked(
                grid@,
                grid.spec_width(),
                grid.spec_height(),
                cell.x as int,
                cell.y as int,
                d,
            ),
        },
{
    let width = grid.width();
    let height = grid.height();
    let mid = match d.step(cell, width, height) {
        Some(mid) => mid,
        None => {
            return None;
        },
    };
    let next = match d.step(mid, width, height) {
        Some(next) => next,
        None => {
            return None;
        },
    };
    if 1 <= next.x && next.x < width - 1 && 1 <= next.y && next.y < height - 1 && !grid.is_path(
        next.x,
        next.y,
    ) {
        Some((mid, next))
    } else {
        None
    }
}

/// Generates a perfect maze of `width` by `height` cells around `start`.
///
/// The paths of the result form a tree that was grown from `start`: every
/// path can be reached from `start`, there is one passage for each node but
/// the first, one route joins any two paths, every node inside the outer ring
/// is a path, and the outer ring is all wall. Which tree comes out is up to
/// the orders that are drawn from `rng`, and to nothing else.
pub fn generate(width: usize, height: usize, start: Coordinate, rng: &mut RandomSource) -> (maze: Maze)
    requires
        3 <= width,
        3 <= height,
        width * height <= usize::MAX,
        is_interior(width as int, height as int, start.x as int, start.y as int),
    ensures
        maze.grid.wf(),
        maze.grid.spec_width() == width,
        maze.grid.spec_height() == height,
        maze.start == start,
        maze.carves == tree_edges(maze.grid@, start.x as int, start.y as int),
        maze.carves + 1 == lattice_count(width as int, start.x as int) * lattice_count(
            height as int,
            start.y as int,
        ),
        is_perfect_maze(
            maze.grid@,
            width as int,
            height as int,
            start.x as int,
            start.y as int,
            maze.carves as int,
        ),
        maze.grid@ == carved_maze(
            width as int,
            height as int,
            start.x as int,
            start.y as int,
            orders_of(old(rng).generator()),
        ),
        final(rng).generator() == generator_after_draws(
            old(rng).generator(),
            (maze.carves + 1) as nat,
        ),
{
    let ghost drawn_from = rng.generator();
    let ghost orders = orders_of(drawn_from);
    let ghost mut steps: nat = 0;
    let ghost w = width as int;
    let ghost h = height as int;
    let ghost sx = start.x as int;
    let ghost sy = start.y as int;
    let mut grid = Grid::new(width, height);
    grid.carve(start.x, start.y);
    let mut carves: usize = 0;
    let mut stack: Vec<Frame> = Vec::new();
    let order = rng.shuffled_directions();
    stack.push(Frame { cell: start, order, tried: 0 });
    proof {
        lemma_first_cell(w, h, sx, sy);
        assert(frame_ok(grid@, w, h, sx, sy, stack@[0]));
        assert forall|x: int, y: int| path_at(grid@, x, y) && is_node(sx, sy, x, y) implies #[trigger] is_settled(
            grid@,
            w,
            h,
            stack@,
            x,
            y,
        ) by {
            lemma_carved(all_walls(w, h), sx, sy);
            assert(stack@[0].cell.x == x && stack@[0].cell.y == y);
        }
        assert(generator_after_draws(drawn_from, 0) == drawn_from);
        assert(walkers_of(stack@) =~= carving_after(w, h, sx, sy, orders, 0).stack);
        assert(pending(stack@) == 5) by {
            lemma_pending_push(Seq::<Frame>::empty(), stack@[0]);
            assert(stack@ =~= Seq::<Frame>::empty().push(stack@[0]));
        }
    }
    while stack.len() > 0
        invariant
            w == width,
            h == height,
            sx == start.x,
            sy == start.y,
            3 <= width,
            3 <= height,
            w * h <= usize::MAX,
            grid.wf(),
            grid.spec_width() == w,
            grid.spec_height() == h,
            is_maze_tree(grid@, w, h, sx, sy, carves as int),
            stack_ok(grid@, w, h, sx, sy, stack@),
            all_settled(grid@, w, h, sx, sy, stack@),
            orders == orders_of(drawn_from),
            rng.generator() == generator_after_draws(drawn_from, (carves + 1) as nat),
            carving_after(w, h, sx, sy, orders, steps).rows == grid@,
            carving_after(w, h, sx, sy, orders, steps).stack == walkers_of(stack@),
            carving_after(w, h, sx, sy, orders, steps).drawn == carves + 1,
            steps + pending(stack@) == 5 * (carves + 1),
        decreases w * h - 2 * carves, pending(stack@),
    {
        proof {
            lemma_tree_fits(grid@, w, h, sx, sy, carves as int);
            lemma_walkers_pop(stack@);
        }
        let ghost walk = carving_after(w, h, sx, sy, orders, steps);
        let ghost before = grid@;
        let ghost frames = stack@;
        let mut top = stack.pop().unwrap();
        assert(stack@ == frames.drop_last());
        assert(frame_ok(before, w, h, sx, sy, frames[frames.len() - 1]));
        if top.tried < top.order.len() {
            let d = top.order[top.tried];
            let cell = top.cell;
            top.tried = top.tried + 1;
            match carve_target(&grid, cell, d) {
                Some((mid, next)) => {
                    proof {
                        lemma_carving_step(
                            before,
                            w,
                            h,
                            sx,
                            sy,
                            carves as int,
                            cell.x as int,
                            cell.y as int,
                            mid.x as int,
                            mid.y as int,
                            next.x as int,
                            next.y as int,
                        );
                        lemma_carved(before, next.x as int, next.y as int);
                        lemma_carved(
                            carved(before, next.x as int, next.y as int),
                            mid.x as int,
                            mid.y as int,
                        );
                    }
                    grid.carve(next.x, next.y);
                    grid.carve(mid.x, mid.y);
                    proof {
                        lemma_tree_fits(grid@, w, h, sx, sy, carves + 1);
                    }
                    carves = carves + 1;
                    let order = rng.shuffled_directions();
                    let fresh = Frame { cell: next, order, tried: 0 };
                    proof {
                        assert(order@ == orders(walk.drawn));
                        lemma_walkers_push(frames.drop_last(), top);
                        lemma_walkers_push(frames.drop_last().push(top), fresh);
                        lemma_pending_push(frames.drop_last(), top);
                        lemma_pending_push(frames.drop_last().push(top), fresh);
                        lemma_descend(
                            before,
                            grid@,
                            w,
                            h,
                            sx,
                            sy,
                            frames,
                            top,
                            fresh,
                            mid.x as int,
                            mid.y as int,
                        );
                    }
                    stack.push(top);
                    stack.push(fresh);
                },
                None => {
                    proof {
                        lemma_skip(before, w, h, sx, sy, frames, top);
                        lemma_walkers_push(frames.drop_last(), top);
                    }
                    stack.push(top);
                },
            }
        } else {
            proof {
                lemma_leave(before, w, h, sx, sy, frames);
            }
        }
        proof {
            lemma_pending_bound(grid@, w, h, sx, sy, stack@);
            steps = steps + 1;
            assert(carving_after(w, h, sx, sy, orders, steps) == crate::carving::carving_step(
                walk,
                w,
                h,
                orders,
            ));
        }
    }
    proof {
        lemma_tree_fits(grid@, w, h, sx, sy, carves as int);
        assert(pending(stack@) == 0);
        lemma_walk_over(w, h, sx, sy, orders, steps, (5 * (w * h)) as nat);
        assert forall|x: int, y: int| path_at(grid@, x, y) && is_node(sx, sy, x, y) implies #[trigger] is_closed(
            grid@,
            w,
            h,
            x,
            y,
        ) by {
            assert(is_settled(grid@, w, h, stack@, x, y));
        }
        lemma_closed_spans(grid@, w, h, sx, sy);
        lemma_perfect_maze_size(grid@, w, h, sx, sy, carves as int);
    }
    Maze { grid, start, carves }
}

} // verus!
