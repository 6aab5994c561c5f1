//! What a maze is: the mathematical statements that the generator's result meets.
//!
//! A maze is carved on a lattice. Its *nodes* are the cells that lie an even
//! number of columns and of rows from the start cell; a *passage* is the cell
//! between two neighbouring nodes. The paths of a perfect maze form a tree
//! that spans every node inside the outer ring of walls.

use crate::grid::{all_walls, carved, is_interior, is_rect, path_at, ring_is_wall, Rows, Tile};
use crate::routes::{
    hangs_on, joints, lemma_hanging_adds_joints, lemma_hanging_keeps_joined,
    lemma_hanging_keeps_unique, lemma_single_path, lemma_single_path_has_no_joint, routes_exist,
    routes_unique,
};
use vstd::prelude::*;
use vstd::relations::injective_on;
use vstd::set_lib::{lemma_len_subset, lemma_map_size, lemma_set_disjoint_lens};

verus! {

/// `(x, y)` lies an even number of columns and of rows from `(sx, sy)`.
pub open spec fn is_node(sx: int, sy: int, x: int, y: int) -> bool {
    (x - sx) % 2 == 0 && (y - sy) % 2 == 0
}

/// `(x, y)` is a path between two nodes of its row that are paths themselves.
pub open spec fn is_row_passage(rows: Rows, sx: int, sy: int, x: int, y: int) -> bool {
    &&& (x - sx) % 2 != 0
    &&& (y - sy) % 2 == 0
    &&& path_at(rows, x - 1, y)
    &&& path_at(rows, x + 1, y)
}

/// `(x, y)` is a path between two nodes of its column that are paths themselves.
pub open spec fn is_column_passage(rows: Rows, sx: int, sy: int, x: int, y: int) -> bool {
    &&& (x - sx) % 2 == 0
    &&& (y - sy) % 2 != 0
    &&& path_at(rows, x, y - 1)
    &&& path_at(rows, x, y + 1)
}

/// `(x, y)` is a node, or a passage between two nodes that are paths.
pub open spec fn on_lattice(rows: Rows, sx: int, sy: int, x: int, y: int) -> bool {
    is_node(sx, sy, x, y) || is_row_passage(rows, sx, sy, x, y) || is_column_passage(
        rows,
        sx,
        sy,
        x,
        y,
    )
}

/// Every path is a node or a passage between two nodes: no path lies
/// diagonally between nodes, and no passage is a dead end.
pub open spec fn lattice_shaped(rows: Rows, sx: int, sy: int) -> bool {
    forall|x: int, y: int| path_at(rows, x, y) ==> #[trigger] on_lattice(rows, sx, sy, x, y)
}

/// `a` and `b` are one step apart in one of the four directions.
pub open spec fn adjacent(a: (int, int), b: (int, int)) -> bool {
    ||| a.0 == b.0 && (a.1 == b.1 + 1 || b.1 == a.1 + 1)
    ||| a.1 == b.1 && (a.0 == b.0 + 1 || b.0 == a.0 + 1)
}

/// `walk` is a non-empty sequence of paths of `rows`, each one step from the one before.
pub open spec fn is_walk(rows: Rows, walk: Seq<(int, int)>) -> bool {
    &&& walk.len() > 0
    &&& forall|i: int| 0 <= i < walk.len() ==> path_at(rows, (#[trigger] walk[i]).0, walk[i].1)
    &&& forall|i: int| 0 <= i < walk.len() - 1 ==> adjacent(#[trigger] walk[i], walk[i + 1])
}

/// `walk` leads from `from` to `to` over paths of `rows`.
pub open spec fn walk_joins(rows: Rows, walk: Seq<(int, int)>, from: (int, int), to: (int, int)) -> bool {
    is_walk(rows, walk) && walk[0] == from && walk[walk.len() - 1] == to
}

/// `to` can be reached from `from` by single steps in the four directions that
/// never leave the paths of `rows`.
pub open spec fn reachable(rows: Rows, from: (int, int), to: (int, int)) -> bool {
    exists|walk: Seq<(int, int)>| #[trigger] walk_joins(rows, walk, from, to)
}

/// Every path of `rows` can be reached from `(sx, sy)`.
pub open spec fn connected(rows: Rows, sx: int, sy: int) -> bool {
    forall|x: int, y: int| path_at(rows, x, y) ==> #[trigger] reachable(rows, (sx, sy), (x, y))
}

/// The set of the paths of `rows`.
pub open spec fn path_cells(rows: Rows) -> Set<(int, int)> {
    Set::new(|c: (int, int)| path_at(rows, c.0, c.1))
}

/// The set of the nodes of `rows` that are paths.
pub open spec fn node_cells(rows: Rows, sx: int, sy: int) -> Set<(int, int)> {
    Set::new(|c: (int, int)| path_at(rows, c.0, c.1) && is_node(sx, sy, c.0, c.1))
}

/// The number of edges of a tree that has the nodes of `rows` that are paths.
pub open spec fn tree_edges(rows: Rows, sx: int, sy: int) -> int {
    node_cells(rows, sx, sy).len() - 1
}

/// The paths of `rows` count as those of a tree with `edges` edges do: there
/// are `edges + 1` nodes among them, and one passage for each edge. So beside
/// the start there are the two cells that each carving step turned into paths.
pub open spec fn counts_as_tree(rows: Rows, sx: int, sy: int, edges: int) -> bool {
    &&& path_cells(rows).finite()
    &&& node_cells(rows, sx, sy).finite()
    &&& node_cells(rows, sx, sy).len() == edges + 1
    &&& path_cells(rows).len() == 2 * edges + 1
}

/// The paths of `rows` form a tree on the lattice of `(sx, sy)`, inside the
/// outer ring of walls, that was grown from `(sx, sy)` by `edges` carving
/// steps: every path can be reached from the start, the paths count as those
/// of a tree do, exactly one route that passes no cell twice joins any two of
/// them, and there is one pair of neighbouring paths fewer than there are paths.
pub open spec fn is_maze_tree(rows: Rows, width: int, height: int, sx: int, sy: int, edges: int) -> bool {
    &&& is_rect(rows, width, height)
    &&& ring_is_wall(rows, width, height)
    &&& path_at(rows, sx, sy)
    &&& lattice_shaped(rows, sx, sy)
    &&& connected(rows, sx, sy)
    &&& counts_as_tree(rows, sx, sy, edges)
    &&& routes_exist(rows)
    &&& routes_unique(rows)
    &&& joints(rows).finite()
    &&& joints(rows).len() == 2 * edges
}

/// Every node inside the outer ring is a path.
pub open spec fn spans_interior(rows: Rows, width: int, height: int, sx: int, sy: int) -> bool {
    forall|x: int, y: int|
        is_interior(width, height, x, y) && #[trigger] is_node(sx, sy, x, y) ==> path_at(rows, x, y)
}

/// `rows` is a perfect maze: a tree of paths that spans every node inside the
/// outer ring of walls.
pub open spec fn is_perfect_maze(rows: Rows, width: int, height: int, sx: int, sy: int, edges: int) -> bool {
    is_maze_tree(rows, width, height, sx, sy, edges) && spans_interior(rows, width, height, sx, sy)
}

/// No carving step can start at the node `(x, y)`: each of the four nodes next
/// to it lies on or beyond the outer ring, or is a path already.
pub open spec fn is_closed(rows: Rows, width: int, height: int, x: int, y: int) -> bool {
    &&& is_interior(width, height, x + 2, y) ==> path_at(rows, x + 2, y)
    &&& is_interior(width, height, x - 2, y) ==> path_at(rows, x - 2, y)
    &&& is_interior(width, height, x, y + 2) ==> path_at(rows, x, y + 2)
    &&& is_interior(width, height, x, y - 2) ==> path_at(rows, x, y - 2)
}

/// The set of all cells of a `width` by `height` rectangle.
pub open spec fn rect_cells(width: int, height: int) -> Set<(int, int)> {
    Set::new(|c: (int, int)| 0 <= c.0 < width && 0 <= c.1 < height)
}

/// The set of the first `width` cells of row `y`.
pub open spec fn row_cells(width: int, y: int) -> Set<(int, int)> {
    Set::new(|c: (int, int)| 0 <= c.0 < width && c.1 == y)
}

/// A row of `width` cells has `width` cells.
pub proof fn lemma_row_cells(width: int, y: int)
    requires
        0 <= width,
    ensures
        row_cells(width, y).finite(),
        row_cells(width, y).len() == width,
    decreases width,
{
    if width == 0 {
        assert(row_cells(width, y) =~= Set::empty());
    } else {
        lemma_row_cells(width - 1, y);
        assert(row_cells(width, y) =~= row_cells(width - 1, y).insert((width - 1, y)));
    }
}

/// A rectangle of `width` by `height` cells has `width * height` cells.
pub proof fn lemma_rect_cells(width: int, height: int)
    requires
        0 <= width,
        0 <= height,
    ensures
        rect_cells(width, height).finite(),
        rect_cells(width, height).len() == width * height,
    decreases height,
{
    if height == 0 {
        assert(rect_cells(width, height) =~= Set::empty());
        assert(width * height == 0) by (nonlinear_arith)
            requires
                height == 0,
        ;
    } else {
        lemma_rect_cells(width, height - 1);
        lemma_row_cells(width, height - 1);
        let below = rect_cells(width, height - 1);
        let top = row_cells(width, height - 1);
        assert(below.disjoint(top));
        lemma_set_disjoint_lens(below, top);
        assert(rect_cells(width, height) =~= below.union(top));
        assert(width * height == width * (height - 1) + width) by (nonlinear_arith);
    }
}

/// Carving a cell of `rows` adds that cell to the paths and changes nothing else.
pub proof fn lemma_carved(rows: Rows, x: int, y: int)
    requires
        0 <= y < rows.len(),
        0 <= x < rows[y].len(),
    ensures
        carved(rows, x, y).len() == rows.len(),
        forall|j: int| 0 <= j < rows.len() ==> (#[trigger] carved(rows, x, y)[j]).len() == rows[j].len(),
        forall|i: int, j: int|
            #[trigger] path_at(carved(rows, x, y), i, j) <==> path_at(rows, i, j) || (i == x && j == y),
        path_cells(carved(rows, x, y)) == path_cells(rows).insert((x, y)),
{
    let after = carved(rows, x, y);
    assert forall|i: int, j: int| #[trigger]
        path_at(after, i, j) <==> path_at(rows, i, j) || (i == x && j == y) by {
        if 0 <= j < rows.len() && j != y {
            assert(after[j] == rows[j]);
        }
    }
    assert(path_cells(after) =~= path_cells(rows).insert((x, y)));
}

/// A walk stays a walk when cells are carved.
pub proof fn lemma_walk_survives(before: Rows, after: Rows, walk: Seq<(int, int)>)
    requires
        is_walk(before, walk),
        forall|x: int, y: int| #[trigger] path_at(before, x, y) ==> path_at(after, x, y),
    ensures
        is_walk(after, walk),
{
    assert forall|i: int| 0 <= i < walk.len() implies path_at(
        after,
        (#[trigger] walk[i]).0,
        walk[i].1,
    ) by {
        assert(path_at(before, walk[i].0, walk[i].1));
    }
}

/// A walk can be prolonged by a path next to its last cell.
pub proof fn lemma_walk_push(rows: Rows, walk: Seq<(int, int)>, next: (int, int))
    requires
        is_walk(rows, walk),
        path_at(rows, next.0, next.1),
        adjacent(walk[walk.len() - 1], next),
    ensures
        is_walk(rows, walk.push(next)),
        walk.push(next)[0] == walk[0],
        walk.push(next)[walk.push(next).len() - 1] == next,
{
    let longer = walk.push(next);
    assert forall|i: int| 0 <= i < longer.len() implies path_at(
        rows,
        (#[trigger] longer[i]).0,
        longer[i].1,
    ) by {
        if i < walk.len() {
            assert(longer[i] == walk[i]);
        }
    }
    assert forall|i: int| 0 <= i < longer.len() - 1 implies adjacent(
        #[trigger] longer[i],
        longer[i + 1],
    ) by {
        assert(longer[i] == walk[i]);
        if i + 1 < walk.len() {
            assert(longer[i + 1] == walk[i + 1]);
        }
    }
}

/// A grid of walls in which the start cell alone is carved is a tree without edges.
pub proof fn lemma_first_cell(width: int, height: int, sx: int, sy: int)
    requires
        is_interior(width, height, sx, sy),
    ensures
        is_maze_tree(carved(all_walls(width, height), sx, sy), width, height, sx, sy, 0),
{
    let walls = all_walls(width, height);
    let rows = carved(walls, sx, sy);
    lemma_carved(walls, sx, sy);
    assert forall|i: int, j: int| !path_at(walls, i, j) by {}
    assert(path_cells(walls) =~= Set::empty());
    assert(node_cells(rows, sx, sy) =~= Set::<(int, int)>::empty().insert((sx, sy)));
    assert forall|x: (int, int)| #[trigger] path_at(rows, x.0, x.1) <==> x == (sx, sy) by {
        assert(!path_at(walls, x.0, x.1));
    }
    lemma_single_path(rows, (sx, sy));
    lemma_single_path_has_no_joint(rows, (sx, sy));
    let walk = seq![(sx, sy)];
    assert(walk_joins(rows, walk, (sx, sy), (sx, sy)));
    assert forall|x: int, y: int| path_at(rows, x, y) implies #[trigger] reachable(
        rows,
        (sx, sy),
        (x, y),
    ) by {
        assert(walk_joins(rows, walk, (sx, sy), (x, y)));
    }
}

/// The paths of `after` are those of `before` and the two cells `(mx, my)` and `(nx, ny)`.
pub open spec fn grown_by(before: Rows, after: Rows, mx: int, my: int, nx: int, ny: int) -> bool {
    forall|i: int, j: int| #[trigger]
        path_at(after, i, j) <==> path_at(before, i, j) || (i == mx && j == my) || (i == nx && j
            == ny)
}

/// `(mx, my)` is one step from `(cx, cy)` in one of the four directions, and
/// `(nx, ny)` one step further in the same direction.
pub open spec fn in_line(cx: int, cy: int, mx: int, my: int, nx: int, ny: int) -> bool {
    &&& adjacent((cx, cy), (mx, my))
    &&& nx - mx == mx - cx
    &&& ny - my == my - cy
}

/// A carving step keeps the paths on the lattice.
proof fn lemma_step_lattice(
    before: Rows,
    after: Rows,
    sx: int,
    sy: int,
    cx: int,
    cy: int,
    mx: int,
    my: int,
    nx: int,
    ny: int,
)
    requires
        lattice_shaped(before, sx, sy),
        grown_by(before, after, mx, my, nx, ny),
        path_at(before, cx, cy),
        is_node(sx, sy, cx, cy),
        in_line(cx, cy, mx, my, nx, ny),
    ensures
        lattice_shaped(after, sx, sy),
{
    assert(path_at(after, cx, cy));
    assert(path_at(after, nx, ny));
    assert forall|x: int, y: int| path_at(after, x, y) implies #[trigger] on_lattice(
        after,
        sx,
        sy,
        x,
        y,
    ) by {
        if x == mx && y == my {
        } else if x == nx && y == ny {
        } else {
            assert(on_lattice(before, sx, sy, x, y));
            if is_row_passage(before, sx, sy, x, y) {
                assert(path_at(after, x - 1, y));
                assert(path_at(after, x + 1, y));
            } else if is_column_passage(before, sx, sy, x, y) {
                assert(path_at(after, x, y - 1));
                assert(path_at(after, x, y + 1));
            }
        }
    }
}

/// A carving step keeps every path within reach of the start: the two new
/// paths are reached through the node that the step started from.
proof fn lemma_step_connected(
    before: Rows,
    after: Rows,
    sx: int,
    sy: int,
    cx: int,
    cy: int,
    mx: int,
    my: int,
    nx: int,
    ny: int,
)
    requires
        connected(before, sx, sy),
        grown_by(before, after, mx, my, nx, ny),
        path_at(before, cx, cy),
        in_line(cx, cy, mx, my, nx, ny),
    ensures
        connected(after, sx, sy),
{
    assert forall|x: int, y: int| #[trigger] path_at(before, x, y) implies path_at(after, x, y) by {}
    assert(path_at(after, mx, my));
    assert(path_at(after, nx, ny));
    assert(reachable(before, (sx, sy), (cx, cy)));
    let to_here = choose|walk: Seq<(int, int)>| walk_joins(before, walk, (sx, sy), (cx, cy));
    lemma_walk_survives(before, after, to_here);
    lemma_walk_push(after, to_here, (mx, my));
    let to_mid = to_here.push((mx, my));
    lemma_walk_push(after, to_mid, (nx, ny));
    let to_next = to_mid.push((nx, ny));
    assert forall|x: int, y: int| path_at(after, x, y) implies #[trigger] reachable(
        after,
        (sx, sy),
        (x, y),
    ) by {
        if x == mx && y == my {
            assert(walk_joins(after, to_mid, (sx, sy), (x, y)));
        } else if x == nx && y == ny {
            assert(walk_joins(after, to_next, (sx, sy), (x, y)));
        } else {
            assert(reachable(before, (sx, sy), (x, y)));
            let old_walk = choose|walk: Seq<(int, int)>| walk_joins(before, walk, (sx, sy), (x, y));
            lemma_walk_survives(before, after, old_walk);
            assert(walk_joins(after, old_walk, (sx, sy), (x, y)));
        }
    }
}

/// A carving step adds one node and one passage to the paths.
proof fn lemma_step_counts(
    before: Rows,
    after: Rows,
    sx: int,
    sy: int,
    edges: int,
    mx: int,
    my: int,
    nx: int,
    ny: int,
)
    requires
        counts_as_tree(before, sx, sy, edges),
        grown_by(before, after, mx, my, nx, ny),
        !path_at(before, mx, my),
        !path_at(before, nx, ny),
        !is_node(sx, sy, mx, my),
        is_node(sx, sy, nx, ny),
    ensures
        counts_as_tree(after, sx, sy, edges + 1),
{
    assert(path_cells(after) =~= path_cells(before).insert((nx, ny)).insert((mx, my))) by {
        assert forall|c: (int, int)| path_cells(after).contains(c) <==> path_cells(before).insert(
            (nx, ny),
        ).insert((mx, my)).contains(c) by {
            assert(path_at(after, c.0, c.1) <==> path_at(before, c.0, c.1) || (c.0 == mx && c.1
                == my) || (c.0 == nx && c.1 == ny));
        }
    }
    assert(!path_cells(before).contains((nx, ny)));
    assert(!path_cells(before).insert((nx, ny)).contains((mx, my)));
    assert(node_cells(after, sx, sy) =~= node_cells(before, sx, sy).insert((nx, ny))) by {
        assert forall|c: (int, int)| node_cells(after, sx, sy).contains(c) <==> node_cells(
            before,
            sx,
            sy,
        ).insert((nx, ny)).contains(c) by {
            assert(path_at(after, c.0, c.1) <==> path_at(before, c.0, c.1) || (c.0 == mx && c.1
                == my) || (c.0 == nx && c.1 == ny));
        }
    }
    assert(!node_cells(before, sx, sy).contains((nx, ny)));
}

/// The two cells of a carving step hang on the node that the step started
/// from: no other path lies next to them.
proof fn lemma_step_hangs(
    before: Rows,
    after: Rows,
    sx: int,
    sy: int,
    cx: int,
    cy: int,
    mx: int,
    my: int,
    nx: int,
    ny: int,
)
    requires
        lattice_shaped(before, sx, sy),
        grown_by(before, after, mx, my, nx, ny),
        path_at(before, cx, cy),
        is_node(sx, sy, cx, cy),
        in_line(cx, cy, mx, my, nx, ny),
        !path_at(before, mx, my),
        !path_at(before, nx, ny),
    ensures
        hangs_on(before, after, (cx, cy), (mx, my), (nx, ny)),
{
    let c = (cx, cy);
    let m = (mx, my);
    let n = (nx, ny);
    assert forall|x: (int, int)| #[trigger]
        path_at(after, x.0, x.1) <==> path_at(before, x.0, x.1) || x == m || x == n by {}
    assert forall|x: (int, int)| path_at(after, x.0, x.1) && #[trigger] adjacent(x, n) implies x
        == m by {
        if x != m {
            assert(path_at(before, x.0, x.1));
            assert(on_lattice(before, sx, sy, x.0, x.1));
        }
    }
    assert forall|x: (int, int)| path_at(after, x.0, x.1) && #[trigger] adjacent(x, m) implies x
        == c || x == n by {
        if x != c && x != n {
            assert(path_at(before, x.0, x.1));
            assert(on_lattice(before, sx, sy, x.0, x.1));
        }
    }
}

/// One carving step keeps a tree a tree and adds one edge to it: from a node
/// `(cx, cy)` that is a path, the node `(nx, ny)` two cells away in one of the
/// four directions, a wall so far, and the cell `(mx, my)` between the two
/// become paths.
pub proof fn lemma_carving_step(
    rows: Rows,
    width: int,
    height: int,
    sx: int,
    sy: int,
    edges: int,
    cx: int,
    cy: int,
    mx: int,
    my: int,
    nx: int,
    ny: int,
)
    requires
        is_maze_tree(rows, width, height, sx, sy, edges),
        path_at(rows, cx, cy),
        is_node(sx, sy, cx, cy),
        in_line(cx, cy, mx, my, nx, ny),
        is_interior(width, height, nx, ny),
        !path_at(rows, nx, ny),
    ensures
        !path_at(rows, mx, my),
        is_maze_tree(carved(carved(rows, nx, ny), mx, my), width, height, sx, sy, edges + 1),
{
    let mid = carved(rows, nx, ny);
    let after = carved(mid, mx, my);
    assert(is_interior(width, height, cx, cy));
    assert(is_interior(width, height, mx, my));
    assert(!path_at(rows, mx, my)) by {
        if path_at(rows, mx, my) {
            assert(on_lattice(rows, sx, sy, mx, my));
        }
    }
    lemma_carved(rows, nx, ny);
    lemma_carved(mid, mx, my);
    assert(grown_by(rows, after, mx, my, nx, ny)) by {
        assert forall|i: int, j: int| #[trigger]
            path_at(after, i, j) <==> path_at(rows, i, j) || (i == mx && j == my) || (i == nx
                && j == ny) by {
            assert(path_at(after, i, j) <==> path_at(mid, i, j) || (i == mx && j == my));
            assert(path_at(mid, i, j) <==> path_at(rows, i, j) || (i == nx && j == ny));
        }
    }
    assert(is_rect(after, width, height));
    assert(ring_is_wall(after, width, height));
    assert(path_at(after, sx, sy));
    lemma_step_lattice(rows, after, sx, sy, cx, cy, mx, my, nx, ny);
    lemma_step_connected(rows, after, sx, sy, cx, cy, mx, my, nx, ny);
    lemma_step_counts(rows, after, sx, sy, edges, mx, my, nx, ny);
    lemma_step_hangs(rows, after, sx, sy, cx, cy, mx, my, nx, ny);
    lemma_hanging_keeps_joined(rows, after, (cx, cy), (mx, my), (nx, ny));
    lemma_hanging_keeps_unique(rows, after, (cx, cy), (mx, my), (nx, ny));
    lemma_hanging_adds_joints(rows, after, (cx, cy), (mx, my), (nx, ny));
}

/// A tree of paths has no more cells than the rectangle it lies in.
pub proof fn lemma_tree_fits(rows: Rows, width: int, height: int, sx: int, sy: int, edges: int)
    requires
        is_maze_tree(rows, width, height, sx, sy, edges),
    ensures
        0 <= edges,
        2 * edges + 1 <= width * height,
{
    assert(0 <= height);
    assert(0 <= width) by {
        assert(path_at(rows, sx, sy));
        assert(rows[sy].len() == width);
    }
    lemma_rect_cells(width, height);
    assert(path_cells(rows).subset_of(rect_cells(width, height))) by {
        assert forall|c: (int, int)| path_cells(rows).contains(c) implies rect_cells(
            width,
            height,
        ).contains(c) by {
            assert(path_at(rows, c.0, c.1));
            assert(rows[c.1].len() == width);
        }
    }
    lemma_len_subset(path_cells(rows), rect_cells(width, height));
    assert(node_cells(rows, sx, sy).len() >= 0);
}

/// Where the start cell is a path and no carving step can start at any node
/// that is a path, every node inside the outer ring is a path.
pub proof fn lemma_closed_spans(rows: Rows, width: int, height: int, sx: int, sy: int)
    requires
        is_interior(width, height, sx, sy),
        path_at(rows, sx, sy),
        forall|x: int, y: int|
            path_at(rows, x, y) && is_node(sx, sy, x, y) ==> #[trigger] is_closed(rows, width, height, x, y),
    ensures
        spans_interior(rows, width, height, sx, sy),
{
    assert forall|x: int, y: int|
        is_interior(width, height, x, y) && #[trigger] is_node(sx, sy, x, y) implies path_at(
        rows,
        x,
        y,
    ) by {
        lemma_node_is_path(rows, width, height, sx, sy, x, y);
    }
}

/// The distance between `a` and `b`.
pub open spec fn distance(a: int, b: int) -> int {
    if a <= b {
        b - a
    } else {
        a - b
    }
}

/// A node inside the outer ring is a path, by induction on its distance from
/// the start along its row and then along the start's column.
proof fn lemma_node_is_path(rows: Rows, width: int, height: int, sx: int, sy: int, x: int, y: int)
    requires
        is_interior(width, height, sx, sy),
        path_at(rows, sx, sy),
        forall|x: int, y: int|
            path_at(rows, x, y) && is_node(sx, sy, x, y) ==> #[trigger] is_closed(rows, width, height, x, y),
        is_interior(width, height, x, y),
        is_node(sx, sy, x, y),
    ensures
        path_at(rows, x, y),
    decreases distance(x, sx) + distance(y, sy),
{
    if x > sx {
        lemma_node_is_path(rows, width, height, sx, sy, x - 2, y);
        assert(is_closed(rows, width, height, x - 2, y));
    } else if x < sx {
        lemma_node_is_path(rows, width, height, sx, sy, x + 2, y);
        assert(is_closed(rows, width, height, x + 2, y));
    } else if y > sy {
        lemma_node_is_path(rows, width, height, sx, sy, x, y - 2);
        assert(is_closed(rows, width, height, x, y - 2));
    } else if y < sy {
        lemma_node_is_path(rows, width, height, sx, sy, x, y + 2);
        assert(is_closed(rows, width, height, x, y + 2));
    }
}

/// The boundary of a maze is wall: in a rectangle whose paths all lie inside
/// the outer ring, every cell of the first and the last row and of the first
/// and the last column is a `Wall`.
pub proof fn lemma_boundary_is_wall(rows: Rows, width: int, height: int, x: int, y: int)
    requires
        is_rect(rows, width, height),
        ring_is_wall(rows, width, height),
        0 <= x < width,
        0 <= y < height,
        x == 0 || x == width - 1 || y == 0 || y == height - 1,
    ensures
        rows[y][x] == Tile::Wall,
{
    if rows[y][x] == Tile::Path {
        assert(path_at(rows, x, y));
    }
}

/// The first place inside the outer ring that lies an even number of cells from `s`.
pub open spec fn lattice_first(s: int) -> int {
    if s % 2 == 0 {
        2
    } else {
        1
    }
}

/// The number of places inside the outer ring of a side of `size` cells that
/// lie an even number of cells from `s`.
pub open spec fn lattice_count(size: int, s: int) -> int {
    (size - 2 - lattice_first(s)) / 2 + 1
}

/// The size of a perfect maze is decided by the size of the grid and the
/// start: its nodes are the nodes inside the outer ring, as many as there
/// are lattice columns times lattice rows, and it has one edge fewer.
pub proof fn lemma_perfect_maze_size(rows: Rows, width: int, height: int, sx: int, sy: int, edges: int)
    requires
        is_interior(width, height, sx, sy),
        is_perfect_maze(rows, width, height, sx, sy, edges),
    ensures
        edges + 1 == lattice_count(width, sx) * lattice_count(height, sy),
        path_cells(rows).len() == 2 * (lattice_count(width, sx) * lattice_count(height, sy)) - 1,
{
    let x0 = lattice_first(sx);
    let y0 = lattice_first(sy);
    let columns = lattice_count(width, sx);
    let lines = lattice_count(height, sy);
    let places = rect_cells(columns, lines);
    let nodes = node_cells(rows, sx, sy);
    let f = |a: (int, int)| (x0 + 2 * a.0, y0 + 2 * a.1);
    lemma_rect_cells(columns, lines);
    assert(injective_on(f, places));
    assert forall|b: (int, int)| places.map(f).contains(b) implies nodes.contains(b) by {
        let a = choose|a: (int, int)| places.contains(a) && b == f(a);
        assert(is_interior(width, height, b.0, b.1));
        assert(is_node(sx, sy, b.0, b.1));
    }
    assert forall|b: (int, int)| nodes.contains(b) implies places.map(f).contains(b) by {
        assert(path_at(rows, b.0, b.1));
        assert(is_interior(width, height, b.0, b.1));
        let a = ((b.0 - x0) / 2, (b.1 - y0) / 2);
        assert(places.contains(a) && b == f(a));
    }
    assert(places.map(f) =~= nodes);
    lemma_map_size(places, nodes, f);
}

} // verus!
