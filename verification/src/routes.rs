//! Routes: walks that pass no cell twice. In a tree of paths exactly one
//! route joins any two paths, which is to say that the paths hold no cycle.

use crate::grid::{path_at, Rows};
use crate::maze::{adjacent, is_walk};
use vstd::prelude::*;

verus! {

/// `walk` is a walk over paths of `rows` that passes no cell twice.
pub open spec fn is_route(rows: Rows, walk: Seq<(int, int)>) -> bool {
    is_walk(rows, walk) && walk.no_duplicates()
}

/// `walk` is a route from `from` to `to`.
pub open spec fn route_joins(rows: Rows, walk: Seq<(int, int)>, from: (int, int), to: (int, int)) -> bool {
    is_route(rows, walk) && walk[0] == from && walk[walk.len() - 1] == to
}

/// Some route leads from `from` to `to`.
pub open spec fn has_route(rows: Rows, from: (int, int), to: (int, int)) -> bool {
    exists|walk: Seq<(int, int)>| #[trigger] route_joins(rows, walk, from, to)
}

/// A route leads from every path to every path.
pub open spec fn routes_exist(rows: Rows) -> bool {
    forall|a: (int, int), b: (int, int)|
        path_at(rows, a.0, a.1) && path_at(rows, b.0, b.1) ==> #[trigger] has_route(rows, a, b)
}

/// Two routes with the same ends are the same route: the paths hold no cycle.
pub open spec fn routes_unique(rows: Rows) -> bool {
    forall|p: Seq<(int, int)>, q: Seq<(int, int)>|
        #[trigger] is_route(rows, p) && #[trigger] is_route(rows, q) && p[0] == q[0] && p[p.len()
            - 1] == q[q.len() - 1] ==> p == q
}

/// The paths of `after` are those of `before` and the two cells `m` and `n`,
/// walls before, which hang on the path `c` of `before`: `m` lies next to
/// `c` and `n` next to `m`, no other path lies next to `m`, and none but `m`
/// next to `n`.
pub open spec fn hangs_on(before: Rows, after: Rows, c: (int, int), m: (int, int), n: (int, int)) -> bool {
    &&& forall|x: (int, int)|
        #[trigger] path_at(after, x.0, x.1) <==> path_at(before, x.0, x.1) || x == m || x == n
    &&& path_at(before, c.0, c.1)
    &&& !path_at(before, m.0, m.1)
    &&& !path_at(before, n.0, n.1)
    &&& m != n
    &&& adjacent(c, m)
    &&& adjacent(m, n)
    &&& forall|x: (int, int)| path_at(after, x.0, x.1) && #[trigger] adjacent(x, n) ==> x == m
    &&& forall|x: (int, int)|
        path_at(after, x.0, x.1) && #[trigger] adjacent(x, m) ==> x == c || x == n
}

/// `walk` read from its end to its beginning.
pub open spec fn turned(walk: Seq<(int, int)>) -> Seq<(int, int)> {
    Seq::new(walk.len(), |i: int| walk[walk.len() - 1 - i])
}

/// A route read backwards is a route.
proof fn lemma_turned(rows: Rows, walk: Seq<(int, int)>)
    requires
        is_route(rows, walk),
    ensures
        is_route(rows, turned(walk)),
        turned(walk).len() == walk.len(),
        turned(walk)[0] == walk[walk.len() - 1],
        turned(walk)[walk.len() - 1] == walk[0],
{
    let back = turned(walk);
    let len = walk.len() as int;
    assert forall|i: int| 0 <= i < back.len() implies path_at(rows, (#[trigger] back[i]).0, back[i].1) by {
        assert(path_at(rows, walk[len - 1 - i].0, walk[len - 1 - i].1));
    }
    assert forall|i: int| 0 <= i < back.len() - 1 implies adjacent(#[trigger] back[i], back[i + 1]) by {
        assert(adjacent(walk[len - 2 - i], walk[len - 2 - i + 1]));
    }
    assert forall|i: int, j: int| 0 <= i < back.len() && 0 <= j < back.len() && i != j implies back[i]
        != back[j] by {
        assert(walk[len - 1 - i] != walk[len - 1 - j]);
    }
}

/// The beginning of a route is a route.
proof fn lemma_route_take(rows: Rows, walk: Seq<(int, int)>, k: int)
    requires
        is_route(rows, walk),
        1 <= k <= walk.len(),
    ensures
        is_route(rows, walk.take(k)),
        walk.take(k)[0] == walk[0],
        walk.take(k)[k - 1] == walk[k - 1],
{
    let part = walk.take(k);
    assert forall|i: int| 0 <= i < part.len() implies path_at(rows, (#[trigger] part[i]).0, part[i].1) by {
        assert(path_at(rows, walk[i].0, walk[i].1));
    }
    assert forall|i: int| 0 <= i < part.len() - 1 implies adjacent(#[trigger] part[i], part[i + 1]) by {
        assert(adjacent(walk[i], walk[i + 1]));
    }
    assert forall|i: int, j: int| 0 <= i < part.len() && 0 <= j < part.len() && i != j implies part[i]
        != part[j] by {
        assert(walk[i] != walk[j]);
    }
}

/// A route of `after` that passes neither of the new cells is a route of `before`.
proof fn lemma_route_was(before: Rows, after: Rows, c: (int, int), m: (int, int), n: (int, int), walk: Seq<(int, int)>)
    requires
        hangs_on(before, after, c, m, n),
        is_route(after, walk),
        forall|i: int| 0 <= i < walk.len() ==> #[trigger] walk[i] != m && walk[i] != n,
    ensures
        is_route(before, walk),
{
    assert forall|i: int| 0 <= i < walk.len() implies path_at(before, (#[trigger] walk[i]).0, walk[i].1) by {
        assert(path_at(after, walk[i].0, walk[i].1));
    }
}

/// A route of `before` is a route of `after`, and passes neither new cell.
proof fn lemma_route_stays(before: Rows, after: Rows, c: (int, int), m: (int, int), n: (int, int), walk: Seq<(int, int)>)
    requires
        hangs_on(before, after, c, m, n),
        is_route(before, walk),
    ensures
        is_route(after, walk),
        forall|i: int| 0 <= i < walk.len() ==> #[trigger] walk[i] != m && walk[i] != n,
{
    assert forall|i: int| 0 <= i < walk.len() implies path_at(after, (#[trigger] walk[i]).0, walk[i].1)
        && walk[i] != m && walk[i] != n by {
        assert(path_at(before, walk[i].0, walk[i].1));
    }
}

/// A route can be prolonged at its end by a path next to it that it does not pass.
proof fn lemma_route_push(rows: Rows, walk: Seq<(int, int)>, next: (int, int))
    requires
        is_route(rows, walk),
        path_at(rows, next.0, next.1),
        adjacent(walk[walk.len() - 1], next),
        forall|i: int| 0 <= i < walk.len() ==> #[trigger] walk[i] != next,
    ensures
        is_route(rows, walk.push(next)),
        walk.push(next)[0] == walk[0],
        walk.push(next)[walk.len() as int] == next,
{
    let longer = walk.push(next);
    assert forall|i: int| 0 <= i < longer.len() implies path_at(rows, (#[trigger] longer[i]).0, longer[i].1) by {
        if i < walk.len() {
            assert(path_at(rows, walk[i].0, walk[i].1));
        }
    }
    assert forall|i: int| 0 <= i < longer.len() - 1 implies adjacent(#[trigger] longer[i], longer[i + 1]) by {
        if i + 1 < walk.len() {
            assert(adjacent(walk[i], walk[i + 1]));
        }
    }
    assert forall|i: int, j: int| 0 <= i < longer.len() && 0 <= j < longer.len() && i != j implies longer[i]
        != longer[j] by {
        if i < walk.len() && j < walk.len() {
            assert(walk[i] != walk[j]);
        } else if i < walk.len() {
            assert(walk[i] != next);
        } else {
            assert(walk[j] != next);
        }
    }
}

/// In a route of `after` the cell `n` stands at an end.
proof fn lemma_leaf_at_end(before: Rows, after: Rows, c: (int, int), m: (int, int), n: (int, int), walk: Seq<(int, int)>, i: int)
    requires
        hangs_on(before, after, c, m, n),
        is_route(after, walk),
        0 <= i < walk.len(),
        walk[i] == n,
    ensures
        i == 0 || i == walk.len() - 1,
{
    if 0 < i < walk.len() - 1 {
        assert(adjacent(walk[i - 1], walk[i - 1 + 1]));
        assert(adjacent(walk[i], walk[i + 1]));
        assert(adjacent(walk[i + 1], n));
        assert(path_at(after, walk[i - 1].0, walk[i - 1].1));
        assert(path_at(after, walk[i + 1].0, walk[i + 1].1));
        assert(walk[i - 1] == m);
        assert(walk[i + 1] == m);
    }
}

/// In a route of `after` that begins at neither new cell, the new cells
/// stand at the end only: the route ends with `c`, `m`, `n`, or with `c`,
/// `m`, or passes neither.
proof fn lemma_tail(before: Rows, after: Rows, c: (int, int), m: (int, int), n: (int, int), walk: Seq<(int, int)>)
    requires
        hangs_on(before, after, c, m, n),
        is_route(after, walk),
        walk[0] != m,
        walk[0] != n,
    ensures
        ({
            let len = walk.len() as int;
            let last = walk[len - 1];
            let old_len = if last == n {
                len - 2
            } else if last == m {
                len - 1
            } else {
                len
            };
            &&& old_len >= 1
            &&& forall|i: int| 0 <= i < old_len ==> #[trigger] walk[i] != m && walk[i] != n
            &&& last == n ==> walk[len - 2] == m && walk[len - 3] == c
            &&& last == m ==> walk[len - 2] == c
        }),
{
    let len = walk.len() as int;
    let last = walk[len - 1];
    // where `n` stands, the route ends
    assert forall|i: int| 0 <= i < len && #[trigger] walk[i] == n implies i == len - 1 by {
        lemma_leaf_at_end(before, after, c, m, n, walk, i);
    }
    // where `m` stands, the route ends, or goes on to `n` and ends there
    assert forall|i: int| 0 <= i < len && #[trigger] walk[i] == m implies (i == len - 1 && walk[i - 1]
        == c) || (i == len - 2 && walk[len - 1] == n && walk[i - 1] == c) by {
        assert(i > 0);
        assert(adjacent(walk[i - 1], walk[i - 1 + 1]));
        assert(path_at(after, walk[i - 1].0, walk[i - 1].1));
        assert(walk[i - 1] == c || walk[i - 1] == n);
        if walk[i - 1] == n {
            lemma_leaf_at_end(before, after, c, m, n, walk, i - 1);
        }
        if i < len - 1 {
            assert(adjacent(walk[i], walk[i + 1]));
            assert(adjacent(walk[i + 1], m));
            assert(path_at(after, walk[i + 1].0, walk[i + 1].1));
            assert(walk[i + 1] == c || walk[i + 1] == n);
            assert(walk[i + 1] != walk[i - 1]);
            lemma_leaf_at_end(before, after, c, m, n, walk, i + 1);
        }
    }
    if last == n {
        assert(len >= 2);
        assert(adjacent(walk[len - 2], walk[len - 2 + 1]));
        assert(path_at(after, walk[len - 2].0, walk[len - 2].1));
        assert(walk[len - 2] == m);
    }
}

/// Two routes of `after` with the same ends, the first of them a path of
/// `before`, are the same route.
proof fn lemma_unique_from_old(before: Rows, after: Rows, c: (int, int), m: (int, int), n: (int, int), p: Seq<(int, int)>, q: Seq<(int, int)>)
    requires
        hangs_on(before, after, c, m, n),
        routes_unique(before),
        is_route(after, p),
        is_route(after, q),
        p[0] == q[0],
        p[p.len() - 1] == q[q.len() - 1],
        p[0] != m,
        p[0] != n,
    ensures
        p == q,
{
    lemma_tail(before, after, c, m, n, p);
    lemma_tail(before, after, c, m, n, q);
    let last = p[p.len() - 1];
    let cut = if last == n {
        2int
    } else if last == m {
        1int
    } else {
        0int
    };
    let p_old = p.take(p.len() - cut);
    let q_old = q.take(q.len() - cut);
    lemma_route_take(after, p, p.len() - cut);
    lemma_route_take(after, q, q.len() - cut);
    assert forall|i: int| 0 <= i < p_old.len() implies #[trigger] p_old[i] != m && p_old[i] != n by {
        assert(p_old[i] == p[i]);
    }
    assert forall|i: int| 0 <= i < q_old.len() implies #[trigger] q_old[i] != m && q_old[i] != n by {
        assert(q_old[i] == q[i]);
    }
    lemma_route_was(before, after, c, m, n, p_old);
    lemma_route_was(before, after, c, m, n, q_old);
    assert(p_old[p_old.len() - 1] == q_old[q_old.len() - 1]);
    assert(p_old == q_old);
    assert(p.len() == q.len());
    assert forall|i: int| 0 <= i < p.len() implies p[i] == q[i] by {
        if i < p_old.len() {
            assert(p_old[i] == p[i]);
            assert(q_old[i] == q[i]);
        }
    }
    assert(p =~= q);
}

/// Hanging two cells on a path adds no second route between any two paths.
pub proof fn lemma_hanging_keeps_unique(before: Rows, after: Rows, c: (int, int), m: (int, int), n: (int, int))
    requires
        hangs_on(before, after, c, m, n),
        routes_unique(before),
    ensures
        routes_unique(after),
{
    assert forall|p: Seq<(int, int)>, q: Seq<(int, int)>|
        #[trigger] is_route(after, p) && #[trigger] is_route(after, q) && p[0] == q[0] && p[p.len()
            - 1] == q[q.len() - 1] implies p == q by {
        let a = p[0];
        let b = p[p.len() - 1];
        if a != m && a != n {
            lemma_unique_from_old(before, after, c, m, n, p, q);
        } else if b != m && b != n {
            lemma_turned(after, p);
            lemma_turned(after, q);
            lemma_unique_from_old(before, after, c, m, n, turned(p), turned(q));
            assert(p.len() == q.len());
            assert forall|i: int| 0 <= i < p.len() implies p[i] == q[i] by {
                assert(turned(p)[p.len() - 1 - i] == p[i]);
                assert(turned(q)[q.len() - 1 - i] == q[i]);
            }
            assert(p =~= q);
        } else {
            lemma_ends_new(before, after, c, m, n, p);
            lemma_ends_new(before, after, c, m, n, q);
            assert(p =~= q);
        }
    }
}

/// A route of `after` that begins and ends at the new cells passes no other cell.
proof fn lemma_ends_new(before: Rows, after: Rows, c: (int, int), m: (int, int), n: (int, int), walk: Seq<(int, int)>)
    requires
        hangs_on(before, after, c, m, n),
        is_route(after, walk),
        walk[0] == m || walk[0] == n,
        walk[walk.len() - 1] == m || walk[walk.len() - 1] == n,
    ensures
        walk[0] == walk[walk.len() - 1] ==> walk.len() == 1,
        walk[0] != walk[walk.len() - 1] ==> walk.len() == 2,
{
    let len = walk.len() as int;
    if walk[0] != walk[len - 1] {
        if walk[0] == n {
            assert(adjacent(walk[0int], walk[0int + 1]));
            assert(adjacent(walk[1], n));
            assert(path_at(after, walk[1].0, walk[1].1));
            assert(walk[1] == m);
        } else {
            assert(adjacent(walk[len - 2], walk[len - 2 + 1]));
            assert(path_at(after, walk[len - 2].0, walk[len - 2].1));
            assert(walk[len - 2] == m);
        }
    }
}

/// Hanging two cells on a path leaves a route between any two paths.
pub proof fn lemma_hanging_keeps_joined(before: Rows, after: Rows, c: (int, int), m: (int, int), n: (int, int))
    requires
        hangs_on(before, after, c, m, n),
        routes_exist(before),
    ensures
        routes_exist(after),
{
    assert forall|a: (int, int), b: (int, int)|
        path_at(after, a.0, a.1) && path_at(after, b.0, b.1) implies #[trigger] has_route(
        after,
        a,
        b,
    ) by {
        if a != m && a != n {
            lemma_route_from_old(before, after, c, m, n, a, b);
        } else if b != m && b != n {
            lemma_route_from_old(before, after, c, m, n, b, a);
            let back = choose|walk: Seq<(int, int)>| route_joins(after, walk, b, a);
            lemma_turned(after, back);
            assert(route_joins(after, turned(back), a, b));
        } else if a == b {
            let walk = seq![a];
            assert(route_joins(after, walk, a, b));
        } else {
            let walk = seq![a, b];
            assert(adjacent(n, m));
            assert(route_joins(after, walk, a, b));
        }
    }
}

/// A route of `after` leads from a path of `before` to every path.
proof fn lemma_route_from_old(before: Rows, after: Rows, c: (int, int), m: (int, int), n: (int, int), a: (int, int), b: (int, int))
    requires
        hangs_on(before, after, c, m, n),
        routes_exist(before),
        path_at(before, a.0, a.1),
        path_at(after, b.0, b.1),
    ensures
        has_route(after, a, b),
{
    let to = if b == m || b == n {
        c
    } else {
        b
    };
    assert(path_at(before, to.0, to.1));
    assert(has_route(before, a, to));
    let walk = choose|walk: Seq<(int, int)>| route_joins(before, walk, a, to);
    lemma_route_stays(before, after, c, m, n, walk);
    if b == m || b == n {
        assert(path_at(after, m.0, m.1));
        lemma_route_push(after, walk, m);
        let to_m = walk.push(m);
        if b == m {
            assert(route_joins(after, to_m, a, b));
        } else {
            assert(path_at(after, n.0, n.1));
            assert forall|i: int| 0 <= i < to_m.len() implies #[trigger] to_m[i] != n by {
                if i < walk.len() {
                    assert(to_m[i] == walk[i]);
                }
            }
            lemma_route_push(after, to_m, n);
            assert(route_joins(after, to_m.push(n), a, b));
        }
    } else {
        assert(route_joins(after, walk, a, b));
    }
}

/// Where one cell alone is a path, one route joins it to itself, and no other.
pub proof fn lemma_single_path(rows: Rows, s: (int, int))
    requires
        forall|x: (int, int)| #[trigger] path_at(rows, x.0, x.1) <==> x == s,
    ensures
        routes_exist(rows),
        routes_unique(rows),
{
    assert forall|a: (int, int), b: (int, int)|
        path_at(rows, a.0, a.1) && path_at(rows, b.0, b.1) implies #[trigger] has_route(rows, a, b) by {
        let walk = seq![s];
        assert(route_joins(rows, walk, a, b));
    }
    assert forall|p: Seq<(int, int)>, q: Seq<(int, int)>|
        #[trigger] is_route(rows, p) && #[trigger] is_route(rows, q) && p[0] == q[0] && p[p.len()
            - 1] == q[q.len() - 1] implies p == q by {
        assert(path_at(rows, p[0].0, p[0].1));
        assert(path_at(rows, q[0].0, q[0].1));
        if p.len() > 1 {
            assert(path_at(rows, p[1].0, p[1].1));
        }
        if q.len() > 1 {
            assert(path_at(rows, q[1].0, q[1].1));
        }
        assert(p =~= q);
    }
}

/// `b` is the cell to the right of `a`, or the cell above it.
pub open spec fn follows(a: (int, int), b: (int, int)) -> bool {
    b == (a.0 + 1, a.1) || b == (a.0, a.1 + 1)
}

/// The joints of `rows`: the pairs of paths that lie next to each other, each
/// pair once, the left or lower cell first.
pub open spec fn joints(rows: Rows) -> Set<((int, int), (int, int))> {
    Set::new(
        |e: ((int, int), (int, int))|
            path_at(rows, e.0.0, e.0.1) && path_at(rows, e.1.0, e.1.1) && follows(e.0, e.1),
    )
}

/// The two cells `a` and `b`, the left or lower of them first.
pub open spec fn joint_of(a: (int, int), b: (int, int)) -> ((int, int), (int, int)) {
    if follows(a, b) {
        (a, b)
    } else {
        (b, a)
    }
}

/// Hanging two cells on a path adds two joints: one to the path, and one
/// between the two.
pub proof fn lemma_hanging_adds_joints(before: Rows, after: Rows, c: (int, int), m: (int, int), n: (int, int))
    requires
        hangs_on(before, after, c, m, n),
        joints(before).finite(),
    ensures
        joints(after).finite(),
        joints(after).len() == joints(before).len() + 2,
{
    let first = joint_of(c, m);
    let second = joint_of(m, n);
    assert(path_at(after, c.0, c.1));
    assert(path_at(after, m.0, m.1));
    assert(path_at(after, n.0, n.1));
    assert forall|e: ((int, int), (int, int))| joints(after).contains(e) implies joints(
        before,
    ).insert(first).insert(second).contains(e) by {
        assert(adjacent(e.0, e.1));
        assert(adjacent(e.1, e.0));
        if e.0 == n {
            assert(e.1 == m);
        } else if e.1 == n {
            assert(e.0 == m);
        } else if e.0 == m {
            assert(e.1 == c);
        } else if e.1 == m {
            assert(e.0 == c);
        } else {
            assert(path_at(before, e.0.0, e.0.1));
            assert(path_at(before, e.1.0, e.1.1));
        }
    }
    assert forall|e: ((int, int), (int, int))|
        joints(before).insert(first).insert(second).contains(e) implies joints(after).contains(
        e,
    ) by {
        if e != first && e != second {
            assert(joints(before).contains(e));
            assert(path_at(after, e.0.0, e.0.1));
            assert(path_at(after, e.1.0, e.1.1));
        }
    }
    assert(joints(after) =~= joints(before).insert(first).insert(second));
    assert(!joints(before).contains(first));
    assert(!joints(before).insert(first).contains(second));
}

/// Where one cell alone is a path, there is no joint.
pub proof fn lemma_single_path_has_no_joint(rows: Rows, s: (int, int))
    requires
        forall|x: (int, int)| #[trigger] path_at(rows, x.0, x.1) <==> x == s,
    ensures
        joints(rows).finite(),
        joints(rows).len() == 0,
{
    assert forall|e: ((int, int), (int, int))| !joints(rows).contains(e) by {
        if joints(rows).contains(e) {
            assert(path_at(rows, e.0.0, e.0.1));
            assert(path_at(rows, e.1.0, e.1.1));
        }
    }
    assert(joints(rows) =~= Set::empty());
}

} // verus!
