use vstd::prelude::*;

use crate::grid::{is_neighbour, Grid};
use crate::tile::{octile_between, Coordinate};

verus! {

/// `p` is a non-empty sequence of in-bounds, non-wall positions of `g`,
/// each one a neighbour of the next.
pub open spec fn is_walk(g: &Grid, p: Seq<Coordinate>) -> bool {
    &&& p.len() >= 1
    &&& forall|k: int|
        0 <= k < p.len() ==> g.in_bounds((#[trigger] p[k]).0 as int, p[k].1 as int) && !g.is_wall(
            p[k].0 as int,
            p[k].1 as int,
        )
    &&& forall|k: int|
        0 <= k < p.len() - 1 ==> is_neighbour(
            (#[trigger] p[k]).0 as int,
            p[k].1 as int,
            p[k + 1].0 as int,
            p[k + 1].1 as int,
        )
}

/// `p` is a walk of `g` from `from` to `to`.
pub open spec fn is_route(g: &Grid, p: Seq<Coordinate>, from: Coordinate, to: Coordinate) -> bool {
    is_walk(g, p) && p[0] == from && p.last() == to
}

/// Some walk of `g` leads from `from` to `to`.
pub open spec fn reachable(g: &Grid, from: Coordinate, to: Coordinate) -> bool {
    exists|p: Seq<Coordinate>| is_route(g, p, from, to)
}

/// Sum of the octile distances between consecutive positions of `p`.
pub open spec fn route_cost(p: Seq<Coordinate>) -> int
    decreases p.len(),
{
    if p.len() <= 1 {
        0
    } else {
        octile_between(p[0].0 as int, p[0].1 as int, p[1].0 as int, p[1].1 as int) + route_cost(
            p.subrange(1, p.len() as int),
        )
    }
}

/// `(x, y)` occurs in `p` other than at its two ends.
pub open spec fn on_interior(p: Seq<Coordinate>, x: int, y: int) -> bool {
    exists|k: int| 0 < k < p.len() - 1 && (#[trigger] p[k]).0 == x && p[k].1 == y
}

/// `c` lies inside `g`.
pub open spec fn in_grid(g: &Grid, c: Coordinate) -> bool {
    g.in_bounds(c.0 as int, c.1 as int)
}

/// No cell of `g` is a wall.
pub open spec fn no_walls(g: &Grid) -> bool {
    forall|x: int, y: int| #[trigger] g.in_bounds(x, y) ==> !g.is_wall(x, y)
}

/// Sign of `v`.
pub open spec fn sgn(v: int) -> int {
    if v > 0 {
        1
    } else if v < 0 {
        -1
    } else {
        0
    }
}

/// The octile distance obeys the triangle inequality.
pub proof fn lemma_octile_triangle(ax: int, ay: int, bx: int, by: int, cx: int, cy: int)
    ensures
        octile_between(ax, ay, cx, cy) <= octile_between(ax, ay, bx, by) + octile_between(
            bx,
            by,
            cx,
            cy,
        ),
{
}

/// One step from `p` toward `v` along both axes costs exactly what it
/// saves of the distance to `v`.
pub proof fn lemma_octile_step(px: int, py: int, vx: int, vy: int)
    requires
        !(px == vx && py == vy),
    ensures
        ({
            let qx = px + sgn(vx - px);
            let qy = py + sgn(vy - py);
            &&& is_neighbour(px, py, qx, qy)
            &&& octile_between(px, py, qx, qy) + octile_between(qx, qy, vx, vy) == octile_between(
                px,
                py,
                vx,
                vy,
            )
            &&& octile_between(qx, qy, vx, vy) < octile_between(px, py, vx, vy)
        }),
{
}


/// Extending a route by one position adds the octile distance of that step.
pub proof fn lemma_route_cost_push(q: Seq<Coordinate>, c: Coordinate)
    requires
        q.len() >= 1,
    ensures
        route_cost(q.push(c)) == route_cost(q) + octile_between(
            q.last().0 as int,
            q.last().1 as int,
            c.0 as int,
            c.1 as int,
        ),
    decreases q.len(),
{
    let qc = q.push(c);
    assert(qc[0] == q[0]);
    if q.len() == 1 {
        assert(qc.subrange(1, qc.len() as int) =~= seq![c]);
        assert(route_cost(seq![c]) == 0);
        assert(qc[1] == c);
    } else {
        let rest = q.subrange(1, q.len() as int);
        assert(qc.subrange(1, qc.len() as int) =~= rest.push(c));
        assert(qc[1] == q[1]);
        assert(rest.last() == q.last());
        lemma_route_cost_push(rest, c);
    }
}

/// Along a walk, the cost accumulated up to a position grows strictly
/// with the position: each step costs at least a straight step.
pub proof fn lemma_route_cost_grows(g: &Grid, p: Seq<Coordinate>, j: int, k: int)
    requires
        is_walk(g, p),
        0 <= j < k < p.len(),
    ensures
        route_cost(p.subrange(0, j + 1)) + 10 * (k - j) <= route_cost(p.subrange(0, k + 1)),
    decreases k - j,
{
    let prev = p.subrange(0, k);
    assert(p.subrange(0, k + 1) =~= prev.push(p[k]));
    lemma_route_cost_push(prev, p[k]);
    assert(prev.last() == p[k - 1]);
    assert(is_neighbour(p[k - 1].0 as int, p[k - 1].1 as int, p[k].0 as int, p[k].1 as int));
    if j < k - 1 {
        lemma_route_cost_grows(g, p, j, k - 1);
    }
}


/// The cost of a route splits at any of its positions.
pub proof fn lemma_route_cost_split(q: Seq<Coordinate>, k: int)
    requires
        0 <= k < q.len(),
    ensures
        route_cost(q.subrange(0, k + 1)) + route_cost(q.subrange(k, q.len() as int)) == route_cost(q),
    decreases k,
{
    if k == 0 {
        assert(q.subrange(0, q.len() as int) =~= q);
    } else {
        let rest = q.subrange(1, q.len() as int);
        lemma_route_cost_split(rest, k - 1);
        assert(rest.subrange(0, k) =~= q.subrange(1, k + 1));
        assert(rest.subrange(k - 1, rest.len() as int) =~= q.subrange(k, q.len() as int));
        let pre = q.subrange(0, k + 1);
        assert(pre.subrange(1, pre.len() as int) =~= q.subrange(1, k + 1));
        assert(pre[0] == q[0] && pre[1] == q[1]);
    }
}

/// No route is shorter than the octile distance between its ends.
pub proof fn lemma_route_cost_at_least_octile(q: Seq<Coordinate>)
    requires
        q.len() >= 1,
    ensures
        octile_between(q[0].0 as int, q[0].1 as int, q.last().0 as int, q.last().1 as int)
            <= route_cost(q),
    decreases q.len(),
{
    if q.len() > 1 {
        let rest = q.subrange(1, q.len() as int);
        lemma_route_cost_at_least_octile(rest);
        lemma_octile_triangle(
            q[0].0 as int, q[0].1 as int, q[1].0 as int, q[1].1 as int, q.last().0 as int, q.last().1 as int,
        );
    }
}


/// A non-empty prefix of a walk is a walk.
pub proof fn lemma_walk_prefix(g: &Grid, q: Seq<Coordinate>, k: int)
    requires
        is_walk(g, q),
        0 <= k < q.len(),
    ensures
        is_walk(g, q.subrange(0, k + 1)),
{
    let pre = q.subrange(0, k + 1);
    assert forall|m: int| 0 <= m < pre.len() implies g.in_bounds((#[trigger] pre[m]).0 as int, pre[m].1 as int)
        && !g.is_wall(pre[m].0 as int, pre[m].1 as int) by {
        assert(pre[m] == q[m]);
    }
    assert forall|m: int| 0 <= m < pre.len() - 1 implies is_neighbour(
        (#[trigger] pre[m]).0 as int,
        pre[m].1 as int,
        pre[m + 1].0 as int,
        pre[m + 1].1 as int,
    ) by {
        assert(pre[m] == q[m] && pre[m + 1] == q[m + 1]);
    }
}

} // verus!
