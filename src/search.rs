use vstd::prelude::*;

use crate::frontier::{precedes, Frontier};
use crate::grid::{index_of, is_neighbour, lemma_coords, Grid, SearchError, MAX_SIDE};
use crate::route::{
    in_grid, is_route, is_walk, lemma_octile_step, lemma_octile_triangle, lemma_route_cost_at_least_octile,
    lemma_route_cost_push, lemma_route_cost_split, lemma_walk_prefix, no_walls, on_interior, reachable,
    route_cost, sgn,
};
use crate::tile::{get_distance, octile_between, Coordinate, Tile, TileType};

verus! {

/// Outcome of a search that had a start and a goal.
#[derive(Clone, Debug, PartialEq, Eq)]
pub enum PathResult {
    /// Positions from start to goal inclusive.
    Found(Vec<Coordinate>),
    /// No route avoids the walls.
    NotFound,
}

/// The grid holds an in-bounds start and an in-bounds goal.
pub open spec fn has_markers(g: &Grid) -> bool {
    &&& g.start() is Some
    &&& g.goal() is Some
    &&& in_grid(g, g.start()->0)
    &&& in_grid(g, g.goal()->0)
}

/// Position of the cell stored at index `i`.
pub open spec fn position(g: &Grid, i: int) -> Coordinate {
    Coordinate(g.cells()[i].x, g.cells()[i].y)
}

/// The cells stored at `i` and `j` are neighbours.
pub open spec fn adjacent(g: &Grid, i: int, j: int) -> bool {
    is_neighbour(
        g.cells()[i].x as int,
        g.cells()[i].y as int,
        g.cells()[j].x as int,
        g.cells()[j].y as int,
    )
}

/// The costs recorded on reached cell `i`: open in `g0`, g cost between
/// zero and 14 per expanded cell and at least the octile distance from
/// `si`, and h cost the octile distance to `ti`.
pub open spec fn cost_ok_at(g0: &Grid, g: &Grid, closed: Set<int>, si: int, ti: int, i: int) -> bool {
    &&& 0 <= i < g.cells().len()
    &&& g.cells()[i].g_cost >= octile_between(
        g.cells()[si].x as int,
        g.cells()[si].y as int,
        g.cells()[i].x as int,
        g.cells()[i].y as int,
    )
    &&& g0.cells()[i].class != TileType::Wall
    &&& 0 <= g.cells()[i].g_cost <= 14 * closed.len()
    &&& g.cells()[i].h_cost == octile_between(
        g.cells()[i].x as int,
        g.cells()[i].y as int,
        g.cells()[ti].x as int,
        g.cells()[ti].y as int,
    )
}

/// Cell `i` names an expanded neighbour as predecessor, whose g cost plus
/// the step gives its own.
pub open spec fn link_ok_at(g: &Grid, closed: Set<int>, i: int) -> bool {
    let pc = g.cells()[i].parent;
    let pi = index_of(g.w(), pc.0 as int, pc.1 as int);
    &&& g.in_bounds(pc.0 as int, pc.1 as int)
    &&& closed.contains(pi)
    &&& is_neighbour(g.cells()[i].x as int, g.cells()[i].y as int, pc.0 as int, pc.1 as int)
    &&& g.cells()[i].g_cost == g.cells()[pi].g_cost + octile_between(
        pc.0 as int,
        pc.1 as int,
        g.cells()[i].x as int,
        g.cells()[i].y as int,
    )
}

/// The cost records of a search state on `g`, begun on `g0`, whose
/// reached cells are `reached` and whose expanded cells are `closed`; the
/// start `si` has g cost zero and needs no predecessor.
pub open spec fn links_ok(
    g0: &Grid,
    g: &Grid,
    closed: Set<int>,
    reached: Set<int>,
    si: int,
    ti: int,
) -> bool {
    &&& forall|i: int| #[trigger] reached.contains(i) ==> cost_ok_at(g0, g, closed, si, ti, i)
    &&& forall|i: int| #[trigger] reached.contains(i) && i != si ==> link_ok_at(g, closed, i)
    &&& g.cells()[si].g_cost == 0
}

/// No cell of `g`, by index, is a wall.
pub open spec fn open_cells(g: &Grid) -> bool {
    forall|i: int| 0 <= i < g.cells().len() ==> (#[trigger] g.cells()[i]).class != TileType::Wall
}

/// Octile distance between the cells stored at `i` and `j`.
pub open spec fn cell_distance(g: &Grid, i: int, j: int) -> int {
    octile_between(
        g.cells()[i].x as int,
        g.cells()[i].y as int,
        g.cells()[j].x as int,
        g.cells()[j].y as int,
    )
}

/// Each open neighbour outside `closed` of a cell in `from` has a g cost
/// no higher than that cell's plus the step.
pub open spec fn relaxed(g0: &Grid, g: &Grid, from: Set<int>, closed: Set<int>) -> bool {
    forall|p: int, j: int|
        #![trigger from.contains(p), adjacent(g0, p, j)]
        from.contains(p) && 0 <= j < g0.cells().len() && adjacent(g0, p, j) && g0.cells()[j].class
            != TileType::Wall && !closed.contains(j) ==> g.cells()[j].g_cost <= g.cells()[p].g_cost
            + cell_distance(g0, p, j)
}

/// On a grid without walls, every expanded cell holds its octile distance
/// from `si`.
pub open spec fn settled(g0: &Grid, g: &Grid, closed: Set<int>, si: int) -> bool {
    open_cells(g0) ==> forall|i: int|
        #[trigger] closed.contains(i) ==> g.cells()[i].g_cost == cell_distance(g0, si, i)
}

/// `g` differs from `g0` at most in the cost records of its cells.
pub open spec fn same_layout(g0: &Grid, g: &Grid) -> bool {
    &&& g.wf()
    &&& g.w() == g0.w()
    &&& g.h() == g0.h()
    &&& g.start() == g0.start()
    &&& g.goal() == g0.goal()
    &&& g.cells().len() == g0.cells().len()
    &&& forall|i: int|
        0 <= i < g.cells().len() ==> (#[trigger] g.cells()[i]).class == g0.cells()[i].class
            && g.cells()[i].x == g0.cells()[i].x && g.cells()[i].y == g0.cells()[i].y
}

proof fn lemma_set_bound(s: Set<int>, n: int)
    requires
        s.finite(),
        n >= 0,
        forall|i: int| #[trigger] s.contains(i) ==> 0 <= i < n,
    ensures
        s.len() <= n,
{
    let range = vstd::set_lib::set_int_range(0, n);
    vstd::set_lib::lemma_int_range(0, n);
    assert(s.subset_of(range));
    vstd::set_lib::lemma_len_subset(s, range);
}


/// `(x, y)` occurs in `p` at a position strictly between `0` and `k`.
pub open spec fn marked_upto(p: Seq<Coordinate>, k: int, x: int, y: int) -> bool {
    exists|j: int| 0 < j < k && (#[trigger] p[j]).0 == x && p[j].1 == y
}

/// Gives every interior position of `path` the class `Path`.
fn mark_path(grid: &mut Grid, path: &Vec<Coordinate>)
    requires
        old(grid).wf(),
        forall|k: int| 0 <= k < path.len() ==> in_grid(old(grid), #[trigger] path@[k]),
    ensures
        final(grid).wf(),
        final(grid).w() == old(grid).w(),
        final(grid).h() == old(grid).h(),
        final(grid).start() == old(grid).start(),
        final(grid).goal() == old(grid).goal(),
        final(grid).cells().len() == old(grid).cells().len(),
        forall|i: int|
            0 <= i < old(grid).cells().len() ==> #[trigger] final(grid).cells()[i] == (Tile {
                class: if on_interior(path@, old(grid).cells()[i].x as int, old(grid).cells()[i].y as int) {
                    TileType::Path
                } else {
                    old(grid).cells()[i].class
                },
                ..old(grid).cells()[i]
            }),
{
    let ghost g0 = *grid;
    let len = path.len();
    let mut k: usize = 1;
    while k < len && k + 1 < len
        invariant
            grid.wf(),
            len == path.len(),
            1 <= k,
            len >= 2 ==> k <= len - 1,
            len < 2 ==> k == 1,
            grid.w() == g0.w(),
            grid.h() == g0.h(),
            grid.start() == g0.start(),
            grid.goal() == g0.goal(),
            grid.cells().len() == g0.cells().len(),
            forall|j: int| 0 <= j < path.len() ==> in_grid(&g0, #[trigger] path@[j]),
            forall|i: int|
                0 <= i < g0.cells().len() ==> #[trigger] grid.cells()[i] == (Tile {
                    class: if marked_upto(path@, k as int, g0.cells()[i].x as int, g0.cells()[i].y as int) {
                        TileType::Path
                    } else {
                        g0.cells()[i].class
                    },
                    ..g0.cells()[i]
                }),
        decreases len - k,
    {
        let c = path[k];
        assert(in_grid(&g0, path@[k as int]));
        let j = grid.index(c.0 as i64, c.1 as i64);
        let ghost before = *grid;
        grid.set_class(j, TileType::Path);
        proof {
            assert forall|i: int| 0 <= i < g0.cells().len() implies #[trigger] grid.cells()[i] == (Tile {
                class: if marked_upto(path@, k + 1, g0.cells()[i].x as int, g0.cells()[i].y as int) {
                    TileType::Path
                } else {
                    g0.cells()[i].class
                },
                ..g0.cells()[i]
            }) by {
                assert(before.cells()[i] == (Tile {
                    class: if marked_upto(path@, k as int, g0.cells()[i].x as int, g0.cells()[i].y as int) {
                        TileType::Path
                    } else {
                        g0.cells()[i].class
                    },
                    ..g0.cells()[i]
                }));
                let xi = g0.cells()[i].x as int;
                let yi = g0.cells()[i].y as int;
                if i == j {
                    assert(path@[k as int].0 == xi && path@[k as int].1 == yi);
                    assert(marked_upto(path@, k + 1, xi, yi));
                } else {
                    lemma_coords(g0.w(), g0.h(), i);
                    assert(g0.cells()[i].x == i % g0.w());
                    if marked_upto(path@, k + 1, xi, yi) {
                        let m = choose|m: int| 0 < m < k + 1 && (#[trigger] path@[m]).0 == xi && path@[m].1 == yi;
                        if m == k {
                            assert(index_of(g0.w(), xi, yi) == i);
                        }
                        assert(marked_upto(path@, k as int, xi, yi));
                    }
                }
            }
        }
        k = k + 1;
    }
    proof {
        assert forall|i: int| 0 <= i < g0.cells().len() implies marked_upto(
            path@,
            k as int,
            #[trigger] g0.cells()[i].x as int,
            g0.cells()[i].y as int,
        ) == on_interior(path@, g0.cells()[i].x as int, g0.cells()[i].y as int) by {
            let xi = g0.cells()[i].x as int;
            let yi = g0.cells()[i].y as int;
            if on_interior(path@, xi, yi) {
                let m = choose|m: int| 0 < m < path@.len() - 1 && (#[trigger] path@[m]).0 == xi && path@[m].1 == yi;
                assert(0 < m < k);
            }
            if marked_upto(path@, k as int, xi, yi) {
                let m = choose|m: int| 0 < m < k && (#[trigger] path@[m]).0 == xi && path@[m].1 == yi;
                assert(0 < m < path@.len() - 1);
            }
        }
    }
}


/// Follows predecessor links from cell `ti` back to cell `si` and returns
/// the positions passed, from `si` to `ti`.
#[verifier::rlimit(100)]
fn retrace(
    grid: &Grid,
    g0: Ghost<Grid>,
    closed: Ghost<Set<int>>,
    reached: Ghost<Set<int>>,
    si: usize,
    ti: usize,
) -> (p: Vec<Coordinate>)
    requires
        same_layout(&g0@, grid),
        links_ok(&g0@, grid, closed@, reached@, si as int, ti as int),
        closed@.subset_of(reached@),
        reached@.contains(ti as int),
        si < grid.cells().len(),
    ensures
        is_route(&g0@, p@, position(grid, si as int), position(grid, ti as int)),
        route_cost(p@) == grid.cells()[ti as int].g_cost,
        forall|m: int|
            0 <= m < p.len() ==> grid.cells()[index_of(grid.w(), (#[trigger] p@[m]).0 as int, p@[m].1 as int)].g_cost
                == route_cost(p@.subrange(0, m + 1)),
{
    let mut path: Vec<Coordinate> = Vec::new();
    path.push(Coordinate(grid.tiles[ti].x, grid.tiles[ti].y));
    let mut cur: usize = ti;
    proof {
        let t = grid.cells()[ti as int];
        assert(g0@.in_bounds(t.x as int, t.y as int)) by {
            lemma_coords(grid.w(), grid.h(), ti as int);
        }
        assert(g0@.tile(t.x as int, t.y as int) == g0@.cells()[ti as int]) by {
            lemma_coords(grid.w(), grid.h(), ti as int);
        }
        assert(path@.subrange(1, 1) =~= Seq::<Coordinate>::empty());
        assert(path@.subrange(0, 1) =~= path@);
        lemma_coords(grid.w(), grid.h(), ti as int);
        assert(index_of(grid.w(), path@[0].0 as int, path@[0].1 as int) == ti);
    }
    while cur != si
        invariant
            same_layout(&g0@, grid),
            links_ok(&g0@, grid, closed@, reached@, si as int, ti as int),
            closed@.subset_of(reached@),
            reached@.contains(cur as int),
            path@.len() >= 1,
            path@[0] == position(grid, cur as int),
            path@.last() == position(grid, ti as int),
            is_walk(&g0@, path@),
            route_cost(path@) + grid.cells()[cur as int].g_cost == grid.cells()[ti as int].g_cost,
            forall|m: int|
                0 <= m < path.len() ==> grid.cells()[index_of(grid.w(), (#[trigger] path@[m]).0 as int, path@[m].1 as int)].g_cost
                    + route_cost(path@.subrange(m, path.len() as int)) == grid.cells()[ti as int].g_cost,
        decreases grid.cells()[cur as int].g_cost,
    {
        let pc = grid.tiles[cur].parent;
        assert(reached@.contains(cur as int) && cur != si);
        assert(link_ok_at(grid, closed@, cur as int));
        let pi = grid.index(pc.0 as i64, pc.1 as i64);
        let ghost old_path = path@;
        path.insert(0, pc);
        proof {
            assert(reached@.contains(pi as int));
            assert(cost_ok_at(&g0@, grid, closed@, si as int, ti as int, pi as int));
            assert(cost_ok_at(&g0@, grid, closed@, si as int, ti as int, cur as int));
            assert(path@.subrange(1, path@.len() as int) =~= old_path);
            assert(g0@.tile(pc.0 as int, pc.1 as int) == g0@.cells()[pi as int]);
            assert forall|k: int| 0 <= k < path@.len() implies g0@.in_bounds(
                (#[trigger] path@[k]).0 as int,
                path@[k].1 as int,
            ) && !g0@.is_wall(path@[k].0 as int, path@[k].1 as int) by {
                if k > 0 {
                    assert(path@[k] == old_path[k - 1]);
                }
            }
            assert forall|k: int| 0 <= k < path@.len() - 1 implies is_neighbour(
                (#[trigger] path@[k]).0 as int,
                path@[k].1 as int,
                path@[k + 1].0 as int,
                path@[k + 1].1 as int,
            ) by {
                if k > 0 {
                    assert(path@[k] == old_path[k - 1]);
                    assert(path@[k + 1] == old_path[k]);
                }
            }
            assert(path@.subrange(0, path@.len() as int) =~= path@);
            assert forall|m: int| 0 <= m < path.len() implies grid.cells()[index_of(
                grid.w(),
                (#[trigger] path@[m]).0 as int,
                path@[m].1 as int,
            )].g_cost + route_cost(path@.subrange(m, path.len() as int)) == grid.cells()[ti as int].g_cost by {
                if m > 0 {
                    assert(path@[m] == old_path[m - 1]);
                    assert(path@.subrange(m, path.len() as int) =~= old_path.subrange(m - 1, old_path.len() as int));
                }
            }
        }
        cur = pi;
    }
    proof {
        assert forall|m: int| 0 <= m < path.len() implies grid.cells()[index_of(
            grid.w(),
            (#[trigger] path@[m]).0 as int,
            path@[m].1 as int,
        )].g_cost == route_cost(path@.subrange(0, m + 1)) by {
            lemma_route_cost_split(path@, m);
        }
    }
    path
}


/// Cells reached by a search state: expanded, waiting in the frontier, or
/// the goal once it has been taken out.
pub open spec fn reach_set(closed: Set<int>, open: Set<int>, found: bool, ti: int) -> Set<int> {
    closed.union(open).union(if found { set![ti] } else { Set::empty() })
}

/// Every open neighbour of an expanded cell has been reached.
pub open spec fn closure(g0: &Grid, closed: Set<int>, reached: Set<int>) -> bool {
    forall|i: int, j: int|
        #![trigger closed.contains(i), adjacent(g0, i, j)]
        closed.contains(i) && 0 <= j < g0.cells().len() && adjacent(g0, i, j)
            && g0.cells()[j].class != TileType::Wall ==> reached.contains(j)
}

/// The result's route, or the empty sequence.
pub open spec fn route_of(r: Result<PathResult, SearchError>) -> Seq<Coordinate> {
    match r {
        Ok(PathResult::Found(p)) => p@,
        _ => Seq::empty(),
    }
}

/// What a search on `g` returns: `InvalidInput` without an in-bounds start
/// and goal; otherwise a route exactly when one exists, no costlier than
/// any other route, and on a grid without walls one costing the octile
/// distance from start to goal.
pub open spec fn search_outcome(g: &Grid, r: Result<PathResult, SearchError>) -> bool {
    &&& !has_markers(g) ==> r == Err::<PathResult, SearchError>(SearchError::InvalidInput)
    &&& has_markers(g) ==> {
        let s = g.start()->0;
        let t = g.goal()->0;
        &&& r is Ok
        &&& (r matches Ok(PathResult::Found(_))) <==> reachable(g, s, t)
        &&& r matches Ok(PathResult::Found(p)) ==> is_route(g, p@, s, t)
        &&& r matches Ok(PathResult::Found(p)) ==> forall|q: Seq<Coordinate>|
            is_route(g, q, s, t) ==> route_cost(p@) <= route_cost(q)
        &&& no_walls(g) ==> (r matches Ok(PathResult::Found(p)) && route_cost(p@) == octile_between(
            s.0 as int,
            s.1 as int,
            t.0 as int,
            t.1 as int,
        ))
    }
}

/// Two searches on the same grid agree on whether they fail, on whether a
/// route exists, and on the cost of the route found.
pub proof fn lemma_outcomes_agree(
    g: &Grid,
    r1: Result<PathResult, SearchError>,
    r2: Result<PathResult, SearchError>,
)
    requires
        search_outcome(g, r1),
        search_outcome(g, r2),
    ensures
        (r1 is Err) == (r2 is Err),
        (r1 matches Ok(PathResult::Found(_))) == (r2 matches Ok(PathResult::Found(_))),
        route_cost(route_of(r1)) == route_cost(route_of(r2)),
{
}

/// A walk that starts in a set of cells closed under stepping to open
/// neighbours stays in it up to its `k`-th position.
proof fn lemma_walk_stays(g0: &Grid, closed: Set<int>, p: Seq<Coordinate>, k: int)
    requires
        g0.wf(),
        is_walk(g0, p),
        0 <= k < p.len(),
        closed.contains(index_of(g0.w(), p[0].0 as int, p[0].1 as int)),
        closure(g0, closed, closed),
    ensures
        closed.contains(index_of(g0.w(), p[k].0 as int, p[k].1 as int)),
    decreases k,
{
    if k > 0 {
        lemma_walk_stays(g0, closed, p, k - 1);
        let a = p[k - 1];
        let b = p[k];
        assert(g0.in_bounds(a.0 as int, a.1 as int));
        assert(g0.in_bounds(b.0 as int, b.1 as int) && !g0.is_wall(b.0 as int, b.1 as int));
        assert(is_neighbour(a.0 as int, a.1 as int, b.0 as int, b.1 as int));
        g0.lemma_tile_position(a.0 as int, a.1 as int);
        g0.lemma_tile_position(b.0 as int, b.1 as int);
        let i = index_of(g0.w(), a.0 as int, a.1 as int);
        let j = index_of(g0.w(), b.0 as int, b.1 as int);
        assert(adjacent(g0, i, j));
    }
}

/// A* search on `grid` from its start to its goal.
///
/// The frontier yields the reached, unexpanded cell of lowest f cost, ties
/// going to the lower h cost and then to the lower row-major index. A cell
/// taken out is expanded once: each neighbour that is not a wall and not
/// expanded gets the cost through it when that is lower, or when the
/// neighbour was not reached yet. On reaching the goal the predecessor
/// links are followed back to the start, and the positions strictly between
/// the two ends are marked `Path`. Costs and predecessors stay recorded on
/// the cells.
#[verifier::rlimit(100)]
pub fn find_path(grid: &mut Grid) -> (r: Result<PathResult, SearchError>)
    requires
        old(grid).wf(),
    ensures
        final(grid).wf(),
        final(grid).w() == old(grid).w(),
        final(grid).h() == old(grid).h(),
        final(grid).start() == old(grid).start(),
        final(grid).goal() == old(grid).goal(),
        search_outcome(old(grid), r),
        !has_markers(old(grid)) ==> *final(grid) == *old(grid),
        has_markers(old(grid)) ==> {
            let t = old(grid).goal()->0;
            &&& r matches Ok(PathResult::Found(p)) ==> final(grid).tile(t.0 as int, t.1 as int).g_cost
                == route_cost(p@)
            &&& r matches Ok(PathResult::Found(p)) ==> forall|k: int|
                0 <= k < p.len() ==> final(grid).tile((#[trigger] p@[k]).0 as int, p@[k].1 as int).g_cost
                    == route_cost(p@.subrange(0, k + 1))
            &&& forall|x: int, y: int|
                #[trigger] final(grid).in_bounds(x, y) ==> final(grid).tile(x, y).class == if on_interior(
                    route_of(r),
                    x,
                    y,
                ) {
                    TileType::Path
                } else {
                    old(grid).tile(x, y).class
                }
        },
{
    let s = match grid.start_tile {
        Some(s) => s,
        None => return Err(SearchError::InvalidInput),
    };
    let t = match grid.end_tile {
        Some(t) => t,
        None => return Err(SearchError::InvalidInput),
    };
    if s.0 < 0 || s.1 < 0 || s.0 as i64 >= grid.width as i64 || s.1 as i64 >= grid.height as i64 {
        return Err(SearchError::InvalidInput);
    }
    if t.0 < 0 || t.1 < 0 || t.0 as i64 >= grid.width as i64 || t.1 as i64 >= grid.height as i64 {
        return Err(SearchError::InvalidInput);
    }
    let ghost g0 = *grid;
    let n = grid.tiles.len();
    assert(n <= 100_000_000) by (nonlinear_arith)
        requires
            n == grid.width * grid.height,
            grid.width <= MAX_SIDE,
            grid.height <= MAX_SIDE,
    ;
    let si = grid.index(s.0 as i64, s.1 as i64);
    let ti = grid.index(t.0 as i64, t.1 as i64);
    proof {
        if no_walls(&g0) {
            assert forall|i: int| 0 <= i < g0.cells().len() implies (#[trigger] g0.cells()[i]).class
                != TileType::Wall by {
                lemma_coords(g0.w(), g0.h(), i);
                assert(g0.in_bounds(i % g0.w(), i / g0.w()));
            }
        }
    }
    if grid.tiles[si].class == TileType::Wall || grid.tiles[ti].class == TileType::Wall {
        proof {
            assert forall|p: Seq<Coordinate>| !is_route(&g0, p, s, t) by {
                if is_route(&g0, p, s, t) {
                    assert(p[0] == s);
                    assert(p[p.len() - 1] == t);
                }
            }
            assert forall|x: int, y: int| #[trigger]
                grid.in_bounds(x, y) implies grid.tile(x, y).class == if on_interior(
                route_of(Ok(PathResult::NotFound)),
                x,
                y,
            ) {
                TileType::Path
            } else {
                g0.tile(x, y).class
            } by {}
        }
        return Ok(PathResult::NotFound);
    }
    let goal_tile = grid.tiles[ti];
    let st = grid.tiles[si];
    let h0 = get_distance(&st, &goal_tile);
    grid.tiles.set(si, Tile { g_cost: 0, h_cost: h0, parent: Coordinate(st.x, st.y), ..st });
    let mut frontier = Frontier::new(n);
    frontier.push(si);
    let mut closed: Vec<bool> = Vec::new();
    let mut i: usize = 0;
    while i < n
        invariant
            i <= n,
            closed.len() == i,
            forall|j: int| 0 <= j < i ==> !#[trigger] closed@[j],
        decreases n - i,
    {
        closed.push(false);
        i = i + 1;
    }
    let ghost mut closed_set: Set<int> = Set::empty();
    let mut found = false;
    proof {
        assert(frontier@ =~= set![si as int]);
        assert(grid.wf());
        assert(same_layout(&g0, grid));
        assert(links_ok(&g0, grid, closed_set, reach_set(closed_set, frontier@, found, ti as int), si as int, ti as int));
    }
    while !found && !frontier.is_empty()
        invariant
            same_layout(&g0, grid),
            g0.wf(),
            n == grid.cells().len(),
            n <= 100_000_000,
            si < n,
            ti < n,
            position(grid, si as int) == s,
            position(grid, ti as int) == t,
            goal_tile.x == t.0,
            goal_tile.y == t.1,
            frontier.wf(),
            frontier.n() == n,
            closed.len() == n,
            closed_set.finite(),
            forall|j: int| #[trigger] closed_set.contains(j) <==> 0 <= j < n && closed@[j],
            forall|j: int| #[trigger] frontier@.contains(j) ==> 0 <= j < n && !closed_set.contains(j),
            !closed_set.contains(ti as int),
            closed_set.len() == 0 ==> frontier@ == set![si as int] || found,
            closed_set.len() > 0 ==> closed_set.contains(si as int),
            closed_set.len() <= n,
            links_ok(&g0, grid, closed_set, reach_set(closed_set, frontier@, found, ti as int), si as int, ti as int),
            closure(&g0, closed_set, reach_set(closed_set, frontier@, found, ti as int)),
            relaxed(&g0, grid, closed_set, closed_set),
            settled(&g0, grid, closed_set, si as int),
            found && open_cells(&g0) ==> grid.cells()[ti as int].g_cost == cell_distance(&g0, si as int, ti as int),
            optimal(&g0, grid, closed_set, si as int),
            found ==> forall|q: Seq<Coordinate>|
                is_route(&g0, q, s, t) ==> grid.cells()[ti as int].g_cost <= route_cost(q),
        decreases n - closed_set.len() + if found { 0int } else { 1int },
    {
        let ghost before_pop = frontier@;
        let c = frontier.pop_min(grid);
        proof {
            if closed_set.len() == 0 {
                assert(before_pop.contains(c as int));
            }
            assert(position(&g0, si as int) == s && position(&g0, c as int) == position(grid, c as int));
            lemma_pop_optimal(&g0, grid, closed_set, before_pop, si as int, ti as int, c as int);
            if open_cells(&g0) {
                if c != si {
                    if closed_set.len() == 0 {
                        assert(before_pop.contains(c as int));
                    }
                    let u = lemma_frontier_witness(&g0, grid, closed_set, before_pop, si as int, ti as int, si as int, c as int);
                    assert(precedes(grid, c as int, u));
                    let cc = grid.cells();
                    lemma_octile_triangle(
                        cc[u].x as int, cc[u].y as int, cc[c as int].x as int, cc[c as int].y as int,
                        cc[ti as int].x as int, cc[ti as int].y as int,
                    );
                    assert(reach_set(closed_set, before_pop, false, ti as int).contains(u));
                    assert(reach_set(closed_set, before_pop, false, ti as int).contains(c as int));
                    assert(cost_ok_at(&g0, grid, closed_set, si as int, ti as int, u));
                    assert(cost_ok_at(&g0, grid, closed_set, si as int, ti as int, c as int));
                }
                assert(grid.cells()[c as int].g_cost == cell_distance(&g0, si as int, c as int));
            }
        }
        if c == ti {
            found = true;
            proof {
                assert(reach_set(closed_set, frontier@, found, ti as int) =~= reach_set(closed_set, before_pop, false, ti as int));
            }
        } else {
            proof {
                lemma_set_bound(closed_set.insert(c as int), n as int);
            }
            closed.set(c, true);
            let ghost closed_before = closed_set;
            proof {
                assert(reach_set(closed_before, before_pop, false, ti as int).contains(c as int));
                assert(cost_ok_at(&g0, grid, closed_before, si as int, ti as int, c as int));
                closed_set = closed_set.insert(c as int);
                assert(closed_set.len() == closed_before.len() + 1);
                assert forall|i: int| #[trigger] reach_set(closed_set, frontier@, false, ti as int).contains(i)
                    implies cost_ok_at(&g0, grid, closed_set, si as int, ti as int, i) by {
                    assert(reach_set(closed_before, before_pop, false, ti as int).contains(i));
                    assert(cost_ok_at(&g0, grid, closed_before, si as int, ti as int, i));
                }
                assert forall|i: int| #[trigger] reach_set(closed_set, frontier@, false, ti as int).contains(i) && i != si
                    implies link_ok_at(grid, closed_set, i) by {
                    assert(reach_set(closed_before, before_pop, false, ti as int).contains(i));
                    assert(link_ok_at(grid, closed_before, i));
                }
                assert forall|i: int, j: int|
                    #![trigger closed_set.remove(c as int).contains(i), adjacent(&g0, i, j)]
                    closed_set.remove(c as int).contains(i) && 0 <= j < g0.cells().len() && adjacent(&g0, i, j)
                        && g0.cells()[j].class != TileType::Wall
                    implies reach_set(closed_set, frontier@, false, ti as int).contains(j) by {
                    assert(closed_before.contains(i));
                    assert(reach_set(closed_before, before_pop, false, ti as int).contains(j));
                }
                assert forall|p: int, j: int|
                    #![trigger closed_set.remove(c as int).contains(p), adjacent(&g0, p, j)]
                    closed_set.remove(c as int).contains(p) && 0 <= j < g0.cells().len() && adjacent(&g0, p, j)
                        && g0.cells()[j].class != TileType::Wall && !closed_set.contains(j)
                    implies grid.cells()[j].g_cost <= grid.cells()[p].g_cost + cell_distance(&g0, p, j) by {
                    assert(closed_before.contains(p));
                }
                assert(reach_set(closed_set, frontier@, false, ti as int) =~= reach_set(closed_before, before_pop, false, ti as int));
                assert forall|j: int| #[trigger] closed_set.contains(j) <==> 0 <= j < n && closed@[j] by {}
            }
            let cur = grid.tiles[c];
            let nbrs = grid.get_neighbours(cur);
            let ghost g_nb = *grid;
            let mut k: usize = 0;
            while k < nbrs.len()
                invariant
                    same_layout(&g0, grid),
                    g0.wf(),
                    n == grid.cells().len(),
                    n <= 100_000_000,
                    si < n,
                    ti < n,
                    c < n,
                    c != ti,
                    !found,
                    position(grid, si as int) == s,
                    position(grid, ti as int) == t,
                    goal_tile.x == t.0,
                    goal_tile.y == t.1,
                    frontier.wf(),
                    frontier.n() == n,
                    closed.len() == n,
                    closed_set.finite(),
                    forall|j: int| #[trigger] closed_set.contains(j) <==> 0 <= j < n && closed@[j],
                    forall|j: int| #[trigger] frontier@.contains(j) ==> 0 <= j < n && !closed_set.contains(j),
                    !closed_set.contains(ti as int),
                    closed_set.contains(c as int),
                    closed_set.contains(si as int),
                    1 <= closed_set.len() <= n,
                    grid.cells()[c as int] == cur,
                    cur.g_cost <= 14 * (closed_set.len() - 1),
                    links_ok(&g0, grid, closed_set, reach_set(closed_set, frontier@, false, ti as int), si as int, ti as int),
                    closure(&g0, closed_set.remove(c as int), reach_set(closed_set, frontier@, false, ti as int)),
                    relaxed(&g0, grid, closed_set.remove(c as int), closed_set),
                    settled(&g0, grid, closed_set, si as int),
                    optimal(&g0, grid, closed_set, si as int),
                    forall|m: int|
                        0 <= m < k && !g0.is_wall((#[trigger] nbrs@[m]).x as int, nbrs@[m].y as int)
                            && !closed_set.contains(index_of(g0.w(), nbrs@[m].x as int, nbrs@[m].y as int))
                            ==> grid.cells()[index_of(g0.w(), nbrs@[m].x as int, nbrs@[m].y as int)].g_cost
                            <= cur.g_cost + octile_between(cur.x as int, cur.y as int, nbrs@[m].x as int, nbrs@[m].y as int),
                    same_layout(&g0, &g_nb),
                    forall|m: int|
                        0 <= m < nbrs.len() ==> {
                            &&& g0.in_bounds((#[trigger] nbrs@[m]).x as int, nbrs@[m].y as int)
                            &&& is_neighbour(cur.x as int, cur.y as int, nbrs@[m].x as int, nbrs@[m].y as int)
                            &&& nbrs@[m] == g_nb.tile(nbrs@[m].x as int, nbrs@[m].y as int)
                        },
                    forall|nx: int, ny: int|
                        #![trigger is_neighbour(cur.x as int, cur.y as int, nx, ny)]
                        g_nb.in_bounds(nx, ny) && is_neighbour(cur.x as int, cur.y as int, nx, ny)
                            ==> exists|m: int|
                            0 <= m < nbrs.len() && (#[trigger] nbrs@[m]).x == nx && nbrs@[m].y == ny,
                    forall|m: int|
                        0 <= m < k ==> g0.is_wall((#[trigger] nbrs@[m]).x as int, nbrs@[m].y as int)
                            || reach_set(closed_set, frontier@, false, ti as int).contains(
                            index_of(g0.w(), nbrs@[m].x as int, nbrs@[m].y as int),
                        ),
                decreases nbrs.len() - k,
            {
                let nb = nbrs[k];
                let j = grid.index(nb.x as i64, nb.y as i64);
                proof {
                    g0.lemma_tile_position(nb.x as int, nb.y as int);
                }
                if nb.class != TileType::Wall && !closed[j] {
                    let step = get_distance(&cur, &nb);
                    let tentative = cur.g_cost + step;
                    let in_open = frontier.contains(j);
                    let now = grid.tiles[j];
                    if tentative < now.g_cost || !in_open {
                        let h = get_distance(&now, &goal_tile);
                        let ghost reach_before = reach_set(closed_set, frontier@, false, ti as int);
                        let ghost g_before = *grid;
                        grid.tiles.set(
                            j,
                            Tile { g_cost: tentative, h_cost: h, parent: Coordinate(cur.x, cur.y), ..now },
                        );
                        if !in_open {
                            frontier.push(j);
                        }
                        proof {
                            let rs = reach_set(closed_set, frontier@, false, ti as int);
                            assert(rs =~= reach_before.insert(j as int));
                            lemma_coords(grid.w(), grid.h(), c as int);
                            assert(index_of(grid.w(), cur.x as int, cur.y as int) == c);
                            assert(reach_before.contains(c as int));
                            assert(cost_ok_at(&g0, &g_before, closed_set, si as int, ti as int, c as int));
                            lemma_octile_triangle(
                                s.0 as int, s.1 as int, cur.x as int, cur.y as int, nb.x as int, nb.y as int,
                            );
                            assert forall|i: int| #[trigger] rs.contains(i)
                                implies cost_ok_at(&g0, grid, closed_set, si as int, ti as int, i) by {
                                if i != j {
                                    assert(reach_before.contains(i));
                                    assert(cost_ok_at(&g0, &g_before, closed_set, si as int, ti as int, i));
                                }
                            }
                            assert forall|i: int| #[trigger] rs.contains(i) && i != si
                                implies link_ok_at(grid, closed_set, i) by {
                                if i != j {
                                    assert(reach_before.contains(i));
                                    assert(link_ok_at(&g_before, closed_set, i));
                                    let pc = g_before.cells()[i].parent;
                                    let pi = index_of(g_before.w(), pc.0 as int, pc.1 as int);
                                    assert(pi != j);
                                }
                            }
                            assert forall|p: int, jj: int|
                                #![trigger closed_set.remove(c as int).contains(p), adjacent(&g0, p, jj)]
                                closed_set.remove(c as int).contains(p) && 0 <= jj < g0.cells().len() && adjacent(&g0, p, jj)
                                    && g0.cells()[jj].class != TileType::Wall && !closed_set.contains(jj)
                                implies grid.cells()[jj].g_cost <= grid.cells()[p].g_cost + cell_distance(&g0, p, jj) by {
                                if jj == j && !in_open {
                                    assert(reach_before.contains(jj));
                                }
                            }
                            assert forall|m: int|
                                0 <= m < k && !g0.is_wall((#[trigger] nbrs@[m]).x as int, nbrs@[m].y as int)
                                    && !closed_set.contains(index_of(g0.w(), nbrs@[m].x as int, nbrs@[m].y as int))
                                implies grid.cells()[index_of(g0.w(), nbrs@[m].x as int, nbrs@[m].y as int)].g_cost
                                    <= cur.g_cost + octile_between(cur.x as int, cur.y as int, nbrs@[m].x as int, nbrs@[m].y as int) by {
                                g0.lemma_tile_position(nbrs@[m].x as int, nbrs@[m].y as int);
                                if index_of(g0.w(), nbrs@[m].x as int, nbrs@[m].y as int) == j {
                                    assert(nbrs@[m].x == nb.x && nbrs@[m].y == nb.y);
                                }
                            }
                            assert forall|i: int, jj: int|
                                #![trigger closed_set.remove(c as int).contains(i), adjacent(&g0, i, jj)]
                                closed_set.remove(c as int).contains(i) && 0 <= jj < g0.cells().len() && adjacent(&g0, i, jj)
                                    && g0.cells()[jj].class != TileType::Wall
                                implies rs.contains(jj) by {
                                assert(reach_before.contains(jj));
                            }
                        }
                    }
                }
                k = k + 1;
            }
            proof {
                let rs = reach_set(closed_set, frontier@, false, ti as int);
                lemma_coords(grid.w(), grid.h(), c as int);
                assert forall|i: int, j: int|
                    #![trigger closed_set.contains(i), adjacent(&g0, i, j)]
                    closed_set.contains(i) && 0 <= j < g0.cells().len() && adjacent(&g0, i, j)
                        && g0.cells()[j].class != TileType::Wall
                    implies rs.contains(j) by {
                    if i == c {
                        lemma_coords(grid.w(), grid.h(), j);
                        let nx = g0.cells()[j].x as int;
                        let ny = g0.cells()[j].y as int;
                        assert(g_nb.in_bounds(nx, ny));
                        assert(is_neighbour(cur.x as int, cur.y as int, nx, ny));
                        let m = choose|m: int| 0 <= m < nbrs.len() && (#[trigger] nbrs@[m]).x == nx && nbrs@[m].y == ny;
                        assert(index_of(g0.w(), nx, ny) == j);
                        assert(g0.is_wall(nbrs@[m].x as int, nbrs@[m].y as int) || rs.contains(index_of(g0.w(), nbrs@[m].x as int, nbrs@[m].y as int)));
                    } else {
                        assert(closed_set.remove(c as int).contains(i));
                    }
                }
                assert forall|p: int, j: int|
                    #![trigger closed_set.contains(p), adjacent(&g0, p, j)]
                    closed_set.contains(p) && 0 <= j < g0.cells().len() && adjacent(&g0, p, j)
                        && g0.cells()[j].class != TileType::Wall && !closed_set.contains(j)
                    implies grid.cells()[j].g_cost <= grid.cells()[p].g_cost + cell_distance(&g0, p, j) by {
                    if p == c {
                        lemma_coords(grid.w(), grid.h(), j);
                        let nx = g0.cells()[j].x as int;
                        let ny = g0.cells()[j].y as int;
                        assert(g_nb.in_bounds(nx, ny));
                        assert(is_neighbour(cur.x as int, cur.y as int, nx, ny));
                        let m = choose|m: int| 0 <= m < nbrs.len() && (#[trigger] nbrs@[m]).x == nx && nbrs@[m].y == ny;
                        assert(index_of(g0.w(), nx, ny) == j);
                        g0.lemma_tile_position(nx, ny);
                    } else {
                        assert(closed_set.remove(c as int).contains(p));
                    }
                }
            }
        }
    }
    if found {
        let ghost reached = reach_set(closed_set, frontier@, found, ti as int);
        let path = retrace(grid, Ghost(g0), Ghost(closed_set), Ghost(reached), si, ti);
        let ghost g_pre = *grid;
        proof {
            assert forall|k: int| 0 <= k < path.len() implies in_grid(grid, #[trigger] path@[k]) by {
                assert(g0.in_bounds(path@[k].0 as int, path@[k].1 as int));
            }
        }
        mark_path(grid, &path);
        proof {
            assert(is_route(&g0, path@, s, t));
            assert(reachable(&g0, s, t));
            assert(grid.cells()[ti as int].g_cost == g_pre.cells()[ti as int].g_cost);
            assert forall|k: int| 0 <= k < path.len() implies grid.tile((#[trigger] path@[k]).0 as int, path@[k].1 as int).g_cost
                == route_cost(path@.subrange(0, k + 1)) by {
                g_pre.lemma_tile_position(path@[k].0 as int, path@[k].1 as int);
            }
            assert forall|x: int, y: int| #[trigger]
                grid.in_bounds(x, y) implies grid.tile(x, y).class == if on_interior(
                route_of(Ok(PathResult::Found(path))),
                x,
                y,
            ) {
                TileType::Path
            } else {
                g0.tile(x, y).class
            } by {
                g_pre.lemma_tile_position(x, y);
                let i = index_of(g_pre.w(), x, y);
                assert(g_pre.cells()[i].class == g0.cells()[i].class);
            }
        }
        Ok(PathResult::Found(path))
    } else {
        proof {
            let rs = reach_set(closed_set, frontier@, false, ti as int);
            assert(frontier@ == Set::<int>::empty());
            assert(rs =~= closed_set);
            if closed_set.len() == 0 {
                assert(frontier@.contains(si as int));
            }
            assert(closed_set.contains(si as int));
            if open_cells(&g0) {
                lemma_greedy_reaches(&g0, closed_set, si as int, ti as int);
            }
            assert forall|p: Seq<Coordinate>| !is_route(&g0, p, s, t) by {
                if is_route(&g0, p, s, t) {
                    assert(p[0] == s);
                    assert(p[p.len() - 1] == t);
                    lemma_walk_stays(&g0, closed_set, p, p.len() - 1);
                }
            }
            assert forall|x: int, y: int| #[trigger]
                grid.in_bounds(x, y) implies grid.tile(x, y).class == if on_interior(
                route_of(Ok(PathResult::NotFound)),
                x,
                y,
            ) {
                TileType::Path
            } else {
                g0.tile(x, y).class
            } by {
                grid.lemma_tile_position(x, y);
            }
        }
        Ok(PathResult::NotFound)
    }
}


/// The cell one greedy step from cell `pi` toward cell `vi`: its index, a
/// neighbour of `pi` inside the grid, and closer to `vi` by exactly the step.
proof fn lemma_greedy_step(g0: &Grid, pi: int, vi: int) -> (qi: int)
    requires
        g0.wf(),
        0 <= pi < g0.cells().len(),
        0 <= vi < g0.cells().len(),
        pi != vi,
    ensures
        0 <= qi < g0.cells().len(),
        adjacent(g0, pi, qi),
        cell_distance(g0, pi, qi) + cell_distance(g0, qi, vi) == cell_distance(g0, pi, vi),
        cell_distance(g0, qi, vi) < cell_distance(g0, pi, vi),
{
    lemma_coords(g0.w(), g0.h(), pi);
    lemma_coords(g0.w(), g0.h(), vi);
    let px = g0.cells()[pi].x as int;
    let py = g0.cells()[pi].y as int;
    let vx = g0.cells()[vi].x as int;
    let vy = g0.cells()[vi].y as int;
    assert(!(px == vx && py == vy));
    let qx = px + sgn(vx - px);
    let qy = py + sgn(vy - py);
    lemma_octile_step(px, py, vx, vy);
    assert(g0.in_bounds(qx, qy));
    g0.lemma_tile_position(qx, qy);
    index_of(g0.w(), qx, qy)
}

/// From an expanded cell `pi` on a shortest line from `si` to an
/// unexpanded cell `vi`, walking toward `vi` over expanded cells leads to a
/// frontier cell `u` whose g cost plus its distance to `vi` is at most the
/// distance from `si` to `vi`.
proof fn lemma_frontier_witness(
    g0: &Grid,
    g: &Grid,
    closed: Set<int>,
    open: Set<int>,
    si: int,
    ti: int,
    pi: int,
    vi: int,
) -> (u: int)
    requires
        same_layout(g0, g),
        g0.wf(),
        open_cells(g0),
        0 <= si < g0.cells().len(),
        0 <= vi < g0.cells().len(),
        closed.contains(pi),
        !closed.contains(vi),
        forall|i: int| #[trigger] closed.contains(i) ==> 0 <= i < g0.cells().len(),
        closure(g0, closed, reach_set(closed, open, false, ti)),
        relaxed(g0, g, closed, closed),
        settled(g0, g, closed, si),
        cell_distance(g0, si, pi) + cell_distance(g0, pi, vi) == cell_distance(g0, si, vi),
    ensures
        open.contains(u),
        g.cells()[u].g_cost + cell_distance(g0, u, vi) <= cell_distance(g0, si, vi),
    decreases cell_distance(g0, pi, vi),
{
    let qi = lemma_greedy_step(g0, pi, vi);
    let c = g0.cells();
    lemma_octile_triangle(
        c[si].x as int, c[si].y as int, c[pi].x as int, c[pi].y as int, c[qi].x as int, c[qi].y as int,
    );
    lemma_octile_triangle(
        c[si].x as int, c[si].y as int, c[qi].x as int, c[qi].y as int, c[vi].x as int, c[vi].y as int,
    );
    assert(c[qi].class != TileType::Wall);
    assert(closed.contains(pi) && adjacent(g0, pi, qi));
    if closed.contains(qi) {
        lemma_frontier_witness(g0, g, closed, open, si, ti, qi, vi)
    } else {
        assert(reach_set(closed, open, false, ti).contains(qi));
        qi
    }
}

/// On a grid without walls, a set of cells closed under stepping to
/// neighbours holds every cell once it holds one.
proof fn lemma_greedy_reaches(g0: &Grid, closed: Set<int>, pi: int, vi: int)
    requires
        g0.wf(),
        open_cells(g0),
        closed.contains(pi),
        0 <= pi < g0.cells().len(),
        0 <= vi < g0.cells().len(),
        closure(g0, closed, closed),
    ensures
        closed.contains(vi),
    decreases cell_distance(g0, pi, vi),
{
    if pi != vi {
        let qi = lemma_greedy_step(g0, pi, vi);
        assert(g0.cells()[qi].class != TileType::Wall);
        assert(closed.contains(pi) && adjacent(g0, pi, qi));
        lemma_greedy_reaches(g0, closed, qi, vi);
    }
}


/// Every expanded cell holds a g cost no higher than the cost of any
/// route of `g0` from `si` to it.
pub open spec fn optimal(g0: &Grid, g: &Grid, closed: Set<int>, si: int) -> bool {
    forall|i: int, q: Seq<Coordinate>|
        #![trigger closed.contains(i), is_route(g0, q, position(g0, si), position(g0, i))]
        closed.contains(i) && is_route(g0, q, position(g0, si), position(g0, i))
            ==> g.cells()[i].g_cost <= route_cost(q)
}

/// Walking a route `q` from `si` to the unexpanded cell `vi` from its
/// expanded `k`-th position leads to a frontier cell `u` whose g cost plus
/// its distance to `vi` is at most the cost of `q`.
proof fn lemma_route_witness(
    g0: &Grid,
    g: &Grid,
    closed: Set<int>,
    open: Set<int>,
    si: int,
    ti: int,
    vi: int,
    q: Seq<Coordinate>,
    k: int,
) -> (u: int)
    requires
        same_layout(g0, g),
        g0.wf(),
        0 <= si < g0.cells().len(),
        0 <= vi < g0.cells().len(),
        !closed.contains(vi),
        closure(g0, closed, reach_set(closed, open, false, ti)),
        relaxed(g0, g, closed, closed),
        optimal(g0, g, closed, si),
        is_route(g0, q, position(g0, si), position(g0, vi)),
        0 <= k < q.len(),
        closed.contains(index_of(g0.w(), q[k].0 as int, q[k].1 as int)),
        g.cells()[index_of(g0.w(), q[k].0 as int, q[k].1 as int)].g_cost <= route_cost(
            q.subrange(0, k + 1),
        ),
    ensures
        open.contains(u),
        g.cells()[u].g_cost + cell_distance(g0, u, vi) <= route_cost(q),
    decreases q.len() - k,
{
    let a = q[k];
    assert(g0.in_bounds(a.0 as int, a.1 as int));
    g0.lemma_tile_position(a.0 as int, a.1 as int);
    let pi = index_of(g0.w(), a.0 as int, a.1 as int);
    lemma_coords(g0.w(), g0.h(), vi);
    if k == q.len() - 1 {
        assert(q.last() == position(g0, vi));
        assert(pi == vi);
    }
    let b = q[k + 1];
    assert(g0.in_bounds(b.0 as int, b.1 as int) && !g0.is_wall(b.0 as int, b.1 as int));
    assert(is_neighbour(a.0 as int, a.1 as int, b.0 as int, b.1 as int));
    g0.lemma_tile_position(b.0 as int, b.1 as int);
    let j = index_of(g0.w(), b.0 as int, b.1 as int);
    assert(adjacent(g0, pi, j));
    let pre = q.subrange(0, k + 1);
    assert(q.subrange(0, k + 2) =~= pre.push(b));
    lemma_route_cost_push(pre, b);
    assert(pre.last() == a);
    if closed.contains(j) {
        lemma_walk_prefix(g0, q, k + 1);
        assert(position(g0, j) == b);
        assert(is_route(g0, q.subrange(0, k + 2), position(g0, si), position(g0, j)));
        lemma_route_witness(g0, g, closed, open, si, ti, vi, q, k + 1)
    } else {
        assert(reach_set(closed, open, false, ti).contains(j));
        lemma_route_cost_split(q, k + 1);
        let rest = q.subrange(k + 1, q.len() as int);
        lemma_route_cost_at_least_octile(rest);
        assert(rest[0] == b && rest.last() == q.last());
        j
    }
}

/// The cell taken out of the frontier first holds a g cost no higher than
/// the cost of any route to it.
proof fn lemma_pop_optimal(
    g0: &Grid,
    g: &Grid,
    closed: Set<int>,
    open: Set<int>,
    si: int,
    ti: int,
    c: int,
)
    requires
        same_layout(g0, g),
        g0.wf(),
        0 <= si < g0.cells().len(),
        0 <= ti < g0.cells().len(),
        open.contains(c),
        !closed.contains(c),
        closed.len() == 0 ==> c == si,
        closed.len() > 0 ==> closed.contains(si),
        forall|u: int| #[trigger] open.contains(u) ==> precedes(g, c, u),
        links_ok(g0, g, closed, reach_set(closed, open, false, ti), si, ti),
        closure(g0, closed, reach_set(closed, open, false, ti)),
        relaxed(g0, g, closed, closed),
        optimal(g0, g, closed, si),
    ensures
        forall|q: Seq<Coordinate>|
            is_route(g0, q, position(g0, si), position(g0, c)) ==> g.cells()[c].g_cost <= route_cost(q),
{
    assert forall|q: Seq<Coordinate>|
        is_route(g0, q, position(g0, si), position(g0, c)) implies g.cells()[c].g_cost <= route_cost(q) by {
        lemma_route_cost_at_least_octile(q);
        if c != si {
            lemma_coords(g0.w(), g0.h(), si);
            assert(index_of(g0.w(), q[0].0 as int, q[0].1 as int) == si);
            assert(route_cost(q.subrange(0, 1)) == 0);
            assert(reach_set(closed, open, false, ti).contains(c));
            assert(reach_set(closed, open, false, ti).contains(si));
            let u = lemma_route_witness(g0, g, closed, open, si, ti, c, q, 0);
            assert(precedes(g, c, u));
            let cc = g.cells();
            lemma_octile_triangle(
                cc[u].x as int, cc[u].y as int, cc[c].x as int, cc[c].y as int,
                cc[ti].x as int, cc[ti].y as int,
            );
            assert(reach_set(closed, open, false, ti).contains(u));
            assert(cost_ok_at(g0, g, closed, si, ti, u));
            assert(cost_ok_at(g0, g, closed, si, ti, c));
        }
    }
}

} // verus!
