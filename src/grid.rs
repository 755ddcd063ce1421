use vstd::arithmetic::div_mod::{lemma_fundamental_div_mod, lemma_fundamental_div_mod_converse};
use vstd::prelude::*;

use crate::tile::{abs, class_of, Coordinate, Tile, TileType};

verus! {

/// Largest supported grid side; keeps every path cost within `i32`.
pub const MAX_SIDE: usize = 10000;

/// Side of the grid that `Grid::new` builds.
pub const DEFAULT_SIDE: usize = 10;

/// Failures reported by grid lookups and by the search.
#[derive(Clone, Copy, Debug, PartialEq, Eq, Structural)]
pub enum SearchError {
    /// The grid lacks an in-bounds start or goal, or a map is empty or
    /// too large.
    InvalidInput,
    /// A coordinate lies outside the grid.
    OutOfBounds,
}

/// `(bx, by)` is one of the eight cells around `(ax, ay)`.
pub open spec fn is_neighbour(ax: int, ay: int, bx: int, by: int) -> bool {
    abs(ax - bx) <= 1 && abs(ay - by) <= 1 && !(ax == bx && ay == by)
}

/// The `k`-th of the eight neighbour offsets, column offset first, in the
/// order in which neighbours are listed: columns left to right, and within
/// a column rows top to bottom.
pub open spec fn offset(k: int) -> (int, int) {
    if k < 3 {
        (-1, k - 1)
    } else if k == 3 {
        (0, -1)
    } else if k == 4 {
        (0, 1)
    } else {
        (1, k - 6)
    }
}

/// Position of the offset `(dx, dy)` in the listing order.
pub open spec fn offset_rank(dx: int, dy: int) -> int {
    if dx == -1 {
        dy + 1
    } else if dx == 0 {
        if dy == -1 { 3 } else { 4 }
    } else {
        dy + 6
    }
}

/// Index of `(x, y)` in a row-major layout of rows of length `w`.
pub open spec fn index_of(w: int, x: int, y: int) -> int {
    y * w + x
}

pub proof fn lemma_index(w: int, h: int, x: int, y: int)
    requires
        1 <= w,
        0 <= x < w,
        0 <= y < h,
    ensures
        0 <= index_of(w, x, y) < w * h,
        index_of(w, x, y) % w == x,
        index_of(w, x, y) / w == y,
{
    lemma_fundamental_div_mod_converse(y * w + x, w, y, x);
    assert(0 <= y * w + x < w * h) by (nonlinear_arith)
        requires
            1 <= w,
            0 <= x < w,
            0 <= y < h,
    ;
}

pub proof fn lemma_coords(w: int, h: int, i: int)
    requires
        1 <= w,
        0 <= i < w * h,
    ensures
        0 <= i % w < w,
        0 <= i / w < h,
        i == index_of(w, i % w, i / w),
{
    lemma_fundamental_div_mod(i, w);
    let q = i / w;
    let r = i % w;
    assert(0 <= r < w);
    assert(0 <= q < h) by (nonlinear_arith)
        requires
            1 <= w,
            0 <= i < w * h,
            i == w * q + r,
            0 <= r < w,
    ;
    assert(i == q * w + r) by (nonlinear_arith)
        requires
            i == w * q + r,
    ;
}

/// Length of the longest of the first `k` rows.
pub open spec fn max_len(rows: Seq<Vec<char>>, k: int) -> int
    decreases k,
{
    if k <= 0 {
        0
    } else {
        let m = max_len(rows, k - 1);
        if rows[k - 1].len() > m {
            rows[k - 1].len() as int
        } else {
            m
        }
    }
}

/// The class of position `(x, y)` of a map given as rows of characters;
/// positions past the end of a short row are normal ground.
pub open spec fn cell_class(rows: Seq<Vec<char>>, x: int, y: int) -> TileType {
    if x < rows[y].len() {
        class_of(rows[y]@[x])
    } else {
        TileType::Normal
    }
}

/// Character `ch` stands at `(x, y)` of the map.
pub open spec fn marker_at(rows: Seq<Vec<char>>, x: int, y: int, ch: char) -> bool {
    0 <= y < rows.len() && 0 <= x < rows[y].len() && rows[y]@[x] == ch
}

/// `(x, y)` comes before `(cx, cy)` in row-major order.
pub open spec fn before(x: int, y: int, cx: int, cy: int) -> bool {
    y < cy || (y == cy && x < cx)
}

/// `m` is the position of the last `ch` of the map strictly before
/// `(cx, cy)` in row-major order, or `None` when there is none.
pub open spec fn last_marker(
    rows: Seq<Vec<char>>,
    ch: char,
    cx: int,
    cy: int,
    m: Option<Coordinate>,
) -> bool {
    match m {
        None => forall|x: int, y: int| #[trigger]
            marker_at(rows, x, y, ch) ==> !before(x, y, cx, cy),
        Some(c) => {
            &&& marker_at(rows, c.0 as int, c.1 as int, ch)
            &&& before(c.0 as int, c.1 as int, cx, cy)
            &&& forall|x: int, y: int| #[trigger]
                marker_at(rows, x, y, ch) && before(x, y, cx, cy) ==> !before(
                    c.0 as int,
                    c.1 as int,
                    x,
                    y,
                )
        },
    }
}

/// Every one of the first `k` rows is no longer than `max_len(rows, k)`.
pub proof fn lemma_max_len(rows: Seq<Vec<char>>, k: int, y: int)
    requires
        0 <= y < k <= rows.len(),
    ensures
        rows[y].len() <= max_len(rows, k),
    decreases k,
{
    if y < k - 1 {
        lemma_max_len(rows, k - 1, y);
    }
}

/// A rectangular grid of cells stored row by row, with an optional start
/// and goal position.
#[derive(Clone, Debug)]
pub struct Grid {
    pub(crate) width: usize,
    pub(crate) height: usize,
    pub(crate) tiles: Vec<Tile>,
    pub(crate) start_tile: Option<Coordinate>,
    pub(crate) end_tile: Option<Coordinate>,
}

impl Grid {
    pub open(crate) spec fn w(&self) -> int {
        self.width as int
    }

    pub open(crate) spec fn h(&self) -> int {
        self.height as int
    }

    /// The cells, row by row.
    pub open(crate) spec fn cells(&self) -> Seq<Tile> {
        self.tiles@
    }

    pub open(crate) spec fn start(&self) -> Option<Coordinate> {
        self.start_tile
    }

    pub open(crate) spec fn goal(&self) -> Option<Coordinate> {
        self.end_tile
    }

    /// Number of cells.
    pub open spec fn size(&self) -> int {
        self.w() * self.h()
    }

    pub open spec fn in_bounds(&self, x: int, y: int) -> bool {
        0 <= x < self.w() && 0 <= y < self.h()
    }

    /// The cell stored at `(x, y)`.
    pub open spec fn tile(&self, x: int, y: int) -> Tile {
        self.cells()[index_of(self.w(), x, y)]
    }

    pub open spec fn is_wall(&self, x: int, y: int) -> bool {
        self.tile(x, y).class == TileType::Wall
    }

    /// Dimensions within limits, one cell per position, and each cell
    /// carrying its own position.
    pub open(crate) spec fn wf(&self) -> bool {
        &&& 1 <= self.width <= MAX_SIDE
        &&& 1 <= self.height <= MAX_SIDE
        &&& self.tiles.len() == self.width * self.height
        &&& forall|i: int|
            0 <= i < self.tiles.len() ==> (#[trigger] self.tiles@[i]).x == i % (self.width as int)
                && self.tiles@[i].y == i / (self.width as int)
    }

    /// The neighbours of `(x, y)` inside the grid among the first `k`
    /// offsets, in listing order.
    pub open spec fn neighbours_upto(&self, x: int, y: int, k: int) -> Seq<Tile>
        decreases k,
    {
        if k <= 0 {
            Seq::empty()
        } else {
            let prev = self.neighbours_upto(x, y, k - 1);
            let (dx, dy) = offset(k - 1);
            if self.in_bounds(x + dx, y + dy) {
                prev.push(self.tile(x + dx, y + dy))
            } else {
                prev
            }
        }
    }

    pub proof fn lemma_tile_position(&self, x: int, y: int)
        requires
            self.wf(),
            self.in_bounds(x, y),
        ensures
            0 <= index_of(self.w(), x, y) < self.size(),
            self.tile(x, y).x == x,
            self.tile(x, y).y == y,
    {
        lemma_index(self.w(), self.h(), x, y);
        assert(self.tiles@[index_of(self.w(), x, y)].x == x);
    }

    /// A `DEFAULT_SIDE` by `DEFAULT_SIDE` grid of normal cells with no start
    /// and no goal.
    pub fn new() -> (r: Grid)
        ensures
            r.wf(),
            r.w() == DEFAULT_SIDE,
            r.h() == DEFAULT_SIDE,
            r.start().is_none(),
            r.goal().is_none(),
            forall|x: int, y: int| #[trigger]
                r.in_bounds(x, y) ==> r.tile(x, y) == Tile::at_spec(x as i32, y as i32, TileType::Normal),
    {
        Grid::with_size(DEFAULT_SIDE, DEFAULT_SIDE)
    }

    /// A `width` by `height` grid of normal cells with no start and no goal.
    pub fn with_size(width: usize, height: usize) -> (r: Grid)
        requires
            1 <= width <= MAX_SIDE,
            1 <= height <= MAX_SIDE,
        ensures
            r.wf(),
            r.w() == width,
            r.h() == height,
            r.start().is_none(),
            r.goal().is_none(),
            forall|x: int, y: int| #[trigger]
                r.in_bounds(x, y) ==> r.tile(x, y) == Tile::at_spec(x as i32, y as i32, TileType::Normal),
    {
        assert(width * height <= MAX_SIDE * MAX_SIDE) by (nonlinear_arith)
            requires
                1 <= width <= MAX_SIDE,
                1 <= height <= MAX_SIDE,
        ;
        let n: usize = width * height;
        let mut tiles: Vec<Tile> = Vec::new();
        let mut i: usize = 0;
        while i < n
            invariant
                n == width * height,
                1 <= width <= MAX_SIDE,
                1 <= height <= MAX_SIDE,
                i <= n,
                tiles.len() == i,
                forall|j: int|
                    0 <= j < i ==> #[trigger] tiles@[j] == Tile::at_spec(
                        (j % (width as int)) as i32,
                        (j / (width as int)) as i32,
                        TileType::Normal,
                    ),
            decreases n - i,
        {
            proof {
                lemma_coords(width as int, height as int, i as int);
            }
            let t = Tile::at((i % width) as i32, (i / width) as i32, TileType::Normal);
            tiles.push(t);
            i = i + 1;
        }
        let r = Grid { width, height, tiles, start_tile: None, end_tile: None };
        assert forall|j: int| 0 <= j < r.tiles.len() implies (#[trigger] r.tiles@[j]).x == j % (
        width as int) && r.tiles@[j].y == j / (width as int) by {
            lemma_coords(width as int, height as int, j);
        }
        assert forall|x: int, y: int| #[trigger]
            r.in_bounds(x, y) implies r.tile(x, y) == Tile::at_spec(x as i32, y as i32, TileType::Normal) by {
            lemma_index(width as int, height as int, x, y);
        }
        r
    }

    /// A grid read from a map: row `y` of the map is `rows[y]`, column `x`
    /// its `x`-th character. The width is that of the longest row. The start
    /// and the goal are the last `A` and the last `B` in reading order.
    /// `InvalidInput` when the map is empty or a side exceeds `MAX_SIDE`.
    pub fn from_rows(rows: &Vec<Vec<char>>) -> (r: Result<Grid, SearchError>)
        ensures
            ({
                let w = max_len(rows@, rows.len() as int);
                let h = rows.len() as int;
                &&& (w < 1 || w > MAX_SIDE || h < 1 || h > MAX_SIDE) ==> r == Err::<Grid, SearchError>(
                    SearchError::InvalidInput,
                )
                &&& !(w < 1 || w > MAX_SIDE || h < 1 || h > MAX_SIDE) ==> (r matches Ok(g) && {
                    &&& g.wf()
                    &&& g.w() == w
                    &&& g.h() == h
                    &&& forall|x: int, y: int| #[trigger]
                        g.in_bounds(x, y) ==> g.tile(x, y) == Tile::at_spec(
                            x as i32,
                            y as i32,
                            cell_class(rows@, x, y),
                        )
                    &&& last_marker(rows@, 'A', 0, h, g.start())
                    &&& last_marker(rows@, 'B', 0, h, g.goal())
                })
            }),
    {
        let h = rows.len();
        let mut w: usize = 0;
        let mut k: usize = 0;
        while k < h
            invariant
                h == rows.len(),
                k <= h,
                w == max_len(rows@, k as int),
            decreases h - k,
        {
            if rows[k].len() > w {
                w = rows[k].len();
            }
            k = k + 1;
        }
        if w < 1 || w > MAX_SIDE || h < 1 || h > MAX_SIDE {
            return Err(SearchError::InvalidInput);
        }
        let mut g = Grid::with_size(w, h);
        let mut y: usize = 0;
        while y < h
            invariant
                h == rows.len(),
                w == max_len(rows@, h as int),
                1 <= w <= MAX_SIDE,
                1 <= h <= MAX_SIDE,
                y <= h,
                g.wf(),
                g.w() == w,
                g.h() == h,
                forall|x: int, yy: int| #[trigger]
                    g.in_bounds(x, yy) ==> g.tile(x, yy) == Tile::at_spec(
                        x as i32,
                        yy as i32,
                        if before(x, yy, 0, y as int) {
                            cell_class(rows@, x, yy)
                        } else {
                            TileType::Normal
                        },
                    ),
                last_marker(rows@, 'A', 0, y as int, g.start()),
                last_marker(rows@, 'B', 0, y as int, g.goal()),
            decreases h - y,
        {
            let row = &rows[y];
            let len = row.len();
            proof {
                lemma_max_len(rows@, h as int, y as int);
            }
            let mut x: usize = 0;
            while x < len
                invariant
                    h == rows.len(),
                    row == rows@[y as int],
                    len == row.len(),
                    len <= w,
                    y < h,
                    1 <= w <= MAX_SIDE,
                    1 <= h <= MAX_SIDE,
                    x <= len,
                    g.wf(),
                    g.w() == w,
                    g.h() == h,
                    forall|xx: int, yy: int| #[trigger]
                        g.in_bounds(xx, yy) ==> g.tile(xx, yy) == Tile::at_spec(
                            xx as i32,
                            yy as i32,
                            if before(xx, yy, x as int, y as int) {
                                cell_class(rows@, xx, yy)
                            } else {
                                TileType::Normal
                            },
                        ),
                    last_marker(rows@, 'A', x as int, y as int, g.start()),
                    last_marker(rows@, 'B', x as int, y as int, g.goal()),
                decreases len - x,
            {
                let ch = row[x];
                let class = TileType::from_char(ch);
                let i = g.index(x as i64, y as i64);
                let ghost g_old = g;
                g.set_class(i, class);
                if ch == 'A' {
                    g.start_tile = Some(Coordinate(x as i32, y as i32));
                } else if ch == 'B' {
                    g.end_tile = Some(Coordinate(x as i32, y as i32));
                }
                proof {
                    assert forall|xx: int, yy: int| #[trigger]
                        g.in_bounds(xx, yy) implies g.tile(xx, yy) == Tile::at_spec(
                            xx as i32,
                            yy as i32,
                            if before(xx, yy, x + 1, y as int) {
                                cell_class(rows@, xx, yy)
                            } else {
                                TileType::Normal
                            },
                        ) by {
                        lemma_index(w as int, h as int, xx, yy);
                        lemma_index(w as int, h as int, x as int, y as int);
                        assert(g_old.in_bounds(xx, yy));
                        if xx == x && yy == y {
                            assert(index_of(w as int, xx, yy) == i);
                            assert(g_old.tile(xx, yy) == Tile::at_spec(xx as i32, yy as i32, TileType::Normal));
                            assert(cell_class(rows@, xx, yy) == class);
                        } else {
                            assert(index_of(w as int, xx, yy) != i);
                            assert(g.tile(xx, yy) == g_old.tile(xx, yy));
                        }
                    }
                    assert(marker_at(rows@, x as int, y as int, ch));
                }
                x = x + 1;
            }
            proof {
                assert forall|xx: int, yy: int| #[trigger]
                    g.in_bounds(xx, yy) implies g.tile(xx, yy) == Tile::at_spec(
                        xx as i32,
                        yy as i32,
                        if before(xx, yy, 0, y + 1) {
                            cell_class(rows@, xx, yy)
                        } else {
                            TileType::Normal
                        },
                    ) by {
                    assert(before(xx, yy, x as int, y as int) || yy > y || xx >= len);
                }
                assert forall|xx: int, yy: int| #[trigger] marker_at(rows@, xx, yy, 'A') implies before(xx, yy, 0, y + 1)
                    == before(xx, yy, x as int, y as int) by {}
                assert forall|xx: int, yy: int| #[trigger] marker_at(rows@, xx, yy, 'B') implies before(xx, yy, 0, y + 1)
                    == before(xx, yy, x as int, y as int) by {}
            }
            y = y + 1;
        }
        proof {
            assert forall|x: int, yy: int| #[trigger]
                g.in_bounds(x, yy) implies g.tile(x, yy) == Tile::at_spec(
                    x as i32,
                    yy as i32,
                    cell_class(rows@, x, yy),
                ) by {
                assert(before(x, yy, 0, h as int));
            }
        }
        Ok(g)
    }

    pub fn width(&self) -> (r: usize)
        ensures
            r == self.w(),
    {
        self.width
    }

    pub fn height(&self) -> (r: usize)
        ensures
            r == self.h(),
    {
        self.height
    }

    /// Position of the start marker, if any.
    pub fn start_tile(&self) -> (r: Option<Coordinate>)
        ensures
            r == self.start(),
    {
        self.start_tile
    }

    /// Position of the goal marker, if any.
    pub fn end_tile(&self) -> (r: Option<Coordinate>)
        ensures
            r == self.goal(),
    {
        self.end_tile
    }
    /// Position in `tiles` of the in-bounds point `(x, y)`.
    pub(crate) fn index(&self, x: i64, y: i64) -> (r: usize)
        requires
            self.wf(),
            self.in_bounds(x as int, y as int),
        ensures
            r == index_of(self.w(), x as int, y as int),
            r < self.tiles.len(),
            self.tiles@[r as int].x == x,
            self.tiles@[r as int].y == y,
    {
        proof {
            self.lemma_tile_position(x as int, y as int);
        }
        (y as usize) * self.width + (x as usize)
    }

    /// The cell at `(x, y)`, or `OutOfBounds`.
    pub fn cell_at(&self, x: i32, y: i32) -> (r: Result<Tile, SearchError>)
        requires
            self.wf(),
        ensures
            self.in_bounds(x as int, y as int) ==> r == Ok::<Tile, SearchError>(
                self.tile(x as int, y as int),
            ),
            !self.in_bounds(x as int, y as int) ==> r == Err::<Tile, SearchError>(
                SearchError::OutOfBounds,
            ),
    {
        if x < 0 || y < 0 || x as i64 >= self.width as i64 || y as i64 >= self.height as i64 {
            return Err(SearchError::OutOfBounds);
        }
        let i = self.index(x as i64, y as i64);
        Ok(self.tiles[i])
    }

    /// Replaces the state of the cell at `(x, y)` by `tile`, whose own
    /// position is ignored; `OutOfBounds` leaves the grid as it was.
    pub fn set_cell(&mut self, x: i32, y: i32, tile: Tile) -> (r: Result<(), SearchError>)
        requires
            old(self).wf(),
        ensures
            final(self).wf(),
            final(self).w() == old(self).w(),
            final(self).h() == old(self).h(),
            final(self).start() == old(self).start(),
            final(self).goal() == old(self).goal(),
            old(self).in_bounds(x as int, y as int) ==> {
                &&& r is Ok
                &&& final(self).cells() == old(self).cells().update(
                    index_of(old(self).w(), x as int, y as int),
                    (Tile { x, y, ..tile }),
                )
            },
            !old(self).in_bounds(x as int, y as int) ==> {
                &&& r == Err::<(), SearchError>(SearchError::OutOfBounds)
                &&& *final(self) == *old(self)
            },
    {
        if x < 0 || y < 0 || x as i64 >= self.width as i64 || y as i64 >= self.height as i64 {
            return Err(SearchError::OutOfBounds);
        }
        let i = self.index(x as i64, y as i64);
        self.tiles.set(i, Tile { x, y, ..tile });
        Ok(())
    }

    /// Changes the class of the cell stored at `i`.
    pub(crate) fn set_class(&mut self, i: usize, class: TileType)
        requires
            old(self).wf(),
            i < old(self).tiles.len(),
        ensures
            final(self).wf(),
            final(self).width == old(self).width,
            final(self).height == old(self).height,
            final(self).start_tile == old(self).start_tile,
            final(self).end_tile == old(self).end_tile,
            final(self).tiles@ == old(self).tiles@.update(
                i as int,
                (Tile { class, ..old(self).tiles@[i as int] }),
            ),
    {
        let t = self.tiles[i];
        self.tiles.set(i, Tile { class, ..t });
    }

    /// Places the start marker at `(x, y)`, whose cell becomes a `Start`
    /// cell; `OutOfBounds` leaves the grid as it was.
    pub fn set_start(&mut self, x: i32, y: i32) -> (r: Result<(), SearchError>)
        requires
            old(self).wf(),
        ensures
            final(self).wf(),
            final(self).w() == old(self).w(),
            final(self).h() == old(self).h(),
            final(self).goal() == old(self).goal(),
            old(self).in_bounds(x as int, y as int) ==> {
                &&& r is Ok
                &&& final(self).start() == Some(Coordinate(x, y))
                &&& final(self).cells() == old(self).cells().update(
                    index_of(old(self).w(), x as int, y as int),
                    (Tile { class: TileType::Start, ..old(self).tile(x as int, y as int) }),
                )
            },
            !old(self).in_bounds(x as int, y as int) ==> {
                &&& r == Err::<(), SearchError>(SearchError::OutOfBounds)
                &&& *final(self) == *old(self)
            },
    {
        if x < 0 || y < 0 || x as i64 >= self.width as i64 || y as i64 >= self.height as i64 {
            return Err(SearchError::OutOfBounds);
        }
        let i = self.index(x as i64, y as i64);
        self.set_class(i, TileType::Start);
        self.start_tile = Some(Coordinate(x, y));
        Ok(())
    }

    /// Places the goal marker at `(x, y)`, whose cell becomes an `End`
    /// cell; `OutOfBounds` leaves the grid as it was.
    pub fn set_goal(&mut self, x: i32, y: i32) -> (r: Result<(), SearchError>)
        requires
            old(self).wf(),
        ensures
            final(self).wf(),
            final(self).w() == old(self).w(),
            final(self).h() == old(self).h(),
            final(self).start() == old(self).start(),
            old(self).in_bounds(x as int, y as int) ==> {
                &&& r is Ok
                &&& final(self).goal() == Some(Coordinate(x, y))
                &&& final(self).cells() == old(self).cells().update(
                    index_of(old(self).w(), x as int, y as int),
                    (Tile { class: TileType::End, ..old(self).tile(x as int, y as int) }),
                )
            },
            !old(self).in_bounds(x as int, y as int) ==> {
                &&& r == Err::<(), SearchError>(SearchError::OutOfBounds)
                &&& *final(self) == *old(self)
            },
    {
        if x < 0 || y < 0 || x as i64 >= self.width as i64 || y as i64 >= self.height as i64 {
            return Err(SearchError::OutOfBounds);
        }
        let i = self.index(x as i64, y as i64);
        self.set_class(i, TileType::End);
        self.end_tile = Some(Coordinate(x, y));
        Ok(())
    }
    /// The cells around `tile`'s position that lie inside the grid, in
    /// listing order (see `offset`): three at a corner, five on an edge,
    /// eight elsewhere.
    pub fn get_neighbours(&self, tile: Tile) -> (r: Vec<Tile>)
        requires
            self.wf(),
        ensures
            r@ == self.neighbours_upto(tile.x as int, tile.y as int, 8),
            forall|i: int|
                0 <= i < r.len() ==> {
                    &&& self.in_bounds((#[trigger] r@[i]).x as int, r@[i].y as int)
                    &&& is_neighbour(tile.x as int, tile.y as int, r@[i].x as int, r@[i].y as int)
                    &&& r@[i] == self.tile(r@[i].x as int, r@[i].y as int)
                },
            forall|nx: int, ny: int|
                #![trigger is_neighbour(tile.x as int, tile.y as int, nx, ny)]
                self.in_bounds(nx, ny) && is_neighbour(tile.x as int, tile.y as int, nx, ny)
                    ==> exists|i: int|
                    0 <= i < r.len() && (#[trigger] r@[i]).x == nx && r@[i].y == ny,
    {
        let mut neighbours: Vec<Tile> = Vec::new();
        let mut k: usize = 0;
        while k < 8
            invariant
                self.wf(),
                k <= 8,
                neighbours@ == self.neighbours_upto(tile.x as int, tile.y as int, k as int),
                forall|i: int|
                    0 <= i < neighbours.len() ==> {
                        &&& self.in_bounds((#[trigger] neighbours@[i]).x as int, neighbours@[i].y as int)
                        &&& is_neighbour(tile.x as int, tile.y as int, neighbours@[i].x as int, neighbours@[i].y as int)
                        &&& neighbours@[i] == self.tile(neighbours@[i].x as int, neighbours@[i].y as int)
                    },
                forall|j: int|
                    0 <= j < k && #[trigger] self.in_bounds(tile.x + offset(j).0, tile.y + offset(j).1)
                        ==> exists|i: int|
                        0 <= i < neighbours.len() && (#[trigger] neighbours@[i]).x == tile.x + offset(j).0
                            && neighbours@[i].y == tile.y + offset(j).1,
            decreases 8 - k,
        {
            let (dx, dy) = neighbour_offset(k);
            let nx: i64 = tile.x as i64 + dx;
            let ny: i64 = tile.y as i64 + dy;
            if 0 <= nx && nx < self.width as i64 && 0 <= ny && ny < self.height as i64 {
                let i = self.index(nx, ny);
                let ghost before = neighbours@;
                neighbours.push(self.tiles[i]);
                proof {
                    self.lemma_tile_position(nx as int, ny as int);
                    assert(neighbours@[before.len() as int] == self.tile(nx as int, ny as int));
                    assert forall|j: int|
                        0 <= j < k + 1 && #[trigger] self.in_bounds(tile.x + offset(j).0, tile.y + offset(j).1)
                        implies exists|i: int|
                        0 <= i < neighbours.len() && (#[trigger] neighbours@[i]).x == tile.x + offset(j).0
                            && neighbours@[i].y == tile.y + offset(j).1 by {
                        if j < k {
                            let i0 = choose|i: int|
                                0 <= i < before.len() && (#[trigger] before[i]).x == tile.x + offset(j).0
                                    && before[i].y == tile.y + offset(j).1;
                            assert(neighbours@[i0] == before[i0]);
                        } else {
                            assert(neighbours@[before.len() as int].x == tile.x + offset(j).0);
                        }
                    }
                }
            }
            k = k + 1;
        }
        proof {
            assert forall|nx: int, ny: int|
                self.in_bounds(nx, ny) && #[trigger] is_neighbour(tile.x as int, tile.y as int, nx, ny)
                implies exists|i: int|
                0 <= i < neighbours.len() && (#[trigger] neighbours@[i]).x == nx && neighbours@[i].y == ny by {
                let j = offset_rank(nx - tile.x, ny - tile.y);
                assert(offset(j) == (nx - tile.x, ny - tile.y));
                assert(self.in_bounds(tile.x + offset(j).0, tile.y + offset(j).1));
            }
        }
        neighbours
    }
}

/// The `k`-th neighbour offset.
fn neighbour_offset(k: usize) -> (r: (i64, i64))
    requires
        k < 8,
    ensures
        r.0 == offset(k as int).0,
        r.1 == offset(k as int).1,
{
    if k < 3 {
        (-1, k as i64 - 1)
    } else if k == 3 {
        (0, -1)
    } else if k == 4 {
        (0, 1)
    } else {
        (1, k as i64 - 6)
    }
}

} // verus!
