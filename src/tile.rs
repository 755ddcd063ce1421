use vstd::prelude::*;

verus! {

/// Absolute value of an integer.
pub open spec fn abs(v: int) -> int {
    if v < 0 { -v } else { v }
}

/// Octile distance for offsets `dx`, `dy`: diagonal steps while both
/// offsets last, straight steps for the rest.
pub open spec fn octile(dx: int, dy: int) -> int {
    let ax = abs(dx);
    let ay = abs(dy);
    if ax > ay {
        14 * ay + 10 * (ax - ay)
    } else {
        14 * ax + 10 * (ay - ax)
    }
}

/// Octile distance between the points `(ax, ay)` and `(bx, by)`.
pub open spec fn octile_between(ax: int, ay: int, bx: int, by: int) -> int {
    octile(ax - bx, ay - by)
}

/// A cell position: column `0`, row `1`.
#[derive(Clone, Copy, Debug, PartialEq, Eq, Structural)]
pub struct Coordinate(pub i32, pub i32);

/// What a cell is; only `Wall` cells cannot be entered.
#[derive(Clone, Copy, Debug, PartialEq, Eq, Structural)]
pub enum TileType {
    Start,
    End,
    Normal,
    Wall,
    Path,
}

/// The class a map character stands for: `#` a wall, `A` the start, `B`
/// the goal, anything else normal ground.
pub open spec fn class_of(c: char) -> TileType {
    if c == '#' {
        TileType::Wall
    } else if c == 'A' {
        TileType::Start
    } else if c == 'B' {
        TileType::End
    } else {
        TileType::Normal
    }
}

impl TileType {
    /// The class that map character `c` stands for.
    pub fn from_char(c: char) -> (r: TileType)
        ensures
            r == class_of(c),
    {
        if c == '#' {
            TileType::Wall
        } else if c == 'A' {
            TileType::Start
        } else if c == 'B' {
            TileType::End
        } else {
            TileType::Normal
        }
    }

    /// The variant's name, for display.
    pub fn name(&self) -> (r: &'static str) {
        match self {
            TileType::Start => "Start",
            TileType::End => "End",
            TileType::Normal => "Normal",
            TileType::Wall => "Wall",
            TileType::Path => "Path",
        }
    }
}

impl Default for TileType {
    fn default() -> (r: TileType)
        ensures
            r == TileType::Normal,
    {
        TileType::Normal
    }
}

/// One grid cell: its position, the search costs recorded on it, its class
/// and the position of its predecessor on the best path found to it.
#[derive(Clone, Copy, Debug)]
pub struct Tile {
    pub x: i32,
    pub y: i32,
    pub g_cost: i32,
    pub h_cost: i32,
    pub class: TileType,
    pub parent: Coordinate,
}

impl Tile {
    pub open spec fn at_spec(x: i32, y: i32, class: TileType) -> Tile {
        Tile { x, y, g_cost: 0, h_cost: 0, class, parent: Coordinate(x, y) }
    }

    /// A fresh cell at `(x, y)`: no costs, no predecessor.
    pub fn at(x: i32, y: i32, class: TileType) -> (r: Tile)
        ensures
            r == Tile::at_spec(x, y, class),
    {
        Tile { x, y, g_cost: 0, h_cost: 0, class, parent: Coordinate(x, y) }
    }

    /// Total estimated cost through this cell.
    pub fn f_cost(&self) -> (r: i32)
        requires
            i32::MIN <= self.g_cost + self.h_cost <= i32::MAX,
        ensures
            r == self.g_cost + self.h_cost,
    {
        self.g_cost + self.h_cost
    }

    /// The cell's position.
    pub fn coordinate(&self) -> (r: Coordinate)
        ensures
            r == Coordinate(self.x, self.y),
    {
        Coordinate(self.x, self.y)
    }
}

/// Octile distance between two cells: 14 per diagonal step and 10 per
/// straight step on a shortest 8-connected route with no obstacles.
pub fn get_distance(tile_a: &Tile, tile_b: &Tile) -> (r: i32)
    requires
        octile_between(tile_a.x as int, tile_a.y as int, tile_b.x as int, tile_b.y as int)
            <= i32::MAX,
    ensures
        r == octile_between(tile_a.x as int, tile_a.y as int, tile_b.x as int, tile_b.y as int),
{
    let ddx: i64 = tile_a.x as i64 - tile_b.x as i64;
    let ddy: i64 = tile_a.y as i64 - tile_b.y as i64;
    let distance_x: i64 = if ddx < 0 { -ddx } else { ddx };
    let distance_y: i64 = if ddy < 0 { -ddy } else { ddy };
    if distance_x > distance_y {
        return (14 * distance_y + 10 * (distance_x - distance_y)) as i32;
    }
    (14 * distance_x + 10 * (distance_y - distance_x)) as i32
}

} // verus!
