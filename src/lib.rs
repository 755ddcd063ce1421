//! A* shortest-path search on a bounded 2D grid with 8-connected movement,
//! the octile distance as heuristic and step cost, and parent-link retracing.
pub mod tile;
pub mod grid;
pub mod frontier;
pub mod route;
pub mod search;

pub use tile::{get_distance, Coordinate, Tile, TileType};
pub use grid::{Grid, SearchError};
pub use frontier::Frontier;
pub use search::{find_path, PathResult};
