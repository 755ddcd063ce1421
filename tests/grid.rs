use a_star_terminal::{get_distance, Coordinate, Grid, SearchError, Tile, TileType};

#[test]
fn new_grid_is_ten_by_ten_and_normal() {
    let grid = Grid::new();
    assert_eq!(grid.width(), 10);
    assert_eq!(grid.height(), 10);
    assert_eq!(grid.start_tile(), None);
    assert_eq!(grid.end_tile(), None);
    let t = grid.cell_at(7, 3).unwrap();
    assert_eq!((t.x, t.y, t.g_cost, t.h_cost), (7, 3, 0, 0));
    assert_eq!(t.class, TileType::Normal);
}

#[test]
fn neighbour_counts_at_corner_edge_and_middle() {
    let grid = Grid::with_size(5, 4);
    assert_eq!(grid.get_neighbours(grid.cell_at(0, 0).unwrap()).len(), 3);
    assert_eq!(grid.get_neighbours(grid.cell_at(4, 3).unwrap()).len(), 3);
    assert_eq!(grid.get_neighbours(grid.cell_at(2, 0).unwrap()).len(), 5);
    assert_eq!(grid.get_neighbours(grid.cell_at(0, 2).unwrap()).len(), 5);
    assert_eq!(grid.get_neighbours(grid.cell_at(2, 2).unwrap()).len(), 8);
}

#[test]
fn neighbour_order_is_columns_then_rows() {
    let grid = Grid::with_size(3, 3);
    let n: Vec<(i32, i32)> = grid.get_neighbours(grid.cell_at(1, 1).unwrap()).iter().map(|t| (t.x, t.y)).collect();
    assert_eq!(n, vec![(0, 0), (0, 1), (0, 2), (1, 0), (1, 2), (2, 0), (2, 1), (2, 2)]);
    let c: Vec<(i32, i32)> = grid.get_neighbours(grid.cell_at(0, 0).unwrap()).iter().map(|t| (t.x, t.y)).collect();
    assert_eq!(c, vec![(0, 1), (1, 0), (1, 1)]);
}

#[test]
fn neighbours_of_outside_position() {
    let grid = Grid::with_size(3, 3);
    let n = grid.get_neighbours(Tile::at(-1, 0, TileType::Normal));
    let c: Vec<(i32, i32)> = n.iter().map(|t| (t.x, t.y)).collect();
    assert_eq!(c, vec![(0, 0), (0, 1)]);
}

#[test]
fn lookups_out_of_bounds_fail() {
    let mut grid = Grid::with_size(3, 2);
    assert_eq!(grid.cell_at(3, 0).unwrap_err(), SearchError::OutOfBounds);
    assert_eq!(grid.cell_at(0, 2).unwrap_err(), SearchError::OutOfBounds);
    assert_eq!(grid.cell_at(-1, 0).unwrap_err(), SearchError::OutOfBounds);
    assert_eq!(grid.set_cell(5, 5, Tile::at(5, 5, TileType::Wall)), Err(SearchError::OutOfBounds));
    assert_eq!(grid.set_start(0, -1), Err(SearchError::OutOfBounds));
    assert_eq!(grid.set_goal(3, 1), Err(SearchError::OutOfBounds));
    assert_eq!(grid.start_tile(), None);
}

#[test]
fn set_cell_keeps_position() {
    let mut grid = Grid::with_size(4, 4);
    let mut t = Tile::at(0, 0, TileType::Wall);
    t.g_cost = 42;
    grid.set_cell(2, 3, t).unwrap();
    let s = grid.cell_at(2, 3).unwrap();
    assert_eq!((s.x, s.y, s.g_cost, s.class), (2, 3, 42, TileType::Wall));
}

#[test]
fn markers_set_class_and_position() {
    let mut grid = Grid::with_size(4, 4);
    grid.set_start(1, 2).unwrap();
    grid.set_goal(3, 0).unwrap();
    assert_eq!(grid.start_tile(), Some(Coordinate(1, 2)));
    assert_eq!(grid.end_tile(), Some(Coordinate(3, 0)));
    assert_eq!(grid.cell_at(1, 2).unwrap().class, TileType::Start);
    assert_eq!(grid.cell_at(3, 0).unwrap().class, TileType::End);
}

#[test]
fn octile_distance_values() {
    let a = Tile::at(0, 0, TileType::Normal);
    assert_eq!(get_distance(&a, &Tile::at(0, 0, TileType::Normal)), 0);
    assert_eq!(get_distance(&a, &Tile::at(1, 0, TileType::Normal)), 10);
    assert_eq!(get_distance(&a, &Tile::at(1, 1, TileType::Normal)), 14);
    assert_eq!(get_distance(&a, &Tile::at(5, 2, TileType::Normal)), 58);
    assert_eq!(get_distance(&Tile::at(-3, 4, TileType::Normal), &Tile::at(2, -6, TileType::Normal)), 120);
}

#[test]
fn f_cost_is_sum_of_costs() {
    let mut t = Tile::at(1, 1, TileType::Normal);
    t.g_cost = 24;
    t.h_cost = 38;
    assert_eq!(t.f_cost(), 62);
    assert_eq!(t.coordinate(), Coordinate(1, 1));
    assert_eq!(TileType::Wall.name(), "Wall");
    assert_eq!(TileType::default(), TileType::Normal);
}

#[test]
fn map_rows_give_classes_and_markers() {
    let rows: Vec<Vec<char>> = vec!["A.#".chars().collect(), "#x".chars().collect(), "..B".chars().collect()];
    let grid = Grid::from_rows(&rows).unwrap();
    assert_eq!((grid.width(), grid.height()), (3, 3));
    assert_eq!(grid.start_tile(), Some(Coordinate(0, 0)));
    assert_eq!(grid.end_tile(), Some(Coordinate(2, 2)));
    assert_eq!(grid.cell_at(2, 0).unwrap().class, TileType::Wall);
    assert_eq!(grid.cell_at(0, 1).unwrap().class, TileType::Wall);
    assert_eq!(grid.cell_at(1, 1).unwrap().class, TileType::Normal);
    assert_eq!(grid.cell_at(2, 1).unwrap().class, TileType::Normal);
    assert_eq!(grid.cell_at(0, 0).unwrap().class, TileType::Start);
    assert_eq!(grid.cell_at(2, 2).unwrap().class, TileType::End);
    let t = grid.cell_at(1, 2).unwrap();
    assert_eq!((t.x, t.y), (1, 2));
}

#[test]
fn map_keeps_last_marker() {
    let rows: Vec<Vec<char>> = vec!["A..A".chars().collect(), ".A.B".chars().collect(), "B".chars().collect()];
    let grid = Grid::from_rows(&rows).unwrap();
    assert_eq!(grid.start_tile(), Some(Coordinate(1, 1)));
    assert_eq!(grid.end_tile(), Some(Coordinate(0, 2)));
    assert_eq!(grid.width(), 4);
}

#[test]
fn empty_map_is_invalid() {
    let none: Vec<Vec<char>> = vec![];
    assert_eq!(Grid::from_rows(&none).unwrap_err(), SearchError::InvalidInput);
    let blank: Vec<Vec<char>> = vec![vec![], vec![]];
    assert_eq!(Grid::from_rows(&blank).unwrap_err(), SearchError::InvalidInput);
    assert_eq!(TileType::from_char('#'), TileType::Wall);
    assert_eq!(TileType::from_char('?'), TileType::Normal);
}

#[test]
fn oversized_map_is_invalid() {
    let wide: Vec<Vec<char>> = vec![vec!['.'; 10001]];
    assert_eq!(Grid::from_rows(&wide).unwrap_err(), SearchError::InvalidInput);
    let widest_ok: Vec<Vec<char>> = vec![vec!['.'; 10000]];
    assert_eq!(Grid::from_rows(&widest_ok).unwrap().width(), 10000);
}
