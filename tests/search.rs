use a_star_terminal::{find_path, get_distance, Coordinate, Grid, PathResult, SearchError, Tile, TileType};

fn grid_with(width: usize, height: usize, start: (i32, i32), goal: (i32, i32), walls: &[(i32, i32)]) -> Grid {
    let mut grid = Grid::with_size(width, height);
    for &(x, y) in walls {
        let mut t = grid.cell_at(x, y).unwrap();
        t.class = TileType::Wall;
        grid.set_cell(x, y, t).unwrap();
    }
    grid.set_start(start.0, start.1).unwrap();
    grid.set_goal(goal.0, goal.1).unwrap();
    grid
}

fn route_cost(path: &[Coordinate]) -> i32 {
    let mut total = 0;
    for w in path.windows(2) {
        let a = Tile::at(w[0].0, w[0].1, TileType::Normal);
        let b = Tile::at(w[1].0, w[1].1, TileType::Normal);
        total += get_distance(&a, &b);
    }
    total
}

#[test]
fn diagonal_route_on_open_grid() {
    let mut grid = grid_with(3, 3, (0, 0), (2, 2), &[]);
    let r = find_path(&mut grid).unwrap();
    assert_eq!(r, PathResult::Found(vec![Coordinate(0, 0), Coordinate(1, 1), Coordinate(2, 2)]));
    assert_eq!(grid.cell_at(2, 2).unwrap().g_cost, 28);
    assert_eq!(grid.cell_at(1, 1).unwrap().class, TileType::Path);
    assert_eq!(grid.cell_at(0, 0).unwrap().class, TileType::Start);
    assert_eq!(grid.cell_at(2, 2).unwrap().class, TileType::End);
    assert_eq!(grid.cell_at(1, 0).unwrap().class, TileType::Normal);
}

#[test]
fn walled_middle_column_blocks_goal() {
    let mut grid = grid_with(3, 3, (0, 0), (2, 0), &[(1, 0), (1, 1), (1, 2)]);
    assert_eq!(find_path(&mut grid), Ok(PathResult::NotFound));
}

#[test]
fn start_equal_to_goal() {
    let mut grid = grid_with(4, 4, (2, 1), (2, 1), &[]);
    let r = find_path(&mut grid).unwrap();
    assert_eq!(r, PathResult::Found(vec![Coordinate(2, 1)]));
    assert_eq!(grid.cell_at(2, 1).unwrap().g_cost, 0);
}

#[test]
fn enclosed_goal_is_not_found() {
    let walls = [(3, 3), (4, 3), (5, 3), (3, 4), (5, 4), (3, 5), (4, 5), (5, 5)];
    let mut grid = grid_with(10, 10, (0, 0), (4, 4), &walls);
    assert_eq!(find_path(&mut grid), Ok(PathResult::NotFound));
}

#[test]
fn open_grid_costs_equal_octile_distance() {
    for &(goal, expected) in &[((9, 4), 106), ((0, 9), 90), ((7, 7), 98), ((3, 8), 92)] {
        let mut grid = grid_with(10, 10, (0, 0), goal, &[]);
        match find_path(&mut grid).unwrap() {
            PathResult::Found(p) => {
                assert_eq!(route_cost(&p), expected);
                assert_eq!(grid.cell_at(goal.0, goal.1).unwrap().g_cost, expected);
                let mut last = -1;
                for c in &p {
                    let g = grid.cell_at(c.0, c.1).unwrap().g_cost;
                    assert!(g > last);
                    last = g;
                }
            }
            PathResult::NotFound => panic!("open grid must have a route"),
        }
    }
}

#[test]
fn route_avoids_walls_and_is_connected() {
    let walls = [(2, 0), (2, 1), (2, 2), (2, 3), (5, 9), (5, 8), (5, 7), (5, 6), (5, 5), (5, 4)];
    let mut grid = grid_with(10, 10, (0, 0), (9, 9), &walls);
    let before = grid.clone();
    match find_path(&mut grid).unwrap() {
        PathResult::Found(p) => {
            assert_eq!(p[0], Coordinate(0, 0));
            assert_eq!(*p.last().unwrap(), Coordinate(9, 9));
            for c in &p {
                assert_ne!(before.cell_at(c.0, c.1).unwrap().class, TileType::Wall);
            }
            for w in p.windows(2) {
                let dx = (w[0].0 - w[1].0).abs();
                let dy = (w[0].1 - w[1].1).abs();
                assert!(dx <= 1 && dy <= 1 && dx + dy > 0);
            }
        }
        PathResult::NotFound => panic!("a route exists"),
    }
}

#[test]
fn wall_on_start_is_not_found() {
    let mut grid = grid_with(3, 3, (0, 0), (2, 2), &[]);
    let mut t = grid.cell_at(0, 0).unwrap();
    t.class = TileType::Wall;
    grid.set_cell(0, 0, t).unwrap();
    assert_eq!(find_path(&mut grid), Ok(PathResult::NotFound));
}

#[test]
fn running_twice_on_a_snapshot_gives_the_same_route() {
    let walls = [(4, 0), (4, 1), (4, 2), (4, 3), (4, 4), (4, 5), (4, 6), (4, 7)];
    let grid = grid_with(10, 10, (0, 3), (9, 3), &walls);
    let mut a = grid.clone();
    let mut b = grid.clone();
    let ra = find_path(&mut a);
    let rb = find_path(&mut b);
    assert_eq!(ra, rb);
    assert!(matches!(ra, Ok(PathResult::Found(_))));
}

#[test]
fn missing_markers_are_invalid_input() {
    let mut grid = Grid::new();
    assert_eq!(find_path(&mut grid), Err(SearchError::InvalidInput));
    grid.set_start(1, 1).unwrap();
    assert_eq!(find_path(&mut grid), Err(SearchError::InvalidInput));
    grid.set_goal(3, 3).unwrap();
    assert!(matches!(find_path(&mut grid), Ok(PathResult::Found(_))));
}

#[test]
fn map_with_detour_finds_shortest_route() {
    let rows: Vec<Vec<char>> = vec![
        "A.#.....".chars().collect(),
        "..#.....".chars().collect(),
        "..#..#..".chars().collect(),
        ".....#.B".chars().collect(),
    ];
    let mut grid = Grid::from_rows(&rows).unwrap();
    match find_path(&mut grid).unwrap() {
        PathResult::Found(p) => {
            assert_eq!(p[0], Coordinate(0, 0));
            assert_eq!(*p.last().unwrap(), Coordinate(7, 3));
            assert_eq!(route_cost(&p), grid.cell_at(7, 3).unwrap().g_cost);
            assert_eq!(route_cost(&p), 104);
        }
        PathResult::NotFound => panic!("a route exists"),
    }
}
