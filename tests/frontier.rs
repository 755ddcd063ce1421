use a_star_terminal::{Frontier, Grid, Tile, TileType};

fn costed(grid: &mut Grid, x: i32, y: i32, g: i32, h: i32) {
    let mut t = Tile::at(x, y, TileType::Normal);
    t.g_cost = g;
    t.h_cost = h;
    grid.set_cell(x, y, t).unwrap();
}

#[test]
fn frontier_pops_lowest_f_then_h_then_index() {
    let mut grid = Grid::with_size(3, 1);
    costed(&mut grid, 0, 0, 20, 10);
    costed(&mut grid, 1, 0, 10, 20);
    costed(&mut grid, 2, 0, 5, 20);
    let mut f = Frontier::new(3);
    assert!(f.is_empty());
    f.push(0);
    f.push(1);
    f.push(2);
    f.push(1);
    assert!(f.contains(1));
    assert_eq!(f.pop_min(&grid), 2);
    assert_eq!(f.pop_min(&grid), 0);
    assert!(!f.contains(0));
    assert_eq!(f.pop_min(&grid), 1);
    assert!(f.is_empty());
}

#[test]
fn frontier_breaks_full_ties_by_index() {
    let mut grid = Grid::with_size(2, 2);
    costed(&mut grid, 0, 0, 10, 10);
    costed(&mut grid, 1, 1, 10, 10);
    let mut f = Frontier::new(4);
    f.push(3);
    f.push(0);
    assert_eq!(f.pop_min(&grid), 0);
    assert_eq!(f.pop_min(&grid), 3);
}

#[test]
fn decreased_cost_changes_order() {
    let mut grid = Grid::with_size(2, 1);
    costed(&mut grid, 0, 0, 30, 0);
    costed(&mut grid, 1, 0, 40, 0);
    let mut f = Frontier::new(2);
    f.push(0);
    f.push(1);
    costed(&mut grid, 1, 0, 20, 0);
    assert_eq!(f.pop_min(&grid), 1);
}
