use sudoku_solver::sudoku::domain::cell_grid::CellGrid;

#[test]
fn cell_grid_initialized_with_all_empty_cells() {
    let cell_grid = CellGrid::new();

    let any_cells_have_value = cell_grid.grid.iter().any(|cell| cell.value.is_some());

    assert_eq!(any_cells_have_value, false);
}

#[test]
fn cell_grid_has_81_cells() {
    assert_eq!(CellGrid::new().grid.len(), 81);
}

#[test]
fn from_seed_settles_the_seeded_cells_row_by_row() {
    let mut seed = [[None; 9]; 9];
    seed[0][0] = Some(1);
    seed[2][5] = Some(7);
    seed[8][8] = Some(9);
    seed[4][4] = Some(0);
    seed[5][5] = Some(10);
    let grid = CellGrid::from_seed(&seed);
    assert_eq!(grid.cell(0, 0).value, Some(1));
    assert_eq!(grid.cell(2, 5).value, Some(7));
    assert_eq!(grid.grid[2 * 9 + 5].value, Some(7));
    assert_eq!(grid.cell(8, 8).value, Some(9));
    assert_eq!(grid.cell(4, 4).value, None);
    assert_eq!(grid.cell(5, 5).value, None);
    assert_eq!(grid.grid.iter().filter(|cell| cell.value.is_some()).count(), 3);
}

#[test]
fn cloned_grid_is_independent() {
    let mut grid = CellGrid::new();
    let copy = grid.clone();
    grid.grid[10].set_value(5);
    assert_eq!(copy.grid[10].value, None);
    assert_eq!(grid.grid[10].value, Some(5));
}
