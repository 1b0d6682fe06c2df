use sudoku_solver::sudoku::domain::cell_grid::CellGrid;
use sudoku_solver::sudoku::domain::puzzle::Puzzle;
use sudoku_solver::sudoku::domain::validatable_units::CellGroup;
use sudoku_solver::sudoku::draw::terminal_print::{
    all_cells_lines, all_rows_lines, create_row_line, include_extra_separator, separator_line,
    value_or_letter_x,
};

#[test]
fn value_or_letter_x_writes_the_value_in_decimal() {
    assert_eq!(value_or_letter_x(&None), "x");
    assert_eq!(value_or_letter_x(&Some(0)), "0");
    assert_eq!(value_or_letter_x(&Some(7)), "7");
    assert_eq!(value_or_letter_x(&Some(10)), "10");
    assert_eq!(value_or_letter_x(&Some(99)), "99");
    assert_eq!(value_or_letter_x(&Some(100)), "100");
    assert_eq!(value_or_letter_x(&Some(205)), "205");
    assert_eq!(value_or_letter_x(&Some(255)), "255");
}

#[test]
fn extra_separator_ends_a_block_but_not_the_grid() {
    let extra: Vec<bool> = (0..9).map(|index| include_extra_separator(index, 3)).collect();
    assert_eq!(extra, vec![false, false, true, false, false, true, false, false, false]);
    assert!(include_extra_separator(3, 2));
    assert!(!include_extra_separator(8, 1));
    assert!(include_extra_separator(9, 1));
}

#[test]
fn row_line_sets_the_blocks_apart() {
    let mut grid = CellGrid::new();
    grid.grid[9].set_value(5);
    grid.grid[13].set_value(1);
    grid.grid[17].set_value(9);
    let row = CellGroup::new(vec![9, 10, 11, 12, 13, 14, 15, 16, 17]);
    assert_eq!(
        create_row_line(&grid, &row),
        "| 5 | x | x || x | 1 | x || x | x | 9 |"
    );
    let column = CellGroup::new(vec![0, 9, 18, 27, 36, 45, 54, 63, 72]);
    assert_eq!(
        create_row_line(&grid, &column),
        "| x | 5 | x || x | x | x || x | x | x |"
    );
}

#[test]
fn separator_line_is_underscores_and_a_space() {
    assert_eq!(separator_line(0), " ");
    assert_eq!(separator_line(4), "____ ");
}

#[test]
fn rows_lines_pass_over_groups_that_are_no_rows() {
    let mut puzzle = Puzzle::default();
    puzzle.cell_grid.grid[80].set_value(3);
    let lines = all_rows_lines(&puzzle.cell_grid, &puzzle.rows);
    assert_eq!(lines.len(), 9);
    assert_eq!(lines[0], "| x | x | x || x | x | x || x | x | x |");
    assert_eq!(lines[8], "| x | x | x || x | x | x || x | x | 3 |");

    let groups = vec![
        CellGroup::new(vec![0, 1, 2]),
        CellGroup::new(vec![72, 73, 74, 75, 76, 77, 78, 79, 80]),
        CellGroup::new(Vec::new()),
    ];
    let lines = all_rows_lines(&puzzle.cell_grid, &groups);
    assert_eq!(lines, vec!["| x | x | x || x | x | x || x | x | 3 |".to_string()]);
}

#[test]
fn grid_lines_have_separators_between_rows_and_blocks() {
    let mut grid = CellGrid::new();
    grid.grid[0].set_value(1);
    grid.grid[40].set_value(5);
    let lines = all_cells_lines(&grid);
    let rule = "_______________________________________ ";
    assert_eq!(lines.len(), 1 + 9 * 2 + 2);
    assert_eq!(lines[0], rule);
    assert_eq!(lines[1], "| 1 | x | x || x | x | x || x | x | x |");
    assert_eq!(lines[2], rule);
    assert_eq!(lines[5], "| x | x | x || x | x | x || x | x | x |");
    assert_eq!(lines[6], rule);
    assert_eq!(lines[7], rule);
    assert_eq!(lines[10], "| x | x | x || x | 5 | x || x | x | x |");
    assert_eq!(lines[13], rule);
    assert_eq!(lines[14], rule);
    assert_eq!(lines[19], "| x | x | x || x | x | x || x | x | x |");
    assert_eq!(lines[20], rule);
}
