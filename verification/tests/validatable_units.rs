use sudoku_solver::sudoku::domain::cell_grid::CellGrid;
use sudoku_solver::sudoku::domain::puzzle::Puzzle;
use sudoku_solver::sudoku::domain::validatable_units::{
    CellGroup, CellGroupValidator, PuzzleValidator, UnitValidator,
};

fn group_from_values(values: &[Option<u8>]) -> (CellGrid, CellGroup) {
    let mut grid = CellGrid::new();
    for (index, value) in values.iter().enumerate() {
        if let Some(value) = value {
            grid.grid[index].set_value(*value);
        }
    }
    (grid, CellGroup::new((0..values.len()).collect()))
}

#[test]
fn is_valid_true_when_empty_cells() {
    let (grid, group) = group_from_values(&[None, None]);
    let unit_validator = UnitValidator::new();

    assert_eq!(unit_validator.is_valid(&group, &grid), true);
}

#[test]
fn is_valid_true_when_different_values() {
    let (grid, group) = group_from_values(&[None, None, Some(1), Some(2)]);
    let unit_validator = UnitValidator::new();

    assert_eq!(unit_validator.is_valid(&group, &grid), true);
}

#[test]
fn is_complete_false_when_different_values_but_some_none() {
    let (grid, group) = group_from_values(&[None, Some(1), Some(2)]);
    let unit_validator = UnitValidator::new();

    assert_eq!(unit_validator.is_complete(&group, &grid), false);
}

#[test]
fn is_complete_true_when_different_values_but_and_all_have_values() {
    let (grid, group) = group_from_values(&[Some(1), Some(2), Some(3), Some(4), Some(5)]);
    let unit_validator = UnitValidator::new();

    assert_eq!(unit_validator.is_complete(&group, &grid), true);
}

#[test]
fn is_valid_false_when_duplicates() {
    let (grid, group) = group_from_values(&[Some(1), Some(1)]);
    let unit_validator = UnitValidator::new();

    assert_eq!(unit_validator.is_valid(&group, &grid), false);
}

#[test]
fn is_valid_false_when_duplicates_are_apart() {
    let (grid, group) = group_from_values(&[Some(1), Some(2), None, Some(1)]);
    let unit_validator = UnitValidator::new();

    assert_eq!(unit_validator.is_valid(&group, &grid), false);
    assert_eq!(unit_validator.is_complete(&group, &grid), false);
}

#[test]
fn is_complete_false_when_all_settled_with_duplicates() {
    let (grid, group) = group_from_values(&[Some(3), Some(2), Some(3)]);
    assert_eq!(UnitValidator::new().is_complete(&group, &grid), false);
}

#[test]
fn empty_puzzle_is_valid_and_not_complete() {
    let puzzle = Puzzle::default();
    assert!(puzzle.is_valid());
    assert!(!puzzle.is_complete());
}

#[test]
fn puzzle_is_invalid_when_a_column_or_block_repeats() {
    let mut seed = [[None; 9]; 9];
    seed[0][4] = Some(5);
    seed[7][4] = Some(5);
    assert!(!Puzzle::new(&seed).is_valid());

    let mut seed = [[None; 9]; 9];
    seed[3][3] = Some(2);
    seed[5][4] = Some(2);
    assert!(!Puzzle::new(&seed).is_valid());

    let mut seed = [[None; 9]; 9];
    seed[3][3] = Some(2);
    seed[6][4] = Some(2);
    assert!(Puzzle::new(&seed).is_valid());
}
