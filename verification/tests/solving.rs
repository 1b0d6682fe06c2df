use sudoku_solver::sudoku::domain::cell_grid::CellGrid;
use sudoku_solver::sudoku::domain::game::Game;
use sudoku_solver::sudoku::domain::puzzle::Puzzle;
use sudoku_solver::sudoku::domain::validatable_units::{CellGroup, PuzzleValidator};
use sudoku_solver::sudoku::format::serializer::Serializer;
use sudoku_solver::sudoku::solver::simple::{
    eliminate_options_from_groups, set_solved_cells, try_complete_all_cells,
};
use sudoku_solver::sudoku::techniques::conjugate_groups::{
    close_one_group, eliminate_candidates_from_closed_groups,
    try_eliminate_closed_candidate_groups, try_eliminate_options_from_groups,
};
use sudoku_solver::sudoku::techniques::implicitly_solved::solve_single_candidate_cells;
use sudoku_solver::sudoku::techniques::trial_and_error::{
    solve_by_trial_and_error, try_get_next_trial, try_recursively, try_trial, Trial,
};

fn puzzle_from(text: &str) -> Puzzle {
    Serializer::new().new_game(text).ok().expect("the test data should be correct")
}

fn text_of(puzzle: &Puzzle) -> String {
    Serializer::new().serialize_to_string(puzzle)
}

fn four_cell_group() -> (CellGrid, CellGroup) {
    let mut grid = CellGrid::new();
    grid.grid[0].discount_range(1..=7);
    grid.grid[1].discount_range(1..=7);
    grid.grid[2].discount_range(1..=6);
    grid.grid[3].discount_value(1);
    (grid, CellGroup::new(vec![0, 1, 2, 3]))
}

#[test]
fn simple_solves_single_missing_cell() {
    let trivial_solution_representation =
        "534678912672195348198342567859761423426853791713924856961537284287419635345.86179";
    let mut game = puzzle_from(trivial_solution_representation);

    assert!(!game.is_complete());
    assert!(game.cell_grid.cell(8, 3).value.is_none());

    set_solved_cells(&mut game);

    assert!(game.is_complete());
    assert_eq!(game.cell_grid.cell(8, 3).value.unwrap(), 2);
}

#[test]
fn solves_very_easy() {
    let very_easy =
        "5834.7.2...7...453.61.258...94.....5.5..63.14..68....7........8.3564..9..792385..";
    let mut game: Game = puzzle_from(very_easy);

    assert!(game.is_valid());
    set_solved_cells(&mut game);

    assert!(game.is_complete());
}

#[test]
fn implicitly_solved_solves_single_missing_cell() {
    let trivial_puzzle =
        "534678912672195348198342567859761423426853791713924856961537284287419635345.86179";
    let mut sudoku = puzzle_from(trivial_puzzle);

    assert!(!sudoku.is_complete());
    assert!(sudoku.cell_grid.cell(8, 3).value.is_none());

    solve_single_candidate_cells(&mut sudoku);

    assert!(sudoku.is_complete());
    assert_eq!(sudoku.cell_grid.cell(8, 3).value.unwrap(), 2);
}

#[test]
fn solves_extremely_easy_with_40_spaces() {
    let puzzle =
        "5834.7.2...7...453.61.258...94.....5.5..63.14..68....7........8.3564..9..792385..";
    let mut sudoku: Puzzle = puzzle_from(puzzle);
    solve_single_candidate_cells(&mut sudoku);

    assert!(sudoku.is_complete());
}

#[test]
fn solves_very_easy_with_51_spaces() {
    let puzzle =
        "53..7....6..195....98....6.8...6...34..8.3..17...2...6.6....28....419..5....8..79";
    let mut sudoku: Puzzle = puzzle_from(puzzle);
    solve_single_candidate_cells(&mut sudoku);

    assert!(sudoku.is_complete());
}

#[test]
fn fills_in_many_blanks_in_medium_puzzle_with_47_spaces() {
    let puzzle =
        "...97564...13..572.7....8....27....3..7..32..8..6.2..74.9....6.7..8..1.4286.34...";
    let mut sudoku: Puzzle = puzzle_from(puzzle);

    let initial_cell_count = sudoku.count_cells_with_value();
    solve_single_candidate_cells(&mut sudoku);
    assert!(sudoku.count_cells_with_value() > initial_cell_count);
}

#[test]
fn closed_groups_eliminate_candidates_when_groups_of_cells_identified() {
    let (mut grid, group) = four_cell_group();
    let some_eliminated = try_eliminate_options_from_groups(&mut grid, &vec![group]);

    assert!(some_eliminated);
    assert_eq!(grid.grid[2].potentially_valid_values, vec![7])
}

#[test]
fn closed_groups_try_solve_a_puzzle_that_could_not_be_immediately_implicitely_solved() {
    let test_case =
        "328975641..13..572.7....839..27....3..7..32.68..6.2..74.9..73687..8..124286134795";
    let mut game = puzzle_from(test_case);

    eliminate_candidates_from_closed_groups(&mut game);
}

#[test]
fn try_solve_a_puzzle_with_closed_group() {
    let test_case =
        ".8..9..3..3.....699.2.63158.2.8.459.8519.7.463946.587.563.4.9872......15.1..5..2.";
    let mut game = puzzle_from(test_case);

    eliminate_candidates_from_closed_groups(&mut game);
}

#[test]
fn conjugate_groups_eliminate_candidates_when_groups_of_cells_identified() {
    let (mut grid, group) = four_cell_group();
    let some_eliminated = try_eliminate_options_from_groups(&mut grid, &vec![group]);

    assert!(some_eliminated);
    assert_eq!(grid.grid[2].potentially_valid_values, vec![7]);
    assert_eq!(grid.grid[3].potentially_valid_values, vec![2, 3, 4, 5, 6])
}

#[test]
fn try_solve_a_puzzle_with_only_single_iteration_of_closed_group_strategy() {
    let test_case =
        ".8..9..3..3.....699.2.63158.2.8.459.8519.7.463946.587.563.4.9872......15.1..5..2.";
    let mut game = puzzle_from(test_case);

    eliminate_candidates_from_closed_groups(&mut game);

    assert!(game.is_complete())
}

#[test]
fn try_solve_puzzle_with_multiple_iterations_of_closed_group_strategy() {
    let test_case =
        "251348796...9172.4..7256.......6.832.......7...8...9.....62...88..7.......25.164.";
    let mut game = puzzle_from(test_case);

    eliminate_candidates_from_closed_groups(&mut game);

    assert!(game.is_complete())
}

#[test]
fn conjugate_groups_try_solve_a_puzzle_that_could_not_be_immediately_implicitely_solved() {
    let test_case =
        "328975641..13..572.7....839..27....3..7..32.68..6.2..74.9..73687..8..124286134795";
    let mut game = puzzle_from(test_case);

    let initial_cell_count = game.count_cells_with_value();

    eliminate_candidates_from_closed_groups(&mut game);

    assert!(game.count_cells_with_value() > initial_cell_count);
}

#[test]
fn single_missing_cell_is_the_only_unsettled_one() {
    let puzzle =
        puzzle_from("534678912672195348198342567859761423426853791713924856961537284287419635345.86179");
    let unsettled: Vec<usize> = (0..81).filter(|&i| puzzle.cell_grid.grid[i].value.is_none()).collect();
    assert_eq!(unsettled, vec![8 * 9 + 3]);
    assert_eq!(puzzle.count_cells_with_value(), 80);
}

#[test]
fn closed_group_leaves_the_cells_of_the_key_alone() {
    let (mut grid, group) = four_cell_group();
    let changed = close_one_group(&mut grid, &group);
    assert!(changed);
    assert_eq!(grid.grid[0].potentially_valid_values, vec![8, 9]);
    assert_eq!(grid.grid[1].potentially_valid_values, vec![8, 9]);
    assert_eq!(grid.grid[2].potentially_valid_values, vec![7]);
    assert_eq!(grid.grid[3].potentially_valid_values, vec![2, 3, 4, 5, 6]);
    assert_eq!(grid.grid[3].discounted_values, vec![1, 8, 9, 7]);
    assert_eq!(grid.grid[4].potentially_valid_values, vec![1, 2, 3, 4, 5, 6, 7, 8, 9]);
    let again = close_one_group(&mut grid, &group);
    assert!(!again);
}

#[test]
fn closed_group_needs_fewer_cells_than_are_unsettled() {
    let mut grid = CellGrid::new();
    grid.grid[0].discount_range(1..=7);
    grid.grid[1].discount_range(1..=7);
    let group = CellGroup::new(vec![0, 1]);
    assert!(!close_one_group(&mut grid, &group));
    assert_eq!(grid.grid[0].potentially_valid_values, vec![8, 9]);

    let mut grid = CellGrid::new();
    grid.grid[0].discount_range(1..=7);
    grid.grid[1].discount_range(1..=6);
    let group = CellGroup::new(vec![0, 1, 2]);
    assert!(!close_one_group(&mut grid, &group));
    assert_eq!(grid.grid[2].potentially_valid_values, vec![1, 2, 3, 4, 5, 6, 7, 8, 9]);
}

#[test]
fn elimination_discounts_settled_values_in_the_group() {
    let mut grid = CellGrid::new();
    grid.grid[0].set_value(4);
    grid.grid[5].set_value(9);
    grid.grid[20].set_value(1);
    let groups = vec![CellGroup::new(vec![0, 1, 5, 7])];
    eliminate_options_from_groups(&mut grid, &groups);
    assert_eq!(grid.grid[1].potentially_valid_values, vec![1, 2, 3, 5, 6, 7, 8]);
    assert_eq!(grid.grid[1].discounted_values, vec![4, 9]);
    assert_eq!(grid.grid[7].potentially_valid_values, vec![1, 2, 3, 5, 6, 7, 8]);
    assert_eq!(grid.grid[0].value, Some(4));
    assert!(grid.grid[0].discounted_values.is_empty());
    assert_eq!(grid.grid[2].potentially_valid_values, vec![1, 2, 3, 4, 5, 6, 7, 8, 9]);
}

#[test]
fn one_round_of_elimination_settles_the_missing_cell() {
    let mut game =
        puzzle_from("534678912672195348198342567859761423426853791713924856961537284287419635345.86179");
    try_complete_all_cells(&mut game);
    assert_eq!(game.cell_grid.cell(8, 3).value, Some(2));
    assert_eq!(game.count_cells_with_value(), 81);
}

#[test]
fn elimination_never_unsettles_and_stops_at_a_fixed_point() {
    let puzzles = [
        "...97564...13..572.7....8....27....3..7..32..8..6.2..74.9....6.7..8..1.4286.34...",
        "53..7....6..195....98....6.8...6...34..8.3..17...2...6.6....28....419..5....8..79",
        ".................................................................................",
        "11...............................................................................",
    ];
    for text in puzzles {
        let mut round = puzzle_from(text);
        let mut settled = round.count_cells_with_value();
        for _ in 0..5 {
            try_complete_all_cells(&mut round);
            assert!(round.count_cells_with_value() >= settled);
            settled = round.count_cells_with_value();
        }

        let mut sudoku = puzzle_from(text);
        solve_single_candidate_cells(&mut sudoku);
        let fixed = text_of(&sudoku);
        let candidates: Vec<Vec<u8>> =
            sudoku.cell_grid.grid.iter().map(|cell| cell.potentially_valid_values.clone()).collect();
        try_complete_all_cells(&mut sudoku);
        solve_single_candidate_cells(&mut sudoku);
        set_solved_cells(&mut sudoku);
        assert_eq!(text_of(&sudoku), fixed);
        let after: Vec<Vec<u8>> =
            sudoku.cell_grid.grid.iter().map(|cell| cell.potentially_valid_values.clone()).collect();
        assert_eq!(after, candidates);
    }
}

#[test]
fn closed_group_pass_reports_no_change_at_the_fixed_point() {
    let mut game =
        puzzle_from("328975641..13..572.7....839..27....3..7..32.68..6.2..74.9..73687..8..124286134795");
    eliminate_candidates_from_closed_groups(&mut game);
    let before = text_of(&game);
    assert!(!try_eliminate_closed_candidate_groups(&mut game));
    assert_eq!(text_of(&game), before);
}

#[test]
fn next_trial_is_first_unsettled_cell_and_least_candidate() {
    let mut puzzle = puzzle_from(
        "12...............................................................................",
    );
    puzzle.cell_grid.grid[2].discount_value(3);
    puzzle.cell_grid.grid[2].discount_value(1);
    let trial = try_get_next_trial(&puzzle).unwrap();
    assert_eq!(trial.cell, 2);
    assert_eq!(trial.trial_value, 2);

    puzzle.cell_grid.grid[2].discount_range(1..=9);
    assert!(try_get_next_trial(&puzzle).is_none());

    let complete =
        puzzle_from("534678912672195348198342567859761423426853791713924856961537284287419635345286179");
    assert!(try_get_next_trial(&complete).is_none());
}

#[test]
fn trial_changes_only_its_cell() {
    let mut puzzle = Puzzle::default();
    let trial = Trial { cell: 40, trial_value: 6 };
    let mut copy = puzzle.clone();
    trial.apply_hypothesis(&mut copy);
    assert_eq!(copy.cell_grid.grid[40].value, Some(6));
    assert_eq!(puzzle.cell_grid.grid[40].value, None);
    assert_eq!(copy.count_cells_with_value(), 1);

    trial.reject(&mut puzzle);
    assert_eq!(puzzle.cell_grid.grid[40].value, None);
    assert_eq!(puzzle.cell_grid.grid[40].potentially_valid_values, vec![1, 2, 3, 4, 5, 7, 8, 9]);
    assert_eq!(puzzle.cell_grid.grid[40].discounted_values, vec![6]);
    assert_eq!(puzzle.cell_grid.grid[41].potentially_valid_values.len(), 9);

    let other = Trial { cell: 40, trial_value: 5 };
    other.accept(&mut puzzle);
    assert_eq!(puzzle.cell_grid.grid[40].value, Some(5));
    assert_eq!(puzzle.count_cells_with_value(), 1);
}

#[test]
fn rejected_trial_discounts_the_value() {
    // The first cell still lists 1 as a candidate, though its column holds a 1.
    let mut puzzle = puzzle_from(
        "..3456789.1.......1..............................................................",
    );
    let trial = try_get_next_trial(&puzzle).unwrap();
    assert_eq!((trial.cell, trial.trial_value), (0, 1));
    let accepted = try_trial(&mut puzzle, &trial);
    assert!(!accepted);
    assert_eq!(puzzle.cell_grid.grid[0].value, None);
    assert!(!puzzle.cell_grid.grid[0].potentially_valid_values.contains(&1));
    assert!(puzzle.cell_grid.grid[0].discounted_values.contains(&1));
}

#[test]
fn try_recursively_answers_completeness_when_nothing_is_left() {
    let mut complete =
        puzzle_from("534678912672195348198342567859761423426853791713924856961537284287419635345286179");
    assert!(try_recursively(&mut complete));
    let mut broken =
        puzzle_from("554678912672195348198342567859761423426853791713924856961537284287419635345286179");
    assert!(!try_recursively(&mut broken));
    assert_eq!(
        text_of(&broken),
        "554678912672195348198342567859761423426853791713924856961537284287419635345286179"
    );
}

#[test]
fn search_finds_the_unique_solution() {
    let mut sudoku =
        puzzle_from("53..7....6..195....98....6.8...6...34..8.3..17...2...6.6....28....419..5....8..79");
    solve_by_trial_and_error(&mut sudoku);
    assert!(sudoku.is_complete());
    assert_eq!(
        text_of(&sudoku),
        "534678912672195348198342567859761423426853791713924856961537284287419635345286179"
    );

    let mut hard =
        puzzle_from("8..........36......7..9.2...5...7.......457.....1...3...1....68..85...1..9....4..");
    solve_by_trial_and_error(&mut hard);
    assert!(hard.is_complete());
    assert_eq!(
        text_of(&hard),
        "812753649943682175675491283154237896369845721287169534521974368438526917796318452"
    );
}

#[test]
fn search_keeps_the_given_cells() {
    let text = "1...............................................................................9";
    let mut sudoku = puzzle_from(text);
    solve_by_trial_and_error(&mut sudoku);
    assert!(sudoku.is_complete());
    assert!(sudoku.is_valid());
    let solved = text_of(&sudoku);
    assert!(solved.starts_with('1'));
    assert!(solved.ends_with('9'));
}

#[test]
fn search_gives_up_on_a_puzzle_without_solution() {
    let mut clash =
        puzzle_from("11...............................................................................");
    solve_by_trial_and_error(&mut clash);
    assert!(!clash.is_complete());

    // Valid as it stands, but the top right cell has no value left.
    let mut dead =
        puzzle_from("12345678.........9...............................................................");
    assert!(dead.is_valid());
    solve_by_trial_and_error(&mut dead);
    assert!(!dead.is_complete());
    assert!(text_of(&dead).starts_with("12345678."));

    // No clash to begin with, yet nothing fits: two rows need 9 in the same column.
    let mut hidden =
        puzzle_from("12345678.........1...............23456781........................................");
    solve_by_trial_and_error(&mut hidden);
    assert!(!hidden.is_complete());
}

#[test]
fn search_finds_the_least_solution_of_the_empty_puzzle() {
    let mut sudoku = Puzzle::default();
    solve_by_trial_and_error(&mut sudoku);
    assert_eq!(
        text_of(&sudoku),
        "123456789456789123789123456214365897365897214897214365531642978642978531978531642"
    );

    let mut two = puzzle_from(
        "2................................................................................",
    );
    solve_by_trial_and_error(&mut two);
    assert!(two.is_complete());
    assert!(text_of(&two).starts_with("213456789456"));
}

#[test]
fn all_placeholders_parse_to_an_empty_grid_that_search_completes() {
    let mut sudoku = puzzle_from(
        ".................................................................................",
    );
    assert_eq!(sudoku.count_cells_with_value(), 0);
    solve_by_trial_and_error(&mut sudoku);
    assert!(sudoku.is_complete());
    assert!(sudoku.is_valid());
    assert_eq!(sudoku.count_cells_with_value(), 81);
}

#[test]
fn clone_is_independent_of_the_puzzle() {
    let mut puzzle = Puzzle::default();
    let mut copy = puzzle.clone();
    copy.cell_grid.grid[3].set_value(8);
    try_complete_all_cells(&mut copy);
    assert_eq!(puzzle.cell_grid.grid[3].value, None);
    assert_eq!(puzzle.cell_grid.grid[4].potentially_valid_values.len(), 9);
    assert_eq!(copy.cell_grid.grid[4].potentially_valid_values.len(), 8);
    puzzle.cell_grid.grid[80].set_value(1);
    assert_eq!(copy.cell_grid.grid[80].value, None);
    assert_eq!(copy.rows[8].cells, vec![72, 73, 74, 75, 76, 77, 78, 79, 80]);
    assert_eq!(copy.columns[2].cells, vec![2, 11, 20, 29, 38, 47, 56, 65, 74]);
    assert_eq!(copy.blocks[4].cells, vec![30, 31, 32, 39, 40, 41, 48, 49, 50]);
}
