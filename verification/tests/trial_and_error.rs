use sudoku_solver::sudoku::domain::puzzle::Puzzle;
use sudoku_solver::sudoku::domain::validatable_units::PuzzleValidator;
use sudoku_solver::sudoku::format::serializer::Serializer;
use sudoku_solver::sudoku::techniques::conjugate_groups::eliminate_candidates_from_closed_groups;
use sudoku_solver::sudoku::techniques::trial_and_error::solve_by_trial_and_error;

#[test]
fn solve_by_trial_and_error_solve_empty_puzzle() {
    let mut sudoku = Puzzle::default();

    solve_by_trial_and_error(&mut sudoku);

    assert!(sudoku.is_complete());
}

#[test]
fn solve_by_trial_and_error_solve_puzzle_not_solved_by_other_means() {
    let text = "8..........36......7..9.2...5...7.......457.....1...3...1....68..85...1..9....4..";
    let serializer = Serializer::new();

    let mut propagated = serializer.new_game(text).ok().expect("the test data should be correct");
    eliminate_candidates_from_closed_groups(&mut propagated);
    assert!(propagated.is_valid());
    assert!(!propagated.is_complete());

    let mut sudoku = serializer.new_game(text).ok().expect("the test data should be correct");
    solve_by_trial_and_error(&mut sudoku);
    assert!(sudoku.is_complete());
    assert_eq!(
        serializer.serialize_to_string(&sudoku),
        "812753649943682175675491283154237896369845721287169534521974368438526917796318452"
    );
}
