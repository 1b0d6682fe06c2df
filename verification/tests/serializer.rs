use regex::Regex;
use sudoku_solver::sudoku::domain::consts::{
    PUZZLE_DIMENTION, PUZZLE_MAXIMUM_VALUE, PUZZLE_TOTAL_CELL_COUNT,
};
use sudoku_solver::sudoku::domain::game::Game;
use sudoku_solver::sudoku::format::notation::{is_well_shaped, values_from_input};
use sudoku_solver::sudoku::format::serializer::{game_from_input, Serializer};

fn repeat_value_times(repeat_this: &str, times: usize) -> String {
    let repeated_values: Vec<String> =
        std::iter::repeat(repeat_this.to_string()).take(times).collect();
    return repeated_values.join("");
}

#[test]
fn serializer_can_parse_return_true_when_81_periods() {
    let serializer = Serializer::new();
    let can_parse = serializer.can_parse(&repeat_value_times(".", PUZZLE_TOTAL_CELL_COUNT));
    assert!(can_parse);
}

#[test]
fn serializer_can_parse_return_false_when_not_exactly_81_elements() {
    let serializer = Serializer::new();
    let can_parse_80 =
        serializer.can_parse(&repeat_value_times(".", PUZZLE_TOTAL_CELL_COUNT - 1));
    assert_eq!(can_parse_80, false);
    let can_parse_82 =
        serializer.can_parse(&repeat_value_times(".", PUZZLE_TOTAL_CELL_COUNT + 1));
    assert_eq!(can_parse_82, false);
}

#[test]
fn serializer_can_parse_return_true_when_81_digits() {
    let serializer = Serializer::new();

    for value in 1..=PUZZLE_MAXIMUM_VALUE {
        let can_parse =
            serializer.can_parse(&repeat_value_times(&value.to_string(), PUZZLE_TOTAL_CELL_COUNT));
        assert!(can_parse);
    }
}

#[test]
fn serializer_can_parse_return_true_when_any_mix_of_digits_and_periods() {
    let serializer = Serializer::new();
    let can_parse = serializer.can_parse(
        "123..............456..................789.................147..........258....369",
    );
    assert!(can_parse);
}

#[test]
fn deserialze_then_serialize_returns_same_string() {
    let serializer = Serializer::new();

    let test_cases = vec![
        "123..............456..................789.................147..........258....369"
            .to_string(),
        repeat_value_times(".", PUZZLE_TOTAL_CELL_COUNT),
        repeat_value_times("9", PUZZLE_TOTAL_CELL_COUNT),
        repeat_value_times("123456789", PUZZLE_DIMENTION),
    ];

    for expected in test_cases {
        let game = serializer.new_game(&expected).ok().expect("test data is confirmed correct");
        let actual = serializer.serialize_to_string(&game);

        assert_eq!(actual, expected);
    }
}

#[test]
fn serializer_can_parse_return_false_when_any_invalid_character() {
    let serializer = Serializer::new();
    let can_parse = serializer.can_parse(&repeat_value_times("a", PUZZLE_TOTAL_CELL_COUNT));
    assert_eq!(can_parse, false);
}

#[test]
fn serializer_to_grid_returns_err_when_invalid_input() {
    let serializer = Serializer::new();
    let cell_grid_result = serializer.new_game("invalid");
    assert!(cell_grid_result.is_err());
}

#[test]
fn serializer_to_grid_returns_empty_grid_when_all_periods() {
    let serializer = Serializer::new();
    let empty = repeat_value_times(".", PUZZLE_TOTAL_CELL_COUNT);
    let result = serializer.new_game(&empty);
    assert!(result.is_ok());
    result
        .ok()
        .unwrap()
        .cell_grid
        .grid
        .iter()
        .for_each(|cell| assert_eq!(cell.value, None))
}

#[test]
fn serializer_to_grid_returns_value_from_string() {
    let serializer = Serializer::new();

    let expected: u8 = 1;
    let mut string_representation = expected.to_string().as_str().to_owned();
    string_representation.push_str(&repeat_value_times(".", PUZZLE_TOTAL_CELL_COUNT - 1));

    let result = serializer.new_game(&string_representation);

    assert!(result.is_ok());
    let found_value = result.ok().unwrap().cell_grid.cell(0, 0).value;
    assert!(found_value.is_some());
    assert_eq!(found_value.unwrap(), expected)
}

#[test]
fn serializer_to_grid_returns_filled_in_grid() {
    let serializer = Serializer::new();

    let string_representation = repeat_value_times("123456789", PUZZLE_DIMENTION);

    let row: [Option<u8>; PUZZLE_DIMENTION] = (1..=PUZZLE_MAXIMUM_VALUE)
        .map(|value| Some(value))
        .collect::<Vec<_>>()
        .try_into()
        .unwrap();
    let expected_values: [[Option<u8>; PUZZLE_DIMENTION]; PUZZLE_DIMENTION] =
        core::array::from_fn(|_i| row.clone());

    let result = serializer.new_game(&string_representation);
    assert!(result.is_ok());

    let game = result.ok().unwrap();

    for row in 0..PUZZLE_DIMENTION {
        for column in 0..PUZZLE_DIMENTION {
            let actual = game.cell_grid.cell(row, column).value;
            assert!(actual.is_some());
            let expected = expected_values[row][column]
                .expect("there should be a value here according to the test setup");

            assert_eq!(expected, actual.unwrap());
        }
    }
}

#[test]
fn serializer_error_quotes_the_input_and_the_pattern() {
    let serializer = Serializer::new();
    let message = serializer.new_game("invalid").err().unwrap();
    assert_eq!(
        message,
        "The input 'invalid' wasn't understood as notation for a sudoku game. Expected a string matching ^[1-9.]{81}$"
    );
}

#[test]
fn game_from_input_follows_the_verdict_it_is_given() {
    let text = repeat_value_times("123456789", PUZZLE_DIMENTION);
    assert!(game_from_input(false, &text).is_err());
    assert_eq!(
        game_from_input(true, "12").err().unwrap(),
        "The input '12' wasn't understood as notation for a sudoku game. Expected a string matching ^[1-9.]{81}$"
    );
    let game = game_from_input(true, &text).ok().unwrap();
    assert_eq!(game.count_cells_with_value(), 81);
    assert_eq!(game.cell_grid.cell(3, 4).value, Some(5));
}

#[test]
fn is_well_shaped_checks_length_and_characters() {
    assert!(is_well_shaped(&repeat_value_times(".", 81)));
    assert!(is_well_shaped(&repeat_value_times("123456789", 9)));
    assert!(!is_well_shaped(&repeat_value_times(".", 80)));
    assert!(!is_well_shaped(&repeat_value_times(".", 82)));
    assert!(!is_well_shaped(&repeat_value_times("0", 81)));
    assert!(!is_well_shaped(&repeat_value_times("x", 81)));
    assert!(!is_well_shaped(&repeat_value_times("é", 81)));
}

#[test]
fn values_from_input_reads_digits_row_by_row() {
    let values = values_from_input("12.x0");
    assert_eq!(values[0][0], Some(1));
    assert_eq!(values[0][1], Some(2));
    assert_eq!(values[0][2], None);
    assert_eq!(values[0][3], None);
    assert_eq!(values[0][4], Some(0));
    assert_eq!(values[0][5], None);
    let text = "534678912672195348198342567859761423426853791713924856961537284287419635345.86179";
    let values = values_from_input(text);
    assert_eq!(values[8][2], Some(5));
    assert_eq!(values[8][3], None);
    assert_eq!(values[8][4], Some(8));
    assert_eq!(values[1][0], Some(6));
}

#[test]
fn serialize_writes_periods_for_unsettled_cells() {
    let mut game = Game::default();
    game.cell_grid.grid[0].set_value(7);
    game.cell_grid.grid[80].set_value(3);
    let text = Serializer::new().serialize_to_string(&game);
    let mut expected = String::from("7");
    expected.push_str(&repeat_value_times(".", 79));
    expected.push('3');
    assert_eq!(text, expected);
}

#[test]
fn serializer_from_compiled_holds_the_regex_it_is_given() {
    let dots = repeat_value_times(".", PUZZLE_TOTAL_CELL_COUNT);

    let without = Serializer::from_compiled(Regex::new("[unclosed"));
    assert!(!without.can_parse(&dots));
    assert!(without.new_game(&dots).is_err());

    let with = Serializer::from_compiled(Regex::new("^[1-9.]{81}$"));
    assert!(with.can_parse(&dots));
    assert_eq!(with.new_game(&dots).ok().unwrap().count_cells_with_value(), 0);

    let digits_only = Serializer::from_compiled(Regex::new("^[1-9]{81}$"));
    assert!(digits_only.new_game(&dots).is_err());
}
