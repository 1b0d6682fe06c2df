use sudoku_solver::sudoku::domain::consts::{
    PUZZLE_DIMENTION, PUZZLE_MAXIMUM_VALUE, PUZZLE_TOTAL_CELL_COUNT,
};
use regex::Regex;
use sudoku_solver::sudoku::format::parser::{grid_from_input, Parser, NOT_UNDERSTOOD};

fn repeat_value_times(repeat_this: &str, times: usize) -> String {
    let repeated_values: Vec<String> =
        std::iter::repeat(repeat_this.to_string()).take(times).collect();
    return repeated_values.join("");
}

#[test]
fn parser_can_parse_return_true_when_81_periods() {
    let parser = Parser::new();
    let can_parse = parser.can_parse(&repeat_value_times(".", PUZZLE_TOTAL_CELL_COUNT));
    assert!(can_parse);
}

#[test]
fn parser_can_parse_return_false_when_not_exactly_81_elements() {
    let parser = Parser::new();
    let can_parse_80 = parser.can_parse(&repeat_value_times(".", PUZZLE_TOTAL_CELL_COUNT - 1));
    assert_eq!(can_parse_80, false);
    let can_parse_82 = parser.can_parse(&repeat_value_times(".", PUZZLE_TOTAL_CELL_COUNT + 1));
    assert_eq!(can_parse_82, false);
}

#[test]
fn parser_can_parse_return_true_when_81_digits() {
    let parser = Parser::new();

    for value in 1..=PUZZLE_MAXIMUM_VALUE {
        let can_parse =
            parser.can_parse(&repeat_value_times(&value.to_string(), PUZZLE_TOTAL_CELL_COUNT));
        assert!(can_parse);
    }
}

#[test]
fn parser_can_parse_return_true_when_any_mix_of_digits_and_periods() {
    let parser = Parser::new();
    let can_parse = parser.can_parse(
        "123..............456..................789.................147..........258....369",
    );
    assert!(can_parse);
}

#[test]
fn parser_can_parse_return_false_when_any_invalid_character() {
    let parser = Parser::new();
    let can_parse = parser.can_parse(&repeat_value_times("a", PUZZLE_TOTAL_CELL_COUNT));
    assert_eq!(can_parse, false);
}

#[test]
fn parser_to_grid_returns_err_when_invalid_input() {
    let parser = Parser::new();
    let cell_grid_result = parser.to_grid("invalid");
    assert!(cell_grid_result.is_err());
}

#[test]
fn parser_to_grid_returns_empty_grid_when_all_periods() {
    let parser = Parser::new();
    let empty = repeat_value_times(".", PUZZLE_TOTAL_CELL_COUNT);
    let cell_grid_result = parser.to_grid(&empty);
    assert!(cell_grid_result.is_ok());
    cell_grid_result
        .ok()
        .unwrap()
        .grid
        .iter()
        .for_each(|cell| assert_eq!(cell.value, None))
}

#[test]
fn parser_to_grid_returns_value_from_string() {
    let parser = Parser::new();

    let expected: u8 = 1;
    let mut string_representation = expected.to_string().as_str().to_owned();
    string_representation.push_str(&repeat_value_times(".", PUZZLE_TOTAL_CELL_COUNT - 1));

    let cell_grid_result = parser.to_grid(&string_representation);

    assert!(cell_grid_result.is_ok());
    let found_value = cell_grid_result.ok().unwrap().cell(0, 0).value;
    assert!(found_value.is_some());
    assert_eq!(found_value.unwrap(), expected)
}

#[test]
fn parser_to_grid_returns_filled_in_grid() {
    let parser = Parser::new();

    let string_representation = repeat_value_times("123456789", PUZZLE_DIMENTION);

    let row: [Option<u8>; PUZZLE_DIMENTION] = (1..=PUZZLE_MAXIMUM_VALUE)
        .map(|value| Some(value))
        .collect::<Vec<_>>()
        .try_into()
        .unwrap();
    let expected_values: [[Option<u8>; PUZZLE_DIMENTION]; PUZZLE_DIMENTION] =
        core::array::from_fn(|_i| row.clone());

    let cell_grid_result = parser.to_grid(&string_representation);
    assert!(cell_grid_result.is_ok());

    let cell_grid = cell_grid_result.ok().unwrap();

    for row in 0..PUZZLE_DIMENTION {
        for column in 0..PUZZLE_DIMENTION {
            let actual = cell_grid.cell(row, column).value;
            assert!(actual.is_some());
            let expected = expected_values[row][column]
                .expect("there should be a value here according to the test setup");

            assert_eq!(expected, actual.unwrap());
        }
    }
}

#[test]
fn parser_rejects_zero_newline_and_wide_characters() {
    let parser = Parser::new();
    assert!(!parser.can_parse(&repeat_value_times("0", PUZZLE_TOTAL_CELL_COUNT)));
    let mut with_newline = repeat_value_times(".", PUZZLE_TOTAL_CELL_COUNT);
    with_newline.push('\n');
    assert!(!parser.can_parse(&with_newline));
    let mut wide = repeat_value_times(".", PUZZLE_TOTAL_CELL_COUNT - 1);
    wide.push('\u{ff11}');
    assert!(!parser.can_parse(&wide));
    assert!(!parser.can_parse(""));
}

#[test]
fn parser_error_names_the_pattern() {
    let parser = Parser::new();
    assert_eq!(parser.to_grid("12").err().unwrap(), NOT_UNDERSTOOD);
    assert!(NOT_UNDERSTOOD.contains("wasn't understood as notation for a sudoku game"));
}

#[test]
fn grid_from_input_follows_the_verdict_it_is_given() {
    let text = "534678912672195348198342567859761423426853791713924856961537284287419635345.86179";
    assert!(grid_from_input(false, text).is_err());
    assert!(grid_from_input(true, "123").is_err());
    assert!(grid_from_input(true, &text.replace('.', "0")).is_err());
    let grid = grid_from_input(true, text).ok().unwrap();
    assert_eq!(grid.cell(0, 0).value, Some(5));
    assert_eq!(grid.cell(8, 3).value, None);
    assert_eq!(grid.cell(8, 8).value, Some(9));
    assert_eq!(grid.grid.iter().filter(|cell| cell.value.is_none()).count(), 1);
}

#[test]
fn parser_from_compiled_holds_the_regex_it_is_given() {
    let dots = repeat_value_times(".", PUZZLE_TOTAL_CELL_COUNT);

    let without = Parser::from_compiled(Regex::new("("));
    assert!(!without.can_parse(&dots));
    assert!(without.to_grid(&dots).is_err());

    let with = Parser::from_compiled(Regex::new("^[1-9.]{81}$"));
    assert!(with.can_parse(&dots));
    assert!(!with.can_parse("..."));

    // A regex that matches too much: the shape still decides.
    let loose = Parser::from_compiled(Regex::new("."));
    assert!(loose.can_parse(&dots));
    assert!(!loose.can_parse("..."));

    // A regex that matches too little.
    let digits_only = Parser::from_compiled(Regex::new("^[1-9]{81}$"));
    assert!(!digits_only.can_parse(&dots));
    assert!(digits_only.can_parse(&repeat_value_times("7", PUZZLE_TOTAL_CELL_COUNT)));
}
