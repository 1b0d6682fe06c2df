use sudoku_solver::sudoku::domain::cell::Cell;
use sudoku_solver::sudoku::domain::consts::PUZZLE_MAXIMUM_VALUE;

#[test]
fn cell_value_none_by_default() {
    let cell = Cell::new();
    assert_eq!(cell.value, None);
}

#[test]
fn cell_set_provided_value_when_in_range() {
    let mut cell = Cell::new();
    for value in 1..=PUZZLE_MAXIMUM_VALUE {
        cell.set_value(value);
        assert_eq!(cell.value.unwrap(), value);
    }
}

#[test]
fn cell_not_set_value_when_out_of_range() {
    const OUT_OF_RANGE: u8 = PUZZLE_MAXIMUM_VALUE + 1;
    let mut cell = Cell::new();
    cell.set_value(OUT_OF_RANGE);
    assert_eq!(cell.value, None);

    const EXPECTED: u8 = PUZZLE_MAXIMUM_VALUE - 1;

    cell.set_value(EXPECTED);
    cell.set_value(OUT_OF_RANGE);
    assert_eq!(cell.value.unwrap(), EXPECTED);
}

#[test]
fn try_complete_value_sets_correct_value() {
    for expected in 1..=PUZZLE_MAXIMUM_VALUE {
        let mut cell = Cell::new();
        let discounted_values: Vec<u8> =
            (1..=PUZZLE_MAXIMUM_VALUE).filter(|&x| x != expected).collect();
        cell.discount_values(&discounted_values);
        cell.try_complete();

        assert!(cell.value.is_some());
        assert_eq!(cell.value.unwrap(), expected);
    }
}

#[test]
fn try_complete_value_does_not_set_value_when_more_than_one_missing_value() {
    let mut cell = Cell::new();
    cell.discount_range(3..=PUZZLE_MAXIMUM_VALUE);
    assert!(cell.value.is_none());
}

#[test]
fn from_value_give_cell_with_set_value() {
    let cell = Cell::from_value(Some(5));
    assert_eq!(cell.value.unwrap_or_default(), 5);
}

#[test]
fn from_value_give_cell_with_none_when_out_of_range() {
    let cell = Cell::from_value(Some(PUZZLE_MAXIMUM_VALUE + 1));
    assert!(cell.value.is_none());
}

#[test]
fn from_value_give_cell_with_none_when_none_given() {
    let cell = Cell::from_value(None);
    assert!(cell.value.is_none());
}

#[test]
fn new_cell_has_every_candidate_and_nothing_discounted() {
    let cell = Cell::new();
    assert_eq!(cell.potentially_valid_values, vec![1, 2, 3, 4, 5, 6, 7, 8, 9]);
    assert!(cell.discounted_values.is_empty());
}

#[test]
fn set_value_clears_both_lists() {
    let mut cell = Cell::new();
    cell.discount_value(4);
    cell.set_value(7);
    assert_eq!(cell.value, Some(7));
    assert!(cell.potentially_valid_values.is_empty());
    assert!(cell.discounted_values.is_empty());
}

#[test]
fn set_value_out_of_domain_leaves_cell_unchanged() {
    for out_of_domain in [0u8, 10, 200, 255] {
        let mut cell = Cell::new();
        cell.discount_value(2);
        cell.discount_value(8);
        cell.set_value(out_of_domain);
        assert_eq!(cell.value, None);
        assert_eq!(cell.potentially_valid_values, vec![1, 3, 4, 5, 6, 7, 9]);
        assert_eq!(cell.discounted_values, vec![2, 8]);

        let mut settled = Cell::from_value(Some(3));
        settled.set_value(out_of_domain);
        assert_eq!(settled.value, Some(3));
        assert!(settled.potentially_valid_values.is_empty());
        assert!(settled.discounted_values.is_empty());
    }
}

#[test]
fn discount_value_moves_value_and_is_idempotent() {
    let mut cell = Cell::new();
    cell.discount_value(5);
    assert_eq!(cell.potentially_valid_values, vec![1, 2, 3, 4, 6, 7, 8, 9]);
    assert_eq!(cell.discounted_values, vec![5]);
    cell.discount_value(5);
    assert_eq!(cell.potentially_valid_values, vec![1, 2, 3, 4, 6, 7, 8, 9]);
    assert_eq!(cell.discounted_values, vec![5]);
}

#[test]
fn discount_value_out_of_domain_is_ignored() {
    let mut cell = Cell::new();
    cell.discount_value(0);
    cell.discount_value(10);
    assert_eq!(cell.potentially_valid_values, vec![1, 2, 3, 4, 5, 6, 7, 8, 9]);
    assert!(cell.discounted_values.is_empty());
}

#[test]
fn discount_value_leaves_settled_cell_alone() {
    let mut cell = Cell::from_value(Some(6));
    cell.discount_value(2);
    cell.add_candidate(2);
    assert_eq!(cell.value, Some(6));
    assert!(cell.potentially_valid_values.is_empty());
    assert!(cell.discounted_values.is_empty());
}

#[test]
fn add_candidate_is_inverse_of_discount() {
    let mut cell = Cell::new();
    cell.discount_value(9);
    cell.discount_value(1);
    cell.add_candidate(9);
    assert_eq!(cell.potentially_valid_values, vec![2, 3, 4, 5, 6, 7, 8, 9]);
    assert_eq!(cell.discounted_values, vec![1]);
    cell.add_candidate(12);
    assert_eq!(cell.potentially_valid_values, vec![2, 3, 4, 5, 6, 7, 8, 9]);
}

#[test]
fn discount_range_discounts_the_values_of_the_range() {
    let mut cell = Cell::new();
    cell.discount_range(1..=7);
    assert_eq!(cell.potentially_valid_values, vec![8, 9]);
    assert_eq!(cell.discounted_values, vec![1, 2, 3, 4, 5, 6, 7]);

    let mut wide = Cell::new();
    wide.discount_range(0..=255);
    assert!(wide.potentially_valid_values.is_empty());
    assert_eq!(wide.value, None);

    let mut walked = Cell::new();
    let mut range = 1..=3;
    range.next();
    walked.discount_range(range);
    assert_eq!(walked.potentially_valid_values, vec![1, 4, 5, 6, 7, 8, 9]);
}

#[test]
fn try_complete_does_nothing_without_exactly_one_candidate() {
    let mut cell = Cell::new();
    cell.discount_range(1..=9);
    cell.try_complete();
    assert_eq!(cell.value, None);

    let mut two = Cell::new();
    two.discount_range(3..=9);
    two.try_complete();
    assert_eq!(two.value, None);
    assert_eq!(two.potentially_valid_values, vec![1, 2]);
}

#[test]
fn clone_shares_nothing() {
    let mut cell = Cell::new();
    cell.discount_value(3);
    let mut copy = cell.clone();
    copy.set_value(4);
    assert_eq!(cell.value, None);
    assert_eq!(cell.potentially_valid_values, vec![1, 2, 4, 5, 6, 7, 8, 9]);
    assert_eq!(copy.value, Some(4));
}
