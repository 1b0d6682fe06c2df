use sudoku_solver::pretty::aliases::Iteratable;
use sudoku_solver::pretty::iterable::SubsetComparable;

#[test]
fn is_superset_of_be_true_when_this_contains_all_of_other() {
    let is_superset = vec![1, 2, 3, 4].is_superset_of(&vec![1, 2, 3]);
    assert!(is_superset);
}

#[test]
fn is_superset_of_be_true_when_this_contains_exactly_same_elements_as_other() {
    let is_superset = vec![1, 2, 3].is_superset_of(&vec![1, 2, 3]);
    assert!(is_superset);
}

#[test]
fn is_subset_of_be_true_when_other_contains_all_of_this() {
    let is_subset = vec![1, 3, 2].is_subset_of(&vec![2, 4, 3, 1]);
    assert!(is_subset);
}

#[test]
fn is_superset_of_be_true_when_other_contains_exactly_same_elements_as_this() {
    let is_subset = vec![1, 2, 3, 4].is_subset_of(&vec![1, 3, 2, 4]);
    assert!(is_subset);
}

#[test]
fn collection_equals_be_true_when_contains_same_elements() {
    let is_subset = vec![1, 2, 5].collection_equals(&vec![2, 5, 1]);
    assert!(is_subset);
}

#[test]
fn collection_equals_be_false_when_any_element_different() {
    let is_subset = vec![1, 2, 4].collection_equals(&vec![1, 2, 5]);
    assert!(!is_subset);
}

#[test]
fn is_subset_of_be_false_when_other_lacks_an_element() {
    assert!(!vec![1, 2, 9].is_subset_of(&vec![1, 2, 3]));
    assert!(!vec![1, 2].is_superset_of(&vec![1, 2, 3]));
}

#[test]
fn subset_comparisons_ignore_order_and_repetition() {
    assert!(vec![3, 3, 1].is_subset_of(&vec![1, 3]));
    assert!(vec![3, 3, 1].collection_equals(&vec![1, 3, 1]));
    let nothing: Vec<u8> = Vec::new();
    assert!(nothing.is_subset_of(&vec![1]));
    assert!(!vec![1u8].is_subset_of(&nothing));
}

#[test]
fn iterate_walks_the_items_first_to_last() {
    let items = vec![3, 1, 2];
    let walked: Vec<i32> = items.iterate().cloned().collect();
    assert_eq!(walked, vec![3, 1, 2]);
    let nothing: Vec<u8> = Vec::new();
    assert_eq!(nothing.iterate().count(), 0);
}
