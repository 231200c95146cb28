use fluvial::oracle::{
    boardings_at, first_stops, firsts_weight_of, is_impure_stop, select_oracle,
};
use fluvial::records::{SequenceError, StopSeq};
use std::collections::BTreeMap;

fn visit(stop_id: u32, stop_sequence: u32, shape: &str, qty: u32) -> StopSeq {
    StopSeq { stop_id, stop_sequence, shape_id: shape.to_string(), qty }
}

#[test]
fn pure_start_is_chosen_over_a_busier_impure_one() {
    // Both starts weigh 5; stop 20 has more boardings but is also visited
    // later on by another shape.
    let rows = vec![visit(10, 1, "A", 5), visit(20, 2, "A", 5), visit(20, 1, "B", 5)];
    let mut boardings = BTreeMap::new();
    boardings.insert(10, 3);
    boardings.insert(20, 7);
    assert_eq!(select_oracle(&rows, &boardings), Ok(10));
}

#[test]
fn boardings_decide_between_starts_of_equal_weight() {
    let rows = vec![
        visit(10, 1, "A", 5),
        visit(20, 2, "A", 5),
        visit(20, 1, "B", 5),
        visit(10, 2, "B", 5),
    ];
    let mut boardings = BTreeMap::new();
    boardings.insert(10, 3);
    boardings.insert(20, 7);
    assert_eq!(select_oracle(&rows, &boardings), Ok(20));
}

#[test]
fn weight_decides_before_boardings() {
    let rows = vec![visit(10, 1, "A", 6), visit(20, 1, "B", 5)];
    let mut boardings = BTreeMap::new();
    boardings.insert(10, 0);
    boardings.insert(20, 1000);
    assert_eq!(select_oracle(&rows, &boardings), Ok(10));
}

#[test]
fn greater_stop_id_decides_last() {
    let rows = vec![visit(10, 1, "A", 5), visit(20, 1, "B", 5)];
    assert_eq!(select_oracle(&rows, &BTreeMap::new()), Ok(20));
}

#[test]
fn weights_of_a_start_add_up_over_its_shapes() {
    let rows = vec![
        visit(10, 1, "A", 3),
        visit(10, 1, "B", 3),
        visit(20, 1, "C", 5),
    ];
    assert_eq!(firsts_weight_of(&rows, 10), 6);
    assert_eq!(firsts_weight_of(&rows, 20), 5);
    assert_eq!(firsts_weight_of(&rows, 30), 0);
    assert_eq!(select_oracle(&rows, &BTreeMap::new()), Ok(10));
}

#[test]
fn weights_do_not_wrap() {
    let rows = vec![visit(10, 1, "A", u32::MAX), visit(10, 1, "B", u32::MAX)];
    assert_eq!(firsts_weight_of(&rows, 10), 2 * (u32::MAX as u128));
}

#[test]
fn no_observations_is_no_data() {
    assert_eq!(select_oracle(&Vec::new(), &BTreeMap::new()), Err(SequenceError::NoData));
}

#[test]
fn observations_without_a_start_are_no_data() {
    let rows = vec![visit(10, 2, "A", 5), visit(20, 3, "A", 5)];
    assert_eq!(select_oracle(&rows, &BTreeMap::new()), Err(SequenceError::NoData));
}

#[test]
fn ordinal_zero_counts_as_a_start() {
    let rows = vec![visit(10, 0, "A", 5), visit(20, 2, "A", 5)];
    assert_eq!(select_oracle(&rows, &BTreeMap::new()), Ok(10));
}

#[test]
fn first_stops_are_listed_once_in_ascending_order() {
    let rows = vec![
        visit(30, 1, "A", 1),
        visit(40, 2, "A", 1),
        visit(10, 1, "B", 1),
        visit(30, 1, "C", 1),
        visit(20, 1, "D", 1),
    ];
    assert_eq!(first_stops(&rows), vec![10, 20, 30]);
    assert_eq!(first_stops(&Vec::new()), Vec::<u32>::new());
}

#[test]
fn impure_stops_are_those_visited_later_on() {
    let rows = vec![visit(10, 1, "A", 1), visit(20, 2, "A", 1), visit(20, 1, "B", 1)];
    assert!(!is_impure_stop(&rows, 10));
    assert!(is_impure_stop(&rows, 20));
    assert!(!is_impure_stop(&rows, 30));
}

#[test]
fn boardings_missing_count_as_zero() {
    let mut boardings = BTreeMap::new();
    boardings.insert(10, 3);
    assert_eq!(boardings_at(&boardings, 10), 3);
    assert_eq!(boardings_at(&boardings, 11), 0);
}
