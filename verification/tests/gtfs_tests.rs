use fluvial::gtfs::make_stop_sequence;
use fluvial::order::Distances;
use fluvial::records::{FirstLastSeq, SequenceError, StopSeq};
use fluvial::shapes::{
    bytes_before, group_sequences, shape_before, shape_starts, stops_of_shape, ShapeStart,
};
use fluvial::stops::{insert_ascending, remove_stop};
use std::collections::BTreeMap;

fn visit(stop_id: u32, stop_sequence: u32, shape: &str, qty: u32) -> StopSeq {
    StopSeq { stop_id, stop_sequence, shape_id: shape.to_string(), qty }
}

fn span(first: u32, last: u32, shape: &str, len: u32) -> FirstLastSeq {
    FirstLastSeq { first, last, shape_id: shape.to_string(), len, qty: 1 }
}

fn table(entries: &[(u32, u32, u64)]) -> Distances {
    let mut distances = Distances::new();
    for (from, to, d) in entries {
        distances.insert((*from, *to), *d);
    }
    distances
}

fn two_shapes() -> Vec<StopSeq> {
    vec![
        visit(1, 1, "A", 4),
        visit(2, 2, "A", 4),
        visit(3, 3, "A", 4),
        visit(4, 4, "A", 4),
        visit(2, 1, "B", 9),
        visit(3, 2, "B", 9),
        visit(5, 3, "B", 9),
    ]
}

#[test]
fn two_shapes_become_one_order() {
    let spans = vec![span(1, 4, "A", 4), span(2, 5, "B", 3)];
    let distances = table(&[(4, 4, 0), (4, 2, 7), (5, 5, 0)]);
    assert_eq!(
        make_stop_sequence(&two_shapes(), &spans, &BTreeMap::new(), &distances),
        Ok(vec![1, 2, 3, 4, 5])
    );
}

#[test]
fn single_shape_is_its_own_order() {
    let rows = vec![visit(7, 1, "S", 1), visit(8, 2, "S", 1), visit(9, 3, "S", 1)];
    let spans = vec![span(7, 9, "S", 3)];
    let distances = table(&[(9, 9, 0)]);
    assert_eq!(
        make_stop_sequence(&rows, &spans, &BTreeMap::new(), &distances),
        Ok(vec![7, 8, 9])
    );
}

#[test]
fn no_rows_is_no_data() {
    let spans = vec![span(1, 4, "A", 4)];
    assert_eq!(
        make_stop_sequence(&Vec::new(), &spans, &BTreeMap::new(), &Distances::new()),
        Err(SequenceError::NoData)
    );
}

#[test]
fn no_spans_is_a_missing_span() {
    assert_eq!(
        make_stop_sequence(&two_shapes(), &Vec::new(), &BTreeMap::new(), &Distances::new()),
        Err(SequenceError::MissingSpan)
    );
}

#[test]
fn unknown_positions_are_missing_coordinates() {
    let spans = vec![span(1, 4, "A", 4), span(2, 5, "B", 3)];
    assert_eq!(
        make_stop_sequence(&two_shapes(), &spans, &BTreeMap::new(), &Distances::new()),
        Err(SequenceError::MissingCoordinates)
    );
}

#[test]
fn shapes_of_one_start_are_merged_in_the_order_of_their_ids() {
    // Both shapes start at 1. Shape A is merged first although its rows come last.
    let rows = vec![
        visit(1, 1, "B", 1),
        visit(7, 2, "B", 1),
        visit(1, 1, "A", 1),
        visit(8, 2, "A", 1),
    ];
    let spans = vec![span(1, 8, "A", 2), span(1, 7, "B", 2)];
    let distances = table(&[(8, 8, 0)]);
    assert_eq!(
        make_stop_sequence(&rows, &spans, &BTreeMap::new(), &distances),
        Ok(vec![1, 8, 7])
    );
}

#[test]
fn nearer_start_is_merged_before_a_farther_one() {
    // Three shapes with pure starts 1, 2 and 3; 1 weighs most. From the end
    // of the shape at 1, start 3 is nearer than start 2.
    let rows = vec![
        visit(1, 1, "A", 9),
        visit(10, 2, "A", 9),
        visit(2, 1, "B", 1),
        visit(20, 2, "B", 1),
        visit(3, 1, "C", 1),
        visit(30, 2, "C", 1),
    ];
    let spans = vec![span(1, 10, "A", 2), span(2, 20, "B", 2), span(3, 30, "C", 2)];
    let distances = table(&[
        (10, 10, 0),
        (10, 2, 900),
        (10, 3, 100),
        (30, 30, 0),
        (30, 2, 5),
        (20, 20, 0),
    ]);
    assert_eq!(
        make_stop_sequence(&rows, &spans, &BTreeMap::new(), &distances),
        Ok(vec![1, 10, 3, 30, 2, 20])
    );
}

#[test]
fn boardings_choose_the_start_of_the_order() {
    // Starts 1 and 2 are equal in weight and both pure.
    let rows = vec![
        visit(1, 1, "A", 5),
        visit(10, 2, "A", 5),
        visit(2, 1, "B", 5),
        visit(20, 2, "B", 5),
    ];
    let spans = vec![span(1, 10, "A", 2), span(2, 20, "B", 2)];
    let distances = table(&[(10, 10, 0), (10, 2, 1), (20, 20, 0), (20, 1, 1)]);
    let mut boardings = BTreeMap::new();
    boardings.insert(1, 50);
    boardings.insert(2, 40);
    assert_eq!(
        make_stop_sequence(&rows, &spans, &boardings, &distances),
        Ok(vec![1, 10, 2, 20])
    );
    boardings.insert(2, 60);
    assert_eq!(
        make_stop_sequence(&rows, &spans, &boardings, &distances),
        Ok(vec![2, 20, 1, 10])
    );
}

#[test]
fn order_of_a_route_holds_no_stop_twice() {
    let rows = vec![
        visit(1, 1, "A", 2),
        visit(2, 2, "A", 2),
        visit(3, 3, "A", 2),
        visit(1, 4, "A", 2),
        visit(3, 1, "B", 1),
        visit(2, 2, "B", 1),
        visit(6, 3, "B", 1),
    ];
    let spans = vec![span(1, 1, "A", 4), span(3, 6, "B", 3)];
    let distances = table(&[(1, 1, 0), (1, 3, 4), (6, 6, 0), (6, 1, 2)]);
    let order = make_stop_sequence(&rows, &spans, &BTreeMap::new(), &distances).unwrap();
    for stop in [1, 2, 3, 6] {
        assert_eq!(order.iter().filter(|s| **s == stop).count(), 1);
    }
    assert_eq!(order.len(), 4);
}

#[test]
fn shape_ids_are_ordered_as_strings_are() {
    assert!(shape_before(&"A".to_string(), &"B".to_string()));
    assert!(!shape_before(&"B".to_string(), &"A".to_string()));
    assert!(!shape_before(&"A".to_string(), &"A".to_string()));
    assert!(shape_before(&"A".to_string(), &"AA".to_string()));
    assert!(shape_before(&"".to_string(), &"A".to_string()));
    assert!(shape_before(&"10".to_string(), &"9".to_string()));
    assert!(shape_before(&"Z".to_string(), &"a".to_string()));
    assert!(shape_before(&"z".to_string(), &"é".to_string()));
    for (a, b) in [("A", "B"), ("abc", "abd"), ("x", "x"), ("é", "z"), ("", "")] {
        assert_eq!(shape_before(&a.to_string(), &b.to_string()), a < b);
        assert_eq!(shape_before(&b.to_string(), &a.to_string()), b < a);
    }
    assert!(bytes_before(&[1, 2], &[1, 3]));
    assert!(!bytes_before(&[1, 3], &[1, 2]));
}

#[test]
fn shape_starts_are_listed_by_shape_id() {
    let rows = vec![
        visit(5, 1, "C", 1),
        visit(6, 2, "C", 1),
        visit(7, 1, "A", 1),
        visit(9, 2, "B", 1),
        visit(8, 1, "C", 1),
    ];
    // Shape B has no start and is left out; the start of C is that of its last row.
    assert_eq!(
        shape_starts(&rows),
        vec![
            ShapeStart { shape: "A".to_string(), start: 7 },
            ShapeStart { shape: "C".to_string(), start: 8 },
        ]
    );
}

#[test]
fn stops_of_a_shape_are_taken_in_row_order() {
    let rows = vec![
        visit(5, 1, "C", 1),
        visit(7, 1, "A", 1),
        visit(6, 2, "C", 1),
        visit(5, 3, "C", 1),
    ];
    assert_eq!(stops_of_shape(&rows, &"C".to_string()), vec![5, 6, 5]);
    assert_eq!(stops_of_shape(&rows, &"A".to_string()), vec![7]);
    assert_eq!(stops_of_shape(&rows, &"B".to_string()), Vec::<u32>::new());
}

#[test]
fn groups_follow_the_order_of_starts() {
    let rows = vec![
        visit(1, 1, "A", 1),
        visit(2, 2, "A", 1),
        visit(3, 1, "B", 1),
        visit(4, 2, "B", 1),
        visit(1, 1, "C", 1),
        visit(5, 2, "C", 1),
    ];
    assert_eq!(
        group_sequences(&rows, &vec![3, 1]),
        vec![vec![3, 4], vec![1, 2], vec![1, 5]]
    );
    assert_eq!(group_sequences(&rows, &vec![9]), Vec::<Vec<u32>>::new());
}

#[test]
fn ascending_list_takes_each_stop_once() {
    let mut stops = Vec::new();
    for stop in [5, 1, 9, 5, 3, 1] {
        insert_ascending(&mut stops, stop);
    }
    assert_eq!(stops, vec![1, 3, 5, 9]);
    assert_eq!(remove_stop(&stops, 5), vec![1, 3, 9]);
    assert_eq!(remove_stop(&stops, 4), vec![1, 3, 5, 9]);
}

#[test]
fn ordinals_need_not_be_contiguous() {
    let rows = vec![visit(7, 1, "S", 1), visit(8, 4, "S", 1), visit(9, 9, "S", 1)];
    let spans = vec![span(7, 9, "S", 9)];
    let distances = table(&[(9, 9, 0)]);
    assert_eq!(
        fluvial::gtfs::make_stop_sequence(&rows, &spans, &BTreeMap::new(), &distances),
        Ok(vec![7, 8, 9])
    );
}

#[test]
fn shape_without_a_start_is_left_out() {
    // Shape T is never seen at an ordinal below 2.
    let rows = vec![
        visit(7, 1, "S", 1),
        visit(8, 2, "S", 1),
        visit(5, 2, "T", 1),
        visit(6, 3, "T", 1),
    ];
    let spans = vec![span(7, 8, "S", 2)];
    let distances = table(&[(8, 8, 0)]);
    assert_eq!(
        make_stop_sequence(&rows, &spans, &BTreeMap::new(), &distances),
        Ok(vec![7, 8])
    );
}

#[test]
fn merge_is_reached_through_the_route_module_too() {
    assert_eq!(fluvial::gtfs::topo_merge(vec![vec![1, 2]]), Ok(vec![1, 2]));
    assert_eq!(
        fluvial::gtfs::topo_merge(Vec::new()),
        Err(fluvial::gtfs::SequenceError::EmptyInput)
    );
}
