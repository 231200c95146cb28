use fluvial::order::{
    distance_between, find_terminus, order_starts, pairs_to_measure, span_ends, Distances,
};
use fluvial::records::{FirstLastSeq, SequenceError};

fn span(first: u32, last: u32, shape: &str) -> FirstLastSeq {
    FirstLastSeq { first, last, shape_id: shape.to_string(), len: 2, qty: 1 }
}

fn table(entries: &[(u32, u32, u64)]) -> Distances {
    let mut distances = Distances::new();
    for (from, to, d) in entries {
        distances.insert((*from, *to), *d);
    }
    distances
}

#[test]
fn nearest_start_is_placed_next() {
    let spans = vec![span(1, 10, "A"), span(2, 20, "B"), span(3, 30, "C")];
    let distances = table(&[
        (10, 10, 0),
        (10, 2, 50),
        (10, 3, 40),
        (30, 30, 0),
        (30, 2, 5),
        (20, 20, 0),
    ]);
    assert_eq!(order_starts(1, vec![2, 3], &spans, &distances), Ok(vec![1, 3, 2]));
}

#[test]
fn smaller_stop_id_is_placed_first_of_equally_near_starts() {
    let spans = vec![span(1, 10, "A"), span(2, 20, "B"), span(3, 30, "C")];
    let distances = table(&[
        (10, 10, 0),
        (10, 2, 40),
        (10, 3, 40),
        (20, 20, 0),
        (20, 3, 1),
        (30, 30, 0),
    ]);
    assert_eq!(order_starts(1, vec![2, 3], &spans, &distances), Ok(vec![1, 2, 3]));
    assert_eq!(order_starts(1, vec![3, 2], &spans, &distances), Ok(vec![1, 2, 3]));
}

#[test]
fn oracle_alone_is_the_whole_order() {
    let spans = vec![span(1, 10, "A")];
    let distances = table(&[(10, 10, 0)]);
    assert_eq!(order_starts(1, Vec::new(), &spans, &distances), Ok(vec![1]));
}

#[test]
fn start_without_a_span_is_an_error() {
    let spans = vec![span(1, 10, "A"), span(2, 20, "B")];
    let distances = table(&[(10, 10, 0), (10, 2, 1), (10, 3, 2), (20, 20, 0), (20, 3, 1)]);
    assert_eq!(
        order_starts(1, vec![2, 3], &spans, &distances),
        Err(SequenceError::MissingSpan)
    );
    assert_eq!(
        order_starts(1, Vec::new(), &Vec::new(), &distances),
        Err(SequenceError::MissingSpan)
    );
}

#[test]
fn end_of_unknown_position_is_an_error() {
    let spans = vec![span(1, 10, "A"), span(2, 20, "B")];
    let distances = table(&[(10, 2, 1), (20, 20, 0)]);
    assert_eq!(
        order_starts(1, vec![2], &spans, &distances),
        Err(SequenceError::MissingCoordinates)
    );
}

#[test]
fn end_of_the_last_start_must_have_a_position_too() {
    let spans = vec![span(1, 10, "A"), span(2, 20, "B")];
    let distances = table(&[(10, 10, 0), (10, 2, 1)]);
    assert_eq!(
        order_starts(1, vec![2], &spans, &distances),
        Err(SequenceError::MissingCoordinates)
    );
}

#[test]
fn start_of_unknown_position_is_an_error() {
    let spans = vec![span(1, 10, "A"), span(2, 20, "B"), span(3, 30, "C")];
    let distances = table(&[(10, 10, 0), (10, 2, 1), (20, 20, 0), (30, 30, 0)]);
    assert_eq!(
        order_starts(1, vec![2, 3], &spans, &distances),
        Err(SequenceError::MissingCoordinates)
    );
}

#[test]
fn missing_span_is_told_before_missing_position() {
    let distances = table(&[]);
    assert_eq!(
        order_starts(1, vec![2], &vec![span(2, 20, "B")], &distances),
        Err(SequenceError::MissingSpan)
    );
}

#[test]
fn first_span_of_a_start_gives_its_end() {
    let spans = vec![span(1, 10, "A"), span(1, 11, "B"), span(2, 20, "C")];
    assert_eq!(find_terminus(&spans, 1), Some(10));
    assert_eq!(find_terminus(&spans, 2), Some(20));
    assert_eq!(find_terminus(&spans, 3), None);
}

#[test]
fn distance_is_looked_up_by_direction() {
    let distances = table(&[(1, 2, 7)]);
    assert_eq!(distance_between(&distances, 1, 2), Some(7));
    assert_eq!(distance_between(&distances, 2, 1), None);
}

#[test]
fn span_ends_are_listed_once() {
    let spans = vec![span(1, 30, "A"), span(2, 10, "B"), span(3, 30, "C")];
    assert_eq!(span_ends(&spans), vec![10, 30]);
    assert_eq!(span_ends(&Vec::new()), Vec::<u32>::new());
}

#[test]
fn pairs_run_from_every_end_to_itself_and_to_every_start() {
    let spans = vec![span(1, 30, "A"), span(2, 10, "B")];
    let mut pairs = pairs_to_measure(&spans, &vec![1, 2]);
    pairs.sort_unstable();
    pairs.dedup();
    assert_eq!(pairs, vec![(10, 1), (10, 2), (10, 10), (30, 1), (30, 2), (30, 30)]);
}

#[test]
fn measured_pairs_are_enough_to_order_the_starts() {
    let spans = vec![span(1, 10, "A"), span(2, 20, "B"), span(3, 30, "C")];
    let firsts = vec![1, 2, 3];
    let mut distances = Distances::new();
    for (from, to) in pairs_to_measure(&spans, &firsts) {
        distances.insert((from, to), (u64::from(from) * 7 + u64::from(to) * 3) % 11);
    }
    let order = order_starts(1, vec![2, 3], &spans, &distances).unwrap();
    assert_eq!(order.len(), 3);
    assert_eq!(order[0], 1);
}
