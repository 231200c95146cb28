use fluvial::merge::{append_stops, find_stop, splice_stops, topo_merge};
use fluvial::records::SequenceError;

#[test]
fn single_shape_is_kept_as_it_is() {
    assert_eq!(topo_merge(vec![vec![1, 2, 3, 4]]), Ok(vec![1, 2, 3, 4]));
}

#[test]
fn second_shape_converges_on_the_first() {
    assert_eq!(topo_merge(vec![vec![1, 2, 3, 4], vec![2, 3, 5]]), Ok(vec![1, 2, 3, 4, 5]));
}

#[test]
fn loop_back_to_the_start_is_cut() {
    assert_eq!(topo_merge(vec![vec![1, 2, 3, 1]]), Ok(vec![1, 2, 3]));
}

#[test]
fn no_sequences_is_an_error() {
    assert_eq!(topo_merge(Vec::new()), Err(SequenceError::EmptyInput));
}

#[test]
fn empty_sequences_give_an_empty_order() {
    assert_eq!(topo_merge(vec![Vec::new(), Vec::new()]), Ok(Vec::new()));
}

#[test]
fn earlier_stops_are_put_before_a_stop_already_placed() {
    // The second shape reaches 3, which the first has placed: 1 and 2 go before it.
    assert_eq!(topo_merge(vec![vec![3, 4], vec![1, 2, 3]]), Ok(vec![1, 2, 3, 4]));
}

#[test]
fn stops_after_the_last_shared_stop_go_to_the_end() {
    assert_eq!(
        topo_merge(vec![vec![1, 2, 3], vec![9, 2, 8, 7]]),
        Ok(vec![1, 9, 2, 3, 8, 7])
    );
}

#[test]
fn shapes_that_agree_at_their_front_are_taken_together() {
    // All three start with 1; the later two lose it when the first is taken.
    assert_eq!(
        topo_merge(vec![vec![1, 2], vec![1, 3], vec![1, 4]]),
        Ok(vec![1, 2, 3, 4])
    );
}

#[test]
fn loop_within_a_shape_keeps_the_first_visit_only() {
    assert_eq!(topo_merge(vec![vec![1, 2, 3, 2, 4]]), Ok(vec![1, 2, 3, 4]));
}

#[test]
fn loop_cut_leaves_later_shapes_to_merge_into_place() {
    assert_eq!(topo_merge(vec![vec![1, 2, 1], vec![2, 1, 5]]), Ok(vec![1, 2, 5]));
    assert_eq!(topo_merge(vec![vec![1, 2, 1], vec![7, 1, 5]]), Ok(vec![7, 1, 2, 5]));
}

#[test]
fn merged_order_holds_every_stop_once() {
    let shapes = vec![
        vec![10, 20, 30, 40, 50],
        vec![15, 20, 25, 40, 45],
        vec![50, 10, 60],
        vec![70, 30, 70, 80],
    ];
    let merged = topo_merge(shapes.clone()).unwrap();
    for shape in &shapes {
        for stop in shape {
            assert_eq!(merged.iter().filter(|s| *s == stop).count(), 1);
        }
    }
    for stop in &merged {
        assert!(shapes.iter().any(|shape| shape.contains(stop)));
    }
}

#[test]
fn merge_is_the_same_each_time() {
    let shapes = vec![vec![4, 5, 6], vec![1, 5, 9], vec![9, 4]];
    assert_eq!(topo_merge(shapes.clone()), topo_merge(shapes));
}

#[test]
fn find_stop_gives_the_first_place() {
    assert_eq!(find_stop(&vec![5, 6, 5, 7], 5), Some(0));
    assert_eq!(find_stop(&vec![5, 6, 5, 7], 7), Some(3));
    assert_eq!(find_stop(&vec![5, 6, 5, 7], 8), None);
    assert_eq!(find_stop(&Vec::new(), 8), None);
}

#[test]
fn append_stops_adds_at_the_end() {
    let mut stops = vec![1, 2];
    append_stops(&mut stops, &vec![3, 4]);
    assert_eq!(stops, vec![1, 2, 3, 4]);
}

#[test]
fn splice_stops_puts_in_before_the_place() {
    let mut stops = vec![1, 2, 5];
    splice_stops(&mut stops, 2, &vec![3, 4]);
    assert_eq!(stops, vec![1, 2, 3, 4, 5]);
    splice_stops(&mut stops, 0, &vec![0]);
    assert_eq!(stops, vec![0, 1, 2, 3, 4, 5]);
    splice_stops(&mut stops, 6, &vec![6]);
    assert_eq!(stops, vec![0, 1, 2, 3, 4, 5, 6]);
}

#[test]
fn shape_that_is_part_of_another_adds_nothing() {
    assert_eq!(topo_merge(vec![vec![1, 2, 3, 4], vec![2, 4]]), Ok(vec![1, 2, 3, 4]));
    assert_eq!(topo_merge(vec![vec![2, 4], vec![1, 2, 3, 4]]), Ok(vec![1, 2, 3, 4]));
}

#[test]
fn shapes_that_part_and_meet_again_are_interleaved() {
    assert_eq!(
        topo_merge(vec![vec![1, 2, 3, 6], vec![1, 4, 5, 6]]),
        Ok(vec![1, 2, 3, 4, 5, 6])
    );
}

#[test]
fn shape_that_ends_where_another_starts_goes_before_it() {
    assert_eq!(topo_merge(vec![vec![5, 6, 7], vec![1, 2, 5]]), Ok(vec![1, 2, 5, 6, 7]));
}

fn keeps_order(part: &[u32], whole: &[u32]) -> bool {
    let mut rest = whole.iter();
    part.iter().all(|stop| rest.any(|other| other == stop))
}

#[test]
fn first_shape_keeps_its_order() {
    let shapes = vec![vec![4, 5, 6, 7], vec![9, 6, 8, 4], vec![7, 1, 5], vec![2, 4, 3]];
    let merged = topo_merge(shapes.clone()).unwrap();
    assert!(keeps_order(&shapes[0], &merged));
    // 9 goes before 6 and 8 before 4 with the second shape, 1 before 5 with
    // the third, 2 before 4 with the fourth, whose 3 comes last.
    assert_eq!(merged, vec![8, 2, 4, 1, 5, 9, 6, 7, 3]);
}

#[test]
fn stops_once_placed_keep_their_order() {
    let shapes = vec![vec![4, 5, 6, 7], vec![9, 6, 8, 4], vec![7, 1, 5], vec![2, 4, 3]];
    let mut earlier = Vec::new();
    for count in 1..=shapes.len() {
        let merged = topo_merge(shapes[..count].to_vec()).unwrap();
        assert!(keeps_order(&earlier, &merged));
        earlier = merged;
    }
}
