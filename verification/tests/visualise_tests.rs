use fluvial::patronage::{flow_between, sum_up, summarise, tally_of};
use fluvial::visualise::{jumbled, visualise_one, FlowArc, StopTally};
use std::collections::BTreeMap;

fn flows(entries: &[(u32, u32, u32)]) -> BTreeMap<(u32, u32), u32> {
    let mut patronages = BTreeMap::new();
    for (from, to, quantity) in entries {
        patronages.insert((*from, *to), *quantity);
    }
    patronages
}

fn places(len: usize) -> Vec<usize> {
    (0..len).collect()
}

#[test]
fn short_lists_are_not_jumbled() {
    assert_eq!(jumbled(Vec::<u8>::new()), Vec::<u8>::new());
    assert_eq!(jumbled(vec!["only"]), vec!["only"]);
}

#[test]
fn lists_of_four_and_six_take_odd_places_first() {
    assert_eq!(jumbled(places(4)), vec![1, 3, 0, 2]);
    assert_eq!(jumbled(places(6)), vec![1, 3, 5, 0, 2, 4]);
}

#[test]
fn other_lists_step_by_their_stride() {
    assert_eq!(jumbled(places(2)), vec![1, 0]);
    assert_eq!(jumbled(places(3)), vec![1, 0, 2]);
    assert_eq!(jumbled(places(5)), vec![4, 1, 3, 0, 2]);
    assert_eq!(jumbled(places(7)), vec![4, 6, 1, 3, 5, 0, 2]);
    assert_eq!(jumbled(places(10)), vec![9, 2, 5, 8, 1, 4, 7, 0, 3, 6]);
    assert_eq!(
        jumbled(places(15)),
        vec![1, 5, 9, 13, 2, 6, 10, 14, 3, 7, 11, 0, 4, 8, 12]
    );
}

#[test]
fn jumbled_list_holds_the_same_elements() {
    for len in 0..60 {
        let mut out = jumbled(places(len));
        out.sort_unstable();
        assert_eq!(out, places(len));
    }
}

#[test]
fn jumbled_copies_any_cloneable_element() {
    let names: Vec<String> = vec!["a".into(), "b".into(), "c".into(), "d".into()];
    assert_eq!(jumbled(names), vec!["b".to_string(), "d".into(), "a".into(), "c".into()]);
}

#[test]
fn passengers_are_summed_by_origin_and_by_destination() {
    let (boardings, alightings) = sum_up(&flows(&[(1, 2, 5), (1, 3, 7), (2, 3, 1)]));
    let boarded: Vec<(u32, u64)> = boardings.into_iter().collect();
    let alighted: Vec<(u32, u64)> = alightings.into_iter().collect();
    assert_eq!(boarded, vec![(1, 12), (2, 1)]);
    assert_eq!(alighted, vec![(2, 5), (3, 8)]);
}

#[test]
fn sums_do_not_wrap() {
    let (boardings, alightings) =
        sum_up(&flows(&[(1, 2, u32::MAX), (1, 3, u32::MAX), (4, 3, u32::MAX)]));
    assert_eq!(tally_of(&boardings, 1), 2 * (u32::MAX as u64));
    assert_eq!(tally_of(&alightings, 3), 2 * (u32::MAX as u64));
    assert_eq!(tally_of(&alightings, 1), 0);
}

#[test]
fn no_passengers_sum_to_nothing() {
    let (boardings, alightings) = sum_up(&BTreeMap::new());
    assert!(boardings.is_empty());
    assert!(alightings.is_empty());
    assert_eq!(summarise(&boardings), (0, 0));
}

#[test]
fn summary_is_the_greatest_count_and_the_sum() {
    let mut totals = BTreeMap::new();
    totals.insert(1, 12);
    totals.insert(2, 3);
    totals.insert(3, 4);
    assert_eq!(summarise(&totals), (12, 19));
}

#[test]
fn flow_not_counted_is_zero() {
    let patronages = flows(&[(1, 2, 5)]);
    assert_eq!(flow_between(&patronages, 1, 2), 5);
    assert_eq!(flow_between(&patronages, 2, 1), 0);
}

#[test]
fn diagram_of_three_stops() {
    let patronages = flows(&[(1, 2, 5), (1, 3, 7), (2, 3, 1), (3, 1, 4), (2, 9, 2)]);
    let diagram = visualise_one(&patronages, &vec![1, 2, 3]);
    assert_eq!(diagram.wraparound, vec![FlowArc { from_idx: 2, to_idx: 0, quantity: 4 }]);
    assert_eq!(
        diagram.forward,
        vec![
            FlowArc { from_idx: 0, to_idx: 1, quantity: 5 },
            FlowArc { from_idx: 0, to_idx: 2, quantity: 7 },
            FlowArc { from_idx: 1, to_idx: 2, quantity: 1 },
        ]
    );
    assert_eq!(
        diagram.stops,
        vec![
            StopTally { stop: 1, alightings: 4, boardings: 12, load: 12 },
            StopTally { stop: 2, alightings: 5, boardings: 3, load: 10 },
            StopTally { stop: 3, alightings: 8, boardings: 4, load: 6 },
        ]
    );
    assert_eq!(diagram.boarding_max, 12);
    assert_eq!(diagram.alighting_max, 8);
    assert_eq!(diagram.boards_count, 19);
}

#[test]
fn flows_against_the_sequence_are_drawn_shortest_first() {
    let patronages = flows(&[(4, 1, 1), (2, 1, 2), (4, 3, 3), (3, 1, 4), (4, 2, 5)]);
    let diagram = visualise_one(&patronages, &vec![1, 2, 3, 4]);
    assert_eq!(
        diagram.wraparound,
        vec![
            FlowArc { from_idx: 1, to_idx: 0, quantity: 2 },
            FlowArc { from_idx: 3, to_idx: 2, quantity: 3 },
            FlowArc { from_idx: 2, to_idx: 0, quantity: 4 },
            FlowArc { from_idx: 3, to_idx: 1, quantity: 5 },
            FlowArc { from_idx: 3, to_idx: 0, quantity: 1 },
        ]
    );
    assert!(diagram.forward.is_empty());
    let loads: Vec<i128> = diagram.stops.iter().map(|s| s.load).collect();
    // 15 are on board at the start; 7 alight at the first stop, 5 at the
    // second, 3 at the third; 2, 4 and 9 board at the second to fourth.
    assert_eq!(loads, vec![8, 5, 6, 15]);
}

#[test]
fn load_may_fall_below_zero_where_passengers_come_from_outside() {
    let patronages = flows(&[(9, 1, 3)]);
    let diagram = visualise_one(&patronages, &vec![1, 2]);
    assert_eq!(
        diagram.stops,
        vec![
            StopTally { stop: 1, alightings: 3, boardings: 0, load: -3 },
            StopTally { stop: 2, alightings: 0, boardings: 0, load: -3 },
        ]
    );
    assert_eq!(diagram.boarding_max, 3);
    assert_eq!(diagram.boards_count, 3);
}

#[test]
fn diagram_without_stops_is_empty() {
    let diagram = visualise_one(&flows(&[(1, 2, 5)]), &Vec::new());
    assert!(diagram.wraparound.is_empty());
    assert!(diagram.forward.is_empty());
    assert!(diagram.stops.is_empty());
    assert_eq!(diagram.boarding_max, 5);
    assert_eq!(diagram.alighting_max, 5);
    assert_eq!(diagram.boards_count, 5);
}
